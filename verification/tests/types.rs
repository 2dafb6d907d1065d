use aora::types::{U64Be, U64Le};
use aora::errors::{u64_hex, AoraMapError};

#[test]
fn u64le_bytes() {
    assert_eq!(U64Le(1).to_bytes(), vec![1, 0, 0, 0, 0, 0, 0, 0]);
    assert_eq!(
        U64Le(0x0102030405060708).to_bytes(),
        vec![8, 7, 6, 5, 4, 3, 2, 1]
    );
    let back = U64Le::from_bytes(&vec![8, 7, 6, 5, 4, 3, 2, 1]);
    assert_eq!(back, U64Le(0x0102030405060708));
    assert_eq!(U64Le::from_bytes(&U64Le(99).to_bytes()), U64Le(99));
}

#[test]
fn u64be_bytes() {
    assert_eq!(U64Be(1).to_bytes(), vec![0, 0, 0, 0, 0, 0, 0, 1]);
    assert_eq!(
        U64Be(0x0102030405060708).to_bytes(),
        vec![1, 2, 3, 4, 5, 6, 7, 8]
    );
    let back = U64Be::from_bytes(&vec![1, 2, 3, 4, 5, 6, 7, 8]);
    assert_eq!(back, U64Be(0x0102030405060708));
    assert_eq!(U64Be::from_bytes(&U64Be(77).to_bytes()), U64Be(77));
}

#[test]
fn hex_rendering() {
    assert_eq!(u64_hex(0), "0000000000000000");
    assert_eq!(u64_hex(1), "0100000000000000");
    assert_eq!(u64_hex(0xabcd), "cdab000000000000");
    assert_eq!(u64_hex(0xfedcba9876543210), "1032547698badcfe");
}

#[test]
fn construction_error_messages() {
    let e = AoraMapError::Exists { name: "t".to_string(), path: "/p".to_string() };
    assert_eq!(
        e.message(),
        "the table 't' can't be created since it already exists at '/p'"
    );
    let e = AoraMapError::PartiallyExists { name: "t".to_string(), path: "/p".to_string() };
    assert_eq!(
        e.message(),
        "the table 't' at '/p' exists, but some files are missing; a manual fix is required"
    );
    let e = AoraMapError::NotExists { name: "t".to_string(), path: "/p".to_string() };
    assert_eq!(e.message(), "the table 't' does not exist at '/p'");
    let e = AoraMapError::Corrupted { name: "t".to_string(), path: "/p".to_string() };
    assert_eq!(e.message(), "the file of table 't' at '/p' is corrupted");
}
