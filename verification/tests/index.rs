use std::collections::HashSet;

use aora::index::FileAoraIndex;

const MAGIC: u64 = u64::from_be_bytes(*b"AORAINDX");

fn new_index(name: &str) -> FileAoraIndex {
    FileAoraIndex::create_new(MAGIC, 1, name.to_string(), format!("/tmp/{name}.dat"))
}

#[test]
fn push_and_get() {
    let mut idx = new_index("push_and_get");
    assert_eq!(idx.keys().len(), 0);
    assert!(!idx.contains_key(1));
    assert_eq!(idx.value_len(1), 0);
    assert_eq!(idx.get(1), Vec::<u64>::new());

    idx.push(1, 10);
    idx.push(1, 20);
    idx.push(2, 30);

    assert!(idx.contains_key(1));
    assert_eq!(idx.value_len(1), 2);
    assert_eq!(idx.value_len(2), 1);
    let got: HashSet<u64> = idx.get(1).into_iter().collect();
    assert_eq!(got, HashSet::from([10, 20]));
    assert_eq!(idx.get(2), vec![30]);
    let keys: HashSet<u64> = idx.keys().into_iter().collect();
    assert_eq!(keys, HashSet::from([1, 2]));
}

#[test]
fn push_existing_value_is_noop() {
    let mut idx = new_index("noop_push");
    idx.push(1, 10);
    idx.push(1, 10);
    assert_eq!(idx.value_len(1), 1);
    assert_eq!(idx.get(1), vec![10]);
    let before = idx.save();
    idx.push(1, 10);
    assert_eq!(idx.save(), before);
}

#[test]
fn values_never_shrink() {
    let mut idx = new_index("additive");
    for v in 0..8u64 {
        idx.push(3, v);
    }
    idx.push(3, 4);
    assert_eq!(idx.value_len(3), 8);
    let got: HashSet<u64> = idx.get(3).into_iter().collect();
    assert_eq!(got, (0..8).collect::<HashSet<u64>>());
}

#[test]
fn save_open_round_trip() {
    let mut idx = new_index("durable_index");
    idx.push(1, 10);
    idx.push(1, 20);
    idx.push(2, 30);

    let again = FileAoraIndex::open(
        idx.save(),
        MAGIC,
        1,
        "durable_index".to_string(),
        "/tmp/durable_index.dat".to_string(),
    )
    .unwrap();
    assert_eq!(again.get(1), idx.get(1));
    assert_eq!(again.get(2), idx.get(2));
    assert_eq!(again.keys(), idx.keys());
    assert_eq!(again.save(), idx.save());
}

#[test]
fn empty_index_image_is_bare_header() {
    let idx = new_index("bare");
    assert_eq!(idx.save(), b"AORAINDX\0\x01".to_vec());
}

#[test]
fn index_truncation_is_detected() {
    let mut idx = new_index("cut");
    idx.push(1, 10);
    idx.push(1, 20);
    let image = idx.save();
    // The single record is self-counted: removing any trailing bytes of it
    // must be reported as corruption.
    for cut in 1..image.len() - 10 {
        let shorter = image[..image.len() - cut].to_vec();
        let res = FileAoraIndex::open(
            shorter,
            MAGIC,
            1,
            "cut".to_string(),
            "/tmp/cut.dat".to_string(),
        );
        assert!(res.is_err(), "truncation by {cut} bytes went unnoticed");
    }
}

#[test]
fn duplicate_values_in_file_are_rejected() {
    let mut idx = new_index("dup_vals");
    idx.push(1, 10);
    idx.push(1, 20);
    let mut image = idx.save();
    // Overwrite the second value with a copy of the first
    let n = image.len();
    image.copy_within(n - 16..n - 8, n - 8);
    let res = FileAoraIndex::open(
        image,
        MAGIC,
        1,
        "dup_vals".to_string(),
        "/tmp/dup_vals.dat".to_string(),
    );
    assert!(res.is_err());
}

#[test]
fn index_image_layout_is_exact() {
    let mut idx = new_index("layout");
    idx.push(1, 10);
    idx.push(1, 20);
    let expected = [
        b"AORAINDX\0\x01".as_slice(),
        &1u64.to_le_bytes(),  // key
        &2u32.to_le_bytes(),  // value count
        &10u64.to_le_bytes(), // first value
        &20u64.to_le_bytes(), // second value
    ]
    .concat();
    assert_eq!(idx.save(), expected);
}
