//! The two tiers of errors: recoverable construction/open errors, returned
//! to the caller with the table's logical name and resolved path; and fatal
//! consistency violations, which the embedding program is expected to treat
//! as unrecoverable. Keys and values in diagnostics are rendered as
//! lowercase hex of their little-endian bytes.

use vstd::prelude::*;
use amplify::hex::ToHex;
use vstd::string::StringExecFns;

verus! {

/// Recoverable construction and open errors of a file-backed table.
#[derive(Debug)]
pub enum AoraMapError {
    /// The table can not be created because its files already exist.
    Exists { name: String, path: String },
    /// Some but not all of the table's files exist; manual intervention is
    /// needed.
    PartiallyExists { name: String, path: String },
    /// The table can not be opened because its files do not exist.
    NotExists { name: String, path: String },
    /// Replaying the file did not consume it exactly, or its contents break
    /// the format's invariants: the file is truncated or corrupted.
    Corrupted { name: String, path: String },
}

/// Fatal consistency violations: programming errors or corruption beyond the
/// component's contract to repair.
#[derive(Debug)]
pub enum Violation {
    /// An insert-only write found the key already bound to a different value.
    KeyConflict { table: String, key: u64, old_value: u64, new_value: u64 },
    /// An append-only insert found the key already bound to a different blob.
    BlobConflict { table: String, key: u64 },
    /// An update-only write or an expecting read named a key that is not
    /// present.
    UnknownKey { table: String, key: u64 },
    /// A transaction number that no committed page carries.
    UnknownTransaction { table: String, txno: u64 },
    /// The log was closed while a transaction was still pending.
    UncommittedPending { table: String },
}

/// The descriptive text of a construction or open error, over the logical
/// name and resolved path it carries.
pub open spec fn spec_construction_message(e: AoraMapError) -> Seq<char> {
    match e {
        AoraMapError::Exists { name, path } => "the table '"@ + name@
            + "' can't be created since it already exists at '"@ + path@ + "'"@,
        AoraMapError::PartiallyExists { name, path } => "the table '"@ + name@ + "' at '"@ + path@
            + "' exists, but some files are missing; a manual fix is required"@,
        AoraMapError::NotExists { name, path } => "the table '"@ + name@ + "' does not exist at '"@
            + path@ + "'"@,
        AoraMapError::Corrupted { name, path } => "the file of table '"@ + name@ + "' at '"@
            + path@ + "' is corrupted"@,
    }
}

impl AoraMapError {
    /// The structured diagnostic: logical name and resolved path.
    pub fn message(&self) -> (r: String)
        ensures
            r@ == spec_construction_message(*self),
    {
        let (head, name, mid, path, tail) = match self {
            AoraMapError::Exists { name, path } => (
                "the table '",
                name,
                "' can't be created since it already exists at '",
                path,
                "'",
            ),
            AoraMapError::PartiallyExists { name, path } => (
                "the table '",
                name,
                "' at '",
                path,
                "' exists, but some files are missing; a manual fix is required",
            ),
            AoraMapError::NotExists { name, path } => (
                "the table '",
                name,
                "' does not exist at '",
                path,
                "'",
            ),
            AoraMapError::Corrupted { name, path } => (
                "the file of table '",
                name,
                "' at '",
                path,
                "' is corrupted",
            ),
        };
        let mut m = String::from_str(head);
        m.append(name.as_str());
        m.append(mid);
        m.append(path.as_str());
        m.append(tail);
        proof {
            assert(m@ =~= spec_construction_message(*self));
        }
        m
    }
}

/// The descriptive text of a fatal violation: the offending key, value or
/// transaction number rendered as lowercase hex of its little-endian bytes.
pub open spec fn spec_violation_message(e: Violation) -> Seq<char> {
    match e {
        Violation::KeyConflict { table, key, old_value, new_value } => "failed to insert-only key "@
            + hex_of(vstd::bytes::spec_u64_to_le_bytes(key))
            + " which is already present in the table '"@ + table@ + "' (old value="@ + hex_of(
            vstd::bytes::spec_u64_to_le_bytes(old_value),
        ) + ", attempted new value="@ + hex_of(vstd::bytes::spec_u64_to_le_bytes(new_value))
            + ")"@,
        Violation::BlobConflict { table, key } => "the item under key "@ + hex_of(
            vstd::bytes::spec_u64_to_le_bytes(key),
        ) + " is different from another item under the same key already present in the table '"@
            + table@ + "'"@,
        Violation::UnknownKey { table, key } => "failed to update non-existing key "@ + hex_of(
            vstd::bytes::spec_u64_to_le_bytes(key),
        ) + " in the table '"@ + table@ + "'"@,
        Violation::UnknownTransaction { table, txno } => "unknown transaction number "@ + hex_of(
            vstd::bytes::spec_u64_to_le_bytes(txno),
        ) + " in the table '"@ + table@ + "'"@,
        Violation::UncommittedPending { table } => "the latest transaction in the table '"@
            + table@ + "' must be committed before closing"@,
    }
}

impl Violation {
    /// The forensic diagnostic: table, offending key and values, hex
    /// rendered.
    pub fn message(&self) -> (r: String)
        ensures
            r@ == spec_violation_message(*self),
    {
        match self {
            Violation::KeyConflict { table, key, old_value, new_value } => {
                let mut m = String::from_str("failed to insert-only key ");
                m.append(u64_hex(*key).as_str());
                m.append(" which is already present in the table '");
                m.append(table.as_str());
                m.append("' (old value=");
                m.append(u64_hex(*old_value).as_str());
                m.append(", attempted new value=");
                m.append(u64_hex(*new_value).as_str());
                m.append(")");
                proof {
                    assert(m@ =~= spec_violation_message(*self));
                }
                m
            },
            Violation::BlobConflict { table, key } => {
                let mut m = String::from_str("the item under key ");
                m.append(u64_hex(*key).as_str());
                m.append(
                    " is different from another item under the same key already present in the table '",
                );
                m.append(table.as_str());
                m.append("'");
                proof {
                    assert(m@ =~= spec_violation_message(*self));
                }
                m
            },
            Violation::UnknownKey { table, key } => {
                let mut m = String::from_str("failed to update non-existing key ");
                m.append(u64_hex(*key).as_str());
                m.append(" in the table '");
                m.append(table.as_str());
                m.append("'");
                proof {
                    assert(m@ =~= spec_violation_message(*self));
                }
                m
            },
            Violation::UnknownTransaction { table, txno } => {
                let mut m = String::from_str("unknown transaction number ");
                m.append(u64_hex(*txno).as_str());
                m.append(" in the table '");
                m.append(table.as_str());
                m.append("'");
                proof {
                    assert(m@ =~= spec_violation_message(*self));
                }
                m
            },
            Violation::UncommittedPending { table } => {
                let mut m = String::from_str("the latest transaction in the table '");
                m.append(table.as_str());
                m.append("' must be committed before closing");
                proof {
                    assert(m@ =~= spec_violation_message(*self));
                }
                m
            },
        }
    }
}

/// One lowercase hex digit.
pub open spec fn hex_digit(n: u8) -> char {
    if n < 10 {
        ((48 + n) as u8) as char
    } else {
        ((87 + n) as u8) as char
    }
}

/// The lowercase hex rendering of a byte string: two digits per byte, high
/// digit first.
pub open spec fn hex_of(s: Seq<u8>) -> Seq<char> {
    Seq::new(
        2 * s.len(),
        |i: int|
            if i % 2 == 0 {
                hex_digit((s[i / 2] / 16) as u8)
            } else {
                hex_digit((s[i / 2] % 16) as u8)
            },
    )
}

/// Relies on `amplify::hex::ToHex` for byte slices: two lowercase hex digits
/// per byte, in byte order.
#[verifier::external_body]
pub(crate) fn bytes_to_hex(b: &Vec<u8>) -> (r: String)
    ensures
        r@ == hex_of(b@),
{
    b.as_slice().to_hex()
}

/// The hex rendering of a key or value as its little-endian bytes.
pub fn u64_hex(x: u64) -> (r: String)
    ensures
        r@ == hex_of(vstd::bytes::spec_u64_to_le_bytes(x)),
{
    let mut bytes: Vec<u8> = Vec::new();
    crate::codec::push_u64_le(&mut bytes, x);
    proof {
        assert(bytes@ =~= vstd::bytes::spec_u64_to_le_bytes(x));
    }
    bytes_to_hex(&bytes)
}

} // verus!
