//! Byte-level building blocks of the container formats: the fixed file
//! header (an 8-byte format tag plus a 2-byte version, both big-endian) and
//! little-endian integer fields.

use vstd::prelude::*;
use vstd::bytes::{
    spec_u16_to_le_bytes, spec_u32_from_le_bytes, spec_u32_to_le_bytes, spec_u64_from_le_bytes,
    spec_u64_to_le_bytes, u32_from_le_bytes, u32_to_le_bytes, u64_from_le_bytes, u64_to_le_bytes,
    u16_to_le_bytes, lemma_auto_spec_u64_to_from_le_bytes, lemma_auto_spec_u32_to_from_le_bytes,
};
use vstd::slice::slice_subrange;

verus! {

/// Length in bytes of a container header: 8 bytes of format tag followed by
/// 2 bytes of version.
pub const HEADER_LEN: usize = 10;

/// The format tag as it appears on disk: big-endian.
pub open spec fn spec_u64_to_be_bytes(x: u64) -> Seq<u8> {
    spec_u64_to_le_bytes(x).reverse()
}

/// The version as it appears on disk: big-endian.
pub open spec fn spec_u16_to_be_bytes(x: u16) -> Seq<u8> {
    spec_u16_to_le_bytes(x).reverse()
}

/// The ten header bytes of a container file with the given tag and version.
pub open spec fn spec_header(magic: u64, version: u16) -> Seq<u8> {
    spec_u64_to_be_bytes(magic) + spec_u16_to_be_bytes(version)
}

pub proof fn lemma_header_len(magic: u64, version: u16)
    ensures
        spec_header(magic, version).len() == HEADER_LEN,
{
    lemma_auto_spec_u64_to_from_le_bytes();
    vstd::bytes::lemma_auto_spec_u16_to_from_le_bytes();
}

/// Appends the little-endian encoding of `x` to `out`.
pub fn push_u64_le(out: &mut Vec<u8>, x: u64)
    ensures
        final(out)@ == old(out)@ + spec_u64_to_le_bytes(x),
        final(out)@.len() == old(out)@.len() + 8,
{
    proof {
        lemma_auto_spec_u64_to_from_le_bytes();
    }
    let mut bytes = u64_to_le_bytes(x);
    out.append(&mut bytes);
}

/// Appends the little-endian encoding of `x` to `out`.
pub fn push_u32_le(out: &mut Vec<u8>, x: u32)
    ensures
        final(out)@ == old(out)@ + spec_u32_to_le_bytes(x),
        final(out)@.len() == old(out)@.len() + 4,
{
    proof {
        lemma_auto_spec_u32_to_from_le_bytes();
    }
    let mut bytes = u32_to_le_bytes(x);
    out.append(&mut bytes);
}

/// Appends the big-endian encoding of `x` to `out`.
pub fn push_u64_be(out: &mut Vec<u8>, x: u64)
    ensures
        final(out)@ == old(out)@ + spec_u64_to_be_bytes(x),
        final(out)@.len() == old(out)@.len() + 8,
{
    proof {
        lemma_auto_spec_u64_to_from_le_bytes();
    }
    let bytes = u64_to_le_bytes(x);
    let ghost prefix = out@;
    let ghost rev = spec_u64_to_le_bytes(x).reverse();
    let mut i: usize = 0;
    while i < 8
        invariant
            bytes@ == spec_u64_to_le_bytes(x),
            bytes@.len() == 8,
            rev == spec_u64_to_le_bytes(x).reverse(),
            i <= 8,
            out@ == prefix + rev.take(i as int),
        decreases 8 - i,
    {
        out.push(bytes[8 - 1 - i]);
        proof {
            assert(out@ =~= prefix + rev.take(i + 1));
        }
        i += 1;
    }
    proof {
        assert(out@ =~= prefix + rev);
    }
}

/// Appends the big-endian encoding of `x` to `out`.
pub fn push_u16_be(out: &mut Vec<u8>, x: u16)
    ensures
        final(out)@ == old(out)@ + spec_u16_to_be_bytes(x),
        final(out)@.len() == old(out)@.len() + 2,
{
    proof {
        vstd::bytes::lemma_auto_spec_u16_to_from_le_bytes();
    }
    let bytes = u16_to_le_bytes(x);
    let ghost prefix = out@;
    let ghost rev = spec_u16_to_le_bytes(x).reverse();
    let mut i: usize = 0;
    while i < 2
        invariant
            bytes@ == spec_u16_to_le_bytes(x),
            bytes@.len() == 2,
            rev == spec_u16_to_le_bytes(x).reverse(),
            i <= 2,
            out@ == prefix + rev.take(i as int),
        decreases 2 - i,
    {
        out.push(bytes[2 - 1 - i]);
        proof {
            assert(out@ =~= prefix + rev.take(i + 1));
        }
        i += 1;
    }
    proof {
        assert(out@ =~= prefix + rev);
    }
}

/// Builds the ten header bytes for the given tag and version.
pub fn header_bytes(magic: u64, version: u16) -> (r: Vec<u8>)
    ensures
        r@ == spec_header(magic, version),
        r@.len() == HEADER_LEN,
{
    let mut out: Vec<u8> = Vec::new();
    push_u64_be(&mut out, magic);
    push_u16_be(&mut out, version);
    proof {
        assert(out@ =~= spec_header(magic, version));
        lemma_header_len(magic, version);
    }
    out
}

/// True iff `bytes` starts with the header for the given tag and version.
pub fn has_header(bytes: &Vec<u8>, magic: u64, version: u16) -> (r: bool)
    requires
        bytes@.len() >= HEADER_LEN,
    ensures
        r == (bytes@.take(HEADER_LEN as int) == spec_header(magic, version)),
{
    let expected = header_bytes(magic, version);
    let mut i: usize = 0;
    while i < HEADER_LEN
        invariant
            bytes@.len() >= HEADER_LEN,
            expected@ == spec_header(magic, version),
            expected@.len() == HEADER_LEN,
            i <= HEADER_LEN,
            forall|j: int| 0 <= j < i ==> bytes@[j] == expected@[j],
        decreases HEADER_LEN - i,
    {
        if bytes[i] != expected[i] {
            proof {
                assert(bytes@.take(HEADER_LEN as int)[i as int] != expected@[i as int]);
            }
            return false;
        }
        i += 1;
    }
    proof {
        assert(bytes@.take(HEADER_LEN as int) =~= expected@);
    }
    true
}

/// Reads the little-endian 64-bit field at byte offset `pos`.
pub fn read_u64_le(bytes: &Vec<u8>, pos: usize) -> (r: u64)
    requires
        pos + 8 <= bytes@.len(),
    ensures
        r == spec_u64_from_le_bytes(bytes@.subrange(pos as int, pos + 8)),
{
    let n = bytes.len();
    proof {
        // the exec length bounds pos + 8 within usize
        assert(pos + 8 <= n);
    }
    u64_from_le_bytes(slice_subrange(bytes.as_slice(), pos, pos + 8))
}

/// Reads the little-endian 32-bit field at byte offset `pos`.
pub fn read_u32_le(bytes: &Vec<u8>, pos: usize) -> (r: u32)
    requires
        pos + 4 <= bytes@.len(),
    ensures
        r == spec_u32_from_le_bytes(bytes@.subrange(pos as int, pos + 4)),
{
    let n = bytes.len();
    proof {
        // the exec length bounds pos + 4 within usize
        assert(pos + 4 <= n);
    }
    u32_from_le_bytes(slice_subrange(bytes.as_slice(), pos, pos + 4))
}

/// True iff the two byte strings are equal.
pub fn bytes_eq(a: &Vec<u8>, b: &Vec<u8>) -> (r: bool)
    ensures
        r == (a@ == b@),
{
    if a.len() != b.len() {
        return false;
    }
    let mut i: usize = 0;
    while i < a.len()
        invariant
            a@.len() == b@.len(),
            i <= a@.len(),
            forall|j: int| 0 <= j < i ==> a@[j] == b@[j],
        decreases a@.len() - i,
    {
        if a[i] != b[i] {
            return false;
        }
        i += 1;
    }
    proof {
        assert(a@ =~= b@);
    }
    true
}

/// The byte image of a sequence of 16-byte records: an 8-byte little-endian
/// first field then an 8-byte little-endian second field, record by record.
/// Both the transactional log's pages and the append-only index file are
/// laid out this way.
pub open spec fn entries_bytes(entries: Seq<(u64, u64)>) -> Seq<u8>
    decreases entries.len(),
{
    if entries.len() == 0 {
        Seq::empty()
    } else {
        spec_u64_to_le_bytes(entries[0].0) + spec_u64_to_le_bytes(entries[0].1) + entries_bytes(
            entries.drop_first(),
        )
    }
}

pub proof fn lemma_entries_bytes_len(entries: Seq<(u64, u64)>)
    ensures
        entries_bytes(entries).len() == 16 * entries.len(),
    decreases entries.len(),
{
    lemma_auto_spec_u64_to_from_le_bytes();
    if entries.len() > 0 {
        lemma_entries_bytes_len(entries.drop_first());
    }
}

pub proof fn lemma_entries_bytes_index(entries: Seq<(u64, u64)>, i: int)
    requires
        0 <= i < entries.len(),
    ensures
        entries_bytes(entries).subrange(16 * i, 16 * i + 8) == spec_u64_to_le_bytes(
            entries[i].0,
        ),
        entries_bytes(entries).subrange(16 * i + 8, 16 * i + 16) == spec_u64_to_le_bytes(
            entries[i].1,
        ),
    decreases i,
{
    lemma_auto_spec_u64_to_from_le_bytes();
    lemma_entries_bytes_len(entries);
    lemma_entries_bytes_len(entries.drop_first());
    if i == 0 {
        assert(entries_bytes(entries).subrange(0, 8) =~= spec_u64_to_le_bytes(entries[0].0));
        assert(entries_bytes(entries).subrange(8, 16) =~= spec_u64_to_le_bytes(entries[0].1));
    } else {
        lemma_entries_bytes_index(entries.drop_first(), i - 1);
        assert(entries.drop_first()[i - 1] == entries[i]);
        assert(entries_bytes(entries).subrange(16 * i, 16 * i + 8) =~= entries_bytes(
            entries.drop_first(),
        ).subrange(16 * (i - 1), 16 * (i - 1) + 8));
        assert(entries_bytes(entries).subrange(16 * i + 8, 16 * i + 16) =~= entries_bytes(
            entries.drop_first(),
        ).subrange(16 * (i - 1) + 8, 16 * (i - 1) + 16));
    }
}

pub proof fn lemma_entries_bytes_concat(a: Seq<(u64, u64)>, b: Seq<(u64, u64)>)
    ensures
        entries_bytes(a + b) == entries_bytes(a) + entries_bytes(b),
    decreases a.len(),
{
    if a.len() == 0 {
        assert(a + b =~= b);
        assert(entries_bytes(a) + entries_bytes(b) =~= entries_bytes(b));
    } else {
        assert((a + b)[0] == a[0]);
        assert((a + b).drop_first() =~= a.drop_first() + b);
        lemma_entries_bytes_concat(a.drop_first(), b);
        assert(spec_u64_to_le_bytes(a[0].0) + spec_u64_to_le_bytes(a[0].1) + (entries_bytes(
            a.drop_first(),
        ) + entries_bytes(b)) =~= (spec_u64_to_le_bytes(a[0].0) + spec_u64_to_le_bytes(a[0].1)
            + entries_bytes(a.drop_first())) + entries_bytes(b));
    }
}

/// One entry of the pair region at index `i`: a key then a value, read
/// little-endian.
pub open spec fn parse_entries(bytes: Seq<u8>, n: nat) -> Seq<(u64, u64)> {
    Seq::new(
        n,
        |i: int|
            (
                spec_u64_from_le_bytes(bytes.subrange(16 * i, 16 * i + 8)),
                spec_u64_from_le_bytes(bytes.subrange(16 * i + 8, 16 * i + 16)),
            ),
    )
}

pub proof fn lemma_parse_entries_of_bytes(entries: Seq<(u64, u64)>, tail: Seq<u8>)
    ensures
        parse_entries(entries_bytes(entries) + tail, entries.len()) == entries,
{
    lemma_auto_spec_u64_to_from_le_bytes();
    lemma_entries_bytes_len(entries);
    let b = entries_bytes(entries) + tail;
    let parsed = parse_entries(b, entries.len());
    assert forall|i: int| 0 <= i < entries.len() implies parsed[i] == entries[i] by {
        lemma_entries_bytes_index(entries, i);
        assert(b.subrange(16 * i, 16 * i + 8) =~= entries_bytes(entries).subrange(
            16 * i,
            16 * i + 8,
        ));
        assert(b.subrange(16 * i + 8, 16 * i + 16) =~= entries_bytes(entries).subrange(
            16 * i + 8,
            16 * i + 16,
        ));
        assert(parsed[i].0 == entries[i].0);
        assert(parsed[i].1 == entries[i].1);
    }
    assert(parsed =~= entries);
}

} // verus!
