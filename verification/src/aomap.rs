//! The append-only immutable key/value log. A key is bound once to an
//! opaque, variable-length blob; re-inserting the same blob is a no-op and
//! re-inserting a different blob under a known key is a fatal conflict.
//!
//! On disk the log is a pair of container files. The data file is the ten
//! header bytes followed by the blobs back to back, in insertion order. The
//! index file is the ten header bytes followed by one 16-byte record per
//! key: the 8-byte little-endian key, then the 8-byte little-endian byte
//! offset within the data file's payload at which its blob ends. A blob
//! starts where the one before it ends; the first starts at zero; the
//! newest must end exactly at the end of the data file, so a data file cut
//! short, or left with trailing bytes by a write that never reached the
//! index, is caught on replay.

use vstd::prelude::*;
use indexmap::IndexMap;
use std::collections::hash_map::RandomState;
use crate::assoc::{
    assoc_contains, assoc_lookup, distinct_keys, lemma_assoc_lookup_at,
    lemma_assoc_lookup_contains, lemma_assoc_lookup_none, pairs_distinct_keys,
};
use crate::codec::{
    bytes_eq, entries_bytes, has_header, header_bytes, lemma_entries_bytes_concat,
    lemma_header_len, parse_entries, push_u64_le, read_u64_le, spec_header, HEADER_LEN,
};
use crate::errors::{AoraMapError, Violation};
use crate::ordmap::{imap_entries_vec, imap_get, imap_insert, imap_new, map_entries};
use vstd::bytes::spec_u64_to_le_bytes;
use vstd::slice::slice_to_vec;

verus! {

/// Where the blob recorded at index position `i` starts within the payload:
/// at the previous record's end; the first blob starts at zero.
pub open spec fn blob_start(entries: Seq<(u64, u64)>, i: int) -> int {
    if i == 0 {
        0
    } else {
        entries[i - 1].1 as int
    }
}

/// The key/blob pairs described by index records over a payload.
pub open spec fn contents_of(entries: Seq<(u64, u64)>, payload: Seq<u8>) -> Seq<(u64, Seq<u8>)> {
    Seq::new(
        entries.len(),
        |i: int| (entries[i].0, payload.subrange(blob_start(entries, i), entries[i].1 as int)),
    )
}

/// True iff the index records tile a payload of length `plen` exactly: the
/// recorded blob ends never decrease, none points past the end, and the
/// newest end is exactly the end of the payload.
pub open spec fn offsets_wf(entries: Seq<(u64, u64)>, plen: int) -> bool {
    &&& (entries.len() == 0 ==> plen == 0)
    &&& (entries.len() > 0 ==> entries[entries.len() - 1].1 == plen)
    &&& (forall|i: int| 0 <= i < entries.len() ==> (#[trigger] entries[i]).1 <= plen)
    &&& (forall|i: int|
        0 <= i && i + 1 < entries.len() ==> (#[trigger] entries[i]).1 <= entries[i + 1].1)
}

/// The outcome of an append-only insert: the new contents, and the key of a
/// fatal conflict if the key was already bound to a different blob.
pub open spec fn ao_insert(m: Seq<(u64, Seq<u8>)>, key: u64, blob: Seq<u8>) -> (
    Seq<(u64, Seq<u8>)>,
    bool,
) {
    match assoc_lookup(m, key) {
        Some(b) => if b == blob {
            (m, true)
        } else {
            (m, false)
        },
        None => (m.push((key, blob)), true),
    }
}

/// The outcome of inserting the pairs in order: inserts before the first
/// conflict are kept, and the conflicting key is reported.
pub open spec fn ao_extend(m: Seq<(u64, Seq<u8>)>, pairs: Seq<(u64, Seq<u8>)>) -> (
    Seq<(u64, Seq<u8>)>,
    Option<u64>,
)
    decreases pairs.len(),
{
    if pairs.len() == 0 {
        (m, None)
    } else {
        let (m2, ok) = ao_insert(m, pairs[0].0, pairs[0].1);
        if ok {
            ao_extend(m2, pairs.drop_first())
        } else {
            (m2, Some(pairs[0].0))
        }
    }
}

/// The pairs of a vector of owned blobs, as mathematical values.
pub open spec fn pairs_view(s: Seq<(u64, Vec<u8>)>) -> Seq<(u64, Seq<u8>)> {
    s.map_values(|p: (u64, Vec<u8>)| (p.0, p.1@))
}

/// After a successful insert the key reads back exactly the inserted blob.
pub proof fn lemma_ao_insert_get(m: Seq<(u64, Seq<u8>)>, key: u64, blob: Seq<u8>)
    requires
        ao_insert(m, key, blob).1,
    ensures
        assoc_lookup(ao_insert(m, key, blob).0, key) == Some(blob),
{
    if assoc_lookup(m, key) is None {
        lemma_assoc_lookup_contains(m, key);
        crate::assoc::lemma_assoc_update_absent(m, key, blob);
        crate::assoc::lemma_assoc_update_lookup_same(m, key, blob);
    }
}

/// Inserting the same key and blob twice is a no-op the second time: the
/// contents stay as they were and no conflict is reported.
pub proof fn lemma_ao_insert_idempotent(m: Seq<(u64, Seq<u8>)>, key: u64, blob: Seq<u8>)
    requires
        ao_insert(m, key, blob).1,
    ensures
        ao_insert(ao_insert(m, key, blob).0, key, blob) == (ao_insert(m, key, blob).0, true),
{
    lemma_ao_insert_get(m, key, blob);
}

/// Inserting a different blob under a key that is already bound is a fatal
/// conflict and changes nothing.
pub proof fn lemma_ao_insert_conflict(m: Seq<(u64, Seq<u8>)>, key: u64, b1: Seq<u8>, b2: Seq<u8>)
    requires
        assoc_lookup(m, key) == Some(b1),
        b1 != b2,
    ensures
        ao_insert(m, key, b2) == (m, false),
{
}

/// The two images of an append-only log parse back to exactly the contents
/// they were written from: nothing is lost and nothing is invented.
pub proof fn lemma_aora_images_round_trip(
    magic: u64,
    version: u16,
    entries: Seq<(u64, u64)>,
    payload: Seq<u8>,
)
    requires
        distinct_keys(entries),
        offsets_wf(entries, payload.len() as int),
    ensures
        parse_aora(
            spec_header(magic, version) + payload,
            spec_header(magic, version) + entries_bytes(entries),
            magic,
            version,
        ) == Some(contents_of(entries, payload)),
{
    lemma_header_len(magic, version);
    crate::codec::lemma_entries_bytes_len(entries);
    let log_bytes = spec_header(magic, version) + payload;
    let idx_bytes = spec_header(magic, version) + entries_bytes(entries);
    assert(log_bytes.take(HEADER_LEN as int) =~= spec_header(magic, version));
    assert(idx_bytes.take(HEADER_LEN as int) =~= spec_header(magic, version));
    assert(log_bytes.skip(HEADER_LEN as int) =~= payload);
    assert(idx_bytes.skip(HEADER_LEN as int) =~= entries_bytes(entries));
    assert(idx_bytes.len() - HEADER_LEN == entries.len() * 16);
    assert((idx_bytes.len() - HEADER_LEN) % 16 == 0) by {
        vstd::arithmetic::div_mod::lemma_mod_multiples_basic(entries.len() as int, 16);
    }
    assert((idx_bytes.len() - HEADER_LEN) / 16 == entries.len()) by {
        vstd::arithmetic::div_mod::lemma_div_multiples_vanish(entries.len() as int, 16);
        assert(16 * (entries.len() as int) == (entries.len() as int) * 16);
    }
    crate::codec::lemma_parse_entries_of_bytes(entries, Seq::empty());
    assert(entries_bytes(entries) + Seq::<u8>::empty() =~= entries_bytes(entries));
}

/// Replaying an index against a data file whose payload does not end
/// exactly where the newest record says is reported as corruption. This
/// catches a data file truncated by any number of bytes, and a write that
/// reached the data file but crashed before reaching the index and left
/// trailing bytes no record accounts for.
pub proof fn lemma_data_misalignment_detected(
    magic: u64,
    version: u16,
    entries: Seq<(u64, u64)>,
    payload: Seq<u8>,
)
    requires
        entries.len() == 0 ==> payload.len() != 0,
        entries.len() > 0 ==> payload.len() != entries[entries.len() - 1].1,
    ensures
        parse_aora(
            spec_header(magic, version) + payload,
            spec_header(magic, version) + entries_bytes(entries),
            magic,
            version,
        ) is None,
{
    lemma_header_len(magic, version);
    crate::codec::lemma_entries_bytes_len(entries);
    let log_bytes = spec_header(magic, version) + payload;
    let idx_bytes = spec_header(magic, version) + entries_bytes(entries);
    assert(log_bytes.take(HEADER_LEN as int) =~= spec_header(magic, version));
    assert(idx_bytes.take(HEADER_LEN as int) =~= spec_header(magic, version));
    assert(log_bytes.skip(HEADER_LEN as int) =~= payload);
    assert(idx_bytes.skip(HEADER_LEN as int) =~= entries_bytes(entries));
    assert(idx_bytes.len() - HEADER_LEN == entries.len() * 16);
    assert((idx_bytes.len() - HEADER_LEN) % 16 == 0) by {
        vstd::arithmetic::div_mod::lemma_mod_multiples_basic(entries.len() as int, 16);
    }
    assert((idx_bytes.len() - HEADER_LEN) / 16 == entries.len()) by {
        vstd::arithmetic::div_mod::lemma_div_multiples_vanish(entries.len() as int, 16);
        assert(16 * (entries.len() as int) == (entries.len() as int) * 16);
    }
    crate::codec::lemma_parse_entries_of_bytes(entries, Seq::empty());
    assert(entries_bytes(entries) + Seq::<u8>::empty() =~= entries_bytes(entries));
    assert(!offsets_wf(entries, payload.len() as int));
}

/// Truncating the index file down to its first `j` whole records is caught
/// whenever any of the dropped blobs was non-empty: the newest kept record
/// then ends short of the data payload.
pub proof fn lemma_index_truncation_detected(
    magic: u64,
    version: u16,
    entries: Seq<(u64, u64)>,
    payload: Seq<u8>,
    j: int,
)
    requires
        offsets_wf(entries, payload.len() as int),
        0 <= j < entries.len(),
        j == 0 ==> payload.len() != 0,
        j > 0 ==> entries[j - 1].1 < payload.len(),
    ensures
        parse_aora(
            spec_header(magic, version) + payload,
            (spec_header(magic, version) + entries_bytes(entries)).take(HEADER_LEN + 16 * j),
            magic,
            version,
        ) is None,
{
    lemma_header_len(magic, version);
    crate::codec::lemma_entries_bytes_len(entries);
    crate::codec::lemma_entries_bytes_len(entries.take(j));
    assert(entries =~= entries.take(j) + entries.skip(j));
    lemma_entries_bytes_concat(entries.take(j), entries.skip(j));
    assert((spec_header(magic, version) + entries_bytes(entries)).take(HEADER_LEN + 16 * j)
        =~= spec_header(magic, version) + entries_bytes(entries.take(j)));
    lemma_data_misalignment_detected(magic, version, entries.take(j), payload);
}

/// The append-only immutable key/value log.
pub struct FileAoraMap {
    magic: u64,
    version: u16,
    name: String,
    path: String,
    log: Vec<u8>,
    index: IndexMap<u64, u64, RandomState>,
}

impl FileAoraMap {
    /// The index records: each key with the payload offset of its blob, in
    /// insertion order.
    pub closed spec fn entries(self) -> Seq<(u64, u64)> {
        map_entries(self.index)
    }

    /// The data file's payload: everything after the header.
    pub closed spec fn payload(self) -> Seq<u8> {
        self.log@.skip(HEADER_LEN as int)
    }

    /// The key/blob pairs the log holds, in insertion order.
    pub open spec fn contents(self) -> Seq<(u64, Seq<u8>)> {
        contents_of(self.entries(), self.payload())
    }

    pub closed spec fn spec_magic(self) -> u64 {
        self.magic
    }

    pub closed spec fn spec_version(self) -> u16 {
        self.version
    }

    pub closed spec fn spec_name(self) -> Seq<char> {
        self.name@
    }

    pub closed spec fn spec_path(self) -> Seq<char> {
        self.path@
    }

    /// The data file carries its header, each key occurs once, and the index
    /// records tile the payload.
    pub closed spec fn wf(self) -> bool {
        &&& self.log@.len() >= HEADER_LEN
        &&& self.log@.take(HEADER_LEN as int) == spec_header(self.spec_magic(), self.spec_version())
        &&& distinct_keys(self.entries())
        &&& offsets_wf(self.entries(), self.payload().len() as int)
    }

    /// A fresh, empty log.
    pub fn create_new(magic: u64, version: u16, name: String, path: String) -> (r: FileAoraMap)
        ensures
            r.wf(),
            r.contents().len() == 0,
            r.spec_magic() == magic,
            r.spec_version() == version,
            r.spec_name() == name@,
            r.spec_path() == path@,
    {
        let log = header_bytes(magic, version);
        let r = FileAoraMap { magic, version, name, path, log, index: imap_new() };
        proof {
            lemma_header_len(magic, version);
            assert(r.log@.take(HEADER_LEN as int) =~= spec_header(magic, version));
        }
        r
    }

    /// The table's human-readable identifier.
    pub fn display(&self) -> (r: &String)
        ensures
            r@ == self.spec_name(),
    {
        &self.name
    }

    /// The path the table was given at construction.
    pub fn path(&self) -> (r: &String)
        ensures
            r@ == self.spec_path(),
    {
        &self.path
    }

    /// True iff the key is present in the in-memory index.
    pub fn contains_key(&self, key: u64) -> (r: bool)
        requires
            self.wf(),
        ensures
            r == assoc_contains(self.contents(), key),
    {
        let r = imap_get(&self.index, key);
        proof {
            lemma_assoc_lookup_contains(self.entries(), key);
            if r is Some {
                let i = choose|i: int|
                    0 <= i < self.entries().len() && #[trigger] self.entries()[i] == (
                        key,
                        r->Some_0,
                    );
                assert(self.contents()[i].0 == key);
            }
            if assoc_contains(self.contents(), key) {
                let i = choose|i: int|
                    0 <= i < self.contents().len() && (#[trigger] self.contents()[i]).0 == key;
                assert(self.entries()[i].0 == key);
            }
        }
        r.is_some()
    }

    /// Copies the blob recorded at index position `i` out of the payload.
    fn blob_at(&self, entries: &Vec<(u64, u64)>, i: usize) -> (r: Vec<u8>)
        requires
            self.wf(),
            entries@ == self.entries(),
            i < self.entries().len(),
        ensures
            r@ == self.contents()[i as int].1,
    {
        let log_len = self.log.len();
        let start_off: u64 = if i == 0 {
            0
        } else {
            entries[i - 1].1
        };
        let end_off = entries[i].1;
        proof {
            assert(self.payload().len() == log_len - HEADER_LEN);
            assert(end_off <= self.payload().len());
            assert(start_off as int == blob_start(self.entries(), i as int));
            assert(start_off <= end_off) by {
                if i > 0 {
                    assert(self.entries()[i - 1].1 <= self.entries()[i as int].1);
                }
            }
        }
        let start = HEADER_LEN + start_off as usize;
        let stop = HEADER_LEN + end_off as usize;
        let mut out: Vec<u8> = Vec::new();
        let mut t: usize = start;
        while t < stop
            invariant
                HEADER_LEN <= start <= t <= stop <= self.log@.len(),
                out@ == self.log@.subrange(start as int, t as int),
            decreases stop - t,
        {
            out.push(self.log[t]);
            proof {
                assert(out@ =~= self.log@.subrange(start as int, t + 1));
            }
            t += 1;
        }
        proof {
            assert(out@ =~= self.payload().subrange(start_off as int, end_off as int));
        }
        out
    }

    /// Retrieves the blob bound to a key; an absent key yields no value.
    pub fn get(&self, key: u64) -> (r: Option<Vec<u8>>)
        requires
            self.wf(),
        ensures
            match r {
                Some(b) => assoc_lookup(self.contents(), key) == Some(b@),
                None => assoc_lookup(self.contents(), key) is None,
            },
    {
        let entries = imap_entries_vec(&self.index);
        let n = entries.len();
        let mut i: usize = 0;
        while i < n
            invariant
                self.wf(),
                entries@ == self.entries(),
                n == entries@.len(),
                i <= n,
                forall|j: int| 0 <= j < i ==> (#[trigger] self.entries()[j]).0 != key,
            decreases n - i,
        {
            if entries[i].0 == key {
                let blob = self.blob_at(&entries, i);
                proof {
                    assert(self.contents()[i as int].0 == key);
                    lemma_assoc_lookup_at(self.contents(), key, i as int);
                }
                return Some(blob);
            }
            i += 1;
        }
        proof {
            assert(forall|j: int|
                0 <= j < self.contents().len() ==> (#[trigger] self.contents()[j]).0
                    == self.entries()[j].0);
            lemma_assoc_lookup_none(self.contents(), key);
        }
        None
    }

    /// Retrieves the blob bound to a key that is known to be present.
    pub fn get_expect(&self, key: u64) -> (r: Vec<u8>)
        requires
            self.wf(),
            assoc_contains(self.contents(), key),
        ensures
            assoc_lookup(self.contents(), key) == Some(r@),
    {
        proof {
            lemma_assoc_lookup_contains(self.contents(), key);
        }
        self.get(key).unwrap()
    }

    /// Appends a blob under a fresh key; re-inserting an equal blob is a
    /// no-op and a different blob under a known key is a fatal conflict.
    pub fn insert(&mut self, key: u64, value: &Vec<u8>) -> (r: Result<(), Violation>)
        requires
            old(self).wf(),
        ensures
            final(self).wf(),
            final(self).spec_magic() == old(self).spec_magic(),
            final(self).spec_version() == old(self).spec_version(),
            final(self).spec_name() == old(self).spec_name(),
            final(self).spec_path() == old(self).spec_path(),
            (final(self).contents(), r is Ok) == ao_insert(old(self).contents(), key, value@),
            r matches Err(e) ==> e matches Violation::BlobConflict { table, key: k } && table@
                == old(self).spec_name() && k == key,
            r is Ok ==> assoc_lookup(final(self).contents(), key) == Some(value@),
    {
        let ghost old_contents = self.contents();
        match self.get(key) {
            Some(stored) => {
                if bytes_eq(&stored, value) {
                    proof {
                        lemma_ao_insert_get(old_contents, key, value@);
                    }
                    Ok(())
                } else {
                    Err(Violation::BlobConflict { table: self.name.clone(), key })
                }
            },
            None => {
                let ghost old_entries = self.entries();
                let ghost old_payload = self.payload();
                let mut t: usize = 0;
                let ghost old_log = self.log@;
                while t < value.len()
                    invariant
                        t <= value@.len(),
                        self.log@ == old_log + value@.take(t as int),
                        self.magic == old(self).magic,
                        self.version == old(self).version,
                        self.name == old(self).name,
                        self.path == old(self).path,
                        self.index == old(self).index,
                    decreases value@.len() - t,
                {
                    self.log.push(value[t]);
                    proof {
                        assert(self.log@ =~= old_log + value@.take(t + 1));
                    }
                    t += 1;
                }
                let off = (self.log.len() - HEADER_LEN) as u64;
                proof {
                    assert(value@.take(value@.len() as int) =~= value@);
                    lemma_assoc_lookup_contains(old_contents, key);
                    assert(!assoc_contains(old_entries, key)) by {
                        if assoc_contains(old_entries, key) {
                            let i = choose|i: int|
                                0 <= i < old_entries.len() && (#[trigger] old_entries[i]).0 == key;
                            assert(old_contents[i].0 == key);
                        }
                    }
                }
                let res = imap_insert(&mut self.index, key, off);
                proof {
                    assert(res is None);
                    let entries = self.entries();
                    let payload = self.payload();
                    assert(entries == old_entries.push((key, off)));
                    assert(payload =~= old_payload + value@);
                    assert(off as int == payload.len());
                    crate::assoc::lemma_assoc_update_absent(old_entries, key, off);
                    crate::assoc::lemma_assoc_update_distinct(old_entries, key, off);
                    assert(distinct_keys(entries));
                    assert(offsets_wf(entries, payload.len() as int)) by {
                        assert(forall|i: int|
                            0 <= i < old_entries.len() ==> entries[i] == old_entries[i]);
                        assert(entries[entries.len() - 1] == (key, off));
                        assert forall|i: int| 0 <= i < entries.len() implies (
                        #[trigger] entries[i]).1 <= payload.len() by {
                            if i < old_entries.len() {
                                assert(old_entries[i].1 <= old_payload.len());
                            }
                        }
                        assert forall|i: int| 0 <= i && i + 1 < entries.len() implies (
                        #[trigger] entries[i]).1 <= entries[i + 1].1 by {
                            if i + 1 < old_entries.len() {
                                assert(old_entries[i].1 <= old_entries[i + 1].1);
                            } else {
                                assert(entries[i] == old_entries[i]);
                                assert(old_entries[i].1 <= old_payload.len());
                                assert(entries[i + 1].1 == off);
                            }
                        }
                    }
                    assert(self.contents() =~= old_contents.push((key, value@))) by {
                        assert forall|i: int| 0 <= i < entries.len() implies self.contents()[i]
                            == old_contents.push((key, value@))[i] by {
                            if i < old_entries.len() {
                                assert(entries[i] == old_entries[i]);
                                let s_old = blob_start(old_entries, i);
                                let s_new = blob_start(entries, i);
                                assert(s_old == s_new) by {
                                    if i > 0 {
                                        assert(entries[i - 1] == old_entries[i - 1]);
                                    }
                                }
                                assert(0 <= s_old <= old_entries[i].1 <= old_payload.len()) by {
                                    if i > 0 {
                                        assert(old_entries[i - 1].1 <= old_entries[i].1);
                                    }
                                }
                                assert(payload.subrange(s_new, entries[i].1 as int)
                                    =~= old_payload.subrange(s_old, old_entries[i].1 as int));
                            } else {
                                assert(i == old_entries.len());
                                assert(entries[i] == (key, off));
                                assert(blob_start(entries, i) == old_payload.len()) by {
                                    if i > 0 {
                                        assert(entries[i - 1] == old_entries[i - 1]);
                                        assert(old_entries[i - 1].1 == old_payload.len());
                                    }
                                }
                                assert(payload.subrange(
                                    old_payload.len() as int,
                                    payload.len() as int,
                                ) =~= value@);
                            }
                        }
                    }
                    lemma_ao_insert_get(old_contents, key, value@);
                    assert(self.log@.take(HEADER_LEN as int) =~= old_log.take(HEADER_LEN as int));
                }
                Ok(())
            },
        }
    }

    /// Applies `insert` to each pair in order, keeping each pair's conflict
    /// semantics: inserts before the first conflict stay applied.
    pub fn extend(&mut self, pairs: &Vec<(u64, Vec<u8>)>) -> (r: Result<(), Violation>)
        requires
            old(self).wf(),
        ensures
            final(self).wf(),
            final(self).spec_magic() == old(self).spec_magic(),
            final(self).spec_version() == old(self).spec_version(),
            final(self).spec_name() == old(self).spec_name(),
            final(self).spec_path() == old(self).spec_path(),
            (final(self).contents(), r is Ok) == (
                ao_extend(old(self).contents(), pairs_view(pairs@)).0,
                ao_extend(old(self).contents(), pairs_view(pairs@)).1 is None,
            ),
            r matches Err(e) ==> e matches Violation::BlobConflict { table, key } && table@ == old(
                self,
            ).spec_name() && Some(key) == ao_extend(old(self).contents(), pairs_view(pairs@)).1,
    {
        let ghost pv = pairs_view(pairs@);
        proof {
            assert(pv.skip(0) =~= pv);
        }
        let mut i: usize = 0;
        while i < pairs.len()
            invariant
                self.wf(),
                i <= pairs@.len(),
                pv == pairs_view(pairs@),
                self.spec_magic() == old(self).spec_magic(),
                self.spec_version() == old(self).spec_version(),
                self.spec_name() == old(self).spec_name(),
                self.spec_path() == old(self).spec_path(),
                ao_extend(old(self).contents(), pv) == ao_extend(
                    self.contents(),
                    pv.skip(i as int),
                ),
            decreases pairs@.len() - i,
        {
            let ghost pre = self.contents();
            let (k, v) = (pairs[i].0, &pairs[i].1);
            let res = self.insert(k, v);
            proof {
                assert(pv.skip(i as int)[0] == (k, v@));
                assert(pv.skip(i as int).drop_first() =~= pv.skip(i + 1));
                assert(pv.skip(i as int).len() > 0);
            }
            if let Err(e) = res {
                proof {
                    assert(ao_extend(pre, pv.skip(i as int)) == (self.contents(), Some(k)));
                }
                return Err(e);
            }
            i += 1;
        }
        proof {
            assert(pv.skip(pv.len() as int) =~= Seq::<(u64, Seq<u8>)>::empty());
        }
        Ok(())
    }

    /// The key/blob pairs in on-disk order.
    pub fn iter(&self) -> (r: Vec<(u64, Vec<u8>)>)
        requires
            self.wf(),
        ensures
            pairs_view(r@) == self.contents(),
    {
        let entries = imap_entries_vec(&self.index);
        let n = entries.len();
        let mut out: Vec<(u64, Vec<u8>)> = Vec::new();
        let mut i: usize = 0;
        while i < n
            invariant
                self.wf(),
                entries@ == self.entries(),
                n == entries@.len(),
                i <= n,
                out@.len() == i,
                forall|j: int|
                    0 <= j < i ==> #[trigger] pairs_view(out@)[j] == self.contents()[j],
            decreases n - i,
        {
            let blob = self.blob_at(&entries, i);
            let k = entries[i].0;
            let ghost prev = out@;
            let ghost blob_view = blob@;
            out.push((k, blob));
            proof {
                assert(pairs_view(out@) =~= pairs_view(prev).push((k, blob_view)));
                assert(pairs_view(out@)[i as int] == self.contents()[i as int]);
            }
            i += 1;
        }
        proof {
            assert(pairs_view(out@) =~= self.contents());
        }
        out
    }

    /// The durable image of the data file.
    pub fn log_image(&self) -> (r: Vec<u8>)
        requires
            self.wf(),
        ensures
            r@ == spec_header(self.spec_magic(), self.spec_version()) + self.payload(),
    {
        let r = slice_to_vec(self.log.as_slice());
        proof {
            assert(spec_header(self.spec_magic(), self.spec_version()) + self.payload()
                =~= self.log@);
        }
        r
    }

    /// The durable image of the index file.
    pub fn idx_image(&self) -> (r: Vec<u8>)
        ensures
            r@ == spec_header(self.spec_magic(), self.spec_version()) + entries_bytes(
                self.entries(),
            ),
    {
        let mut out = header_bytes(self.magic, self.version);
        let ghost prefix = out@;
        let entries = imap_entries_vec(&self.index);
        let mut i: usize = 0;
        proof {
            assert(self.entries().take(0) =~= Seq::<(u64, u64)>::empty());
            assert(out@ =~= prefix + entries_bytes(self.entries().take(0)));
        }
        while i < entries.len()
            invariant
                entries@ == self.entries(),
                i <= entries@.len(),
                prefix == spec_header(self.spec_magic(), self.spec_version()),
                out@ == prefix + entries_bytes(self.entries().take(i as int)),
            decreases entries@.len() - i,
        {
            let (k, off) = entries[i];
            push_u64_le(&mut out, k);
            push_u64_le(&mut out, off);
            proof {
                let es = self.entries();
                assert(es.take(i + 1) =~= es.take(i as int) + seq![es[i as int]]);
                lemma_entries_bytes_concat(es.take(i as int), seq![es[i as int]]);
                assert(entries_bytes(seq![es[i as int]]) =~= spec_u64_to_le_bytes(k)
                    + spec_u64_to_le_bytes(off)) by {
                    let single = seq![es[i as int]];
                    assert(single[0] == (k, off));
                    assert(single.drop_first() =~= Seq::<(u64, u64)>::empty());
                    assert(entries_bytes(single.drop_first()) =~= Seq::<u8>::empty());
                    assert(entries_bytes(single) == spec_u64_to_le_bytes(k) + spec_u64_to_le_bytes(
                        off,
                    ) + entries_bytes(single.drop_first()));
                }
                assert(out@ =~= prefix + entries_bytes(es.take(i + 1)));
            }
            i += 1;
        }
        proof {
            assert(self.entries().take(self.entries().len() as int) =~= self.entries());
        }
        out
    }

    /// Rebuilds a log from the bytes of its two backing files. Both headers
    /// must match; the index file must consist of whole records and its
    /// offsets must account for the data file exactly as the writers left
    /// them.
    #[verifier::rlimit(60)]
    pub fn open(
        log_bytes: Vec<u8>,
        idx_bytes: Vec<u8>,
        magic: u64,
        version: u16,
        name: String,
        path: String,
    ) -> (r: Result<FileAoraMap, AoraMapError>)
        ensures
            match r {
                Ok(db) => {
                    &&& db.wf()
                    &&& parse_aora(log_bytes@, idx_bytes@, magic, version) == Some(db.contents())
                    &&& db.spec_magic() == magic
                    &&& db.spec_version() == version
                    &&& db.spec_name() == name@
                    &&& db.spec_path() == path@
                },
                Err(e) => {
                    &&& parse_aora(log_bytes@, idx_bytes@, magic, version) is None
                    &&& e matches AoraMapError::Corrupted { name: n, path: p } && n@ == name@ && p@
                        == path@
                },
            },
    {
        if log_bytes.len() < HEADER_LEN || !has_header(&log_bytes, magic, version) {
            return Err(AoraMapError::Corrupted { name, path });
        }
        if idx_bytes.len() < HEADER_LEN || !has_header(&idx_bytes, magic, version) {
            return Err(AoraMapError::Corrupted { name, path });
        }
        if (idx_bytes.len() - HEADER_LEN) % 16 != 0 {
            return Err(AoraMapError::Corrupted { name, path });
        }
        let n = (idx_bytes.len() - HEADER_LEN) / 16;
        proof {
            assert(16 * (n as int) == idx_bytes@.len() - HEADER_LEN) by {
                vstd::arithmetic::div_mod::lemma_fundamental_div_mod(
                    idx_bytes@.len() - HEADER_LEN,
                    16,
                );
            }
        }
        let ghost region = idx_bytes@.skip(HEADER_LEN as int);
        let idx_len = idx_bytes.len();
        let mut entries: Vec<(u64, u64)> = Vec::new();
        let mut i: usize = 0;
        while i < n
            invariant
                idx_len == idx_bytes@.len(),
                idx_bytes@.len() >= HEADER_LEN,
                16 * (n as int) == idx_bytes@.len() - HEADER_LEN,
                region == idx_bytes@.skip(HEADER_LEN as int),
                i <= n,
                entries@.len() == i,
                forall|t: int|
                    0 <= t < i ==> #[trigger] entries@[t] == parse_entries(region, n as nat)[t],
            decreases n - i,
        {
            let pos = HEADER_LEN + 16 * i;
            let k = read_u64_le(&idx_bytes, pos);
            let off = read_u64_le(&idx_bytes, pos + 8);
            proof {
                assert(region.subrange(16 * (i as int), 16 * (i as int) + 8) =~= idx_bytes@
                    .subrange(pos as int, pos + 8));
                assert(region.subrange(16 * (i as int) + 8, 16 * (i as int) + 16) =~= idx_bytes@
                    .subrange(pos + 8, pos + 16));
            }
            entries.push((k, off));
            i += 1;
        }
        proof {
            assert(entries@ =~= parse_entries(region, n as nat));
        }
        if !pairs_distinct_keys(&entries) {
            return Err(AoraMapError::Corrupted { name, path });
        }
        let plen = log_bytes.len() - HEADER_LEN;
        if !offsets_ok(&entries, plen) {
            return Err(AoraMapError::Corrupted { name, path });
        }
        let db = FileAoraMap {
            magic,
            version,
            name,
            path,
            log: log_bytes,
            index: imap_from_entries(&entries),
        };
        proof {
            assert(db.log@.take(HEADER_LEN as int) =~= spec_header(magic, version));
            assert(db.payload().len() == plen);
        }
        Ok(db)
    }
}

/// What a pair of data and index files describes, if they are well formed:
/// matched headers, whole index records, distinct keys, and offsets that
/// tile the data payload.
pub open spec fn parse_aora(
    log_bytes: Seq<u8>,
    idx_bytes: Seq<u8>,
    magic: u64,
    version: u16,
) -> Option<Seq<(u64, Seq<u8>)>> {
    if log_bytes.len() < HEADER_LEN || log_bytes.take(HEADER_LEN as int) != spec_header(
        magic,
        version,
    ) {
        None
    } else if idx_bytes.len() < HEADER_LEN || idx_bytes.take(HEADER_LEN as int) != spec_header(
        magic,
        version,
    ) {
        None
    } else if (idx_bytes.len() - HEADER_LEN) % 16 != 0 {
        None
    } else {
        let n = ((idx_bytes.len() - HEADER_LEN) / 16) as nat;
        let entries = parse_entries(idx_bytes.skip(HEADER_LEN as int), n);
        let payload = log_bytes.skip(HEADER_LEN as int);
        if distinct_keys(entries) && offsets_wf(entries, payload.len() as int) {
            Some(contents_of(entries, payload))
        } else {
            None
        }
    }
}

/// True iff the index records tile a payload of the given length exactly.
fn offsets_ok(entries: &Vec<(u64, u64)>, plen: usize) -> (r: bool)
    ensures
        r == offsets_wf(entries@, plen as int),
{
    let n = entries.len();
    if n == 0 {
        return plen == 0;
    }
    if entries[n - 1].1 != plen as u64 {
        return false;
    }
    let mut i: usize = 0;
    while i < n
        invariant
            n == entries@.len(),
            i <= n,
            n > 0 ==> entries@[n - 1].1 == plen,
            forall|t: int| 0 <= t < i ==> (#[trigger] entries@[t]).1 <= plen,
            forall|t: int|
                0 <= t && t + 1 < n && t + 1 <= i ==> (#[trigger] entries@[t]).1 <= entries@[t
                    + 1].1,
        decreases n - i,
    {
        if entries[i].1 > plen as u64 {
            return false;
        }
        if i + 1 < n && entries[i].1 > entries[i + 1].1 {
            return false;
        }
        i += 1;
    }
    true
}

/// Rebuilds the in-memory index from parsed records whose keys are
/// distinct, keeping their order.
fn imap_from_entries(entries: &Vec<(u64, u64)>) -> (m: IndexMap<u64, u64, RandomState>)
    requires
        distinct_keys(entries@),
    ensures
        map_entries(m) == entries@,
{
    let mut m = imap_new();
    let mut i: usize = 0;
    while i < entries.len()
        invariant
            i <= entries@.len(),
            distinct_keys(entries@),
            map_entries(m) == entries@.take(i as int),
        decreases entries@.len() - i,
    {
        let (k, v) = entries[i];
        let ghost before = map_entries(m);
        let res = imap_insert(&mut m, k, v);
        proof {
            if res is Some {
                let v0 = res->Some_0;
                let t = choose|t: int|
                    0 <= t < before.len() && #[trigger] before[t] == (k, v0) && map_entries(m)
                        == before.update(t, (k, v));
                assert(entries@.take(i as int)[t].0 == k);
                assert(entries@[t].0 == entries@[i as int].0);
                assert(false);
            }
            assert(map_entries(m) =~= entries@.take(i + 1));
        }
        i += 1;
    }
    proof {
        assert(entries@.take(entries@.len() as int) =~= entries@);
    }
    m
}

} // verus!
