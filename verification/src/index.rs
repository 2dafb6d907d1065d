//! The one-to-many secondary index: each key maps to a set of distinct
//! values. The set is additive only — pushing a value a key already carries
//! is a no-op, and nothing is ever removed.
//!
//! On disk the index is a single container file: the ten header bytes, then
//! one record per key: the 8-byte little-endian key, a 4-byte little-endian
//! value count, and that many 8-byte little-endian values. The file is
//! rewritten wholesale on every mutation; replaying it must consume it
//! exactly.

use vstd::prelude::*;
use indexmap::IndexSet;
use std::collections::hash_map::RandomState;
use crate::assoc::{
    assoc_contains, assoc_keys, assoc_lookup, assoc_update, distinct_keys,
    lemma_assoc_lookup_at, lemma_assoc_lookup_none, lemma_assoc_update_at,
    lemma_assoc_update_distinct, lemma_distinct_keys_no_dup, pairs_distinct_keys,
};
use crate::codec::{
    has_header, header_bytes, push_u32_le, push_u64_le, read_u32_le, read_u64_le, spec_header,
    HEADER_LEN,
};
use crate::errors::AoraMapError;
use crate::ordmap::{iset_insert, iset_len, iset_new, iset_values_vec, set_entries};
use vstd::bytes::{
    lemma_auto_spec_u64_to_from_le_bytes, spec_u32_from_le_bytes, spec_u32_to_le_bytes,
    spec_u64_from_le_bytes, spec_u64_to_le_bytes,
};

verus! {

/// The bytes of one record's values, each 8 bytes little-endian.
pub open spec fn values_bytes(vals: Seq<u64>) -> Seq<u8>
    decreases vals.len(),
{
    if vals.len() == 0 {
        Seq::empty()
    } else {
        spec_u64_to_le_bytes(vals[0]) + values_bytes(vals.drop_first())
    }
}

/// The bytes of one record: the key, the value count, then the values.
pub open spec fn record_bytes(key: u64, vals: Seq<u64>) -> Seq<u8> {
    spec_u64_to_le_bytes(key) + spec_u32_to_le_bytes(vals.len() as u32) + values_bytes(vals)
}

/// The bytes of the record sequence, in key insertion order.
pub open spec fn records_bytes(records: Seq<(u64, Seq<u64>)>) -> Seq<u8>
    decreases records.len(),
{
    if records.len() == 0 {
        Seq::empty()
    } else {
        record_bytes(records[0].0, records[0].1) + records_bytes(records.drop_first())
    }
}

/// The full file image: the ten header bytes, then the records.
pub open spec fn index_image_of(magic: u64, version: u16, records: Seq<(u64, Seq<u64>)>) -> Seq<
    u8,
> {
    spec_header(magic, version) + records_bytes(records)
}

pub proof fn lemma_values_bytes_len(vals: Seq<u64>)
    ensures
        values_bytes(vals).len() == 8 * vals.len(),
    decreases vals.len(),
{
    lemma_auto_spec_u64_to_from_le_bytes();
    if vals.len() > 0 {
        lemma_values_bytes_len(vals.drop_first());
    }
}

pub proof fn lemma_values_bytes_concat(a: Seq<u64>, b: Seq<u64>)
    ensures
        values_bytes(a + b) == values_bytes(a) + values_bytes(b),
    decreases a.len(),
{
    if a.len() == 0 {
        assert(a + b =~= b);
        assert(values_bytes(a) + values_bytes(b) =~= values_bytes(b));
    } else {
        assert((a + b)[0] == a[0]);
        assert((a + b).drop_first() =~= a.drop_first() + b);
        lemma_values_bytes_concat(a.drop_first(), b);
        assert(spec_u64_to_le_bytes(a[0]) + (values_bytes(a.drop_first()) + values_bytes(b))
            =~= (spec_u64_to_le_bytes(a[0]) + values_bytes(a.drop_first())) + values_bytes(b));
    }
}

pub proof fn lemma_records_bytes_concat(a: Seq<(u64, Seq<u64>)>, b: Seq<(u64, Seq<u64>)>)
    ensures
        records_bytes(a + b) == records_bytes(a) + records_bytes(b),
    decreases a.len(),
{
    if a.len() == 0 {
        assert(a + b =~= b);
        assert(records_bytes(a) + records_bytes(b) =~= records_bytes(b));
    } else {
        assert((a + b)[0] == a[0]);
        assert((a + b).drop_first() =~= a.drop_first() + b);
        lemma_records_bytes_concat(a.drop_first(), b);
        assert(record_bytes(a[0].0, a[0].1) + (records_bytes(a.drop_first()) + records_bytes(b))
            =~= (record_bytes(a[0].0, a[0].1) + records_bytes(a.drop_first())) + records_bytes(
            b,
        ));
    }
}

pub proof fn lemma_values_bytes_index(vals: Seq<u64>, i: int)
    requires
        0 <= i < vals.len(),
    ensures
        values_bytes(vals).subrange(8 * i, 8 * i + 8) == spec_u64_to_le_bytes(vals[i]),
    decreases i,
{
    lemma_auto_spec_u64_to_from_le_bytes();
    lemma_values_bytes_len(vals);
    lemma_values_bytes_len(vals.drop_first());
    if i == 0 {
        assert(values_bytes(vals).subrange(0, 8) =~= spec_u64_to_le_bytes(vals[0]));
    } else {
        lemma_values_bytes_index(vals.drop_first(), i - 1);
        assert(vals.drop_first()[i - 1] == vals[i]);
        assert(values_bytes(vals).subrange(8 * i, 8 * i + 8) =~= values_bytes(
            vals.drop_first(),
        ).subrange(8 * (i - 1), 8 * (i - 1) + 8));
    }
}

/// The values of one record region: `n` fields of 8 bytes, little-endian.
pub open spec fn parse_values(bytes: Seq<u8>, n: nat) -> Seq<u64> {
    Seq::new(n, |i: int| spec_u64_from_le_bytes(bytes.subrange(8 * i, 8 * i + 8)))
}

/// Replays the record region of an index file and demands that the records
/// consume it exactly; anything shorter or longer is a corrupt image.
pub open spec fn parse_records(bytes: Seq<u8>) -> Option<Seq<(u64, Seq<u64>)>>
    decreases bytes.len(),
{
    if bytes.len() == 0 {
        Some(Seq::empty())
    } else if bytes.len() < 12 {
        None
    } else {
        let key = spec_u64_from_le_bytes(bytes.subrange(0, 8));
        let cnt = spec_u32_from_le_bytes(bytes.subrange(8, 12));
        if bytes.len() < 12 + 8 * (cnt as int) {
            None
        } else {
            let vals = parse_values(bytes.skip(12), cnt as nat);
            match parse_records(bytes.skip(12 + 8 * (cnt as int))) {
                Some(rest) => Some(seq![(key, vals)] + rest),
                None => None,
            }
        }
    }
}

/// True iff each record's values are distinct, as the writer keeps them.
pub open spec fn records_wf(records: Seq<(u64, Seq<u64>)>) -> bool {
    &&& distinct_keys(records)
    &&& forall|i: int| 0 <= i < records.len() ==> (#[trigger] records[i]).1.no_duplicates()
}

/// Parses a full index file image: the header must match, the records must
/// consume the file exactly, keys must be distinct, and no record may carry
/// a value twice.
pub open spec fn parse_index_image(bytes: Seq<u8>, magic: u64, version: u16) -> Option<
    Seq<(u64, Seq<u64>)>,
> {
    if bytes.len() < HEADER_LEN {
        None
    } else if bytes.take(HEADER_LEN as int) != spec_header(magic, version) {
        None
    } else {
        match parse_records(bytes.skip(HEADER_LEN as int)) {
            Some(records) => if records_wf(records) {
                Some(records)
            } else {
                None
            },
            None => None,
        }
    }
}

pub proof fn lemma_parse_values_of_bytes(vals: Seq<u64>, tail: Seq<u8>)
    ensures
        parse_values(values_bytes(vals) + tail, vals.len()) == vals,
{
    lemma_auto_spec_u64_to_from_le_bytes();
    lemma_values_bytes_len(vals);
    let b = values_bytes(vals) + tail;
    let parsed = parse_values(b, vals.len());
    assert forall|i: int| 0 <= i < vals.len() implies parsed[i] == vals[i] by {
        lemma_values_bytes_index(vals, i);
        assert(b.subrange(8 * i, 8 * i + 8) =~= values_bytes(vals).subrange(8 * i, 8 * i + 8));
    }
    assert(parsed =~= vals);
}

pub proof fn lemma_parse_records_of_bytes(records: Seq<(u64, Seq<u64>)>)
    requires
        forall|i: int| 0 <= i < records.len() ==> (#[trigger] records[i]).1.len() < 0x1_0000_0000,
    ensures
        parse_records(records_bytes(records)) == Some(records),
    decreases records.len(),
{
    lemma_auto_spec_u64_to_from_le_bytes();
    vstd::bytes::lemma_auto_spec_u32_to_from_le_bytes();
    if records.len() > 0 {
        let key = records[0].0;
        let vals = records[0].1;
        let rest = records.drop_first();
        let b = records_bytes(records);
        lemma_values_bytes_len(vals);
        assert(b.subrange(0, 8) =~= spec_u64_to_le_bytes(key));
        assert(b.subrange(8, 12) =~= spec_u32_to_le_bytes(vals.len() as u32));
        let cnt = spec_u32_from_le_bytes(b.subrange(8, 12));
        assert(cnt == vals.len() as u32);
        assert(cnt as int == vals.len());
        assert(b.len() >= 12 + 8 * (cnt as int));
        lemma_parse_values_of_bytes(vals, records_bytes(rest));
        assert(b.skip(12) =~= values_bytes(vals) + records_bytes(rest));
        assert(parse_values(b.skip(12), cnt as nat) == vals);
        assert(b.skip(12 + 8 * (cnt as int)) =~= records_bytes(rest));
        assert(forall|i: int|
            0 <= i < rest.len() ==> (#[trigger] rest[i]).1.len() < 0x1_0000_0000) by {
            assert(forall|i: int| 0 <= i < rest.len() ==> rest[i] == records[i + 1]);
        }
        lemma_parse_records_of_bytes(rest);
        assert(parse_records(b) == Some(seq![(key, vals)] + rest));
        assert(seq![(key, vals)] + rest =~= records);
    }
}

/// A faithfully rewritten index image parses back to exactly the records it
/// was written from: nothing is lost and nothing is invented.
pub proof fn lemma_index_image_round_trip(
    magic: u64,
    version: u16,
    records: Seq<(u64, Seq<u64>)>,
)
    requires
        records_wf(records),
        forall|i: int| 0 <= i < records.len() ==> (#[trigger] records[i]).1.len() < 0x1_0000_0000,
    ensures
        parse_index_image(index_image_of(magic, version, records), magic, version) == Some(
            records,
        ),
{
    crate::codec::lemma_header_len(magic, version);
    let img = index_image_of(magic, version, records);
    assert(img.take(HEADER_LEN as int) =~= spec_header(magic, version));
    assert(img.skip(HEADER_LEN as int) =~= records_bytes(records));
    lemma_parse_records_of_bytes(records);
}

/// The result of pushing a value: a fresh key is appended with a one-value
/// set, a known key's set grows by the value unless it is already there.
pub open spec fn mv_push(m: Seq<(u64, Seq<u64>)>, key: u64, val: u64) -> Seq<(u64, Seq<u64>)> {
    match assoc_lookup(m, key) {
        None => m.push((key, seq![val])),
        Some(vs) => if vs.contains(val) {
            m
        } else {
            assoc_update(m, key, vs.push(val))
        },
    }
}

/// The value sets never shrink: after any push every value a key carried is
/// still there, and the pushed value is there.
pub proof fn lemma_mv_push_additive(m: Seq<(u64, Seq<u64>)>, key: u64, val: u64)
    requires
        distinct_keys(m),
    ensures
        match assoc_lookup(mv_push(m, key, val), key) {
            Some(vs) => {
                &&& vs.contains(val)
                &&& match assoc_lookup(m, key) {
                    Some(old_vs) => forall|v: u64| old_vs.contains(v) ==> vs.contains(v),
                    None => vs == seq![val],
                }
            },
            None => false,
        },
{
    match assoc_lookup(m, key) {
        None => {
            crate::assoc::lemma_assoc_lookup_contains(m, key);
            crate::assoc::lemma_assoc_update_absent(m, key, seq![val]);
            crate::assoc::lemma_assoc_update_lookup_same(m, key, seq![val]);
            assert(seq![val][0] == val);
        },
        Some(vs) => {
            if vs.contains(val) {
            } else {
                crate::assoc::lemma_assoc_update_lookup_same(m, key, vs.push(val));
                assert(vs.push(val)[vs.len() as int] == val);
                assert(forall|v: u64| vs.contains(v) ==> vs.push(val).contains(v)) by {
                    assert forall|v: u64| vs.contains(v) implies vs.push(val).contains(v) by {
                        let t = choose|t: int| 0 <= t < vs.len() && vs[t] == v;
                        assert(vs.push(val)[t] == v);
                    }
                }
            }
        },
    }
}

/// The one-to-many secondary index.
pub struct FileAoraIndex {
    magic: u64,
    version: u16,
    name: String,
    path: String,
    cache: Vec<(u64, IndexSet<u64, RandomState>)>,
}

impl FileAoraIndex {
    /// The records: each key with its distinct values, in insertion order.
    pub closed spec fn records(self) -> Seq<(u64, Seq<u64>)> {
        self.cache@.map_values(|e: (u64, IndexSet<u64, RandomState>)| (e.0, set_entries(e.1)))
    }

    pub closed spec fn spec_magic(self) -> u64 {
        self.magic
    }

    pub closed spec fn spec_version(self) -> u16 {
        self.version
    }

    pub closed spec fn spec_name(self) -> Seq<char> {
        self.name@
    }

    pub closed spec fn spec_path(self) -> Seq<char> {
        self.path@
    }

    /// Each key occurs once and no key's set carries a value twice.
    pub open spec fn wf(self) -> bool {
        records_wf(self.records())
    }

    /// A fresh, empty index.
    pub fn create_new(magic: u64, version: u16, name: String, path: String) -> (r: FileAoraIndex)
        ensures
            r.wf(),
            r.records().len() == 0,
            r.spec_magic() == magic,
            r.spec_version() == version,
            r.spec_name() == name@,
            r.spec_path() == path@,
    {
        let r = FileAoraIndex { magic, version, name, path, cache: Vec::new() };
        proof {
            assert(r.records() =~= Seq::<(u64, Seq<u64>)>::empty());
        }
        r
    }

    /// The table's human-readable identifier.
    pub fn display(&self) -> (r: &String)
        ensures
            r@ == self.spec_name(),
    {
        &self.name
    }

    /// The path the table was given at construction.
    pub fn path(&self) -> (r: &String)
        ensures
            r@ == self.spec_path(),
    {
        &self.path
    }

    /// All known keys, in insertion order.
    pub fn keys(&self) -> (r: Vec<u64>)
        requires
            self.wf(),
        ensures
            r@ == assoc_keys(self.records()),
            r@.no_duplicates(),
    {
        let mut keys: Vec<u64> = Vec::new();
        let mut i: usize = 0;
        while i < self.cache.len()
            invariant
                i <= self.records().len(),
                keys@.len() == i,
                forall|j: int| 0 <= j < i ==> keys@[j] == (#[trigger] self.records()[j]).0,
            decreases self.records().len() - i,
        {
            keys.push(self.cache[i].0);
            i += 1;
        }
        proof {
            assert(keys@ =~= assoc_keys(self.records()));
            lemma_distinct_keys_no_dup(self.records());
        }
        keys
    }

    /// The position of the key's record, if the key is known.
    fn find(&self, key: u64) -> (r: Option<usize>)
        requires
            self.wf(),
        ensures
            match r {
                Some(i) => i < self.records().len() && self.records()[i as int].0 == key
                    && assoc_lookup(self.records(), key) == Some(self.records()[i as int].1),
                None => assoc_lookup(self.records(), key) is None,
            },
    {
        let mut i: usize = 0;
        while i < self.cache.len()
            invariant
                self.wf(),
                i <= self.records().len(),
                forall|j: int| 0 <= j < i ==> (#[trigger] self.records()[j]).0 != key,
            decreases self.records().len() - i,
        {
            if self.cache[i].0 == key {
                proof {
                    assert(self.records()[i as int].0 == key);
                    lemma_assoc_lookup_at(self.records(), key, i as int);
                }
                return Some(i);
            }
            proof {
                assert(self.records()[i as int].0 == self.cache@[i as int].0);
            }
            i += 1;
        }
        proof {
            lemma_assoc_lookup_none(self.records(), key);
        }
        None
    }

    /// The number of values the key carries; zero for an unknown key.
    pub fn value_len(&self, key: u64) -> (r: usize)
        requires
            self.wf(),
        ensures
            r == (match assoc_lookup(self.records(), key) {
                Some(vs) => vs.len(),
                None => 0,
            }),
    {
        match self.find(key) {
            Some(i) => iset_len(&self.cache[i].1),
            None => 0,
        }
    }

    /// True iff the key carries at least one value.
    pub fn contains_key(&self, key: u64) -> (r: bool)
        requires
            self.wf(),
        ensures
            r == (match assoc_lookup(self.records(), key) {
                Some(vs) => vs.len() > 0,
                None => false,
            }),
    {
        self.value_len(key) > 0
    }

    /// The key's values, in insertion order; empty for an unknown key.
    pub fn get(&self, key: u64) -> (r: Vec<u64>)
        requires
            self.wf(),
        ensures
            r@ == (match assoc_lookup(self.records(), key) {
                Some(vs) => vs,
                None => Seq::<u64>::empty(),
            }),
    {
        match self.find(key) {
            Some(i) => iset_values_vec(&self.cache[i].1),
            None => {
                let r: Vec<u64> = Vec::new();
                proof {
                    assert(r@ =~= Seq::<u64>::empty());
                }
                r
            },
        }
    }

    /// Adds a value to the key's set; a value the key already carries is
    /// left alone, and nothing is ever removed.
    pub fn push(&mut self, key: u64, val: u64)
        requires
            old(self).wf(),
        ensures
            final(self).wf(),
            final(self).spec_magic() == old(self).spec_magic(),
            final(self).spec_version() == old(self).spec_version(),
            final(self).spec_name() == old(self).spec_name(),
            final(self).spec_path() == old(self).spec_path(),
            final(self).records() == mv_push(old(self).records(), key, val),
    {
        let ghost old_records = self.records();
        match self.find(key) {
            Some(i) => {
                let ghost vs = old_records[i as int].1;
                let entry = &mut self.cache[i];
                let fresh = iset_insert(&mut entry.1, val);
                proof {
                    assert(self.records() =~= old_records.update(
                        i as int,
                        (key, set_entries(self.cache@[i as int].1)),
                    ));
                    if fresh {
                        lemma_assoc_update_at(old_records, key, vs.push(val), i as int);
                        lemma_assoc_update_distinct(old_records, key, vs.push(val));
                        assert(vs.push(val).no_duplicates()) by {
                            assert(forall|t: int| 0 <= t < vs.len() ==> vs.push(val)[t] == vs[t]);
                            assert(vs.push(val)[vs.len() as int] == val);
                            assert forall|p: int, q: int|
                                0 <= p < q < vs.push(val).len() implies vs.push(val)[p] != vs.push(
                                val,
                            )[q] by {
                                if q == vs.len() {
                                    assert(vs[p] == vs.push(val)[p]);
                                    assert(vs.contains(vs[p]));
                                }
                            }
                        }
                        assert forall|t: int|
                            0 <= t < self.records().len() implies (
                        #[trigger] self.records()[t]).1.no_duplicates() by {
                            if t != i {
                                assert(self.records()[t] == old_records[t]);
                            }
                        }
                    } else {
                        assert(self.records() =~= old_records);
                        assert(vs.contains(val));
                    }
                }
            },
            None => {
                let mut set = iset_new();
                let fresh = iset_insert(&mut set, val);
                let ghost sv = set_entries(set);
                self.cache.push((key, set));
                proof {
                    assert(sv =~= seq![val]);
                    assert(self.records() =~= old_records.push((key, seq![val])));
                    crate::assoc::lemma_assoc_lookup_contains(old_records, key);
                    assert(distinct_keys(self.records())) by {
                        assert forall|p: int, q: int|
                            0 <= p < q < self.records().len() implies (
                        #[trigger] self.records()[p]).0 != (#[trigger] self.records()[q]).0 by {
                            if q == old_records.len() {
                                assert(self.records()[p] == old_records[p]);
                                assert(old_records[p].0 == old_records[p].0);
                                if old_records[p].0 == key {
                                    assert(assoc_contains(old_records, key));
                                }
                            } else {
                                assert(self.records()[p] == old_records[p]);
                                assert(self.records()[q] == old_records[q]);
                            }
                        }
                    }
                    assert(seq![val].no_duplicates());
                    assert forall|t: int|
                        0 <= t < self.records().len() implies (
                    #[trigger] self.records()[t]).1.no_duplicates() by {
                        if t < old_records.len() {
                            assert(self.records()[t] == old_records[t]);
                        }
                    }
                }
            },
        }
    }

    /// The durable image of the index file, rewritten wholesale on every
    /// mutation.
    pub fn save(&self) -> (r: Vec<u8>)
        requires
            forall|i: int|
                0 <= i < self.records().len() ==> (#[trigger] self.records()[i]).1.len()
                    < 0x1_0000_0000,
        ensures
            r@ == index_image_of(self.spec_magic(), self.spec_version(), self.records()),
    {
        let ghost records = self.records();
        let mut out = header_bytes(self.magic, self.version);
        let ghost prefix = out@;
        proof {
            assert(records.take(0) =~= Seq::<(u64, Seq<u64>)>::empty());
            assert(out@ =~= prefix + records_bytes(records.take(0)));
        }
        let mut i: usize = 0;
        while i < self.cache.len()
            invariant
                i <= records.len(),
                records == self.records(),
                forall|t: int|
                    0 <= t < records.len() ==> (#[trigger] records[t]).1.len() < 0x1_0000_0000,
                prefix == spec_header(self.spec_magic(), self.spec_version()),
                out@ == prefix + records_bytes(records.take(i as int)),
            decreases records.len() - i,
        {
            let key = self.cache[i].0;
            let vals = iset_values_vec(&self.cache[i].1);
            let ghost vseq = records[i as int].1;
            proof {
                assert(vals@ == vseq);
            }
            let ghost mid = out@;
            push_u64_le(&mut out, key);
            push_u32_le(&mut out, vals.len() as u32);
            let mut j: usize = 0;
            proof {
                assert(vseq.take(0) =~= Seq::<u64>::empty());
                assert(out@ =~= mid + spec_u64_to_le_bytes(key) + spec_u32_to_le_bytes(
                    vseq.len() as u32,
                ) + values_bytes(vseq.take(0)));
            }
            while j < vals.len()
                invariant
                    j <= vseq.len(),
                    vals@ == vseq,
                    out@ == mid + spec_u64_to_le_bytes(key) + spec_u32_to_le_bytes(
                        vseq.len() as u32,
                    ) + values_bytes(vseq.take(j as int)),
                decreases vseq.len() - j,
            {
                let v = vals[j];
                push_u64_le(&mut out, v);
                proof {
                    assert(vseq.take(j + 1) =~= vseq.take(j as int) + seq![vseq[j as int]]);
                    lemma_values_bytes_concat(vseq.take(j as int), seq![vseq[j as int]]);
                    assert(values_bytes(seq![vseq[j as int]]) =~= spec_u64_to_le_bytes(v)) by {
                        let single = seq![vseq[j as int]];
                        assert(single[0] == v);
                        assert(single.drop_first() =~= Seq::<u64>::empty());
                        assert(values_bytes(single.drop_first()) =~= Seq::<u8>::empty());
                        assert(values_bytes(single) == spec_u64_to_le_bytes(v) + values_bytes(
                            single.drop_first(),
                        ));
                    }
                    assert(out@ =~= mid + spec_u64_to_le_bytes(key) + spec_u32_to_le_bytes(
                        vseq.len() as u32,
                    ) + values_bytes(vseq.take(j + 1)));
                }
                j += 1;
            }
            proof {
                assert(vseq.take(vseq.len() as int) =~= vseq);
                assert(records.take(i + 1) =~= records.take(i as int) + seq![records[i as int]]);
                lemma_records_bytes_concat(records.take(i as int), seq![records[i as int]]);
                assert(records_bytes(seq![records[i as int]]) =~= record_bytes(key, vseq)) by {
                    let single = seq![records[i as int]];
                    assert(single[0] == (key, vseq));
                    assert(single.drop_first() =~= Seq::<(u64, Seq<u64>)>::empty());
                    assert(records_bytes(single.drop_first()) =~= Seq::<u8>::empty());
                    assert(records_bytes(single) == record_bytes(key, vseq) + records_bytes(
                        single.drop_first(),
                    ));
                }
                assert(out@ =~= prefix + records_bytes(records.take(i + 1)));
            }
            i += 1;
        }
        proof {
            assert(records.take(records.len() as int) =~= records);
        }
        out
    }

    /// Replays the structural record region from byte offset `start`,
    /// demanding exact consumption of the rest of the bytes.
    fn parse_region(bytes: &Vec<u8>, start: usize) -> (r: Option<Vec<(u64, Vec<u64>)>>)
        requires
            start <= bytes@.len(),
        ensures
            match r {
                Some(v) => parse_records(bytes@.skip(start as int)) == Some(raw_records_view(v@)),
                None => parse_records(bytes@.skip(start as int)) is None,
            },
    {
        let ghost body = bytes@.skip(start as int);
        let n_all = bytes.len();
        let mut pos: usize = start;
        let mut out: Vec<(u64, Vec<u64>)> = Vec::new();
        proof {
            assert(raw_records_view(out@) =~= Seq::<(u64, Seq<u64>)>::empty());
            if parse_records(bytes@.skip(pos as int)) is Some {
                let rest = parse_records(bytes@.skip(pos as int))->Some_0;
                assert(raw_records_view(out@) + rest =~= rest);
            }
        }
        while pos < n_all
            invariant
                start <= pos <= bytes@.len(),
                n_all == bytes@.len(),
                body == bytes@.skip(start as int),
                parse_records(body) == (match parse_records(bytes@.skip(pos as int)) {
                    Some(rest) => Some(raw_records_view(out@) + rest),
                    None => None,
                }),
            decreases n_all - pos,
        {
            let ghost sub = bytes@.skip(pos as int);
            if n_all - pos < 12 {
                return None;
            }
            let key = read_u64_le(bytes, pos);
            let cnt = read_u32_le(bytes, pos + 8);
            proof {
                assert(sub.subrange(0, 8) =~= bytes@.subrange(pos as int, pos + 8));
                assert(sub.subrange(8, 12) =~= bytes@.subrange(pos + 8, pos + 12));
            }
            let mut vals: Vec<u64> = Vec::new();
            let mut c: usize = pos + 12;
            let mut j: u32 = 0;
            while j < cnt
                invariant
                    start <= pos,
                    pos + 12 <= c <= n_all,
                    n_all == bytes@.len(),
                    j <= cnt,
                    vals@.len() == j,
                    c == pos + 12 + 8 * j,
                    sub == bytes@.skip(pos as int),
                    body == bytes@.skip(start as int),
                    key == spec_u64_from_le_bytes(sub.subrange(0, 8)),
                    cnt == spec_u32_from_le_bytes(sub.subrange(8, 12)),
                    forall|t: int|
                        0 <= t < j ==> #[trigger] vals@[t] == parse_values(
                            sub.skip(12),
                            cnt as nat,
                        )[t],
                    parse_records(body) == (match parse_records(bytes@.skip(pos as int)) {
                        Some(rest) => Some(raw_records_view(out@) + rest),
                        None => None,
                    }),
                decreases cnt - j,
            {
                if n_all - c < 8 {
                    proof {
                        assert(sub.len() < 12 + 8 * (cnt as int));
                        assert(parse_records(sub) is None);
                    }
                    return None;
                }
                let v = read_u64_le(bytes, c);
                proof {
                    assert(sub.skip(12).subrange(8 * (j as int), 8 * (j as int) + 8) =~= bytes@
                        .subrange(c as int, c + 8));
                }
                vals.push(v);
                c += 8;
                j += 1;
            }
            let ghost old_view = raw_records_view(out@);
            let ghost vals_view = vals@;
            out.push((key, vals));
            proof {
                assert(sub.len() >= 12 + 8 * (cnt as int));
                assert(vals_view =~= parse_values(sub.skip(12), cnt as nat));
                let subp = bytes@.skip(c as int);
                assert(sub.skip(12 + 8 * (cnt as int)) =~= subp);
                assert(raw_records_view(out@) =~= old_view.push((key, vals_view)));
                match parse_records(subp) {
                    Some(rest2) => {
                        assert(parse_records(sub) == Some(seq![(key, vals_view)] + rest2));
                        assert(raw_records_view(out@) + rest2 =~= old_view + (seq![
                            (key, vals_view),
                        ] + rest2));
                    },
                    None => {
                        assert(parse_records(sub) is None);
                    },
                }
            }
            pos = c;
        }
        proof {
            assert(bytes@.skip(pos as int).len() == 0);
            assert(parse_records(bytes@.skip(pos as int)) == Some(Seq::<(u64, Seq<u64>)>::empty()));
            assert(raw_records_view(out@) + Seq::<(u64, Seq<u64>)>::empty() =~= raw_records_view(
                out@,
            ));
        }
        Some(out)
    }

    /// Rebuilds an index from the bytes of its backing file. The header must
    /// match and replaying the records must consume the file exactly as the
    /// writer left it.
    pub fn open(bytes: Vec<u8>, magic: u64, version: u16, name: String, path: String) -> (r:
        Result<FileAoraIndex, AoraMapError>)
        ensures
            match r {
                Ok(db) => {
                    &&& db.wf()
                    &&& parse_index_image(bytes@, magic, version) == Some(db.records())
                    &&& db.spec_magic() == magic
                    &&& db.spec_version() == version
                    &&& db.spec_name() == name@
                    &&& db.spec_path() == path@
                },
                Err(e) => {
                    &&& parse_index_image(bytes@, magic, version) is None
                    &&& e matches AoraMapError::Corrupted { name: n, path: p } && n@ == name@ && p@
                        == path@
                },
            },
    {
        if bytes.len() < HEADER_LEN || !has_header(&bytes, magic, version) {
            return Err(AoraMapError::Corrupted { name, path });
        }
        match Self::parse_region(&bytes, HEADER_LEN) {
            None => Err(AoraMapError::Corrupted { name, path }),
            Some(raw) => {
                let ghost records = raw_records_view(raw@);
                if !pairs_distinct_keys(&raw) {
                    proof {
                        let (p, q) = choose|p: int, q: int|
                            0 <= p < q < raw@.len() && (#[trigger] raw@[p]).0 == (
                            #[trigger] raw@[q]).0;
                        assert(records[p].0 == records[q].0);
                        assert(!distinct_keys(records));
                    }
                    return Err(AoraMapError::Corrupted { name, path });
                }
                proof {
                    assert(distinct_keys(records)) by {
                        assert forall|p: int, q: int|
                            0 <= p < q < records.len() implies (#[trigger] records[p]).0 != (
                        #[trigger] records[q]).0 by {
                            assert(raw@[p].0 != raw@[q].0);
                        }
                    }
                }
                let mut cache: Vec<(u64, IndexSet<u64, RandomState>)> = Vec::new();
                let mut i: usize = 0;
                while i < raw.len()
                    invariant
                        i <= raw@.len(),
                        records == raw_records_view(raw@),
                        bytes@.len() >= HEADER_LEN,
                        bytes@.take(HEADER_LEN as int) == spec_header(magic, version),
                        parse_records(bytes@.skip(HEADER_LEN as int)) == Some(records),
                        distinct_keys(records),
                        cache@.len() == i,
                        forall|t: int|
                            0 <= t < i ==> ((#[trigger] cache@[t]).0, set_entries(cache@[t].1))
                                == records[t] && records[t].1.no_duplicates(),
                    decreases raw@.len() - i,
                {
                    let key = raw[i].0;
                    match iset_from_vec(&raw[i].1) {
                        Some(set) => {
                            cache.push((key, set));
                        },
                        None => {
                            proof {
                                assert(records[i as int].1 == raw@[i as int].1@);
                                assert(!records_wf(records));
                            }
                            return Err(AoraMapError::Corrupted { name, path });
                        },
                    }
                    i += 1;
                }
                let db = FileAoraIndex { magic, version, name, path, cache };
                proof {
                    assert(db.records() =~= records);
                    assert(records_wf(records));
                }
                Ok(db)
            },
        }
    }
}

/// The records of a structurally parsed file, as mathematical values.
pub open spec fn raw_records_view(s: Seq<(u64, Vec<u64>)>) -> Seq<(u64, Seq<u64>)> {
    s.map_values(|e: (u64, Vec<u64>)| (e.0, e.1@))
}

/// Builds an insertion-ordered set from the values, in order; reports
/// nothing if a value repeats.
fn iset_from_vec(vals: &Vec<u64>) -> (r: Option<IndexSet<u64, RandomState>>)
    ensures
        match r {
            Some(s) => set_entries(s) == vals@ && vals@.no_duplicates(),
            None => !vals@.no_duplicates(),
        },
{
    let mut s = iset_new();
    let mut i: usize = 0;
    while i < vals.len()
        invariant
            i <= vals@.len(),
            set_entries(s) == vals@.take(i as int),
            forall|p: int, q: int| 0 <= p < q < i ==> vals@[p] != vals@[q],
        decreases vals@.len() - i,
    {
        let fresh = iset_insert(&mut s, vals[i]);
        if !fresh {
            proof {
                let t = choose|t: int|
                    0 <= t < vals@.take(i as int).len() && vals@.take(i as int)[t] == vals@[i as int];
                assert(vals@[t] == vals@[i as int]);
            }
            return None;
        }
        proof {
            assert(set_entries(s) =~= vals@.take(i + 1));
            assert forall|p: int| 0 <= p < i implies vals@[p] != vals@[i as int] by {
                assert(vals@.take(i as int)[p] == vals@[p]);
            }
        }
        i += 1;
    }
    proof {
        assert(vals@.take(vals@.len() as int) =~= vals@);
    }
    Some(s)
}

} // verus!
