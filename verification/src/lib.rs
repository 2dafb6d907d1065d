//! AORA: append-only random-accessed data persistence.
//!
//! A minimal embedded storage engine offering three persistence primitives
//! over flat binary container files: an append-only immutable key/value log,
//! an append-update key/value log with transactional paging, and a
//! one-to-many secondary index.
//!
//! Every container file starts with a fixed header (an 8-byte format tag and
//! a 2-byte version); the rest of each format is described in the module that
//! owns it. The components here hold the file image and the rebuilt in-memory
//! index as plain bytes and verified data structures; reading and writing the
//! actual files is left to the embedding program.

use vstd::prelude::*;

pub mod aomap;
pub mod assoc;
pub mod aumap;
pub mod codec;
pub mod errors;
pub mod index;
pub mod ordmap;
pub mod types;

use crate::assoc::{assoc_contains, assoc_keys, assoc_lookup, assoc_update};
use crate::aomap::{ao_extend, ao_insert, pairs_view, FileAoraMap};
use crate::aumap::{aura_contains, aura_lookup, FileAuraMap};
use crate::errors::Violation;
use crate::index::{mv_push, FileAoraIndex};

verus! {

/// Providers of append-only key/value maps: a key is bound once to an
/// opaque blob and the binding never changes.
pub trait AoraMap {
    /// The key/blob pairs the log holds, in insertion order.
    spec fn map_contents(&self) -> Seq<(u64, Seq<u8>)>;

    /// The provider's internal invariant.
    spec fn map_wf(&self) -> bool;

    /// True iff the key is present in the log.
    fn contains_key(&self, key: u64) -> (r: bool)
        requires
            self.map_wf(),
        ensures
            r == assoc_contains(self.map_contents(), key),
    ;

    /// Retrieves the blob bound to a key; an absent key yields no value.
    fn get(&self, key: u64) -> (r: Option<Vec<u8>>)
        requires
            self.map_wf(),
        ensures
            match r {
                Some(b) => assoc_lookup(self.map_contents(), key) == Some(b@),
                None => assoc_lookup(self.map_contents(), key) is None,
            },
    ;

    /// Retrieves the blob bound to a key whose presence is a precondition.
    fn get_expect(&self, key: u64) -> (r: Vec<u8>)
        requires
            self.map_wf(),
            assoc_contains(self.map_contents(), key),
        ensures
            assoc_lookup(self.map_contents(), key) == Some(r@),
    ;

    /// Appends an item to the log; re-inserting an equal blob is a no-op and
    /// a different blob under a known key is a fatal conflict.
    fn insert(&mut self, key: u64, value: &Vec<u8>) -> (r: Result<(), Violation>)
        requires
            old(self).map_wf(),
        ensures
            final(self).map_wf(),
            (final(self).map_contents(), r is Ok) == ao_insert(
                old(self).map_contents(),
                key,
                value@,
            ),
    ;

    /// Appends each pair in order, keeping per-pair conflict semantics.
    fn extend(&mut self, pairs: &Vec<(u64, Vec<u8>)>) -> (r: Result<(), Violation>)
        requires
            old(self).map_wf(),
        ensures
            final(self).map_wf(),
            (final(self).map_contents(), r is Ok) == (
                ao_extend(old(self).map_contents(), pairs_view(pairs@)).0,
                ao_extend(old(self).map_contents(), pairs_view(pairs@)).1 is None,
            ),
    ;

    /// The key and blob pairs in on-disk order.
    fn iter(&self) -> (r: Vec<(u64, Vec<u8>)>)
        requires
            self.map_wf(),
        ensures
            pairs_view(r@) == self.map_contents(),
    ;
}

/// Providers of one-to-many indexes: each key maps to a set of distinct
/// values that only ever grows.
pub trait AoraIndex {
    /// The records: each key with its distinct values, in insertion order.
    spec fn idx_records(&self) -> Seq<(u64, Seq<u64>)>;

    /// The provider's internal invariant.
    spec fn idx_wf(&self) -> bool;

    /// All known keys.
    fn keys(&self) -> (r: Vec<u64>)
        requires
            self.idx_wf(),
        ensures
            r@ == assoc_keys(self.idx_records()),
            r@.no_duplicates(),
    ;

    /// The number of values the key carries; zero for an unknown key.
    fn value_len(&self, key: u64) -> (r: usize)
        requires
            self.idx_wf(),
        ensures
            r == (match assoc_lookup(self.idx_records(), key) {
                Some(vs) => vs.len(),
                None => 0,
            }),
    ;

    /// True iff the key carries at least one value.
    fn contains_key(&self, key: u64) -> (r: bool)
        requires
            self.idx_wf(),
        ensures
            r == (match assoc_lookup(self.idx_records(), key) {
                Some(vs) => vs.len() > 0,
                None => false,
            }),
    ;

    /// The key's values; empty for an unknown key.
    fn get(&self, key: u64) -> (r: Vec<u64>)
        requires
            self.idx_wf(),
        ensures
            r@ == (match assoc_lookup(self.idx_records(), key) {
                Some(vs) => vs,
                None => Seq::<u64>::empty(),
            }),
    ;

    /// Adds a value to the key's set unless it is already there.
    fn push(&mut self, key: u64, val: u64)
        requires
            old(self).idx_wf(),
        ensures
            final(self).idx_wf(),
            final(self).idx_records() == mv_push(old(self).idx_records(), key, val),
    ;
}

/// Providers of append-update key/value maps with a pending page of
/// uncommitted writes.
pub trait AuraMap {
    /// The committed pages, oldest first.
    spec fn au_pages(&self) -> Seq<Seq<(u64, u64)>>;

    /// The pending page: writes of the open transaction, oldest first.
    spec fn au_pending(&self) -> Seq<(u64, u64)>;

    /// The provider's internal invariant.
    spec fn au_wf(&self) -> bool;

    /// The table's logical name.
    spec fn au_name(&self) -> Seq<char>;

    /// A human-readable table identifier.
    fn display(&self) -> (r: &String)
        ensures
            r@ == self.au_name(),
    ;

    /// All known keys, each once.
    fn keys(&self) -> (r: Vec<u64>)
        requires
            self.au_wf(),
        ensures
            r@.no_duplicates(),
            forall|k: u64| #[trigger] r@.contains(k) <==> aura_contains(
                self.au_pages(),
                self.au_pending(),
                k,
            ),
    ;

    /// True iff the key is known.
    fn contains_key(&self, key: u64) -> (r: bool)
        requires
            self.au_wf(),
        ensures
            r == aura_contains(self.au_pages(), self.au_pending(), key),
    ;

    /// The current value of a key: the most recent write decides.
    fn get(&self, key: u64) -> (r: Option<u64>)
        requires
            self.au_wf(),
        ensures
            r == aura_lookup(self.au_pages(), self.au_pending(), key),
    ;

    /// The current value of a key whose presence is a precondition.
    fn get_expect(&self, key: u64) -> (r: u64)
        requires
            self.au_wf(),
            aura_contains(self.au_pages(), self.au_pending(), key),
        ensures
            Some(r) == aura_lookup(self.au_pages(), self.au_pending(), key),
    ;

    /// Inserts a key that must not yet carry a different value; writing the
    /// value a key already has is a no-op, a different value a fatal
    /// conflict.
    fn insert_only(&mut self, key: u64, val: u64) -> (r: Result<(), Violation>)
        requires
            old(self).au_wf(),
        ensures
            final(self).au_wf(),
            final(self).au_pages() == old(self).au_pages(),
            match aura_lookup(old(self).au_pages(), old(self).au_pending(), key) {
                Some(w) => final(self).au_pending() == old(self).au_pending() && (r is Ok <==> w
                    == val),
                None => r is Ok && final(self).au_pending() == assoc_update(
                    old(self).au_pending(),
                    key,
                    val,
                ),
            },
    ;

    /// Upserts into the pending page only.
    fn insert_or_update(&mut self, key: u64, val: u64)
        requires
            old(self).au_wf(),
        ensures
            final(self).au_wf(),
            final(self).au_pages() == old(self).au_pages(),
            final(self).au_pending() == assoc_update(old(self).au_pending(), key, val),
    ;

    /// Updates a key that must already be known; an unknown key is a fatal
    /// error.
    fn update_only(&mut self, key: u64, val: u64) -> (r: Result<(), Violation>)
        requires
            old(self).au_wf(),
        ensures
            final(self).au_wf(),
            final(self).au_pages() == old(self).au_pages(),
            if aura_contains(old(self).au_pages(), old(self).au_pending(), key) {
                r is Ok && final(self).au_pending() == assoc_update(
                    old(self).au_pending(),
                    key,
                    val,
                )
            } else {
                r is Err && final(self).au_pending() == old(self).au_pending()
            },
    ;
}

/// Transaction interface for append-update logs: commit seals the pending
/// page as the next numbered page, abort discards it.
pub trait TransactionalMap: AuraMap {
    /// Commits the pending page and returns the new transaction number;
    /// with nothing pending, no transaction is created and none is
    /// returned. Transaction numbers are sequential.
    fn commit_transaction(&mut self) -> (r: Option<u64>)
        requires
            old(self).au_wf(),
        ensures
            final(self).au_wf(),
            final(self).au_pending().len() == 0,
            if old(self).au_pending().len() == 0 {
                r is None && final(self).au_pages() == old(self).au_pages()
            } else {
                r == Some(old(self).au_pages().len() as u64) && final(self).au_pages() == old(
                    self,
                ).au_pages().push(old(self).au_pending())
            },
    ;

    /// Discards the pending page.
    fn abort_transaction(&mut self)
        requires
            old(self).au_wf(),
        ensures
            final(self).au_wf(),
            final(self).au_pending().len() == 0,
            final(self).au_pages() == old(self).au_pages(),
    ;

    /// The keys committed in one transaction; an unknown transaction number
    /// is a fatal error.
    fn transaction_keys(&self, txno: u64) -> (r: Result<Vec<u64>, Violation>)
        requires
            self.au_wf(),
        ensures
            match r {
                Ok(keys) => txno < self.au_pages().len() && keys@ == assoc_keys(
                    self.au_pages()[txno as int],
                ) && keys@.no_duplicates(),
                Err(_) => txno >= self.au_pages().len(),
            },
    ;

    /// The number of committed transactions; the pending page does not
    /// count.
    fn transaction_count(&self) -> (r: u64)
        ensures
            r == self.au_pages().len(),
    ;
}

impl AoraMap for FileAoraMap {
    open spec fn map_contents(&self) -> Seq<(u64, Seq<u8>)> {
        self.contents()
    }

    open spec fn map_wf(&self) -> bool {
        self.wf()
    }

    fn contains_key(&self, key: u64) -> (r: bool) {
        self.contains_key(key)
    }

    fn get(&self, key: u64) -> (r: Option<Vec<u8>>) {
        self.get(key)
    }

    fn get_expect(&self, key: u64) -> (r: Vec<u8>) {
        self.get_expect(key)
    }

    fn insert(&mut self, key: u64, value: &Vec<u8>) -> (r: Result<(), Violation>) {
        self.insert(key, value)
    }

    fn extend(&mut self, pairs: &Vec<(u64, Vec<u8>)>) -> (r: Result<(), Violation>) {
        self.extend(pairs)
    }

    fn iter(&self) -> (r: Vec<(u64, Vec<u8>)>) {
        self.iter()
    }
}

impl AoraIndex for FileAoraIndex {
    open spec fn idx_records(&self) -> Seq<(u64, Seq<u64>)> {
        self.records()
    }

    open spec fn idx_wf(&self) -> bool {
        self.wf()
    }

    fn keys(&self) -> (r: Vec<u64>) {
        self.keys()
    }

    fn value_len(&self, key: u64) -> (r: usize) {
        self.value_len(key)
    }

    fn contains_key(&self, key: u64) -> (r: bool) {
        self.contains_key(key)
    }

    fn get(&self, key: u64) -> (r: Vec<u64>) {
        self.get(key)
    }

    fn push(&mut self, key: u64, val: u64) {
        self.push(key, val)
    }
}

impl AuraMap for FileAuraMap {
    open spec fn au_pages(&self) -> Seq<Seq<(u64, u64)>> {
        self.pages()
    }

    open spec fn au_pending(&self) -> Seq<(u64, u64)> {
        self.pending_entries()
    }

    open spec fn au_wf(&self) -> bool {
        self.wf()
    }

    open spec fn au_name(&self) -> Seq<char> {
        self.spec_name()
    }

    fn display(&self) -> (r: &String) {
        self.display()
    }

    fn keys(&self) -> (r: Vec<u64>) {
        self.keys()
    }

    fn contains_key(&self, key: u64) -> (r: bool) {
        self.contains_key(key)
    }

    fn get(&self, key: u64) -> (r: Option<u64>) {
        self.get(key)
    }

    fn get_expect(&self, key: u64) -> (r: u64) {
        self.get_expect(key)
    }

    fn insert_only(&mut self, key: u64, val: u64) -> (r: Result<(), Violation>) {
        self.insert_only(key, val)
    }

    fn insert_or_update(&mut self, key: u64, val: u64) {
        self.insert_or_update(key, val)
    }

    fn update_only(&mut self, key: u64, val: u64) -> (r: Result<(), Violation>) {
        self.update_only(key, val)
    }
}

impl TransactionalMap for FileAuraMap {
    fn commit_transaction(&mut self) -> (r: Option<u64>) {
        self.commit_transaction()
    }

    fn abort_transaction(&mut self) {
        self.abort_transaction()
    }

    fn transaction_keys(&self, txno: u64) -> (r: Result<Vec<u64>, Violation>) {
        self.transaction_keys(txno)
    }

    fn transaction_count(&self) -> (r: u64) {
        self.transaction_count()
    }
}

} // verus!
