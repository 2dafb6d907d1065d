//! The append-update key/value map with transactional paging. Writes
//! accumulate in a pending page; committing seals the pending page as the
//! next numbered transaction; aborting discards it. The current value of a
//! key is the most recent write: the pending page first, then the committed
//! pages, newest first.
//!
//! On disk the log is a single container file: the ten header bytes, then an
//! 8-byte little-endian page count, then for each page an 8-byte
//! little-endian key count followed by that many key/value pairs, each an
//! 8-byte little-endian key and an 8-byte little-endian value, in commit
//! order.

use vstd::prelude::*;
use indexmap::IndexMap;
use std::collections::hash_map::RandomState;
use crate::assoc::{
    assoc_contains, assoc_keys, assoc_lookup, assoc_update, distinct_keys,
    lemma_assoc_contains_take_step, lemma_assoc_lookup_at, lemma_assoc_lookup_contains,
    lemma_assoc_lookup_first_match, lemma_assoc_lookup_none, lemma_assoc_update_absent,
    lemma_assoc_update_at, lemma_assoc_update_distinct, lemma_assoc_update_lookup_other,
    lemma_assoc_update_lookup_same, lemma_assoc_update_noop, lemma_distinct_keys_no_dup,
    push_unique,
};
use crate::codec::{
    entries_bytes, has_header, header_bytes, lemma_entries_bytes_concat, lemma_entries_bytes_len,
    lemma_header_len, lemma_parse_entries_of_bytes, parse_entries, push_u64_le, read_u64_le,
    spec_header, HEADER_LEN,
};
use crate::errors::{AoraMapError, Violation};
use vstd::bytes::{
    lemma_auto_spec_u64_to_from_le_bytes, spec_u64_from_le_bytes, spec_u64_to_le_bytes,
};
use crate::ordmap::{
    imap_clear, imap_entries_vec, imap_get, imap_insert, imap_len, imap_new, map_entries,
};

verus! {

/// The writes committed in one transaction, in write order.
pub struct Page {
    entries: Vec<(u64, u64)>,
}

impl View for Page {
    type V = Seq<(u64, u64)>;

    closed spec fn view(&self) -> Seq<(u64, u64)> {
        self.entries@
    }
}

impl Page {
    /// The value the page carries for the key, if any.
    pub fn get(&self, key: u64) -> (r: Option<u64>)
        ensures
            r == assoc_lookup(self@, key),
    {
        let mut i: usize = 0;
        while i < self.entries.len()
            invariant
                i <= self@.len(),
                forall|j: int| 0 <= j < i ==> (#[trigger] self@[j]).0 != key,
            decreases self@.len() - i,
        {
            let (k, v) = self.entries[i];
            if k == key {
                proof {
                    lemma_assoc_lookup_first_match(self@, key, i as int);
                }
                return Some(v);
            }
            i += 1;
        }
        proof {
            lemma_assoc_lookup_none(self@, key);
        }
        None
    }
}

/// The contents of a sequence of pages.
pub open spec fn views_of(v: Seq<Page>) -> Seq<Seq<(u64, u64)>> {
    v.map_values(|p: Page| p@)
}

/// The value a stack of committed pages holds for a key: the newest page
/// that carries the key decides.
pub open spec fn pages_lookup(pages: Seq<Seq<(u64, u64)>>, key: u64) -> Option<u64>
    decreases pages.len(),
{
    if pages.len() == 0 {
        None
    } else {
        match assoc_lookup(pages.last(), key) {
            Some(v) => Some(v),
            None => pages_lookup(pages.drop_last(), key),
        }
    }
}

/// True iff some page carries the key.
pub open spec fn pages_contain(pages: Seq<Seq<(u64, u64)>>, key: u64) -> bool {
    exists|i: int| 0 <= i < pages.len() && assoc_contains(#[trigger] pages[i], key)
}

pub proof fn lemma_pages_lookup_contains(pages: Seq<Seq<(u64, u64)>>, key: u64)
    ensures
        pages_contain(pages, key) <==> pages_lookup(pages, key) is Some,
    decreases pages.len(),
{
    if pages.len() > 0 {
        lemma_assoc_lookup_contains(pages.last(), key);
        lemma_pages_lookup_contains(pages.drop_last(), key);
        if pages_lookup(pages, key) is Some {
            if assoc_lookup(pages.last(), key) is Some {
                assert(assoc_contains(pages[pages.len() - 1], key));
            } else {
                let i = choose|i: int|
                    0 <= i < pages.drop_last().len() && assoc_contains(
                        #[trigger] pages.drop_last()[i],
                        key,
                    );
                assert(assoc_contains(pages[i], key));
            }
        }
        if pages_contain(pages, key) {
            let i = choose|i: int|
                0 <= i < pages.len() && assoc_contains(#[trigger] pages[i], key);
            if i < pages.len() - 1 {
                assert(assoc_contains(pages.drop_last()[i], key));
            }
        }
    }
}

/// The current value of a key: the pending page decides first, then the
/// committed pages, newest first.
pub open spec fn aura_lookup(
    pages: Seq<Seq<(u64, u64)>>,
    pending: Seq<(u64, u64)>,
    key: u64,
) -> Option<u64> {
    match assoc_lookup(pending, key) {
        Some(v) => Some(v),
        None => pages_lookup(pages, key),
    }
}

/// True iff the key was ever written and not (there is no removal) aborted.
pub open spec fn aura_contains(
    pages: Seq<Seq<(u64, u64)>>,
    pending: Seq<(u64, u64)>,
    key: u64,
) -> bool {
    assoc_contains(pending, key) || pages_contain(pages, key)
}

pub proof fn lemma_aura_lookup_contains(
    pages: Seq<Seq<(u64, u64)>>,
    pending: Seq<(u64, u64)>,
    key: u64,
)
    ensures
        aura_contains(pages, pending, key) <==> aura_lookup(pages, pending, key) is Some,
{
    lemma_assoc_lookup_contains(pending, key);
    lemma_pages_lookup_contains(pages, key);
}

/// Writes made and then aborted are invisible: with the pending page
/// discarded, every lookup answers exactly as the committed pages alone do,
/// whatever had been written; the committed pages, and with them the
/// transaction count, are untouched by an abort.
pub proof fn lemma_abort_invisible(pages: Seq<Seq<(u64, u64)>>, key: u64)
    ensures
        aura_lookup(pages, Seq::empty(), key) == pages_lookup(pages, key),
        aura_contains(pages, Seq::empty(), key) == pages_contain(pages, key),
{
    assert(assoc_lookup(Seq::<(u64, u64)>::empty(), key) is None);
}

/// Committing changes no answer: sealing the pending page as the newest
/// committed page leaves every lookup as it was. In particular, writing a
/// key/value pair the log already carries and committing again collapses to
/// the same current value.
pub proof fn lemma_commit_preserves_lookup(
    pages: Seq<Seq<(u64, u64)>>,
    pending: Seq<(u64, u64)>,
    key: u64,
)
    ensures
        aura_lookup(pages.push(pending), Seq::empty(), key) == aura_lookup(pages, pending, key),
{
    assert(assoc_lookup(Seq::<(u64, u64)>::empty(), key) is None);
    assert(pages.push(pending).last() == pending);
    assert(pages.push(pending).drop_last() =~= pages);
}

/// A write is immediately visible and disturbs nothing else: after an
/// upsert the written key reads back the written value, every other key
/// reads as before, and writing the value the key's pending entry already
/// carries leaves the pending page unchanged.
pub proof fn lemma_write_then_lookup(
    pages: Seq<Seq<(u64, u64)>>,
    pending: Seq<(u64, u64)>,
    key: u64,
    val: u64,
    other: u64,
)
    ensures
        aura_lookup(pages, assoc_update(pending, key, val), key) == Some(val),
        other != key ==> aura_lookup(pages, assoc_update(pending, key, val), other) == aura_lookup(
            pages,
            pending,
            other,
        ),
        assoc_lookup(pending, key) == Some(val) ==> assoc_update(pending, key, val) == pending,
{
    lemma_assoc_update_lookup_same(pending, key, val);
    if other != key {
        lemma_assoc_update_lookup_other(pending, key, val, other);
    }
    if assoc_lookup(pending, key) == Some(val) {
        lemma_assoc_update_noop(pending, key, val);
    }
}

/// True iff every page carries each key at most once.
pub open spec fn pages_wf(pages: Seq<Seq<(u64, u64)>>) -> bool {
    forall|i: int| 0 <= i < pages.len() ==> distinct_keys(#[trigger] pages[i])
}

/// The bytes of one page: an 8-byte little-endian key count, then the pairs.
pub open spec fn page_bytes(page: Seq<(u64, u64)>) -> Seq<u8> {
    spec_u64_to_le_bytes(page.len() as u64) + entries_bytes(page)
}

/// The bytes of the page sequence, oldest page first.
pub open spec fn pages_bytes(pages: Seq<Seq<(u64, u64)>>) -> Seq<u8>
    decreases pages.len(),
{
    if pages.len() == 0 {
        Seq::empty()
    } else {
        page_bytes(pages[0]) + pages_bytes(pages.drop_first())
    }
}

/// The full file image: the ten header bytes, the 8-byte little-endian page
/// count, then the pages.
pub open spec fn image_of(magic: u64, version: u16, pages: Seq<Seq<(u64, u64)>>) -> Seq<u8> {
    spec_header(magic, version) + spec_u64_to_le_bytes(pages.len() as u64) + pages_bytes(pages)
}

pub proof fn lemma_pages_bytes_concat(a: Seq<Seq<(u64, u64)>>, b: Seq<Seq<(u64, u64)>>)
    ensures
        pages_bytes(a + b) == pages_bytes(a) + pages_bytes(b),
    decreases a.len(),
{
    if a.len() == 0 {
        assert(a + b =~= b);
        assert(pages_bytes(a) + pages_bytes(b) =~= pages_bytes(b));
    } else {
        assert((a + b)[0] == a[0]);
        assert((a + b).drop_first() =~= a.drop_first() + b);
        lemma_pages_bytes_concat(a.drop_first(), b);
        assert(page_bytes(a[0]) + (pages_bytes(a.drop_first()) + pages_bytes(b)) =~= (page_bytes(
            a[0],
        ) + pages_bytes(a.drop_first())) + pages_bytes(b));
    }
}

/// Parses exactly `n` pages and demands that they consume `bytes` exactly;
/// anything shorter or longer is a corrupt image.
pub open spec fn parse_pages(bytes: Seq<u8>, n: nat) -> Option<Seq<Seq<(u64, u64)>>>
    decreases n,
{
    if n == 0 {
        if bytes.len() == 0 {
            Some(Seq::empty())
        } else {
            None
        }
    } else if bytes.len() < 8 {
        None
    } else {
        let nk = spec_u64_from_le_bytes(bytes.take(8));
        if bytes.len() < 8 + 16 * (nk as int) {
            None
        } else {
            match parse_pages(bytes.skip(8 + 16 * (nk as int)), (n - 1) as nat) {
                Some(rest) => Some(seq![parse_entries(bytes.skip(8), nk as nat)] + rest),
                None => None,
            }
        }
    }
}

/// Parses a full file image: the header must match, the page count must be
/// consumed exactly, and every page must carry each key at most once.
pub open spec fn parse_image(bytes: Seq<u8>, magic: u64, version: u16) -> Option<
    Seq<Seq<(u64, u64)>>,
> {
    if bytes.len() < HEADER_LEN + 8 {
        None
    } else if bytes.take(HEADER_LEN as int) != spec_header(magic, version) {
        None
    } else {
        let n = spec_u64_from_le_bytes(bytes.subrange(HEADER_LEN as int, HEADER_LEN + 8));
        match parse_pages(bytes.skip(HEADER_LEN + 8), n as nat) {
            Some(pages) => if pages_wf(pages) {
                Some(pages)
            } else {
                None
            },
            None => None,
        }
    }
}

pub proof fn lemma_parse_pages_of_bytes(pages: Seq<Seq<(u64, u64)>>)
    requires
        forall|i: int|
            0 <= i < pages.len() ==> (#[trigger] pages[i]).len() < 0x1_0000_0000_0000_0000,
    ensures
        parse_pages(pages_bytes(pages), pages.len()) == Some(pages),
    decreases pages.len(),
{
    lemma_auto_spec_u64_to_from_le_bytes();
    if pages.len() > 0 {
        let p0 = pages[0];
        let rest = pages.drop_first();
        let b = pages_bytes(pages);
        lemma_entries_bytes_len(p0);
        assert(b.take(8) =~= spec_u64_to_le_bytes(p0.len() as u64));
        let nk = spec_u64_from_le_bytes(b.take(8));
        assert(nk == p0.len() as u64);
        assert(nk as int == p0.len());
        assert(b.len() >= 8 + 16 * (nk as int));
        lemma_parse_entries_of_bytes(p0, pages_bytes(rest));
        assert(b.skip(8) =~= entries_bytes(p0) + pages_bytes(rest));
        assert(parse_entries(b.skip(8), nk as nat) == p0);
        assert(b.skip(8 + 16 * (nk as int)) =~= pages_bytes(rest));
        assert(forall|i: int|
            0 <= i < rest.len() ==> (#[trigger] rest[i]).len() < 0x1_0000_0000_0000_0000) by {
            assert(forall|i: int| 0 <= i < rest.len() ==> rest[i] == pages[i + 1]);
        }
        lemma_parse_pages_of_bytes(rest);
        assert(parse_pages(b, pages.len()) == Some(seq![p0] + rest));
        assert(seq![p0] + rest =~= pages);
    }
}

/// A faithfully serialized image parses back to exactly the pages it was
/// written from: nothing is lost and nothing is invented.
pub proof fn lemma_image_round_trip(magic: u64, version: u16, pages: Seq<Seq<(u64, u64)>>)
    requires
        pages_wf(pages),
        pages.len() < 0x1_0000_0000_0000_0000,
        forall|i: int|
            0 <= i < pages.len() ==> (#[trigger] pages[i]).len() < 0x1_0000_0000_0000_0000,
    ensures
        parse_image(image_of(magic, version, pages), magic, version) == Some(pages),
{
    lemma_auto_spec_u64_to_from_le_bytes();
    lemma_header_len(magic, version);
    let img = image_of(magic, version, pages);
    assert(img.take(HEADER_LEN as int) =~= spec_header(magic, version));
    assert(img.subrange(HEADER_LEN as int, HEADER_LEN + 8) =~= spec_u64_to_le_bytes(
        pages.len() as u64,
    ));
    let n = spec_u64_from_le_bytes(img.subrange(HEADER_LEN as int, HEADER_LEN + 8));
    assert(n == pages.len() as u64);
    assert(img.skip(HEADER_LEN + 8) =~= pages_bytes(pages));
    lemma_parse_pages_of_bytes(pages);
}

pub proof fn lemma_parse_pages_prefix_none(pages: Seq<Seq<(u64, u64)>>, b: Seq<u8>)
    requires
        forall|i: int|
            0 <= i < pages.len() ==> (#[trigger] pages[i]).len() < 0x1_0000_0000_0000_0000,
        b.len() < pages_bytes(pages).len(),
        b == pages_bytes(pages).take(b.len() as int),
    ensures
        parse_pages(b, pages.len()) is None,
    decreases pages.len(),
{
    lemma_auto_spec_u64_to_from_le_bytes();
    if pages.len() == 0 {
        assert(false);
    } else {
        let p0 = pages[0];
        let rest = pages.drop_first();
        let full = pages_bytes(pages);
        lemma_entries_bytes_len(p0);
        if b.len() >= 8 {
            assert(b.take(8) =~= full.take(8));
            assert(full.take(8) =~= spec_u64_to_le_bytes(p0.len() as u64));
            let nk = spec_u64_from_le_bytes(b.take(8));
            assert(nk == p0.len() as u64);
            assert(nk as int == p0.len());
            if b.len() >= 8 + 16 * (nk as int) {
                let cut = 8 + 16 * (nk as int);
                assert(page_bytes(p0).len() == cut);
                assert(b.skip(cut) =~= pages_bytes(rest).take(b.len() - cut)) by {
                    assert forall|j: int| 0 <= j < b.len() - cut implies b.skip(cut)[j]
                        == pages_bytes(rest)[j] by {
                        assert(b[cut + j] == full[cut + j]);
                        assert(full[cut + j] == pages_bytes(rest)[j]);
                    }
                }
                assert(b.len() - cut < pages_bytes(rest).len());
                assert(forall|i: int|
                    0 <= i < rest.len() ==> (#[trigger] rest[i]).len()
                        < 0x1_0000_0000_0000_0000) by {
                    assert(forall|i: int| 0 <= i < rest.len() ==> rest[i] == pages[i + 1]);
                }
                lemma_parse_pages_prefix_none(rest, b.skip(cut));
            }
        }
    }
}

pub proof fn lemma_parse_pages_extended_none(pages: Seq<Seq<(u64, u64)>>, extra: Seq<u8>)
    requires
        forall|i: int|
            0 <= i < pages.len() ==> (#[trigger] pages[i]).len() < 0x1_0000_0000_0000_0000,
        extra.len() > 0,
    ensures
        parse_pages(pages_bytes(pages) + extra, pages.len()) is None,
    decreases pages.len(),
{
    lemma_auto_spec_u64_to_from_le_bytes();
    let b = pages_bytes(pages) + extra;
    if pages.len() == 0 {
        assert(b.len() > 0);
    } else {
        let p0 = pages[0];
        let rest = pages.drop_first();
        lemma_entries_bytes_len(p0);
        assert(b.take(8) =~= spec_u64_to_le_bytes(p0.len() as u64));
        let nk = spec_u64_from_le_bytes(b.take(8));
        assert(nk == p0.len() as u64);
        assert(nk as int == p0.len());
        assert(b.len() >= 8 + 16 * (nk as int));
        assert(b.skip(8 + 16 * (nk as int)) =~= pages_bytes(rest) + extra);
        assert(forall|i: int|
            0 <= i < rest.len() ==> (#[trigger] rest[i]).len() < 0x1_0000_0000_0000_0000) by {
            assert(forall|i: int| 0 <= i < rest.len() ==> rest[i] == pages[i + 1]);
        }
        lemma_parse_pages_extended_none(rest, extra);
    }
}

/// Trailing bytes that the page count does not account for make the image
/// unparseable: a commit that appended its page but crashed before the
/// count was patched is caught on the next open.
pub proof fn lemma_trailing_bytes_detected(
    magic: u64,
    version: u16,
    pages: Seq<Seq<(u64, u64)>>,
    extra: Seq<u8>,
)
    requires
        pages.len() < 0x1_0000_0000_0000_0000,
        forall|i: int|
            0 <= i < pages.len() ==> (#[trigger] pages[i]).len() < 0x1_0000_0000_0000_0000,
        extra.len() > 0,
    ensures
        parse_image(image_of(magic, version, pages) + extra, magic, version) is None,
{
    lemma_auto_spec_u64_to_from_le_bytes();
    lemma_header_len(magic, version);
    let img = image_of(magic, version, pages) + extra;
    assert(img.take(HEADER_LEN as int) =~= spec_header(magic, version));
    assert(img.subrange(HEADER_LEN as int, HEADER_LEN + 8) =~= spec_u64_to_le_bytes(
        pages.len() as u64,
    ));
    let cnt = spec_u64_from_le_bytes(img.subrange(HEADER_LEN as int, HEADER_LEN + 8));
    assert(cnt == pages.len() as u64);
    assert(cnt as nat == pages.len());
    assert(img.skip(HEADER_LEN + 8) =~= pages_bytes(pages) + extra);
    lemma_parse_pages_extended_none(pages, extra);
}

/// Truncating a serialized image by any number of trailing bytes makes it
/// unparseable: open reports corruption instead of loading partial data.
pub proof fn lemma_truncation_detected(
    magic: u64,
    version: u16,
    pages: Seq<Seq<(u64, u64)>>,
    n: int,
)
    requires
        pages.len() < 0x1_0000_0000_0000_0000,
        forall|i: int|
            0 <= i < pages.len() ==> (#[trigger] pages[i]).len() < 0x1_0000_0000_0000_0000,
        0 <= n < image_of(magic, version, pages).len(),
    ensures
        parse_image(image_of(magic, version, pages).take(n), magic, version) is None,
{
    lemma_auto_spec_u64_to_from_le_bytes();
    lemma_header_len(magic, version);
    let img = image_of(magic, version, pages);
    let pre = img.take(n);
    if n >= HEADER_LEN + 8 {
        assert(pre.take(HEADER_LEN as int) =~= spec_header(magic, version));
        assert(pre.subrange(HEADER_LEN as int, HEADER_LEN + 8) =~= spec_u64_to_le_bytes(
            pages.len() as u64,
        ));
        let cnt = spec_u64_from_le_bytes(pre.subrange(HEADER_LEN as int, HEADER_LEN + 8));
        assert(cnt == pages.len() as u64);
        assert(cnt as nat == pages.len());
        let body = pre.skip(HEADER_LEN + 8);
        assert(body.len() < pages_bytes(pages).len());
        assert(body =~= pages_bytes(pages).take(body.len() as int)) by {
            assert forall|j: int| 0 <= j < body.len() implies body[j] == pages_bytes(pages)[j] by {
                assert(body[j] == pre[HEADER_LEN + 8 + j]);
                assert(pre[HEADER_LEN + 8 + j] == img[HEADER_LEN + 8 + j]);
                assert(img[HEADER_LEN + 8 + j] == pages_bytes(pages)[j]);
            }
        }
        lemma_parse_pages_prefix_none(pages, body);
    }
}

/// A plain copy of a transactional log's state: the committed pages and
/// the pending page.
pub struct FileAuraMapDump {
    pub on_disk: Vec<Vec<(u64, u64)>>,
    pub pending: Vec<(u64, u64)>,
}

/// The append-update key/value map with transactional paging.
pub struct FileAuraMap {
    magic: u64,
    version: u16,
    name: String,
    path: String,
    on_disk: Vec<Page>,
    pending: IndexMap<u64, u64, RandomState>,
}

impl FileAuraMap {
    /// The committed pages, oldest first; a page's index is its transaction
    /// number.
    pub closed spec fn pages(self) -> Seq<Seq<(u64, u64)>> {
        views_of(self.on_disk@)
    }

    /// The pending page: writes of the open transaction, oldest first.
    pub closed spec fn pending_entries(self) -> Seq<(u64, u64)> {
        map_entries(self.pending)
    }

    pub closed spec fn spec_magic(self) -> u64 {
        self.magic
    }

    pub closed spec fn spec_version(self) -> u16 {
        self.version
    }

    pub closed spec fn spec_name(self) -> Seq<char> {
        self.name@
    }

    pub closed spec fn spec_path(self) -> Seq<char> {
        self.path@
    }

    /// Every page, committed or pending, carries a key at most once.
    pub open spec fn wf(self) -> bool {
        &&& distinct_keys(self.pending_entries())
        &&& pages_wf(self.pages())
    }

    /// The current value of a key.
    pub open spec fn lookup(self, key: u64) -> Option<u64> {
        aura_lookup(self.pages(), self.pending_entries(), key)
    }

    /// True iff the key is known to the log.
    pub open spec fn contains_spec(self, key: u64) -> bool {
        aura_contains(self.pages(), self.pending_entries(), key)
    }

    /// True iff `other` is the same table with the same identity fields.
    pub open spec fn same_table(self, other: FileAuraMap) -> bool {
        &&& self.spec_magic() == other.spec_magic()
        &&& self.spec_version() == other.spec_version()
        &&& self.spec_name() == other.spec_name()
        &&& self.spec_path() == other.spec_path()
    }

    /// A fresh, empty log: no committed pages and no pending writes.
    pub fn create_new(magic: u64, version: u16, name: String, path: String) -> (r: FileAuraMap)
        ensures
            r.wf(),
            r.pages().len() == 0,
            r.pending_entries().len() == 0,
            r.spec_magic() == magic,
            r.spec_version() == version,
            r.spec_name() == name@,
            r.spec_path() == path@,
    {
        let r = FileAuraMap {
            magic,
            version,
            name,
            path,
            on_disk: Vec::new(),
            pending: imap_new(),
        };
        proof {
            assert(r.pages() =~= Seq::<Seq<(u64, u64)>>::empty());
        }
        r
    }

    /// The table's human-readable identifier.
    pub fn display(&self) -> (r: &String)
        ensures
            r@ == self.spec_name(),
    {
        &self.name
    }

    /// The path the table was given at construction.
    pub fn path(&self) -> (r: &String)
        ensures
            r@ == self.spec_path(),
    {
        &self.path
    }

    /// Retrieves the current value of a key, the pending write first.
    pub fn get(&self, key: u64) -> (r: Option<u64>)
        requires
            self.wf(),
        ensures
            r == self.lookup(key),
    {
        match imap_get(&self.pending, key) {
            Some(v) => {
                proof {
                    let i = choose|i: int|
                        0 <= i < self.pending_entries().len()
                            && #[trigger] self.pending_entries()[i] == (key, v);
                    lemma_assoc_lookup_at(self.pending_entries(), key, i);
                }
                Some(v)
            },
            None => {
                proof {
                    lemma_assoc_lookup_contains(self.pending_entries(), key);
                }
                let ghost pages = self.pages();
                let mut i: usize = self.on_disk.len();
                proof {
                    assert(pages.take(i as int) =~= pages);
                }
                while i > 0
                    invariant
                        i <= pages.len(),
                        pages == self.pages(),
                        assoc_lookup(self.pending_entries(), key) is None,
                        pages_lookup(pages, key) == pages_lookup(pages.take(i as int), key),
                    decreases i,
                {
                    i -= 1;
                    let r = self.on_disk[i].get(key);
                    proof {
                        assert(pages.take(i + 1).last() == pages[i as int]);
                        assert(pages.take(i + 1).drop_last() =~= pages.take(i as int));
                        assert(pages[i as int] == self.on_disk@[i as int]@);
                    }
                    if let Some(v) = r {
                        proof {
                            assert(pages_lookup(pages.take(i + 1), key) == Some(v));
                        }
                        return Some(v);
                    }
                }
                proof {
                    assert(pages.take(0) =~= Seq::<Seq<(u64, u64)>>::empty());
                }
                None
            },
        }
    }

    /// True iff the key is known to the log.
    pub fn contains_key(&self, key: u64) -> (r: bool)
        requires
            self.wf(),
        ensures
            r == self.contains_spec(key),
    {
        proof {
            lemma_aura_lookup_contains(self.pages(), self.pending_entries(), key);
        }
        self.get(key).is_some()
    }

    /// Retrieves the value of a key that is known to be present.
    pub fn get_expect(&self, key: u64) -> (r: u64)
        requires
            self.wf(),
            self.contains_spec(key),
        ensures
            Some(r) == self.lookup(key),
    {
        proof {
            lemma_aura_lookup_contains(self.pages(), self.pending_entries(), key);
        }
        self.get(key).unwrap()
    }

    /// Upserts into the pending page only; committed pages are untouched.
    pub fn insert_or_update(&mut self, key: u64, val: u64)
        requires
            old(self).wf(),
        ensures
            final(self).wf(),
            final(self).same_table(*old(self)),
            final(self).pages() == old(self).pages(),
            final(self).pending_entries() == assoc_update(old(self).pending_entries(), key, val),
    {
        let ghost pend = self.pending_entries();
        let r = imap_insert(&mut self.pending, key, val);
        proof {
            match r {
                Some(v) => {
                    let i = choose|i: int|
                        0 <= i < pend.len() && #[trigger] pend[i] == (key, v) && map_entries(
                            self.pending,
                        ) == pend.update(i, (key, val));
                    lemma_assoc_update_at(pend, key, val, i);
                },
                None => {
                    lemma_assoc_update_absent(pend, key, val);
                },
            }
            lemma_assoc_update_distinct(pend, key, val);
            assert(self.on_disk@ == old(self).on_disk@);
            assert(self.pages() =~= old(self).pages());
            assert forall|i: int| 0 <= i < self.pages().len() implies distinct_keys(
                #[trigger] self.pages()[i],
            ) by {
                assert(self.pages()[i] == old(self).pages()[i]);
            }
        }
    }

    /// Inserts a key that must not yet carry a different value. Writing the
    /// value a key already has is a no-op; writing a different value under a
    /// known key is a fatal conflict and leaves the log unchanged.
    pub fn insert_only(&mut self, key: u64, val: u64) -> (r: Result<(), Violation>)
        requires
            old(self).wf(),
        ensures
            final(self).wf(),
            final(self).same_table(*old(self)),
            final(self).pages() == old(self).pages(),
            match old(self).lookup(key) {
                Some(w) => {
                    if w == val {
                        r is Ok && final(self).pending_entries() == old(self).pending_entries()
                    } else {
                        &&& r matches Err(Violation::KeyConflict {
                            table,
                            key: k,
                            old_value,
                            new_value,
                        }) && table@ == old(self).spec_name() && k == key && old_value == w
                            && new_value == val
                        &&& final(self).pending_entries() == old(self).pending_entries()
                    }
                },
                None => r is Ok && final(self).pending_entries() == assoc_update(
                    old(self).pending_entries(),
                    key,
                    val,
                ),
            },
    {
        match self.get(key) {
            Some(w) => {
                if w == val {
                    Ok(())
                } else {
                    Err(
                        Violation::KeyConflict {
                            table: self.name.clone(),
                            key,
                            old_value: w,
                            new_value: val,
                        },
                    )
                }
            },
            None => {
                self.insert_or_update(key, val);
                Ok(())
            },
        }
    }

    /// Updates a key that must already be known; an unknown key is a fatal
    /// error and leaves the log unchanged.
    pub fn update_only(&mut self, key: u64, val: u64) -> (r: Result<(), Violation>)
        requires
            old(self).wf(),
        ensures
            final(self).wf(),
            final(self).same_table(*old(self)),
            final(self).pages() == old(self).pages(),
            if old(self).contains_spec(key) {
                r is Ok && final(self).pending_entries() == assoc_update(
                    old(self).pending_entries(),
                    key,
                    val,
                )
            } else {
                (r matches Err(Violation::UnknownKey { table, key: k }) && table@ == old(
                    self,
                ).spec_name() && k == key) && final(self).pending_entries() == old(
                    self,
                ).pending_entries()
            },
    {
        if self.contains_key(key) {
            self.insert_or_update(key, val);
            Ok(())
        } else {
            Err(Violation::UnknownKey { table: self.name.clone(), key })
        }
    }

    /// Seals the pending page as the next transaction and returns its
    /// number; with nothing pending there is nothing to commit and no
    /// transaction number is spent.
    pub fn commit_transaction(&mut self) -> (r: Option<u64>)
        requires
            old(self).wf(),
        ensures
            final(self).wf(),
            final(self).same_table(*old(self)),
            final(self).pending_entries().len() == 0,
            if old(self).pending_entries().len() == 0 {
                r is None && final(self).pages() == old(self).pages()
            } else {
                r == Some(old(self).pages().len() as u64) && final(self).pages() == old(
                    self,
                ).pages().push(old(self).pending_entries())
            },
    {
        if imap_len(&self.pending) == 0 {
            proof {
                assert(self.pending_entries() =~= Seq::<(u64, u64)>::empty());
            }
            return None;
        }
        let ghost pend = self.pending_entries();
        let entries = imap_entries_vec(&self.pending);
        imap_clear(&mut self.pending);
        let n = self.on_disk.len();
        self.on_disk.push(Page { entries });
        proof {
            assert(self.pages() =~= old(self).pages().push(pend));
        }
        Some(n as u64)
    }

    /// Discards the pending page; committed pages are untouched.
    pub fn abort_transaction(&mut self)
        requires
            old(self).wf(),
        ensures
            final(self).wf(),
            final(self).same_table(*old(self)),
            final(self).pages() == old(self).pages(),
            final(self).pending_entries().len() == 0,
    {
        imap_clear(&mut self.pending);
        proof {
            assert(map_entries(self.pending) =~= Seq::<(u64, u64)>::empty());
            assert(self.pages() =~= old(self).pages());
            assert forall|i: int| 0 <= i < self.pages().len() implies distinct_keys(
                #[trigger] self.pages()[i],
            ) by {
                assert(self.pages()[i] == old(self).pages()[i]);
            }
        }
    }

    /// The number of committed pages; the pending page does not count.
    pub fn transaction_count(&self) -> (r: u64)
        ensures
            r == self.pages().len(),
    {
        self.on_disk.len() as u64
    }

    /// The keys committed in transaction `txno`, in write order; an unknown
    /// transaction number is a fatal error.
    pub fn transaction_keys(&self, txno: u64) -> (r: Result<Vec<u64>, Violation>)
        requires
            self.wf(),
        ensures
            match r {
                Ok(keys) => txno < self.pages().len() && keys@ == assoc_keys(
                    self.pages()[txno as int],
                ) && keys@.no_duplicates(),
                Err(e) => txno >= self.pages().len() && (e matches Violation::UnknownTransaction {
                    table,
                    txno: t,
                } && table@ == self.spec_name() && t == txno),
            },
    {
        if txno < self.on_disk.len() as u64 {
            let page = &self.on_disk[txno as usize];
            let ghost entries = self.pages()[txno as int];
            proof {
                assert(entries == page@);
            }
            let mut keys: Vec<u64> = Vec::new();
            let mut i: usize = 0;
            while i < page.entries.len()
                invariant
                    i <= entries.len(),
                    entries == page@,
                    keys@.len() == i,
                    forall|j: int| 0 <= j < i ==> keys@[j] == (#[trigger] entries[j]).0,
                decreases entries.len() - i,
            {
                let (k, _) = page.entries[i];
                keys.push(k);
                i += 1;
            }
            proof {
                assert(keys@ =~= assoc_keys(entries));
                lemma_distinct_keys_no_dup(entries);
            }
            Ok(keys)
        } else {
            Err(Violation::UnknownTransaction { table: self.name.clone(), txno })
        }
    }

    /// All keys the log knows: the union over the committed pages and the
    /// pending page, each key once.
    pub fn keys(&self) -> (r: Vec<u64>)
        requires
            self.wf(),
        ensures
            r@.no_duplicates(),
            forall|k: u64| #[trigger] r@.contains(k) <==> self.contains_spec(k),
    {
        let ghost pages = self.pages();
        let ghost pend = self.pending_entries();
        let mut keys: Vec<u64> = Vec::new();
        let mut i: usize = 0;
        proof {
            assert(pages.take(0) =~= Seq::<Seq<(u64, u64)>>::empty());
        }
        while i < self.on_disk.len()
            invariant
                self.wf(),
                i <= pages.len(),
                pages == self.pages(),
                pend == self.pending_entries(),
                keys@.no_duplicates(),
                forall|k: u64| #[trigger] keys@.contains(k) <==> pages_contain(
                    pages.take(i as int),
                    k,
                ),
            decreases pages.len() - i,
        {
            let page = &self.on_disk[i];
            let ghost entries = pages[i as int];
            let mut j: usize = 0;
            proof {
                assert(entries == page@);
                assert(entries.take(0) =~= Seq::<(u64, u64)>::empty());
            }
            while j < page.entries.len()
                invariant
                    j <= entries.len(),
                    entries == page@,
                    pages == self.pages(),
                    i < pages.len(),
                    entries == pages[i as int],
                    keys@.no_duplicates(),
                    forall|k: u64| #[trigger] keys@.contains(k) <==> (pages_contain(
                        pages.take(i as int),
                        k,
                    ) || assoc_contains(entries.take(j as int), k)),
                decreases entries.len() - j,
            {
                let (k, _) = page.entries[j];
                proof {
                    lemma_assoc_contains_take_step(entries, j as int);
                }
                push_unique(&mut keys, k);
                j += 1;
            }
            proof {
                assert(entries.take(entries.len() as int) =~= entries);
                assert(forall|k: u64|
                    #[trigger] pages_contain(pages.take(i + 1), k) <==> (pages_contain(
                        pages.take(i as int),
                        k,
                    ) || assoc_contains(entries, k))) by {
                    assert forall|k: u64|
                        pages_contain(pages.take(i + 1), k) <==> (pages_contain(
                            pages.take(i as int),
                            k,
                        ) || assoc_contains(entries, k)) by {
                        if pages_contain(pages.take(i + 1), k) {
                            let m = choose|m: int|
                                0 <= m < pages.take(i + 1).len() && assoc_contains(
                                    #[trigger] pages.take(i + 1)[m],
                                    k,
                                );
                            if m < i {
                                assert(assoc_contains(pages.take(i as int)[m], k));
                            } else {
                                assert(assoc_contains(entries, k));
                            }
                        }
                        if pages_contain(pages.take(i as int), k) {
                            let m = choose|m: int|
                                0 <= m < pages.take(i as int).len() && assoc_contains(
                                    #[trigger] pages.take(i as int)[m],
                                    k,
                                );
                            assert(assoc_contains(pages.take(i + 1)[m], k));
                        }
                        if assoc_contains(entries, k) {
                            assert(assoc_contains(pages.take(i + 1)[i as int], k));
                        }
                    }
                }
            }
            i += 1;
        }
        proof {
            assert(pages.take(pages.len() as int) =~= pages);
        }
        let pending_entries = imap_entries_vec(&self.pending);
        let mut j: usize = 0;
        proof {
            assert(pend.take(0) =~= Seq::<(u64, u64)>::empty());
        }
        while j < pending_entries.len()
            invariant
                j <= pend.len(),
                pending_entries@ == pend,
                pages == self.pages(),
                keys@.no_duplicates(),
                forall|k: u64| #[trigger] keys@.contains(k) <==> (pages_contain(pages, k)
                    || assoc_contains(pend.take(j as int), k)),
            decreases pend.len() - j,
        {
            let (k, _) = pending_entries[j];
            proof {
                lemma_assoc_contains_take_step(pend, j as int);
            }
            push_unique(&mut keys, k);
            j += 1;
        }
        proof {
            assert(pend.take(pend.len() as int) =~= pend);
        }
        keys
    }

    /// Replays the page region of a file image from byte offset `start`,
    /// expecting exactly `count` pages and exact consumption of the rest of
    /// the bytes.
    fn parse_all(bytes: &Vec<u8>, start: usize, count: u64) -> (r: Option<Vec<Page>>)
        requires
            start <= bytes@.len(),
        ensures
            match r {
                Some(v) => parse_pages(bytes@.skip(start as int), count as nat) == Some(
                    views_of(v@),
                ),
                None => parse_pages(bytes@.skip(start as int), count as nat) is None,
            },
    {
        let ghost body = bytes@.skip(start as int);
        let n_all = bytes.len();
        let mut pos: usize = start;
        let mut parsed: Vec<Page> = Vec::new();
        let mut p: u64 = 0;
        proof {
            assert(views_of(parsed@) =~= Seq::<Seq<(u64, u64)>>::empty());
            if parse_pages(bytes@.skip(pos as int), count as nat) is Some {
                let rest = parse_pages(bytes@.skip(pos as int), count as nat)->Some_0;
                assert(views_of(parsed@) + rest =~= rest);
            }
        }
        while p < count
            invariant
                start <= pos <= bytes@.len(),
                n_all == bytes@.len(),
                p <= count,
                parsed@.len() == p,
                body == bytes@.skip(start as int),
                parse_pages(body, count as nat) == (match parse_pages(
                    bytes@.skip(pos as int),
                    (count - p) as nat,
                ) {
                    Some(rest) => Some(views_of(parsed@) + rest),
                    None => None,
                }),
            decreases count - p,
        {
            let ghost sub = bytes@.skip(pos as int);
            if n_all - pos < 8 {
                return None;
            }
            let nk = read_u64_le(bytes, pos);
            proof {
                assert(sub.take(8) =~= bytes@.subrange(pos as int, pos + 8));
            }
            let mut entries: Vec<(u64, u64)> = Vec::new();
            let mut c: usize = pos + 8;
            let mut j: u64 = 0;
            while j < nk
                invariant
                    start <= pos,
                    pos + 8 <= c <= n_all,
                    n_all == bytes@.len(),
                    p < count,
                    parsed@.len() == p,
                    j <= nk,
                    entries@.len() == j,
                    c == pos + 8 + 16 * j,
                    sub == bytes@.skip(pos as int),
                    body == bytes@.skip(start as int),
                    nk == spec_u64_from_le_bytes(sub.take(8)),
                    forall|t: int|
                        0 <= t < j ==> #[trigger] entries@[t] == parse_entries(
                            sub.skip(8),
                            nk as nat,
                        )[t],
                    parse_pages(body, count as nat) == (match parse_pages(
                        bytes@.skip(pos as int),
                        (count - p) as nat,
                    ) {
                        Some(rest) => Some(views_of(parsed@) + rest),
                        None => None,
                    }),
                decreases nk - j,
            {
                if n_all - c < 16 {
                    proof {
                        assert(sub.len() < 8 + 16 * (nk as int));
                        assert(parse_pages(sub, (count - p) as nat) is None);
                    }
                    return None;
                }
                let k = read_u64_le(bytes, c);
                let v = read_u64_le(bytes, c + 8);
                proof {
                    assert(sub.skip(8).subrange(16 * (j as int), 16 * (j as int) + 8)
                        =~= bytes@.subrange(c as int, c + 8));
                    assert(sub.skip(8).subrange(16 * (j as int) + 8, 16 * (j as int) + 16)
                        =~= bytes@.subrange(c + 8, c + 16));
                }
                entries.push((k, v));
                c += 16;
                j += 1;
            }
            let ghost old_views = views_of(parsed@);
            let ghost page_view = entries@;
            parsed.push(Page { entries });
            proof {
                assert(sub.len() >= 8 + 16 * (nk as int));
                assert(page_view =~= parse_entries(sub.skip(8), nk as nat));
                let subp = bytes@.skip(c as int);
                assert(sub.skip(8 + 16 * (nk as int)) =~= subp);
                assert(views_of(parsed@) =~= old_views.push(page_view));
                match parse_pages(subp, (count - (p + 1)) as nat) {
                    Some(rest2) => {
                        assert(parse_pages(sub, (count - p) as nat) == Some(
                            seq![page_view] + rest2,
                        ));
                        assert(views_of(parsed@) + rest2 =~= old_views + (seq![page_view]
                            + rest2));
                    },
                    None => {
                        assert(parse_pages(sub, (count - p) as nat) is None);
                    },
                }
            }
            pos = c;
            p = p + 1;
        }
        if pos != n_all {
            proof {
                assert(bytes@.skip(pos as int).len() > 0);
                assert(parse_pages(bytes@.skip(pos as int), 0) is None);
            }
            return None;
        }
        proof {
            assert(bytes@.skip(pos as int).len() == 0);
            assert(parse_pages(bytes@.skip(pos as int), 0) == Some(Seq::<Seq<(u64, u64)>>::empty()));
            assert(views_of(parsed@) + Seq::<Seq<(u64, u64)>>::empty() =~= views_of(parsed@));
        }
        Some(parsed)
    }

    /// Rebuilds a log from the bytes of its backing file. The header must
    /// match, the page count must account for the file exactly — a shorter
    /// or longer file signals truncation or a botched prior write — and
    /// every page must carry each key at most once.
    pub fn open(bytes: Vec<u8>, magic: u64, version: u16, name: String, path: String) -> (r:
        Result<FileAuraMap, AoraMapError>)
        ensures
            match r {
                Ok(db) => {
                    &&& parse_image(bytes@, magic, version) == Some(db.pages())
                    &&& db.wf()
                    &&& db.pending_entries().len() == 0
                    &&& db.spec_magic() == magic
                    &&& db.spec_version() == version
                    &&& db.spec_name() == name@
                    &&& db.spec_path() == path@
                },
                Err(e) => {
                    &&& parse_image(bytes@, magic, version) is None
                    &&& e matches AoraMapError::Corrupted { name: n, path: p } && n@ == name@
                        && p@ == path@
                },
            },
    {
        if bytes.len() < HEADER_LEN + 8 {
            return Err(AoraMapError::Corrupted { name, path });
        }
        if !has_header(&bytes, magic, version) {
            return Err(AoraMapError::Corrupted { name, path });
        }
        let count = read_u64_le(&bytes, HEADER_LEN);
        match Self::parse_all(&bytes, HEADER_LEN + 8, count) {
            None => Err(AoraMapError::Corrupted { name, path }),
            Some(parsed) => {
                let ghost pages = views_of(parsed@);
                let mut i: usize = 0;
                while i < parsed.len()
                    invariant
                        i <= parsed@.len(),
                        pages == views_of(parsed@),
                        bytes@.len() >= HEADER_LEN + 8,
                        bytes@.take(HEADER_LEN as int) == spec_header(magic, version),
                        count == spec_u64_from_le_bytes(
                            bytes@.subrange(HEADER_LEN as int, HEADER_LEN + 8),
                        ),
                        parse_pages(bytes@.skip(HEADER_LEN + 8), count as nat) == Some(pages),
                        forall|t: int| 0 <= t < i ==> distinct_keys(#[trigger] pages[t]),
                    decreases parsed@.len() - i,
                {
                    if !crate::assoc::pairs_distinct_keys(&parsed[i].entries) {
                        proof {
                            assert(pages[i as int] == parsed@[i as int]@);
                            assert(!pages_wf(pages));
                        }
                        return Err(AoraMapError::Corrupted { name, path });
                    }
                    proof {
                        assert(pages[i as int] == parsed@[i as int]@);
                    }
                    i += 1;
                }
                let db = FileAuraMap {
                    magic,
                    version,
                    name,
                    path,
                    on_disk: parsed,
                    pending: imap_new(),
                };
                Ok(db)
            },
        }
    }

    /// The durable image of the committed pages, ready to be written to the
    /// backing file; pending writes are not part of it.
    pub fn save(&self) -> (r: Vec<u8>)
        ensures
            r@ == image_of(self.spec_magic(), self.spec_version(), self.pages()),
    {
        let ghost pages = self.pages();
        let mut out = header_bytes(self.magic, self.version);
        push_u64_le(&mut out, self.on_disk.len() as u64);
        let ghost prefix = out@;
        proof {
            assert(pages.take(0) =~= Seq::<Seq<(u64, u64)>>::empty());
            assert(out@ =~= prefix + pages_bytes(pages.take(0)));
        }
        let mut i: usize = 0;
        while i < self.on_disk.len()
            invariant
                i <= pages.len(),
                pages == self.pages(),
                prefix == spec_header(self.spec_magic(), self.spec_version())
                    + spec_u64_to_le_bytes(pages.len() as u64),
                out@ == prefix + pages_bytes(pages.take(i as int)),
            decreases pages.len() - i,
        {
            let page = &self.on_disk[i];
            let ghost entries = pages[i as int];
            proof {
                assert(entries == page@);
            }
            let ghost mid = out@;
            push_u64_le(&mut out, page.entries.len() as u64);
            let mut j: usize = 0;
            proof {
                assert(entries.take(0) =~= Seq::<(u64, u64)>::empty());
                assert(out@ =~= mid + spec_u64_to_le_bytes(entries.len() as u64) + entries_bytes(
                    entries.take(0),
                ));
            }
            while j < page.entries.len()
                invariant
                    j <= entries.len(),
                    entries == page@,
                    out@ == mid + spec_u64_to_le_bytes(entries.len() as u64) + entries_bytes(
                        entries.take(j as int),
                    ),
                decreases entries.len() - j,
            {
                let (k, v) = page.entries[j];
                push_u64_le(&mut out, k);
                push_u64_le(&mut out, v);
                proof {
                    assert(entries.take(j + 1) =~= entries.take(j as int) + seq![entries[j as int]]);
                    lemma_entries_bytes_concat(entries.take(j as int), seq![entries[j as int]]);
                    assert(entries_bytes(seq![entries[j as int]]) =~= spec_u64_to_le_bytes(k)
                        + spec_u64_to_le_bytes(v)) by {
                        let single = seq![entries[j as int]];
                        assert(single[0] == (k, v));
                        assert(single.drop_first() =~= Seq::<(u64, u64)>::empty());
                        assert(entries_bytes(single.drop_first()) =~= Seq::<u8>::empty());
                        assert(entries_bytes(single) == spec_u64_to_le_bytes(k)
                            + spec_u64_to_le_bytes(v) + entries_bytes(single.drop_first()));
                    }
                    assert(out@ =~= mid + spec_u64_to_le_bytes(entries.len() as u64)
                        + entries_bytes(entries.take(j + 1)));
                }
                j += 1;
            }
            proof {
                assert(entries.take(entries.len() as int) =~= entries);
                assert(pages.take(i + 1) =~= pages.take(i as int) + seq![entries]);
                lemma_pages_bytes_concat(pages.take(i as int), seq![entries]);
                assert(pages_bytes(seq![entries]) =~= page_bytes(entries)) by {
                    let single = seq![entries];
                    assert(single[0] == entries);
                    assert(single.drop_first() =~= Seq::<Seq<(u64, u64)>>::empty());
                    assert(pages_bytes(single.drop_first()) =~= Seq::<u8>::empty());
                    assert(pages_bytes(single) == page_bytes(entries) + pages_bytes(
                        single.drop_first(),
                    ));
                }
                assert(out@ =~= prefix + pages_bytes(pages.take(i + 1)));
            }
            i += 1;
        }
        proof {
            assert(pages.take(pages.len() as int) =~= pages);
        }
        out
    }

    /// A plain copy of the whole state, for inspection and debugging.
    pub fn to_dump(&self) -> (r: FileAuraMapDump)
        ensures
            r.on_disk@.map_values(|p: Vec<(u64, u64)>| p@) == self.pages(),
            r.pending@ == self.pending_entries(),
    {
        let mut on_disk: Vec<Vec<(u64, u64)>> = Vec::new();
        let mut i: usize = 0;
        while i < self.on_disk.len()
            invariant
                i <= self.pages().len(),
                on_disk@.len() == i,
                forall|t: int|
                    0 <= t < i ==> (#[trigger] on_disk@[t])@ == self.pages()[t],
            decreases self.pages().len() - i,
        {
            let page = &self.on_disk[i];
            let mut copy: Vec<(u64, u64)> = Vec::new();
            let mut j: usize = 0;
            while j < page.entries.len()
                invariant
                    j <= page@.len(),
                    copy@ == page@.take(j as int),
                decreases page@.len() - j,
            {
                copy.push(page.entries[j]);
                proof {
                    assert(copy@ =~= page@.take(j + 1));
                }
                j += 1;
            }
            proof {
                assert(page@.take(page@.len() as int) =~= page@);
                assert(copy@ == self.pages()[i as int]);
            }
            on_disk.push(copy);
            i += 1;
        }
        let pending = imap_entries_vec(&self.pending);
        proof {
            assert(on_disk@.map_values(|p: Vec<(u64, u64)>| p@) =~= self.pages());
        }
        FileAuraMapDump { on_disk, pending }
    }

    /// Releases the log; a non-empty pending page at teardown is a fatal
    /// usage error (the caller forgot to commit or abort).
    pub fn close(self) -> (r: Result<(), Violation>)
        ensures
            if self.pending_entries().len() == 0 {
                r is Ok
            } else {
                r matches Err(Violation::UncommittedPending { table }) && table@
                    == self.spec_name()
            },
    {
        if imap_len(&self.pending) == 0 {
            Ok(())
        } else {
            Err(Violation::UncommittedPending { table: self.name })
        }
    }
}

} // verus!
