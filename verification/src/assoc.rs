//! Association sequences: ordered sequences of key/value pairs with 64-bit
//! keys. They model both the insertion-ordered maps rebuilt in memory and the
//! page records of the on-disk formats. Lookup finds the first pair with a
//! given key; well-formed sequences carry each key at most once.

use vstd::prelude::*;

verus! {

/// The keys of the pairs, in order.
pub open spec fn assoc_keys<T>(s: Seq<(u64, T)>) -> Seq<u64> {
    s.map_values(|e: (u64, T)| e.0)
}

/// True iff no key occurs twice.
pub open spec fn distinct_keys<T>(s: Seq<(u64, T)>) -> bool {
    forall|i: int, j: int| 0 <= i < j < s.len() ==> (#[trigger] s[i]).0 != (#[trigger] s[j]).0
}

/// True iff some pair carries the key.
pub open spec fn assoc_contains<T>(s: Seq<(u64, T)>, key: u64) -> bool {
    exists|i: int| 0 <= i < s.len() && (#[trigger] s[i]).0 == key
}

/// The value of the first pair carrying the key, if any.
pub open spec fn assoc_lookup<T>(s: Seq<(u64, T)>, key: u64) -> Option<T>
    decreases s.len(),
{
    if s.len() == 0 {
        None
    } else if s[0].0 == key {
        Some(s[0].1)
    } else {
        assoc_lookup(s.drop_first(), key)
    }
}

/// The sequence after writing `val` under `key`: an existing key keeps its
/// place and gets the new value; a new key is appended last.
pub open spec fn assoc_update<T>(s: Seq<(u64, T)>, key: u64, val: T) -> Seq<(u64, T)>
    decreases s.len(),
{
    if s.len() == 0 {
        seq![(key, val)]
    } else if s[0].0 == key {
        seq![(key, val)] + s.drop_first()
    } else {
        seq![s[0]] + assoc_update(s.drop_first(), key, val)
    }
}

pub proof fn lemma_assoc_lookup_contains<T>(s: Seq<(u64, T)>, key: u64)
    ensures
        assoc_contains(s, key) <==> assoc_lookup(s, key) is Some,
    decreases s.len(),
{
    if s.len() > 0 && s[0].0 != key {
        lemma_assoc_lookup_contains(s.drop_first(), key);
        assert(assoc_contains(s, key) ==> assoc_contains(s.drop_first(), key)) by {
            if assoc_contains(s, key) {
                let i = choose|i: int| 0 <= i < s.len() && (#[trigger] s[i]).0 == key;
                assert(s.drop_first()[i - 1].0 == key);
            }
        }
        assert(assoc_contains(s.drop_first(), key) ==> assoc_contains(s, key)) by {
            if assoc_contains(s.drop_first(), key) {
                let i = choose|i: int|
                    0 <= i < s.drop_first().len() && (#[trigger] s.drop_first()[i]).0 == key;
                assert(s[i + 1].0 == key);
            }
        }
    }
}

/// Lookup returns the first match: a match at `i` with no earlier match
/// settles the result.
pub proof fn lemma_assoc_lookup_first_match<T>(s: Seq<(u64, T)>, key: u64, i: int)
    requires
        0 <= i < s.len(),
        s[i].0 == key,
        forall|j: int| 0 <= j < i ==> (#[trigger] s[j]).0 != key,
    ensures
        assoc_lookup(s, key) == Some(s[i].1),
    decreases s.len(),
{
    if i > 0 {
        assert(s[0].0 != key);
        assert(s.drop_first()[i - 1] == s[i]);
        assert(forall|j: int| 0 <= j < i - 1 ==> (#[trigger] s.drop_first()[j]).0 != key);
        lemma_assoc_lookup_first_match(s.drop_first(), key, i - 1);
    }
}

pub proof fn lemma_assoc_lookup_none<T>(s: Seq<(u64, T)>, key: u64)
    requires
        forall|j: int| 0 <= j < s.len() ==> (#[trigger] s[j]).0 != key,
    ensures
        assoc_lookup(s, key) is None,
{
    lemma_assoc_lookup_contains(s, key);
}

/// Extending a prefix by one pair extends what it contains by that pair's
/// key.
pub proof fn lemma_assoc_contains_take_step<T>(s: Seq<(u64, T)>, j: int)
    requires
        0 <= j < s.len(),
    ensures
        forall|k: u64|
            #[trigger] assoc_contains(s.take(j + 1), k) <==> (assoc_contains(s.take(j), k) || s[j].0
                == k),
{
    assert forall|k: u64| #[trigger]
        assoc_contains(s.take(j + 1), k) <==> (assoc_contains(s.take(j), k) || s[j].0 == k) by {
        if assoc_contains(s.take(j + 1), k) {
            let i = choose|i: int|
                0 <= i < s.take(j + 1).len() && (#[trigger] s.take(j + 1)[i]).0 == k;
            if i < j {
                assert(s.take(j)[i].0 == k);
            } else {
                assert(s[j].0 == k);
            }
        }
        if assoc_contains(s.take(j), k) {
            let i = choose|i: int| 0 <= i < s.take(j).len() && (#[trigger] s.take(j)[i]).0 == k;
            assert(s.take(j + 1)[i].0 == k);
        }
        if s[j].0 == k {
            assert(s.take(j + 1)[j].0 == k);
        }
    }
}

/// The key column of a well-formed sequence has no duplicates.
pub proof fn lemma_distinct_keys_no_dup<T>(s: Seq<(u64, T)>)
    requires
        distinct_keys(s),
    ensures
        assoc_keys(s).no_duplicates(),
{
    assert forall|i: int, j: int|
        0 <= i < assoc_keys(s).len() && 0 <= j < assoc_keys(s).len() && i != j implies assoc_keys(
        s,
    )[i] != assoc_keys(s)[j] by {
        assert(s[i].0 != s[j].0);
    }
}

/// In a well-formed sequence, a pair `(key, val)` at any position settles the
/// lookup result.
pub proof fn lemma_assoc_lookup_at<T>(s: Seq<(u64, T)>, key: u64, i: int)
    requires
        distinct_keys(s),
        0 <= i < s.len(),
        s[i].0 == key,
    ensures
        assoc_lookup(s, key) == Some(s[i].1),
    decreases s.len(),
{
    if i > 0 {
        assert(s[0].0 != key);
        assert(s.drop_first()[i - 1] == s[i]);
        lemma_assoc_lookup_at(s.drop_first(), key, i - 1);
    }
}

pub proof fn lemma_assoc_update_lookup_same<T>(s: Seq<(u64, T)>, key: u64, val: T)
    ensures
        assoc_lookup(assoc_update(s, key, val), key) == Some(val),
    decreases s.len(),
{
    let u = assoc_update(s, key, val);
    if s.len() == 0 {
    } else if s[0].0 == key {
        assert(u[0] == (key, val));
    } else {
        assert(u[0] == s[0]);
        assert(u.drop_first() =~= assoc_update(s.drop_first(), key, val));
        lemma_assoc_update_lookup_same(s.drop_first(), key, val);
    }
}

pub proof fn lemma_assoc_update_lookup_other<T>(s: Seq<(u64, T)>, key: u64, val: T, other: u64)
    requires
        other != key,
    ensures
        assoc_lookup(assoc_update(s, key, val), other) == assoc_lookup(s, other),
    decreases s.len(),
{
    let u = assoc_update(s, key, val);
    if s.len() == 0 {
        assert(u[0].0 != other);
        assert(assoc_lookup(u, other) == assoc_lookup(u.drop_first(), other));
        assert(u.drop_first().len() == 0);
        assert(assoc_lookup(u.drop_first(), other) is None);
    } else if s[0].0 == key {
        assert(u[0] == (key, val));
        assert(u.drop_first() =~= s.drop_first());
    } else {
        assert(u[0] == s[0]);
        assert(u.drop_first() =~= assoc_update(s.drop_first(), key, val));
        lemma_assoc_update_lookup_other(s.drop_first(), key, val, other);
    }
}

pub proof fn lemma_assoc_update_contains<T>(s: Seq<(u64, T)>, key: u64, val: T, other: u64)
    ensures
        assoc_contains(assoc_update(s, key, val), other) <==> (assoc_contains(s, other) || other
            == key),
{
    lemma_assoc_lookup_contains(s, other);
    lemma_assoc_lookup_contains(assoc_update(s, key, val), other);
    if other == key {
        lemma_assoc_update_lookup_same(s, key, val);
    } else {
        lemma_assoc_update_lookup_other(s, key, val, other);
    }
}

pub proof fn lemma_assoc_update_distinct<T>(s: Seq<(u64, T)>, key: u64, val: T)
    requires
        distinct_keys(s),
    ensures
        distinct_keys(assoc_update(s, key, val)),
    decreases s.len(),
{
    let u = assoc_update(s, key, val);
    if s.len() == 0 {
    } else if s[0].0 == key {
        assert forall|i: int, j: int| 0 <= i < j < u.len() implies (#[trigger] u[i]).0
            != (#[trigger] u[j]).0 by {
            assert(u[j] == s[j]);
            if i > 0 {
                assert(u[i] == s[i]);
            } else {
                assert(u[0].0 == s[0].0);
            }
        }
    } else {
        lemma_assoc_update_distinct(s.drop_first(), key, val);
        let t = assoc_update(s.drop_first(), key, val);
        lemma_assoc_update_contains(s.drop_first(), key, val, s[0].0);
        assert(!assoc_contains(s.drop_first(), s[0].0)) by {
            if assoc_contains(s.drop_first(), s[0].0) {
                let i = choose|i: int|
                    0 <= i < s.drop_first().len() && (#[trigger] s.drop_first()[i]).0 == s[0].0;
                assert(s[i + 1].0 == s[0].0);
            }
        }
        assert forall|i: int, j: int| 0 <= i < j < u.len() implies (#[trigger] u[i]).0
            != (#[trigger] u[j]).0 by {
            assert(u[j] == t[j - 1]);
            if i > 0 {
                assert(u[i] == t[i - 1]);
            } else {
                assert(u[0] == s[0]);
                assert(assoc_contains(t, t[j - 1].0)) by {
                    assert(t[j - 1].0 == t[j - 1].0);
                }
            }
        }
    }
}

/// Writing a value that the first matching pair already carries leaves the
/// sequence unchanged.
pub proof fn lemma_assoc_update_noop<T>(s: Seq<(u64, T)>, key: u64, val: T)
    requires
        assoc_lookup(s, key) == Some(val),
    ensures
        assoc_update(s, key, val) == s,
    decreases s.len(),
{
    if s.len() > 0 {
        if s[0].0 == key {
            assert(assoc_update(s, key, val) =~= s);
        } else {
            lemma_assoc_update_noop(s.drop_first(), key, val);
            assert(assoc_update(s, key, val) =~= s);
        }
    }
}

/// The update of a well-formed sequence agrees with replacement at the key's
/// position.
pub proof fn lemma_assoc_update_at<T>(s: Seq<(u64, T)>, key: u64, val: T, i: int)
    requires
        distinct_keys(s),
        0 <= i < s.len(),
        s[i].0 == key,
    ensures
        assoc_update(s, key, val) == s.update(i, (key, val)),
    decreases s.len(),
{
    if i == 0 {
        assert(assoc_update(s, key, val) =~= s.update(0, (key, val)));
    } else {
        assert(s[0].0 != key);
        assert(s.drop_first()[i - 1] == s[i]);
        lemma_assoc_update_at(s.drop_first(), key, val, i - 1);
        assert(assoc_update(s, key, val) =~= s.update(i, (key, val)));
    }
}

/// A fresh key is appended at the end.
pub proof fn lemma_assoc_update_absent<T>(s: Seq<(u64, T)>, key: u64, val: T)
    requires
        !assoc_contains(s, key),
    ensures
        assoc_update(s, key, val) == s.push((key, val)),
    decreases s.len(),
{
    if s.len() == 0 {
        assert(assoc_update(s, key, val) =~= s.push((key, val)));
    } else {
        assert(s[0].0 != key);
        assert(!assoc_contains(s.drop_first(), key)) by {
            if assoc_contains(s.drop_first(), key) {
                let i = choose|i: int|
                    0 <= i < s.drop_first().len() && (#[trigger] s.drop_first()[i]).0 == key;
                assert(s[i + 1].0 == key);
            }
        }
        lemma_assoc_update_absent(s.drop_first(), key, val);
        assert(assoc_update(s, key, val) =~= s.push((key, val)));
    }
}

/// True iff the vector holds the key.
pub fn vec_contains_u64(v: &Vec<u64>, x: u64) -> (r: bool)
    ensures
        r == v@.contains(x),
{
    let mut i: usize = 0;
    while i < v.len()
        invariant
            i <= v@.len(),
            forall|j: int| 0 <= j < i ==> v@[j] != x,
        decreases v@.len() - i,
    {
        if v[i] == x {
            assert(v@[i as int] == x);
            return true;
        }
        i += 1;
    }
    assert(!v@.contains(x));
    false
}

/// True iff no key occurs twice among the pairs.
pub fn pairs_distinct_keys<T>(v: &Vec<(u64, T)>) -> (r: bool)
    ensures
        r == distinct_keys(v@),
{
    let n = v.len();
    let mut i: usize = 0;
    while i < n
        invariant
            n == v@.len(),
            i <= n,
            forall|p: int, q: int| 0 <= p < q < n && p < i ==> (#[trigger] v@[p]).0 != (
            #[trigger] v@[q]).0,
        decreases n - i,
    {
        let mut j: usize = i + 1;
        while j < n
            invariant
                n == v@.len(),
                i < n,
                i + 1 <= j <= n,
                forall|q: int| i < q < j ==> (#[trigger] v@[q]).0 != v@[i as int].0,
            decreases n - j,
        {
            if v[j].0 == v[i].0 {
                return false;
            }
            j += 1;
        }
        i += 1;
    }
    true
}

/// Adds the key to the vector unless it is already there, keeping the
/// entries distinct.
pub fn push_unique(keys: &mut Vec<u64>, k: u64)
    requires
        old(keys)@.no_duplicates(),
    ensures
        final(keys)@.no_duplicates(),
        forall|x: u64| #[trigger] final(keys)@.contains(x) <==> (old(keys)@.contains(x) || x == k),
{
    let ghost before = keys@;
    if !vec_contains_u64(keys, k) {
        keys.push(k);
        proof {
            assert forall|x: u64| #[trigger]
                keys@.contains(x) <==> (before.contains(x) || x == k) by {
                if keys@.contains(x) {
                    let i = choose|i: int| 0 <= i < keys@.len() && keys@[i] == x;
                    if i < before.len() {
                        assert(before[i] == x);
                    }
                }
                if before.contains(x) {
                    let i = choose|i: int| 0 <= i < before.len() && before[i] == x;
                    assert(keys@[i] == x);
                }
                if x == k {
                    assert(keys@[before.len() as int] == x);
                }
            }
            assert(keys@.no_duplicates()) by {
                assert forall|p: int, q: int| 0 <= p < q < keys@.len() implies keys@[p]
                    != keys@[q] by {
                    if q == keys@.len() - 1 {
                        assert(keys@[p] == before[p]);
                        assert(before.contains(before[p]));
                    } else {
                        assert(keys@[p] == before[p]);
                        assert(keys@[q] == before[q]);
                    }
                }
            }
        }
    }
}

} // verus!
