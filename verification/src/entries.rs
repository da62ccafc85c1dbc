//! Sequences of keyed entries in ascending key order, and the maps they
//! stand for.
use crate::key::{key_lt, lemma_key_lt_irreflexive};
use vstd::prelude::*;

verus! {

/// The keys of `s` ascend strictly, so no key occurs twice.
pub open spec fn sorted<X>(s: Seq<(Seq<u8>, X)>) -> bool {
    forall|i: int, j: int|
        #![trigger s[i], s[j]]
        0 <= i < j < s.len() ==> key_lt(s[i].0, s[j].0)
}

/// Some entry of `s` has the key `k`.
pub open spec fn has_key<X>(s: Seq<(Seq<u8>, X)>, k: Seq<u8>) -> bool {
    exists|i: int| 0 <= i < s.len() && (#[trigger] s[i]).0 == k
}

/// The place of the entry of `s` with the key `k`.
pub open spec fn index_of<X>(s: Seq<(Seq<u8>, X)>, k: Seq<u8>) -> int {
    choose|i: int| 0 <= i < s.len() && (#[trigger] s[i]).0 == k
}

/// The map from each key of `s` to what its entry holds.
pub open spec fn entries_map<X>(s: Seq<(Seq<u8>, X)>) -> Map<Seq<u8>, X> {
    Map::new(|k: Seq<u8>| has_key(s, k), |k: Seq<u8>| s[index_of(s, k)].1)
}

/// In a sorted sequence a key is found at one place only.
pub proof fn lemma_index_of<X>(s: Seq<(Seq<u8>, X)>, i: int)
    requires
        sorted(s),
        0 <= i < s.len(),
    ensures
        has_key(s, s[i].0),
        index_of(s, s[i].0) == i,
        entries_map(s).contains_key(s[i].0),
        entries_map(s)[s[i].0] == s[i].1,
{
    let k = s[i].0;
    let j = index_of(s, k);
    lemma_key_lt_irreflexive(k);
    if j < i {
        assert(key_lt(s[j].0, s[i].0));
    } else if i < j {
        assert(key_lt(s[i].0, s[j].0));
    }
}

/// Putting an entry into its place keeps the order and inserts into the map.
pub proof fn lemma_insert_at<X>(s: Seq<(Seq<u8>, X)>, i: int, k: Seq<u8>, x: X)
    requires
        sorted(s),
        0 <= i <= s.len(),
        forall|j: int| 0 <= j < i ==> key_lt((#[trigger] s[j]).0, k),
        forall|j: int| i <= j < s.len() ==> key_lt(k, (#[trigger] s[j]).0),
    ensures
        sorted(s.insert(i, (k, x))),
        entries_map(s.insert(i, (k, x))) == entries_map(s).insert(k, x),
{
    let t = s.insert(i, (k, x));
    assert forall|a: int, b: int| 0 <= a < b < t.len() implies key_lt(t[a].0, t[b].0) by {
        let a0 = if a < i { a } else { a - 1 };
        let b0 = if b < i { b } else { b - 1 };
        if a != i && b != i {
            assert(t[a] == s[a0]);
            assert(t[b] == s[b0]);
        } else if a == i {
            assert(t[b] == s[b0]);
        } else {
            assert(t[a] == s[a0]);
        }
    }
    assert forall|q: Seq<u8>| has_key(t, q) <==> (q == k || has_key(s, q)) by {
        if has_key(t, q) {
            let j = index_of(t, q);
            if j < i {
                assert(s[j].0 == q);
            } else if j > i {
                assert(s[j - 1].0 == q);
            }
        }
        if q == k {
            assert(t[i].0 == q);
        }
        if has_key(s, q) {
            let j = index_of(s, q);
            if j < i {
                assert(t[j].0 == q);
            } else {
                assert(t[j + 1].0 == q);
            }
        }
    }
    assert forall|q: Seq<u8>| has_key(t, q) implies #[trigger] entries_map(t)[q] == entries_map(
        s,
    ).insert(k, x)[q] by {
        let j = index_of(t, q);
        lemma_index_of(t, j);
        lemma_key_lt_irreflexive(k);
        if j < i {
            assert(t[j] == s[j]);
            lemma_index_of(s, j);
        } else if j > i {
            assert(t[j] == s[j - 1]);
            lemma_index_of(s, j - 1);
        }
    }
    assert(entries_map(t) =~= entries_map(s).insert(k, x));
}

/// Changing what one entry holds keeps the order and updates the map.
pub proof fn lemma_update_at<X>(s: Seq<(Seq<u8>, X)>, i: int, x: X)
    requires
        sorted(s),
        0 <= i < s.len(),
    ensures
        sorted(s.update(i, (s[i].0, x))),
        entries_map(s.update(i, (s[i].0, x))) == entries_map(s).insert(s[i].0, x),
{
    let k = s[i].0;
    let t = s.update(i, (k, x));
    assert forall|a: int, b: int| 0 <= a < b < t.len() implies key_lt(t[a].0, t[b].0) by {
        assert(t[a].0 == s[a].0);
        assert(t[b].0 == s[b].0);
    }
    assert forall|q: Seq<u8>| has_key(t, q) <==> (q == k || has_key(s, q)) by {
        if has_key(t, q) {
            let j = index_of(t, q);
            assert(s[j].0 == q);
        }
        if q == k {
            assert(t[i].0 == q);
        }
        if has_key(s, q) {
            let j = index_of(s, q);
            assert(t[j].0 == q);
        }
    }
    assert forall|q: Seq<u8>| has_key(t, q) implies #[trigger] entries_map(t)[q] == entries_map(
        s,
    ).insert(k, x)[q] by {
        let j = index_of(t, q);
        lemma_index_of(t, j);
        lemma_index_of(s, j);
        lemma_index_of(s, i);
        if j != i {
            assert(t[j] == s[j]);
        }
    }
    assert(entries_map(t) =~= entries_map(s).insert(k, x));
}

/// Taking one entry out keeps the order and removes its key from the map.
pub proof fn lemma_remove_at<X>(s: Seq<(Seq<u8>, X)>, i: int)
    requires
        sorted(s),
        0 <= i < s.len(),
    ensures
        sorted(s.remove(i)),
        entries_map(s.remove(i)) == entries_map(s).remove(s[i].0),
{
    let k = s[i].0;
    let t = s.remove(i);
    assert forall|a: int, b: int| 0 <= a < b < t.len() implies key_lt(t[a].0, t[b].0) by {
        let a0 = if a < i { a } else { a + 1 };
        let b0 = if b < i { b } else { b + 1 };
        assert(t[a] == s[a0]);
        assert(t[b] == s[b0]);
    }
    assert forall|q: Seq<u8>| has_key(t, q) <==> (q != k && has_key(s, q)) by {
        if has_key(t, q) {
            let j = index_of(t, q);
            let j0 = if j < i { j } else { j + 1 };
            assert(s[j0].0 == q);
            lemma_index_of(s, j0);
            lemma_index_of(s, i);
        }
        if q != k && has_key(s, q) {
            let j = index_of(s, q);
            if j < i {
                assert(t[j].0 == q);
            } else {
                assert(t[j - 1].0 == q);
            }
        }
    }
    assert forall|q: Seq<u8>| has_key(t, q) implies #[trigger] entries_map(t)[q] == entries_map(
        s,
    ).remove(k)[q] by {
        let j = index_of(t, q);
        lemma_index_of(t, j);
        let j0 = if j < i { j } else { j + 1 };
        assert(t[j] == s[j0]);
        lemma_index_of(s, j0);
        lemma_index_of(s, i);
    }
    assert(entries_map(t) =~= entries_map(s).remove(k));
}

/// A sorted sequence bounded below by `k` at `i` does not hold `k` unless it
/// stands at `i`.
pub proof fn lemma_lower_bound_decides<X>(s: Seq<(Seq<u8>, X)>, i: int, k: Seq<u8>)
    requires
        sorted(s),
        0 <= i <= s.len(),
        forall|j: int| 0 <= j < i ==> key_lt((#[trigger] s[j]).0, k),
        forall|j: int| i <= j < s.len() ==> !key_lt((#[trigger] s[j]).0, k),
    ensures
        has_key(s, k) <==> (i < s.len() && s[i].0 == k),
{
    lemma_key_lt_irreflexive(k);
    if has_key(s, k) {
        let j = index_of(s, k);
        if j > i {
            assert(key_lt(s[i].0, s[j].0));
            assert(!key_lt(s[i].0, k));
        }
    }
}

/// Every part of a sorted sequence is sorted.
pub proof fn lemma_subrange_sorted<X>(s: Seq<(Seq<u8>, X)>, a: int, b: int)
    requires
        sorted(s),
        0 <= a <= b <= s.len(),
    ensures
        sorted(s.subrange(a, b)),
{
    let t = s.subrange(a, b);
    assert forall|i: int, j: int| 0 <= i < j < t.len() implies key_lt(t[i].0, t[j].0) by {
        assert(t[i] == s[a + i]);
        assert(t[j] == s[a + j]);
    }
}

} // verus!
