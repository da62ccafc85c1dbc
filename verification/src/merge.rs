//! What a buffer shows: the scratch space laid over the persisted table,
//! and the merge of the two that lists it in key order.
use crate::entries::{
    entries_map, has_key, index_of, lemma_index_of, lemma_insert_at, lemma_remove_at, sorted,
};
use crate::key::{
    has_prefix, key_lt, lemma_key_lt_asymmetric, lemma_key_lt_irreflexive, lemma_key_lt_total,
    lemma_key_lt_transitive, lemma_prefix_block, lemma_prefix_not_above,
};
use crate::scratch::KvOp;
use vstd::prelude::*;

verus! {

/// The logical content of a buffer. A staged operation decides its key: a
/// `Put` gives the value, a `Delete` hides the key. A key without a staged
/// operation shows what the table holds.
pub open spec fn overlay<V>(scratch: Map<Seq<u8>, KvOp<V>>, table: Map<Seq<u8>, V>) -> Map<
    Seq<u8>,
    V,
> {
    Map::new(
        |k: Seq<u8>|
            if scratch.contains_key(k) {
                scratch[k] is Put
            } else {
                table.contains_key(k)
            },
        |k: Seq<u8>|
            if scratch.contains_key(k) {
                *scratch[k]->Put_0
            } else {
                table[k]
            },
    )
}

/// The part of `m` whose keys are `k` or sort after `k`.
pub open spec fn from_key<V>(m: Map<Seq<u8>, V>, k: Seq<u8>) -> Map<Seq<u8>, V> {
    Map::new(|q: Seq<u8>| m.contains_key(q) && !key_lt(q, k), |q: Seq<u8>| m[q])
}

/// The part of `m` whose keys start with `p`.
pub open spec fn with_prefix<V>(m: Map<Seq<u8>, V>, p: Seq<u8>) -> Map<Seq<u8>, V> {
    Map::new(|q: Seq<u8>| m.contains_key(q) && has_prefix(q, p), |q: Seq<u8>| m[q])
}

/// `s` lists `m`: it holds one entry for each key of `m`, with the value of
/// `m`, in ascending key order.
pub open spec fn lists<V>(s: Seq<(Seq<u8>, V)>, m: Map<Seq<u8>, V>) -> bool {
    sorted(s) && entries_map(s) == m
}

/// The list of `m`, where `m` has one.
pub open spec fn listing<V>(m: Map<Seq<u8>, V>) -> Seq<(Seq<u8>, V)> {
    choose|s: Seq<(Seq<u8>, V)>| lists(s, m)
}

/// The keys of `s`, in its order.
pub open spec fn keys_of<V>(s: Seq<(Seq<u8>, V)>) -> Seq<Seq<u8>> {
    Seq::new(s.len(), |i: int| s[i].0)
}

/// The scratch space after a `Delete` was staged for each of `keys` in
/// turn.
pub open spec fn stage_deletes<V>(scratch: Map<Seq<u8>, KvOp<V>>, keys: Seq<Seq<u8>>) -> Map<
    Seq<u8>,
    KvOp<V>,
>
    decreases keys.len(),
{
    if keys.len() == 0 {
        scratch
    } else {
        stage_deletes(scratch, keys.drop_last()).insert(keys.last(), KvOp::Delete)
    }
}

/// What a staged entry contributes to an iteration: its value for a `Put`,
/// nothing for a `Delete`.
pub open spec fn emitted<V>(e: (Seq<u8>, KvOp<V>)) -> Seq<(Seq<u8>, V)> {
    match e.1 {
        KvOp::Put(v) => seq![(e.0, *v)],
        KvOp::Delete => Seq::empty(),
    }
}

/// The merge of staged entries `s` and persisted entries `t`, both in
/// ascending key order: the smaller head goes first, and on equal keys the
/// staged entry stands for both.
pub open spec fn merged<V>(s: Seq<(Seq<u8>, KvOp<V>)>, t: Seq<(Seq<u8>, V)>) -> Seq<(Seq<u8>, V)>
    decreases s.len() + t.len(),
{
    if s.len() == 0 {
        t
    } else if t.len() == 0 || key_lt(s[0].0, t[0].0) {
        emitted(s[0]) + merged(s.drop_first(), t)
    } else if key_lt(t[0].0, s[0].0) {
        seq![t[0]] + merged(s, t.drop_first())
    } else {
        emitted(s[0]) + merged(s.drop_first(), t.drop_first())
    }
}

/// The entries at the head of `s` whose keys start with `p`: all up to the
/// first entry whose key does not.
pub open spec fn matching_head<V>(s: Seq<(Seq<u8>, V)>, p: Seq<u8>) -> Seq<(Seq<u8>, V)>
    decreases s.len(),
{
    if s.len() == 0 || !has_prefix(s[0].0, p) {
        Seq::empty()
    } else {
        seq![s[0]] + matching_head(s.drop_first(), p)
    }
}

/// Every key of `s` sorts after `k`.
pub open spec fn all_above<X>(s: Seq<(Seq<u8>, X)>, k: Seq<u8>) -> bool {
    forall|j: int| 0 <= j < s.len() ==> key_lt(k, (#[trigger] s[j]).0)
}

/// Every key of `s` sorts before `k`.
pub open spec fn all_below<X>(s: Seq<(Seq<u8>, X)>, k: Seq<u8>) -> bool {
    forall|j: int| 0 <= j < s.len() ==> key_lt((#[trigger] s[j]).0, k)
}

/// A list of an overlay lies above whatever both of its sources lie above.
proof fn lemma_listing_above<V>(
    m: Seq<(Seq<u8>, V)>,
    s: Seq<(Seq<u8>, KvOp<V>)>,
    t: Seq<(Seq<u8>, V)>,
    k: Seq<u8>,
)
    requires
        lists(m, overlay(entries_map(s), entries_map(t))),
        all_above(s, k),
        all_above(t, k),
    ensures
        all_above(m, k),
{
    assert forall|j: int| 0 <= j < m.len() implies key_lt(k, (#[trigger] m[j]).0) by {
        lemma_index_of(m, j);
        let q = m[j].0;
        if has_key(s, q) {
            assert(key_lt(k, s[index_of(s, q)].0));
        } else {
            assert(key_lt(k, t[index_of(t, q)].0));
        }
    }
}

/// A list of an overlay lies below whatever both of its sources lie below.
proof fn lemma_listing_below<V>(
    m: Seq<(Seq<u8>, V)>,
    s: Seq<(Seq<u8>, KvOp<V>)>,
    t: Seq<(Seq<u8>, V)>,
    k: Seq<u8>,
)
    requires
        lists(m, overlay(entries_map(s), entries_map(t))),
        all_below(s, k),
        all_below(t, k),
    ensures
        all_below(m, k),
{
    assert forall|j: int| 0 <= j < m.len() implies key_lt((#[trigger] m[j]).0, k) by {
        lemma_index_of(m, j);
        let q = m[j].0;
        if has_key(s, q) {
            assert(key_lt(s[index_of(s, q)].0, k));
        } else {
            assert(key_lt(t[index_of(t, q)].0, k));
        }
    }
}

/// The tail of a sorted sequence lies above its head, and above whatever
/// sorts before its head.
proof fn lemma_tail_above<X>(s: Seq<(Seq<u8>, X)>, k: Seq<u8>)
    requires
        sorted(s),
        s.len() > 0,
        k == s[0].0 || key_lt(k, s[0].0),
    ensures
        all_above(s.drop_first(), s[0].0),
        all_above(s.drop_first(), k),
        key_lt(k, s[0].0) ==> all_above(s, k),
{
    let r = s.drop_first();
    assert forall|j: int| 0 <= j < r.len() implies key_lt(s[0].0, (#[trigger] r[j]).0) && key_lt(
        k,
        r[j].0,
    ) by {
        assert(r[j] == s[j + 1]);
        assert(key_lt(s[0].0, s[j + 1].0));
        if key_lt(k, s[0].0) {
            lemma_key_lt_transitive(k, s[0].0, r[j].0);
        }
    }
    if key_lt(k, s[0].0) {
        assert forall|j: int| 0 <= j < s.len() implies key_lt(k, (#[trigger] s[j]).0) by {
            if j > 0 {
                assert(r[j - 1] == s[j]);
            }
        }
    }
}

/// The front of a sorted sequence lies below its last entry, and below
/// whatever sorts after its last entry.
proof fn lemma_front_below<X>(s: Seq<(Seq<u8>, X)>, k: Seq<u8>)
    requires
        sorted(s),
        s.len() > 0,
        k == s.last().0 || key_lt(s.last().0, k),
    ensures
        all_below(s.drop_last(), s.last().0),
        all_below(s.drop_last(), k),
        key_lt(s.last().0, k) ==> all_below(s, k),
{
    let r = s.drop_last();
    let n = s.len() - 1;
    assert forall|j: int| 0 <= j < r.len() implies key_lt((#[trigger] r[j]).0, s[n].0) && key_lt(
        r[j].0,
        k,
    ) by {
        assert(r[j] == s[j]);
        assert(key_lt(s[j].0, s[n].0));
        if key_lt(s[n].0, k) {
            lemma_key_lt_transitive(r[j].0, s[n].0, k);
        }
    }
    if key_lt(s.last().0, k) {
        assert forall|j: int| 0 <= j < s.len() implies key_lt((#[trigger] s[j]).0, k) by {
            if j < n {
                assert(r[j] == s[j]);
            }
        }
    }
}

/// A sequence that lies above, or below, `k` does not hold `k`.
proof fn lemma_apart_has_no_key<X>(s: Seq<(Seq<u8>, X)>, k: Seq<u8>)
    requires
        all_above(s, k) || all_below(s, k),
    ensures
        !has_key(s, k),
        !entries_map(s).contains_key(k),
{
    lemma_key_lt_irreflexive(k);
}

/// The merge of two sorted sequences lists the overlay of their maps.
pub proof fn lemma_merged_lists<V>(s: Seq<(Seq<u8>, KvOp<V>)>, t: Seq<(Seq<u8>, V)>)
    requires
        sorted(s),
        sorted(t),
    ensures
        lists(merged(s, t), overlay(entries_map(s), entries_map(t))),
    decreases s.len() + t.len(),
{
    let m = merged(s, t);
    let target = overlay(entries_map(s), entries_map(t));
    if s.len() == 0 {
        assert(target =~= entries_map(t));
    } else {
        let k0 = s[0].0;
        let s1 = s.drop_first();
        assert(s1 =~= s.remove(0));
        lemma_remove_at(s, 0);
        lemma_index_of(s, 0);
        lemma_tail_above(s, k0);
        lemma_apart_has_no_key(s1, k0);
        if t.len() == 0 || key_lt(k0, t[0].0) {
            lemma_merged_lists(s1, t);
            let m1 = merged(s1, t);
            let target1 = overlay(entries_map(s1), entries_map(t));
            if t.len() > 0 {
                lemma_tail_above(t, k0);
            }
            lemma_apart_has_no_key(t, k0);
            lemma_listing_above(m1, s1, t, k0);
            match s[0].1 {
                KvOp::Put(v) => {
                    assert(m =~= m1.insert(0, (k0, *v)));
                    lemma_insert_at(m1, 0, k0, *v);
                    assert(target =~= target1.insert(k0, *v));
                },
                KvOp::Delete => {
                    assert(m =~= m1);
                    assert(target =~= target1);
                },
            }
        } else {
            let t1 = t.drop_first();
            assert(t1 =~= t.remove(0));
            lemma_remove_at(t, 0);
            lemma_index_of(t, 0);
            lemma_tail_above(t, t[0].0);
            lemma_apart_has_no_key(t1, t[0].0);
            if key_lt(t[0].0, k0) {
                lemma_merged_lists(s, t1);
                let m1 = merged(s, t1);
                let target1 = overlay(entries_map(s), entries_map(t1));
                lemma_tail_above(s, t[0].0);
                lemma_apart_has_no_key(s, t[0].0);
                lemma_listing_above(m1, s, t1, t[0].0);
                assert(m =~= m1.insert(0, t[0]));
                lemma_insert_at(m1, 0, t[0].0, t[0].1);
                assert(target =~= target1.insert(t[0].0, t[0].1));
            } else {
                lemma_key_lt_total(k0, t[0].0);
                lemma_merged_lists(s1, t1);
                let m1 = merged(s1, t1);
                let target1 = overlay(entries_map(s1), entries_map(t1));
                lemma_listing_above(m1, s1, t1, k0);
                match s[0].1 {
                    KvOp::Put(v) => {
                        assert(m =~= m1.insert(0, (k0, *v)));
                        lemma_insert_at(m1, 0, k0, *v);
                        assert(target =~= target1.insert(k0, *v));
                    },
                    KvOp::Delete => {
                        assert(m =~= m1);
                        assert(target =~= target1);
                    },
                }
            }
        }
    }
}

/// A staged `Put` shows its value, whatever was staged or persisted before.
pub proof fn lemma_overlay_put<V>(
    scratch: Map<Seq<u8>, KvOp<V>>,
    table: Map<Seq<u8>, V>,
    k: Seq<u8>,
    v: V,
)
    ensures
        overlay(scratch.insert(k, KvOp::Put(Box::new(v))), table) == overlay(scratch, table).insert(
            k,
            v,
        ),
{
    assert(overlay(scratch.insert(k, KvOp::Put(Box::new(v))), table) =~= overlay(
        scratch,
        table,
    ).insert(k, v));
}

/// A staged `Delete` hides its key, whatever was staged or persisted before.
pub proof fn lemma_overlay_delete<V>(
    scratch: Map<Seq<u8>, KvOp<V>>,
    table: Map<Seq<u8>, V>,
    k: Seq<u8>,
)
    ensures
        overlay(scratch.insert(k, KvOp::Delete), table) == overlay(scratch, table).remove(k),
{
    assert(overlay(scratch.insert(k, KvOp::Delete), table) =~= overlay(scratch, table).remove(k));
}

/// From the lower bound of `k` on, a sorted sequence stands for the part of
/// its map that starts at `k`.
pub proof fn lemma_skip_is_from_key<X>(s: Seq<(Seq<u8>, X)>, i: int, k: Seq<u8>)
    requires
        sorted(s),
        0 <= i <= s.len(),
        forall|j: int| 0 <= j < i ==> key_lt((#[trigger] s[j]).0, k),
        forall|j: int| i <= j < s.len() ==> !key_lt((#[trigger] s[j]).0, k),
    ensures
        sorted(s.skip(i)),
        entries_map(s.skip(i)) == from_key(entries_map(s), k),
{
    let r = s.skip(i);
    assert forall|a: int, b: int| 0 <= a < b < r.len() implies key_lt(r[a].0, r[b].0) by {
        assert(r[a] == s[a + i]);
        assert(r[b] == s[b + i]);
    }
    let target = from_key(entries_map(s), k);
    assert forall|q: Seq<u8>| has_key(r, q) <==> target.contains_key(q) by {
        if has_key(r, q) {
            let j = index_of(r, q);
            assert(r[j] == s[j + i]);
        }
        if target.contains_key(q) {
            let j = index_of(s, q);
            assert(j >= i);
            assert(r[j - i] == s[j]);
        }
    }
    assert forall|q: Seq<u8>| has_key(r, q) implies #[trigger] entries_map(r)[q] == target[q] by {
        let j = index_of(r, q);
        lemma_index_of(r, j);
        assert(r[j] == s[j + i]);
        lemma_index_of(s, j + i);
    }
    assert(entries_map(r) =~= target);
}

/// Laying the scratch over the table and then cutting at `k` is cutting
/// both at `k` and then laying one over the other.
pub proof fn lemma_overlay_from_key<V>(
    scratch: Map<Seq<u8>, KvOp<V>>,
    table: Map<Seq<u8>, V>,
    k: Seq<u8>,
)
    ensures
        overlay(from_key(scratch, k), from_key(table, k)) == from_key(overlay(scratch, table), k),
{
    assert(overlay(from_key(scratch, k), from_key(table, k)) =~= from_key(
        overlay(scratch, table),
        k,
    ));
}

/// In a list that starts at `p`, the entries whose keys start with `p` stand
/// together at the head: the head that matches lists all of them.
pub proof fn lemma_matching_head_lists<V>(s: Seq<(Seq<u8>, V)>, m: Map<Seq<u8>, V>, p: Seq<u8>)
    requires
        lists(s, from_key(m, p)),
    ensures
        lists(matching_head(s, p), with_prefix(m, p)),
    decreases s.len(),
{
    let h = matching_head(s, p);
    let target = with_prefix(m, p);
    if s.len() == 0 || !has_prefix(s[0].0, p) {
        assert forall|q: Seq<u8>| !(#[trigger] target.contains_key(q)) by {
            if target.contains_key(q) {
                lemma_prefix_not_above(q, p);
                assert(from_key(m, p).contains_key(q));
                assert(has_key(s, q));
                let j = index_of(s, q);
                lemma_index_of(s, 0);
                assert(from_key(m, p).contains_key(s[0].0));
                if j > 0 {
                    assert(key_lt(s[0].0, s[j].0));
                    lemma_prefix_block(p, s[0].0, s[j].0);
                }
            }
        }
        assert(entries_map(h) =~= target);
    } else {
        let k0 = s[0].0;
        let s1 = s.drop_first();
        let m1 = m.remove(k0);
        assert(s1 =~= s.remove(0));
        lemma_remove_at(s, 0);
        lemma_index_of(s, 0);
        assert(from_key(m1, p) =~= from_key(m, p).remove(k0));
        lemma_matching_head_lists(s1, m1, p);
        let h1 = matching_head(s1, p);
        lemma_tail_above(s, k0);
        assert forall|j: int| 0 <= j < h1.len() implies key_lt(k0, (#[trigger] h1[j]).0) by {
            lemma_index_of(h1, j);
            let q = h1[j].0;
            lemma_prefix_not_above(q, p);
            assert(from_key(m1, p).contains_key(q));
            assert(key_lt(k0, s1[index_of(s1, q)].0));
        }
        assert(h =~= h1.insert(0, s[0]));
        lemma_insert_at(h1, 0, k0, s[0].1);
        assert(target =~= with_prefix(m1, p).insert(k0, s[0].1));
    }
}

/// An entry at the end that lacks the prefix is no part of the matching
/// head.
pub proof fn lemma_matching_head_without_last<V>(s: Seq<(Seq<u8>, V)>, p: Seq<u8>)
    requires
        s.len() > 0,
        !has_prefix(s.last().0, p),
    ensures
        matching_head(s.drop_last(), p) == matching_head(s, p),
    decreases s.len(),
{
    if s.len() > 1 && has_prefix(s[0].0, p) {
        assert(s.drop_last()[0] == s[0]);
        assert(s.drop_last().drop_first() =~= s.drop_first().drop_last());
        lemma_matching_head_without_last(s.drop_first(), p);
    }
}

/// In a sorted sequence that starts at `p` or after it, an entry at the end
/// that has the prefix shows that every entry has it.
pub proof fn lemma_matching_head_is_all<V>(s: Seq<(Seq<u8>, V)>, p: Seq<u8>)
    requires
        sorted(s),
        forall|i: int| 0 <= i < s.len() ==> !key_lt((#[trigger] s[i]).0, p),
        s.len() > 0,
        has_prefix(s.last().0, p),
    ensures
        matching_head(s, p) == s,
    decreases s.len(),
{
    if !has_prefix(s[0].0, p) {
        if s.len() > 1 {
            assert(key_lt(s[0].0, s[s.len() - 1].0));
            lemma_prefix_block(p, s[0].0, s.last().0);
        }
    } else if s.len() > 1 {
        let r = s.drop_first();
        assert forall|i: int, j: int| 0 <= i < j < r.len() implies key_lt(r[i].0, r[j].0) by {
            assert(r[i] == s[i + 1]);
            assert(r[j] == s[j + 1]);
        }
        assert forall|i: int| 0 <= i < r.len() implies !key_lt((#[trigger] r[i]).0, p) by {
            assert(r[i] == s[i + 1]);
        }
        lemma_matching_head_is_all(r, p);
        assert(s =~= seq![s[0]] + r);
    } else {
        assert(s =~= seq![s[0]] + matching_head(s.drop_first(), p));
    }
}

/// Taking the least key off both sources takes the first entry off the
/// merge.
pub proof fn lemma_merged_from_start<V>(s: Seq<(Seq<u8>, KvOp<V>)>, t: Seq<(Seq<u8>, V)>)
    ensures
        s.len() == 0 ==> merged(s, t) == t,
        s.len() > 0 && (t.len() == 0 || key_lt(s[0].0, t[0].0)) ==> merged(s, t) == emitted(s[0])
            + merged(s.drop_first(), t),
        s.len() > 0 && t.len() > 0 && key_lt(t[0].0, s[0].0) ==> merged(s, t) == seq![t[0]]
            + merged(s, t.drop_first()),
        s.len() > 0 && t.len() > 0 && s[0].0 == t[0].0 ==> merged(s, t) == emitted(s[0]) + merged(
            s.drop_first(),
            t.drop_first(),
        ),
{
    if s.len() > 0 && t.len() > 0 {
        lemma_key_lt_asymmetric(s[0].0, t[0].0);
        lemma_key_lt_irreflexive(s[0].0);
    }
}

/// A map has one list only.
pub proof fn lemma_listing_unique<V>(a: Seq<(Seq<u8>, V)>, b: Seq<(Seq<u8>, V)>, m: Map<Seq<u8>, V>)
    requires
        lists(a, m),
        lists(b, m),
    ensures
        a == b,
    decreases a.len(),
{
    if a.len() == 0 {
        if b.len() > 0 {
            lemma_index_of(b, 0);
        }
        assert(a =~= b);
    } else {
        lemma_index_of(a, 0);
        let j = index_of(b, a[0].0);
        lemma_index_of(b, j);
        lemma_index_of(b, 0);
        let i = index_of(a, b[0].0);
        lemma_index_of(a, i);
        if j > 0 {
            assert(key_lt(b[0].0, b[j].0));
            if i > 0 {
                assert(key_lt(a[0].0, a[i].0));
                lemma_key_lt_asymmetric(a[0].0, b[0].0);
            } else {
                lemma_key_lt_irreflexive(a[0].0);
            }
        }
        assert(a[0] == b[0]);
        assert(a.drop_first() =~= a.remove(0));
        assert(b.drop_first() =~= b.remove(0));
        lemma_remove_at(a, 0);
        lemma_remove_at(b, 0);
        lemma_listing_unique(a.drop_first(), b.drop_first(), m.remove(a[0].0));
        assert(a =~= seq![a[0]] + a.drop_first());
        assert(b =~= seq![b[0]] + b.drop_first());
    }
}

/// A sequence that lists a map is the list of that map.
pub proof fn lemma_listing<V>(s: Seq<(Seq<u8>, V)>, m: Map<Seq<u8>, V>)
    requires
        lists(s, m),
    ensures
        listing(m) == s,
{
    lemma_listing_unique(listing(m), s, m);
}

/// Taking the greatest key off both sources takes the last entry off the
/// merge: the merge can be read from its end as from its start.
pub proof fn lemma_merged_from_end<V>(s: Seq<(Seq<u8>, KvOp<V>)>, t: Seq<(Seq<u8>, V)>)
    requires
        sorted(s),
        sorted(t),
        s.len() + t.len() > 0,
    ensures
        s.len() == 0 ==> merged(s, t) == merged(s, t.drop_last()).push(t.last()),
        s.len() > 0 && (t.len() == 0 || key_lt(t.last().0, s.last().0)) ==> merged(s, t) == merged(
            s.drop_last(),
            t,
        ) + emitted(s.last()),
        s.len() > 0 && t.len() > 0 && key_lt(s.last().0, t.last().0) ==> merged(s, t) == merged(
            s,
            t.drop_last(),
        ).push(t.last()),
        s.len() > 0 && t.len() > 0 && s.last().0 == t.last().0 ==> merged(s, t) == merged(
            s.drop_last(),
            t.drop_last(),
        ) + emitted(s.last()),
{
    let m = merged(s, t);
    let target = overlay(entries_map(s), entries_map(t));
    lemma_merged_lists(s, t);
    if s.len() == 0 {
        assert(t.drop_last().push(t.last()) =~= t);
    } else {
        let ks = s.last().0;
        let s1 = s.drop_last();
        if t.len() > 0 {
            lemma_key_lt_asymmetric(ks, t.last().0);
            lemma_key_lt_irreflexive(ks);
        }
        assert(s1 =~= s.remove(s.len() - 1));
        lemma_remove_at(s, s.len() - 1);
        lemma_index_of(s, s.len() - 1);
        lemma_front_below(s, ks);
        lemma_apart_has_no_key(s1, ks);
        if t.len() == 0 || key_lt(t.last().0, ks) {
            lemma_merged_lists(s1, t);
            let m1 = merged(s1, t);
            let target1 = overlay(entries_map(s1), entries_map(t));
            if t.len() > 0 {
                lemma_front_below(t, ks);
            }
            lemma_apart_has_no_key(t, ks);
            lemma_listing_below(m1, s1, t, ks);
            match s.last().1 {
                KvOp::Put(v) => {
                    let m2 = m1 + emitted(s.last());
                    assert(m2 =~= m1.insert(m1.len() as int, (ks, *v)));
                    lemma_insert_at(m1, m1.len() as int, ks, *v);
                    assert(target =~= target1.insert(ks, *v));
                    lemma_listing_unique(m, m2, target);
                },
                KvOp::Delete => {
                    assert(m1 + emitted(s.last()) =~= m1);
                    assert(target =~= target1);
                    lemma_listing_unique(m, m1, target);
                },
            }
        } else {
            let kt = t.last().0;
            let t1 = t.drop_last();
            assert(t1 =~= t.remove(t.len() - 1));
            lemma_remove_at(t, t.len() - 1);
            lemma_index_of(t, t.len() - 1);
            lemma_front_below(t, kt);
            lemma_apart_has_no_key(t1, kt);
            if key_lt(ks, kt) {
                lemma_merged_lists(s, t1);
                let m1 = merged(s, t1);
                let target1 = overlay(entries_map(s), entries_map(t1));
                lemma_front_below(s, kt);
                lemma_apart_has_no_key(s, kt);
                lemma_listing_below(m1, s, t1, kt);
                let m2 = m1.push(t.last());
                assert(m2 =~= m1.insert(m1.len() as int, t.last()));
                lemma_insert_at(m1, m1.len() as int, kt, t.last().1);
                assert(target =~= target1.insert(kt, t.last().1));
                lemma_listing_unique(m, m2, target);
            } else {
                lemma_key_lt_total(ks, kt);
                lemma_merged_lists(s1, t1);
                let m1 = merged(s1, t1);
                let target1 = overlay(entries_map(s1), entries_map(t1));
                lemma_listing_below(m1, s1, t1, ks);
                match s.last().1 {
                    KvOp::Put(v) => {
                        let m2 = m1 + emitted(s.last());
                        assert(m2 =~= m1.insert(m1.len() as int, (ks, *v)));
                        lemma_insert_at(m1, m1.len() as int, ks, *v);
                        assert(target =~= target1.insert(ks, *v));
                        lemma_listing_unique(m, m2, target);
                    },
                    KvOp::Delete => {
                        assert(m1 + emitted(s.last()) =~= m1);
                        assert(target =~= target1);
                        lemma_listing_unique(m, m1, target);
                    },
                }
            }
        }
    }
}

} // verus!
