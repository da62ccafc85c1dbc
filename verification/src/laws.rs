//! What holds of every buffer, stated over the views that the contracts of
//! the buffer's operations speak of.
use crate::entries::{entries_map, has_key, index_of, lemma_index_of, sorted};
use crate::key::has_prefix;
use crate::merge::{
    lemma_listing_unique, lemma_merged_lists, lemma_overlay_delete, lists, merged, overlay,
    stage_deletes, with_prefix,
};
use crate::scratch::KvOp;
use vstd::prelude::*;

verus! {

/// Of two operations staged for one key, the later alone decides what the
/// buffer shows under it: a `Delete` after a `Put` hides the key, a `Put`
/// after a `Delete` or after another `Put` shows its own value.
pub proof fn law_later_operation_decides<V>(
    scratch: Map<Seq<u8>, KvOp<V>>,
    table: Map<Seq<u8>, V>,
    k: Seq<u8>,
    v: V,
    w: V,
)
    ensures
        !overlay(
            scratch.insert(k, KvOp::Put(Box::new(v))).insert(k, KvOp::Delete),
            table,
        ).contains_key(k),
        overlay(
            scratch.insert(k, KvOp::Delete).insert(k, KvOp::Put(Box::new(v))),
            table,
        ).contains_key(k),
        overlay(scratch.insert(k, KvOp::Delete).insert(k, KvOp::Put(Box::new(v))), table)[k] == v,
        overlay(
            scratch.insert(k, KvOp::Put(Box::new(w))).insert(k, KvOp::Put(Box::new(v))),
            table,
        ).contains_key(k),
        overlay(
            scratch.insert(k, KvOp::Put(Box::new(w))).insert(k, KvOp::Put(Box::new(v))),
            table,
        )[k] == v,
{
}

/// A value that was put is read back, whatever the table holds and
/// whatever was staged before. The table itself is not touched, and no
/// other key shows anything else than before.
pub proof fn law_read_your_writes<V>(
    scratch: Map<Seq<u8>, KvOp<V>>,
    table: Map<Seq<u8>, V>,
    k: Seq<u8>,
    v: V,
)
    ensures
        overlay(scratch.insert(k, KvOp::Put(Box::new(v))), table).contains_key(k),
        overlay(scratch.insert(k, KvOp::Put(Box::new(v))), table)[k] == v,
        overlay(scratch.insert(k, KvOp::Put(Box::new(v))), table) == overlay(
            scratch,
            table,
        ).insert(k, v),
{
    assert(overlay(scratch.insert(k, KvOp::Put(Box::new(v))), table) =~= overlay(
        scratch,
        table,
    ).insert(k, v));
}

/// Flushing a `Delete` of a key that the table does not hold leaves the
/// table without the key, and every other key as the flush of the rest
/// leaves it.
pub proof fn law_flushed_delete_of_absent_key<V>(
    scratch: Map<Seq<u8>, KvOp<V>>,
    table: Map<Seq<u8>, V>,
    k: Seq<u8>,
)
    requires
        !table.contains_key(k),
    ensures
        !overlay(scratch.insert(k, KvOp::Delete), table).contains_key(k),
        overlay(scratch.insert(k, KvOp::Delete), table) == overlay(scratch, table).remove(k),
        !scratch.contains_key(k) ==> overlay(scratch.insert(k, KvOp::Delete), table) == overlay(
            scratch,
            table,
        ),
{
    lemma_overlay_delete(scratch, table, k);
    if !scratch.contains_key(k) {
        assert(overlay(scratch, table).remove(k) =~= overlay(scratch, table));
    }
}

/// The merge of the staged entries and the persisted entries is the
/// logical content listed in key order: any sequence that lists the
/// overlay of the two maps is that merge.
pub proof fn law_merge_is_the_listed_overlay<V>(
    staged: Seq<(Seq<u8>, KvOp<V>)>,
    persisted: Seq<(Seq<u8>, V)>,
    reference: Seq<(Seq<u8>, V)>,
)
    requires
        sorted(staged),
        sorted(persisted),
        lists(reference, overlay(entries_map(staged), entries_map(persisted))),
    ensures
        merged(staged, persisted) == reference,
{
    lemma_merged_lists(staged, persisted);
    lemma_listing_unique(
        merged(staged, persisted),
        reference,
        overlay(entries_map(staged), entries_map(persisted)),
    );
}

/// What a reverse iteration yields is what the forward iteration over the
/// same content yields, reversed.
pub proof fn law_reverse_is_forward_reversed<V>(
    forward: Seq<(Seq<u8>, V)>,
    backward: Seq<(Seq<u8>, V)>,
    content: Map<Seq<u8>, V>,
)
    requires
        lists(forward, content),
        lists(backward.reverse(), content),
    ensures
        backward == forward.reverse(),
{
    lemma_listing_unique(forward, backward.reverse(), content);
    assert(backward.reverse().reverse() =~= backward);
}

/// An iteration over a prefix yields no key that lacks the prefix, and
/// yields every key of the content that starts with it, with its value.
pub proof fn law_prefix_iteration<V>(
    yielded: Seq<(Seq<u8>, V)>,
    content: Map<Seq<u8>, V>,
    prefix: Seq<u8>,
)
    requires
        lists(yielded, with_prefix(content, prefix)),
    ensures
        forall|i: int|
            0 <= i < yielded.len() ==> has_prefix((#[trigger] yielded[i]).0, prefix)
                && content.contains_key(yielded[i].0) && content[yielded[i].0] == yielded[i].1,
        forall|q: Seq<u8>|
            content.contains_key(q) && has_prefix(q, prefix) ==> #[trigger] has_key(yielded, q)
                && yielded[index_of(yielded, q)].1 == content[q],
{
    assert forall|i: int| 0 <= i < yielded.len() implies has_prefix(
        (#[trigger] yielded[i]).0,
        prefix,
    ) && content.contains_key(yielded[i].0) && content[yielded[i].0] == yielded[i].1 by {
        lemma_index_of(yielded, i);
    }
    assert forall|q: Seq<u8>| content.contains_key(q) && has_prefix(q, prefix) implies #[trigger] has_key(
        yielded,
        q,
    ) && yielded[index_of(yielded, q)].1 == content[q] by {
        assert(with_prefix(content, prefix).contains_key(q));
        lemma_index_of(yielded, index_of(yielded, q));
    }
}

/// After a drain of some keys and a flush, the table holds none of the
/// drained keys, and under every other key it holds what the buffer showed
/// before the drain.
pub proof fn law_drain_then_flush<V>(
    scratch: Map<Seq<u8>, KvOp<V>>,
    table: Map<Seq<u8>, V>,
    drained: Seq<Seq<u8>>,
)
    ensures
        forall|k: Seq<u8>|
            drained.contains(k) ==> !(#[trigger] overlay(
                stage_deletes(scratch, drained),
                table,
            ).contains_key(k)),
        forall|k: Seq<u8>|
            !drained.contains(k) ==> (#[trigger] overlay(
                stage_deletes(scratch, drained),
                table,
            ).contains_key(k)) == overlay(scratch, table).contains_key(k),
        forall|k: Seq<u8>|
            !drained.contains(k) && overlay(scratch, table).contains_key(k) ==> (
            #[trigger] overlay(stage_deletes(scratch, drained), table)[k]) == overlay(
                scratch,
                table,
            )[k],
    decreases drained.len(),
{
    if drained.len() > 0 {
        let front = drained.drop_last();
        let last = drained.last();
        law_drain_then_flush(scratch, table, front);
        lemma_overlay_delete(stage_deletes(scratch, front), table, last);
        let before = overlay(stage_deletes(scratch, front), table);
        let after = overlay(stage_deletes(scratch, drained), table);
        assert(after == before.remove(last));
        assert forall|k: Seq<u8>| drained.contains(k) <==> (k == last || front.contains(k)) by {
            if drained.contains(k) {
                let i = choose|i: int| 0 <= i < drained.len() && drained[i] == k;
                if i < drained.len() - 1 {
                    assert(front[i] == k);
                }
            }
            if front.contains(k) {
                let i = choose|i: int| 0 <= i < front.len() && front[i] == k;
                assert(drained[i] == k);
            }
            if k == last {
                assert(drained[drained.len() - 1] == k);
            }
        }
        assert forall|k: Seq<u8>| drained.contains(k) implies !(#[trigger] after.contains_key(k)) by {
            if k != last {
                assert(front.contains(k));
                assert(!before.contains_key(k));
            }
        }
        assert forall|k: Seq<u8>| !drained.contains(k) implies (#[trigger] after.contains_key(k))
            == overlay(scratch, table).contains_key(k) by {
            assert(!front.contains(k));
            assert(before.contains_key(k) == overlay(scratch, table).contains_key(k));
        }
        assert forall|k: Seq<u8>|
            !drained.contains(k) && overlay(scratch, table).contains_key(k) implies (
        #[trigger] after[k]) == overlay(scratch, table)[k] by {
            assert(!front.contains(k));
            assert(before[k] == overlay(scratch, table)[k]);
        }
    }
}

/// A value that was put and flushed is what a new buffer over the flushed
/// table reads, unchanged.
pub proof fn law_round_trip<V>(
    scratch: Map<Seq<u8>, KvOp<V>>,
    table: Map<Seq<u8>, V>,
    k: Seq<u8>,
    v: V,
)
    ensures
        overlay(
            Map::<Seq<u8>, KvOp<V>>::empty(),
            overlay(scratch.insert(k, KvOp::Put(Box::new(v))), table),
        ).contains_key(k),
        overlay(
            Map::<Seq<u8>, KvOp<V>>::empty(),
            overlay(scratch.insert(k, KvOp::Put(Box::new(v))), table),
        )[k] == v,
        forall|m: Map<Seq<u8>, V>| #[trigger] overlay(Map::<Seq<u8>, KvOp<V>>::empty(), m) == m,
{
    assert forall|m: Map<Seq<u8>, V>| #[trigger] overlay(Map::<Seq<u8>, KvOp<V>>::empty(), m)
        == m by {
        assert(overlay(Map::<Seq<u8>, KvOp<V>>::empty(), m) =~= m);
    }
}

} // verus!
