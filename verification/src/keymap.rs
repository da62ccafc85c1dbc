//! An ordered map from byte keys, kept as a vector of entries in ascending
//! key order.
use crate::entries::{
    entries_map, lemma_index_of, lemma_insert_at, lemma_lower_bound_decides, lemma_remove_at,
    lemma_update_at, sorted,
};
use crate::key::{compare_keys, key_lt, lemma_key_lt_total, lemma_key_lt_transitive, KeyOrder};
use vstd::prelude::*;

verus! {

/// A map from byte keys to `X`, ordered by key.
pub struct KeyMap<X> {
    rows: Vec<(Vec<u8>, X)>,
}

impl<X> View for KeyMap<X> {
    type V = Map<Seq<u8>, X>;

    /// The map that the entries stand for.
    open spec fn view(&self) -> Map<Seq<u8>, X> {
        entries_map(self.entries())
    }
}

impl<X> KeyMap<X> {
    /// The entries in the order in which they are kept.
    pub closed spec fn entries(&self) -> Seq<(Seq<u8>, X)> {
        Seq::new(self.rows@.len(), |i: int| (self.rows@[i].0@, self.rows@[i].1))
    }

    /// The entries are in strictly ascending key order.
    pub open spec fn wf(&self) -> bool {
        sorted(self.entries())
    }

    /// An empty map.
    pub fn new() -> (m: Self)
        ensures
            m.wf(),
            m.entries() == Seq::<(Seq<u8>, X)>::empty(),
            m@ == Map::<Seq<u8>, X>::empty(),
    {
        let m = KeyMap { rows: Vec::new() };
        proof {
            assert(m.entries() =~= Seq::<(Seq<u8>, X)>::empty());
            assert(m@ =~= Map::<Seq<u8>, X>::empty());
        }
        m
    }

    /// The number of entries.
    pub fn len(&self) -> (n: usize)
        ensures
            n == self.entries().len(),
    {
        self.rows.len()
    }

    /// Whether the map holds no entry.
    pub fn is_empty(&self) -> (r: bool)
        ensures
            r == (self.entries().len() == 0),
            self.wf() ==> r == (self@ == Map::<Seq<u8>, X>::empty()),
    {
        proof {
            if self.rows@.len() == 0 {
                assert(self@ =~= Map::<Seq<u8>, X>::empty());
            } else if self.wf() {
                lemma_index_of(self.entries(), 0);
            }
        }
        self.rows.len() == 0
    }

    /// The key of the entry at place `i`.
    pub fn key_at(&self, i: usize) -> (k: &[u8])
        requires
            i < self.entries().len(),
        ensures
            k@ == self.entries()[i as int].0,
    {
        self.rows[i].0.as_slice()
    }

    /// What the entry at place `i` holds.
    pub fn value_at(&self, i: usize) -> (x: &X)
        requires
            i < self.entries().len(),
        ensures
            *x == self.entries()[i as int].1,
    {
        &self.rows[i].1
    }

    /// The first place whose key is not below `k`: every entry before it
    /// sorts before `k`, no entry from it on does.
    pub fn lower_bound(&self, k: &[u8]) -> (i: usize)
        requires
            self.wf(),
        ensures
            i <= self.entries().len(),
            forall|j: int| 0 <= j < i ==> key_lt((#[trigger] self.entries()[j]).0, k@),
            forall|j: int|
                i <= j < self.entries().len() ==> !key_lt((#[trigger] self.entries()[j]).0, k@),
    {
        let mut lo: usize = 0;
        let mut hi: usize = self.rows.len();
        while lo < hi
            invariant
                self.wf(),
                lo <= hi <= self.entries().len(),
                self.entries().len() == self.rows@.len(),
                forall|j: int| 0 <= j < lo ==> key_lt((#[trigger] self.entries()[j]).0, k@),
                forall|j: int|
                    hi <= j < self.entries().len() ==> !key_lt(
                        (#[trigger] self.entries()[j]).0,
                        k@,
                    ),
            decreases hi - lo,
        {
            let mid: usize = lo + (hi - lo) / 2;
            let ghost e = self.entries();
            match compare_keys(self.rows[mid].0.as_slice(), k) {
                KeyOrder::Less => {
                    proof {
                        assert forall|j: int| 0 <= j < mid + 1 implies key_lt(
                            (#[trigger] e[j]).0,
                            k@,
                        ) by {
                            if j < mid {
                                assert(key_lt(e[j].0, e[mid as int].0));
                                lemma_key_lt_transitive(e[j].0, e[mid as int].0, k@);
                            }
                        }
                    }
                    lo = mid + 1;
                },
                _ => {
                    proof {
                        assert forall|j: int| mid <= j < e.len() implies !key_lt(
                            (#[trigger] e[j]).0,
                            k@,
                        ) by {
                            if mid < j && key_lt(e[j].0, k@) {
                                assert(key_lt(e[mid as int].0, e[j].0));
                                lemma_key_lt_transitive(e[mid as int].0, e[j].0, k@);
                            }
                        }
                    }
                    hi = mid;
                },
            }
        }
        lo
    }

    /// What the map holds under `k`, if anything.
    pub fn get(&self, k: &[u8]) -> (r: Option<&X>)
        requires
            self.wf(),
        ensures
            match r {
                Some(x) => self@.contains_key(k@) && *x == self@[k@],
                None => !self@.contains_key(k@),
            },
    {
        let i = self.lower_bound(k);
        proof {
            lemma_lower_bound_decides(self.entries(), i as int, k@);
        }
        if i < self.rows.len() {
            match compare_keys(self.rows[i].0.as_slice(), k) {
                KeyOrder::Equal => {
                    proof {
                        lemma_index_of(self.entries(), i as int);
                    }
                    Some(&self.rows[i].1)
                },
                _ => None,
            }
        } else {
            None
        }
    }

    /// Puts `x` in place of what the entry at place `i` holds, and hands
    /// back what it held.
    pub(crate) fn replace_at(&mut self, i: usize, x: X) -> (prev: X)
        requires
            old(self).wf(),
            i < old(self).entries().len(),
        ensures
            final(self).wf(),
            prev == old(self).entries()[i as int].1,
            final(self).entries() == old(self).entries().update(
                i as int,
                (old(self).entries()[i as int].0, x),
            ),
            final(self)@ == old(self)@.insert(old(self).entries()[i as int].0, x),
    {
        let mut held = x;
        core::mem::swap(&mut self.rows[i].1, &mut held);
        proof {
            let e = old(self).entries();
            assert(self.entries() =~= e.update(i as int, (e[i as int].0, x)));
            lemma_update_at(e, i as int, x);
        }
        held
    }

    /// Puts a new entry at place `i`, where its key belongs.
    pub(crate) fn insert_at(&mut self, i: usize, k: Vec<u8>, x: X)
        requires
            old(self).wf(),
            i <= old(self).entries().len(),
            forall|j: int| 0 <= j < i ==> key_lt((#[trigger] old(self).entries()[j]).0, k@),
            forall|j: int|
                i <= j < old(self).entries().len() ==> key_lt(
                    k@,
                    (#[trigger] old(self).entries()[j]).0,
                ),
        ensures
            final(self).wf(),
            final(self).entries() == old(self).entries().insert(i as int, (k@, x)),
            final(self)@ == old(self)@.insert(k@, x),
    {
        let ghost kv = k@;
        self.rows.insert(i, (k, x));
        proof {
            let e = old(self).entries();
            assert(self.entries() =~= e.insert(i as int, (kv, x)));
            lemma_insert_at(e, i as int, kv, x);
        }
    }

    /// Takes out the entry at place `i`.
    pub(crate) fn remove_at(&mut self, i: usize) -> (x: X)
        requires
            old(self).wf(),
            i < old(self).entries().len(),
        ensures
            final(self).wf(),
            x == old(self).entries()[i as int].1,
            final(self).entries() == old(self).entries().remove(i as int),
            final(self)@ == old(self)@.remove(old(self).entries()[i as int].0),
    {
        let (_, x) = self.rows.remove(i);
        proof {
            let e = old(self).entries();
            assert(self.entries() =~= e.remove(i as int));
            lemma_remove_at(e, i as int);
        }
        x
    }

    /// Maps `k` to `x`, in place of what `k` was mapped to before.
    pub fn insert(&mut self, k: Vec<u8>, x: X)
        requires
            old(self).wf(),
        ensures
            final(self).wf(),
            final(self)@ == old(self)@.insert(k@, x),
    {
        let i = self.lower_bound(k.as_slice());
        let found = i < self.rows.len() && matches!(
            compare_keys(self.rows[i].0.as_slice(), k.as_slice()),
            KeyOrder::Equal
        );
        if found {
            let _ = self.replace_at(i, x);
        } else {
            proof {
                let e = self.entries();
                assert forall|j: int| i <= j < e.len() implies key_lt(k@, (#[trigger] e[j]).0) by {
                    lemma_key_lt_total(k@, e[i as int].0);
                    if j > i {
                        lemma_key_lt_transitive(k@, e[i as int].0, e[j].0);
                    }
                }
            }
            self.insert_at(i, k, x);
        }
    }

    /// Takes out what `k` is mapped to, if anything, and hands it back.
    pub fn remove(&mut self, k: &[u8]) -> (r: Option<X>)
        requires
            old(self).wf(),
        ensures
            final(self).wf(),
            final(self)@ == old(self)@.remove(k@),
            match r {
                Some(x) => old(self)@.contains_key(k@) && x == old(self)@[k@],
                None => !old(self)@.contains_key(k@),
            },
    {
        let i = self.lower_bound(k);
        proof {
            lemma_lower_bound_decides(self.entries(), i as int, k@);
        }
        let found = i < self.rows.len() && matches!(
            compare_keys(self.rows[i].0.as_slice(), k),
            KeyOrder::Equal
        );
        if found {
            proof {
                lemma_index_of(self.entries(), i as int);
            }
            Some(self.remove_at(i))
        } else {
            proof {
                assert(self@.remove(k@) =~= self@);
            }
            None
        }
    }

    /// The entries themselves, in ascending key order.
    pub fn into_rows(self) -> (rows: Vec<(Vec<u8>, X)>)
        ensures
            rows@.len() == self.entries().len(),
            forall|i: int|
                0 <= i < rows@.len() ==> (#[trigger] rows@[i]).0@ == self.entries()[i].0
                    && rows@[i].1 == self.entries()[i].1,
    {
        self.rows
    }

    /// Drops every entry.
    pub fn clear(&mut self)
        ensures
            final(self).wf(),
            final(self).entries() == Seq::<(Seq<u8>, X)>::empty(),
            final(self)@ == Map::<Seq<u8>, X>::empty(),
    {
        self.rows.clear();
        proof {
            assert(self.entries() =~= Seq::<(Seq<u8>, X)>::empty());
            assert(self@ =~= Map::<Seq<u8>, X>::empty());
        }
    }
}

} // verus!
