//! The persisted table as this layer sees it: what a reader snapshot shows
//! of it, and what a writer has staged into it.
use crate::entries::{entries_map, sorted};
use crate::engine::WriteOutcome;
use crate::error::EngineError;
use crate::key::key_lt;
use crate::keymap::KeyMap;
use vstd::prelude::*;

verus! {

/// The entries of one table, in ascending key order.
pub struct Table<V> {
    rows: KeyMap<V>,
}

impl<V> View for Table<V> {
    type V = Map<Seq<u8>, V>;

    /// The table as a map from key to value.
    open spec fn view(&self) -> Map<Seq<u8>, V> {
        entries_map(self.entries())
    }
}

impl<V> Table<V> {
    /// The entries in the order in which a cursor walks them.
    pub closed spec fn entries(&self) -> Seq<(Seq<u8>, V)> {
        self.rows.entries()
    }

    /// The entries are in strictly ascending key order.
    pub open spec fn wf(&self) -> bool {
        sorted(self.entries())
    }

    /// An empty table.
    pub fn new() -> (t: Self)
        ensures
            t.wf(),
            t.entries() == Seq::<(Seq<u8>, V)>::empty(),
            t@ == Map::<Seq<u8>, V>::empty(),
    {
        Table { rows: KeyMap::new() }
    }

    /// The number of entries.
    pub fn len(&self) -> (n: usize)
        ensures
            n == self.entries().len(),
    {
        self.rows.len()
    }

    /// Whether the table holds no entry.
    pub fn is_empty(&self) -> (r: bool)
        ensures
            r == (self.entries().len() == 0),
            self.wf() ==> r == (self@ == Map::<Seq<u8>, V>::empty()),
    {
        self.rows.is_empty()
    }

    /// The key at place `i` of a cursor's walk.
    pub fn key_at(&self, i: usize) -> (k: &[u8])
        requires
            i < self.entries().len(),
        ensures
            k@ == self.entries()[i as int].0,
    {
        self.rows.key_at(i)
    }

    /// The value at place `i` of a cursor's walk.
    pub fn value_at(&self, i: usize) -> (v: &V)
        requires
            i < self.entries().len(),
        ensures
            *v == self.entries()[i as int].1,
    {
        self.rows.value_at(i)
    }

    /// Where a cursor opened at `k` starts: the first place whose key is
    /// not below `k`.
    pub fn lower_bound(&self, k: &[u8]) -> (i: usize)
        requires
            self.wf(),
        ensures
            i <= self.entries().len(),
            forall|j: int| 0 <= j < i ==> key_lt((#[trigger] self.entries()[j]).0, k@),
            forall|j: int|
                i <= j < self.entries().len() ==> !key_lt((#[trigger] self.entries()[j]).0, k@),
    {
        self.rows.lower_bound(k)
    }

    /// The value under `k`, if the table holds one.
    pub fn get(&self, k: &[u8]) -> (r: Option<&V>)
        requires
            self.wf(),
        ensures
            match r {
                Some(v) => self@.contains_key(k@) && *v == self@[k@],
                None => !self@.contains_key(k@),
            },
    {
        self.rows.get(k)
    }

    /// Writes `v` under `k`, over what was there. A table in memory never
    /// refuses a write.
    pub fn put(&mut self, k: Vec<u8>, v: V) -> (r: WriteOutcome)
        requires
            old(self).wf(),
        ensures
            final(self).wf(),
            r == WriteOutcome::Done,
            final(self)@ == old(self)@.insert(k@, v),
    {
        self.rows.insert(k, v);
        WriteOutcome::Done
    }

    /// Removes the entry under `k`. Where there is none the table stays as
    /// it is and the answer is `NotFound`.
    pub fn delete(&mut self, k: &[u8]) -> (r: WriteOutcome)
        requires
            old(self).wf(),
        ensures
            final(self).wf(),
            final(self)@ == old(self)@.remove(k@),
            old(self)@.contains_key(k@) ==> r == WriteOutcome::Done,
            !old(self)@.contains_key(k@) ==> r == WriteOutcome::Failed(EngineError::NotFound),
    {
        match self.rows.remove(k) {
            Some(_) => WriteOutcome::Done,
            None => WriteOutcome::Failed(EngineError::NotFound),
        }
    }

    /// Removes every entry.
    pub fn delete_all(&mut self) -> (r: WriteOutcome)
        ensures
            final(self).wf(),
            r == WriteOutcome::Done,
            final(self).entries() == Seq::<(Seq<u8>, V)>::empty(),
            final(self)@ == Map::<Seq<u8>, V>::empty(),
    {
        self.rows.clear();
        WriteOutcome::Done
    }
}

} // verus!
