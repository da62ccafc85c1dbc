//! The buffer: a scratch space above one persisted table.
use crate::drain::DrainIter;
use crate::entries::{
    entries_map, lemma_index_of, lemma_insert_at, lemma_subrange_sorted, sorted,
};
use crate::engine::settle_write;
use crate::error::{DatabaseError, DatabaseResult};
use crate::flush::Flush;
use crate::iter::{SingleIter, SingleIterFrom, SingleIterKeyMatch};
use crate::key::{check_empty_key, key_lt};
use crate::merge::{
    from_key, lemma_matching_head_lists, lemma_merged_lists, lemma_overlay_delete,
    lemma_overlay_from_key, lemma_overlay_put, lemma_skip_is_from_key, lists, overlay,
    with_prefix,
};
use crate::scratch::{KvOp, Scratch};
use crate::table::Table;
use vstd::prelude::*;

verus! {

/// What the scratch space says of one key.
#[derive(Debug, PartialEq)]
pub enum Lookup<'a, V> {
    /// A `Put` is staged: this is the value, and the table is not asked.
    Staged(&'a V),
    /// A `Delete` is staged: the key is absent, and the table is not asked.
    Deleted,
    /// Nothing is staged: the table decides.
    Unstaged,
}

/// A buffer over the table behind the handle `D`: writes are staged in a
/// scratch space and reach the table only when the buffer is flushed; reads
/// see the scratch space laid over a reader's snapshot of the table.
pub struct KvBufUsed<D, V> {
    store: D,
    scratch: Scratch<V>,
}

impl<D, V> View for KvBufUsed<D, V> {
    type V = Map<Seq<u8>, KvOp<V>>;

    /// The staged operations by key.
    closed spec fn view(&self) -> Map<Seq<u8>, KvOp<V>> {
        self.scratch@
    }
}

impl<D, V> KvBufUsed<D, V> {
    /// The scratch space is in key order.
    pub closed spec fn wf(&self) -> bool {
        self.scratch.wf()
    }

    /// The handle of the table that the buffer stands above.
    pub closed spec fn handle(&self) -> D {
        self.store
    }

    /// The staged operations in the order in which a flush issues them.
    pub closed spec fn staged(&self) -> Seq<(Seq<u8>, KvOp<V>)> {
        self.scratch.entries()
    }

    /// A flush issues the staged operations in ascending key order, one for
    /// each key that has one.
    pub proof fn lemma_staged_lists(&self)
        requires
            self.wf(),
        ensures
            lists(self.staged(), self@),
    {
    }

    /// A clean buffer above the table behind `db`.
    pub fn new(db: D) -> (r: DatabaseResult<Self>)
        ensures
            r is Ok,
            r->Ok_0.wf(),
            r->Ok_0@ == Map::<Seq<u8>, KvOp<V>>::empty(),
            r->Ok_0.handle() == db,
    {
        Ok(KvBufUsed { store: db, scratch: Scratch::new() })
    }

    /// The handle of the table that the buffer stands above.
    pub fn store(&self) -> (db: &D)
        ensures
            *db == self.handle(),
    {
        &self.store
    }

    /// The scratch space.
    pub fn scratch(&self) -> (s: &Scratch<V>)
        ensures
            s@ == self@,
            s.wf() == self.wf(),
    {
        &self.scratch
    }

    /// Whether nothing is staged.
    pub fn is_clean(&self) -> (r: bool)
        requires
            self.wf(),
        ensures
            r == (self@ == Map::<Seq<u8>, KvOp<V>>::empty()),
    {
        self.scratch.is_empty()
    }

    /// What the scratch space says of `k`, without a look at the table.
    pub fn lookup(&self, k: &[u8]) -> (r: DatabaseResult<Lookup<'_, V>>)
        requires
            self.wf(),
        ensures
            k@.len() == 0 ==> r == Err::<Lookup<'_, V>, DatabaseError>(DatabaseError::InvalidKey),
            k@.len() > 0 ==> r is Ok && match r->Ok_0 {
                Lookup::Staged(v) => self@.contains_key(k@) && self@[k@] == KvOp::Put(
                    Box::new(*v),
                ),
                Lookup::Deleted => self@.contains_key(k@) && self@[k@] == KvOp::<V>::Delete,
                Lookup::Unstaged => !self@.contains_key(k@),
            },
    {
        check_empty_key(k)?;
        Ok(
            match self.scratch.get(k) {
                Some(KvOp::Put(v)) => Lookup::Staged(&**v),
                Some(KvOp::Delete) => Lookup::Deleted,
                None => Lookup::Unstaged,
            },
        )
    }

    /// Whether the buffer shows a value under `k`.
    pub fn contains(&self, r: &Table<V>, k: &[u8]) -> (res: DatabaseResult<bool>)
        requires
            self.wf(),
            r.wf(),
        ensures
            k@.len() == 0 ==> res == Err::<bool, DatabaseError>(DatabaseError::InvalidKey),
            k@.len() > 0 ==> res == Ok::<bool, DatabaseError>(
                overlay(self@, r@).contains_key(k@),
            ),
    {
        let exists = match self.lookup(k)? {
            Lookup::Staged(_) => true,
            Lookup::Deleted => false,
            Lookup::Unstaged => r.get(k).is_some(),
        };
        Ok(exists)
    }

    /// The value that the buffer shows under `k`: the staged one where an
    /// operation is staged for `k`, else the one in the table.
    pub fn get<'a>(&'a self, r: &'a Table<V>, k: &[u8]) -> (res: DatabaseResult<Option<&'a V>>)
        requires
            self.wf(),
            r.wf(),
        ensures
            k@.len() == 0 ==> res == Err::<Option<&V>, DatabaseError>(DatabaseError::InvalidKey),
            k@.len() > 0 ==> res is Ok && match res->Ok_0 {
                Some(v) => overlay(self@, r@).contains_key(k@) && overlay(self@, r@)[k@] == *v,
                None => !overlay(self@, r@).contains_key(k@),
            },
    {
        let val = match self.lookup(k)? {
            Lookup::Staged(v) => Some(v),
            Lookup::Deleted => None,
            Lookup::Unstaged => r.get(k),
        };
        Ok(val)
    }

    /// Stages a `Put` of `v` under `k`, in place of what was staged for `k`.
    pub fn put(&mut self, k: Vec<u8>, v: V) -> (r: DatabaseResult<()>)
        requires
            old(self).wf(),
        ensures
            final(self).wf(),
            final(self).handle() == old(self).handle(),
            k@.len() == 0 ==> r == Err::<(), DatabaseError>(DatabaseError::InvalidKey) && final(self)@ == old(self)@,
            k@.len() > 0 ==> r is Ok && final(self)@ == old(self)@.insert(
                k@,
                KvOp::Put(Box::new(v)),
            ),
    {
        check_empty_key(k.as_slice())?;
        self.scratch.insert(k, KvOp::Put(Box::new(v)));
        Ok(())
    }

    /// Stages a `Delete` of `k`, in place of what was staged for `k`.
    pub fn delete(&mut self, k: Vec<u8>) -> (r: DatabaseResult<()>)
        requires
            old(self).wf(),
        ensures
            final(self).wf(),
            final(self).handle() == old(self).handle(),
            k@.len() == 0 ==> r == Err::<(), DatabaseError>(DatabaseError::InvalidKey) && final(self)@ == old(self)@,
            k@.len() > 0 ==> r is Ok && final(self)@ == old(self)@.insert(k@, KvOp::Delete),
    {
        check_empty_key(k.as_slice())?;
        self.scratch.insert(k, KvOp::Delete);
        Ok(())
    }

    /// An iterator over all that the buffer shows, in ascending key order.
    pub fn iter<'a>(&'a self, r: &'a Table<V>) -> (res: DatabaseResult<SingleIter<'a, V>>)
        requires
            self.wf(),
            r.wf(),
        ensures
            res is Ok,
            res->Ok_0.wf(),
            !res->Ok_0.is_reversed(),
            lists(res->Ok_0.remaining(), overlay(self@, r@)),
    {
        proof {
            assert(self.scratch.entries().skip(0) =~= self.scratch.entries());
            assert(r.entries().skip(0) =~= r.entries());
            lemma_merged_lists(self.scratch.entries(), r.entries());
        }
        Ok(SingleIter::new(&self.scratch, r, 0, 0))
    }

    /// An iterator over what the buffer shows from `k` on, in ascending key
    /// order.
    pub fn iter_from<'a>(&'a self, r: &'a Table<V>, k: &[u8]) -> (res: DatabaseResult<
        SingleIterFrom<'a, V>,
    >)
        requires
            self.wf(),
            r.wf(),
        ensures
            k@.len() == 0 ==> res is Err && res->Err_0 == DatabaseError::InvalidKey,
            k@.len() > 0 ==> res is Ok && res->Ok_0.wf() && !res->Ok_0.is_reversed() && lists(
                res->Ok_0.remaining(),
                from_key(overlay(self@, r@), k@),
            ),
    {
        check_empty_key(k)?;
        let s_lo = self.scratch.lower_bound(k);
        let t_lo = r.lower_bound(k);
        proof {
            lemma_skip_is_from_key(self.scratch.entries(), s_lo as int, k@);
            lemma_skip_is_from_key(r.entries(), t_lo as int, k@);
            lemma_merged_lists(
                self.scratch.entries().skip(s_lo as int),
                r.entries().skip(t_lo as int),
            );
            lemma_overlay_from_key(self@, r@, k@);
        }
        Ok(SingleIter::new(&self.scratch, r, s_lo, t_lo))
    }

    /// An iterator over what the buffer shows under the keys that start
    /// with `k`, in ascending key order.
    pub fn iter_all_key_matches<'a>(&'a self, r: &'a Table<V>, k: Vec<u8>) -> (res: DatabaseResult<
        SingleIterKeyMatch<'a, V>,
    >)
        requires
            self.wf(),
            r.wf(),
        ensures
            k@.len() == 0 ==> res is Err && res->Err_0 == DatabaseError::InvalidKey,
            k@.len() > 0 ==> res is Ok && res->Ok_0.wf() && !res->Ok_0.is_reversed() && lists(
                res->Ok_0.remaining(),
                with_prefix(overlay(self@, r@), k@),
            ),
    {
        let from = self.iter_from(r, k.as_slice())?;
        proof {
            lemma_matching_head_lists(from.remaining(), overlay(self@, r@), k@);
            assert forall|i: int| 0 <= i < from.remaining().len() implies !key_lt(
                (#[trigger] from.remaining()[i]).0,
                k@,
            ) by {
                lemma_index_of(from.remaining(), i);
            }
        }
        Ok(SingleIterKeyMatch::new(from, k))
    }

    /// An iterator over all that the buffer shows, in descending key order.
    pub fn iter_reverse<'a>(&'a self, r: &'a Table<V>) -> (res: DatabaseResult<SingleIter<'a, V>>)
        requires
            self.wf(),
            r.wf(),
        ensures
            res is Ok,
            res->Ok_0.wf(),
            res->Ok_0.is_reversed(),
            lists(res->Ok_0.remaining().reverse(), overlay(self@, r@)),
    {
        let it = self.iter(r)?;
        proof {
            assert(it.remaining().reverse().reverse() =~= it.remaining());
        }
        Ok(it.rev())
    }

    /// Empties the scratch space and the table alike. Nothing of what was
    /// staged reaches the table.
    pub fn clear_all(&mut self, writer: &mut Table<V>) -> (r: DatabaseResult<()>)
        ensures
            r is Ok,
            final(self).wf(),
            final(self).handle() == old(self).handle(),
            final(self)@ == Map::<Seq<u8>, KvOp<V>>::empty(),
            final(writer).wf(),
            final(writer)@ == Map::<Seq<u8>, V>::empty(),
    {
        self.scratch.clear();
        settle_write(writer.delete_all())
    }

    /// The flush of this buffer: its staged operations, to be issued in
    /// ascending key order. The buffer is spent.
    pub fn into_flush(self) -> (f: Flush<V>)
        ensures
            f.pending() == self.staged(),
    {
        let ghost staged = self.staged();
        let f = Flush::new(self.scratch.into_rows());
        proof {
            assert(f.pending() =~= staged);
        }
        f
    }

    /// Stages every operation of the scratch space into `writer`, in
    /// ascending key order: a `Put` writes its value, a `Delete` removes
    /// the key, and a key that is not there to remove is passed over. The
    /// buffer is spent. The writer then holds what the buffer showed.
    pub fn flush_to_txn(self, writer: &mut Table<V>) -> (r: DatabaseResult<()>)
        requires
            self.wf(),
            old(writer).wf(),
        ensures
            r is Ok,
            final(writer).wf(),
            final(writer)@ == overlay(self@, old(writer)@),
    {
        if self.is_clean() {
            proof {
                assert(overlay(self@, writer@) =~= writer@);
            }
            return Ok(());
        }
        let ghost staged = self.staged();
        let ghost before = writer@;
        let ghost mut n: int = 0;
        let mut flush = self.into_flush();
        proof {
            assert(staged.skip(0) =~= staged);
            assert(entries_map(staged.take(0)) =~= Map::<Seq<u8>, KvOp<V>>::empty());
            assert(overlay(entries_map(staged.take(0)), before) =~= before);
        }
        loop
            invariant
                sorted(staged),
                0 <= n <= staged.len(),
                flush.pending() == staged.skip(n),
                writer.wf(),
                writer@ == overlay(entries_map(staged.take(n)), before),
                before == old(writer)@,
                staged == self.staged(),
                self.wf(),
            decreases staged.len() - n,
        {
            match flush.next_write() {
                None => {
                    proof {
                        assert(staged.take(n) =~= staged);
                    }
                    return Ok(());
                },
                Some((k, op)) => {
                    proof {
                        let done = staged.take(n);
                        assert(staged.skip(n)[0] == staged[n]);
                        assert(staged.skip(n).drop_first() =~= staged.skip(n + 1));
                        lemma_subrange_sorted(staged, 0, n);
                        assert(staged.take(n + 1) =~= done.insert(n, (k@, op)));
                        assert forall|j: int| 0 <= j < n implies key_lt(
                            (#[trigger] done[j]).0,
                            k@,
                        ) by {
                            assert(done[j] == staged[j]);
                            assert(key_lt(staged[j].0, staged[n].0));
                        }
                        lemma_insert_at(done, n, k@, op);
                    }
                    let outcome = match op {
                        KvOp::Put(v) => {
                            proof {
                                lemma_overlay_put(entries_map(staged.take(n)), before, k@, *v);
                            }
                            writer.put(k, *v)
                        },
                        KvOp::Delete => {
                            proof {
                                lemma_overlay_delete(entries_map(staged.take(n)), before, k@);
                            }
                            writer.delete(k.as_slice())
                        },
                    };
                    flush.settle(outcome)?;
                    proof {
                        n = n + 1;
                    }
                },
            }
        }
    }
}

impl<D, V: Clone> KvBufUsed<D, V> {
    /// A draining iterator over all that the buffer shows, in ascending key
    /// order. Each entry that it yields is staged for removal in this
    /// buffer, whose scratch space the iterator holds until it is dropped.
    pub fn drain_iter<'a>(&'a mut self, r: &'a Table<V>) -> (res: DatabaseResult<DrainIter<'a, V>>)
        requires
            old(self).wf(),
            r.wf(),
        ensures
            res is Ok,
            res->Ok_0.wf(),
            !res->Ok_0.is_reversed(),
            res->Ok_0.scratch.wf(),
            res->Ok_0.scratch@ == old(self)@,
            lists(res->Ok_0.remaining(), overlay(old(self)@, r@)),
            final(self)@ == final(res->Ok_0.scratch)@,
            final(self).wf() == final(res->Ok_0.scratch).wf(),
            final(self).handle() == old(self).handle(),
    {
        proof {
            lemma_merged_lists(self.scratch.entries(), r.entries());
        }
        Ok(DrainIter::new(&mut self.scratch, r))
    }

    /// A draining iterator over all that the buffer shows, in descending
    /// key order.
    pub fn drain_iter_reverse<'a>(&'a mut self, r: &'a Table<V>) -> (res: DatabaseResult<
        DrainIter<'a, V>,
    >)
        requires
            old(self).wf(),
            r.wf(),
        ensures
            res is Ok,
            res->Ok_0.wf(),
            res->Ok_0.is_reversed(),
            res->Ok_0.scratch.wf(),
            res->Ok_0.scratch@ == old(self)@,
            lists(res->Ok_0.remaining().reverse(), overlay(old(self)@, r@)),
            final(self)@ == final(res->Ok_0.scratch)@,
            final(self).wf() == final(res->Ok_0.scratch).wf(),
            final(self).handle() == old(self).handle(),
    {
        proof {
            lemma_merged_lists(self.scratch.entries(), r.entries());
        }
        let it = DrainIter::new(&mut self.scratch, r);
        proof {
            assert(it.remaining().reverse().reverse() =~= it.remaining());
        }
        Ok(it.rev())
    }
}

} // verus!
