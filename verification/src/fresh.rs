//! A buffer that carries the snapshot it reads.
use crate::buf::KvBufUsed;
use crate::error::{DatabaseError, DatabaseResult};
use crate::merge::{keys_of, lemma_listing, listing, overlay, stage_deletes, with_prefix};
use crate::scratch::KvOp;
use crate::table::Table;
use vstd::prelude::*;
use vstd::slice::slice_to_vec;

verus! {

/// A buffer together with the environment it reads from. Each read takes
/// a reader's snapshot of the environment for the length of the call and
/// hands it to the buffer; writes go to the scratch space alone.
pub struct KvBufFresh<D, V> {
    env: Table<V>,
    inner: KvBufUsed<D, V>,
}

impl<D, V> View for KvBufFresh<D, V> {
    type V = Map<Seq<u8>, KvOp<V>>;

    /// The staged operations by key.
    closed spec fn view(&self) -> Map<Seq<u8>, KvOp<V>> {
        self.inner@
    }
}

impl<D, V> KvBufFresh<D, V> {
    /// The buffer and the environment's table are in key order.
    pub closed spec fn wf(&self) -> bool {
        self.inner.wf() && self.env.wf()
    }

    /// What a reader's snapshot of the environment shows.
    pub closed spec fn snapshot(&self) -> Map<Seq<u8>, V> {
        self.env@
    }

    /// The handle of the table that the buffer stands above.
    pub closed spec fn handle(&self) -> D {
        self.inner.handle()
    }

    /// The buffer underneath.
    pub closed spec fn used(&self) -> KvBufUsed<D, V> {
        self.inner
    }

    /// A clean buffer that reads from `env`, above the table behind `db`.
    pub fn new(env: Table<V>, db: D) -> (r: DatabaseResult<Self>)
        requires
            env.wf(),
        ensures
            r is Ok,
            r->Ok_0.wf(),
            r->Ok_0@ == Map::<Seq<u8>, KvOp<V>>::empty(),
            r->Ok_0.snapshot() == env@,
            r->Ok_0.handle() == db,
    {
        Ok(KvBufFresh { env, inner: KvBufUsed::new(db)? })
    }

    /// The buffer underneath, for what takes a snapshot from the caller.
    pub fn inner(&self) -> (b: &KvBufUsed<D, V>)
        ensures
            *b == self.used(),
            b@ == self@,
            b.wf() == self.used().wf(),
            self.wf() ==> b.wf(),
    {
        &self.inner
    }

    /// Whether the buffer shows a value under `k`.
    pub fn contains(&self, k: &[u8]) -> (res: DatabaseResult<bool>)
        requires
            self.wf(),
        ensures
            k@.len() == 0 ==> res == Err::<bool, DatabaseError>(DatabaseError::InvalidKey),
            k@.len() > 0 ==> res == Ok::<bool, DatabaseError>(
                overlay(self@, self.snapshot()).contains_key(k@),
            ),
    {
        self.inner.contains(&self.env, k)
    }

    /// The value that the buffer shows under `k`.
    pub fn get(&self, k: &[u8]) -> (res: DatabaseResult<Option<&V>>)
        requires
            self.wf(),
        ensures
            k@.len() == 0 ==> res == Err::<Option<&V>, DatabaseError>(DatabaseError::InvalidKey),
            k@.len() > 0 ==> res is Ok && match res->Ok_0 {
                Some(v) => overlay(self@, self.snapshot()).contains_key(k@) && overlay(
                    self@,
                    self.snapshot(),
                )[k@] == *v,
                None => !overlay(self@, self.snapshot()).contains_key(k@),
            },
    {
        self.inner.get(&self.env, k)
    }

    /// Stages a `Put` of `v` under `k`.
    pub fn put(&mut self, k: Vec<u8>, v: V) -> (r: DatabaseResult<()>)
        requires
            old(self).wf(),
        ensures
            final(self).wf(),
            final(self).snapshot() == old(self).snapshot(),
            final(self).handle() == old(self).handle(),
            k@.len() == 0 ==> r == Err::<(), DatabaseError>(DatabaseError::InvalidKey) && final(self)@ == old(self)@,
            k@.len() > 0 ==> r is Ok && final(self)@ == old(self)@.insert(
                k@,
                KvOp::Put(Box::new(v)),
            ),
    {
        self.inner.put(k, v)
    }

    /// Stages a `Delete` of `k`.
    pub fn delete(&mut self, k: Vec<u8>) -> (r: DatabaseResult<()>)
        requires
            old(self).wf(),
        ensures
            final(self).wf(),
            final(self).snapshot() == old(self).snapshot(),
            final(self).handle() == old(self).handle(),
            k@.len() == 0 ==> r == Err::<(), DatabaseError>(DatabaseError::InvalidKey) && final(self)@ == old(self)@,
            k@.len() > 0 ==> r is Ok && final(self)@ == old(self)@.insert(k@, KvOp::Delete),
    {
        self.inner.delete(k)
    }

    /// Whether nothing is staged.
    pub fn is_clean(&self) -> (r: bool)
        requires
            self.wf(),
        ensures
            r == (self@ == Map::<Seq<u8>, KvOp<V>>::empty()),
    {
        self.inner.is_clean()
    }

    /// Stages every operation of the scratch space into `writer`. The
    /// buffer is spent. The writer then holds what the buffer's scratch
    /// space shows when laid over the writer.
    pub fn flush_to_txn(self, writer: &mut Table<V>) -> (r: DatabaseResult<()>)
        requires
            self.wf(),
            old(writer).wf(),
        ensures
            r is Ok,
            final(writer).wf(),
            final(writer)@ == overlay(self@, old(writer)@),
    {
        self.inner.flush_to_txn(writer)
    }
}

impl<D, V: Clone> KvBufFresh<D, V> {
    /// The values of all that the buffer shows, in ascending key order. A
    /// `Delete` is staged for each of their keys.
    pub fn drain(&mut self) -> (r: DatabaseResult<Vec<V>>)
        requires
            old(self).wf(),
        ensures
            r is Ok,
            final(self).wf(),
            final(self).snapshot() == old(self).snapshot(),
            final(self).handle() == old(self).handle(),
            r->Ok_0@.len() == listing(overlay(old(self)@, old(self).snapshot())).len(),
            forall|i: int|
                0 <= i < r->Ok_0@.len() ==> cloned(
                    listing(overlay(old(self)@, old(self).snapshot()))[i].1,
                    #[trigger] r->Ok_0@[i],
                ),
            final(self)@ == stage_deletes(
                old(self)@,
                keys_of(listing(overlay(old(self)@, old(self).snapshot()))),
            ),
    {
        let ghost all = listing(overlay(self.inner@, self.env@));
        let ghost start = self.inner@;
        let mut it = self.inner.drain_iter(&self.env)?;
        proof {
            lemma_listing(it.remaining(), overlay(start, self.env@));
            assert(all.skip(0) =~= all);
            assert(keys_of(all.take(0)) =~= Seq::<Seq<u8>>::empty());
        }
        let mut out: Vec<V> = Vec::new();
        loop
            invariant
                it.wf(),
                it.scratch.wf(),
                start == old(self).inner@,
                all == listing(overlay(old(self).inner@, old(self).env@)),
                0 <= out@.len() <= all.len(),
                it.remaining() == all.skip(out@.len() as int),
                forall|i: int| 0 <= i < out@.len() ==> cloned(all[i].1, #[trigger] out@[i]),
                it.scratch@ == stage_deletes(start, keys_of(all.take(out@.len() as int))),
                after_borrow(self.inner)@ == final(it.scratch)@,
                after_borrow(self.inner).wf() == final(it.scratch).wf(),
                after_borrow(self.inner).handle() == old(self).inner.handle(),
                self.env == old(self).env,
                self.env.wf(),
            decreases all.len() - out@.len(),
        {
            let ghost n = out@.len() as int;
            match it.next() {
                Some((k, v)) => {
                    proof {
                        assert(all.skip(n)[0] == all[n]);
                        assert(all.skip(n).drop_first() =~= all.skip(n + 1));
                        assert(keys_of(all.take(n + 1)).drop_last() =~= keys_of(all.take(n)));
                        assert(keys_of(all.take(n + 1)).last() == k@);
                    }
                    out.push(v);
                },
                None => {
                    proof {
                        assert(all.skip(n).len() == 0);
                        assert(all.take(n) =~= all);
                    }
                    return Ok(out);
                },
            }
        }
    }

    /// The entries that the buffer shows under the keys that start with
    /// `k`, in ascending key order.
    pub fn iter_all_key_matches(&self, k: Vec<u8>) -> (r: DatabaseResult<Vec<(Vec<u8>, V)>>)
        requires
            self.wf(),
        ensures
            k@.len() == 0 ==> r is Err && r->Err_0 == DatabaseError::InvalidKey,
            k@.len() > 0 ==> r is Ok && r->Ok_0@.len() == listing(
                with_prefix(overlay(self@, self.snapshot()), k@),
            ).len(),
            forall|i: int|
                r is Ok && 0 <= i < r->Ok_0@.len() ==> (#[trigger] r->Ok_0@[i]).0@ == listing(
                    with_prefix(overlay(self@, self.snapshot()), k@),
                )[i].0 && cloned(
                    listing(with_prefix(overlay(self@, self.snapshot()), k@))[i].1,
                    r->Ok_0@[i].1,
                ),
    {
        let ghost all = listing(with_prefix(overlay(self@, self.snapshot()), k@));
        let ghost prefix = k@;
        let mut it = self.inner.iter_all_key_matches(&self.env, k)?;
        proof {
            lemma_listing(it.remaining(), with_prefix(overlay(self@, self.snapshot()), prefix));
            assert(all.skip(0) =~= all);
        }
        let mut out: Vec<(Vec<u8>, V)> = Vec::new();
        loop
            invariant
                it.wf(),
                prefix == k@,
                prefix.len() > 0,
                all == listing(with_prefix(overlay(self@, self.snapshot()), prefix)),
                0 <= out@.len() <= all.len(),
                it.remaining() == all.skip(out@.len() as int),
                forall|i: int|
                    0 <= i < out@.len() ==> (#[trigger] out@[i]).0@ == all[i].0 && cloned(
                        all[i].1,
                        out@[i].1,
                    ),
            decreases all.len() - out@.len(),
        {
            let ghost n = out@.len() as int;
            match it.next() {
                Some((key, v)) => {
                    proof {
                        assert(all.skip(n)[0] == all[n]);
                        assert(all.skip(n).drop_first() =~= all.skip(n + 1));
                    }
                    out.push((slice_to_vec(key), v.clone()));
                },
                None => {
                    proof {
                        assert(all.skip(n).len() == 0);
                    }
                    return Ok(out);
                },
            }
        }
    }
}

} // verus!
