//! A flush in progress: which staged operation to issue next, and what
//! the outcome of each means for the rest.
use crate::engine::{settle_delete, settle_write, settled, WriteOutcome};
use crate::error::DatabaseResult;
use crate::scratch::KvOp;
use vstd::prelude::*;

verus! {

/// The staged operations of a spent buffer, handed out one at a time in
/// ascending key order. The first failure ends the flush: nothing is handed
/// out after it.
pub struct Flush<V> {
    rest: Vec<(Vec<u8>, KvOp<V>)>,
    deleting: bool,
}

impl<V> Flush<V> {
    /// The operations that are still to be issued, in the order in which
    /// they will be.
    pub closed spec fn pending(&self) -> Seq<(Seq<u8>, KvOp<V>)> {
        Seq::new(
            self.rest@.len(),
            |i: int| (self.rest@[self.rest@.len() - 1 - i].0@, self.rest@[self.rest@.len() - 1 - i].1),
        )
    }

    /// Whether the operation that was handed out last is a `Delete`.
    pub closed spec fn deleting(&self) -> bool {
        self.deleting
    }

    /// A flush of `rows`, which come in ascending key order.
    pub(crate) fn new(rows: Vec<(Vec<u8>, KvOp<V>)>) -> (f: Self)
        ensures
            f.pending().len() == rows@.len(),
            forall|i: int|
                0 <= i < rows@.len() ==> (#[trigger] f.pending()[i]) == (rows@[i].0@, rows@[i].1),
    {
        let ghost all = rows@;
        let mut left = rows;
        let mut rest: Vec<(Vec<u8>, KvOp<V>)> = Vec::new();
        loop
            invariant
                all == rows@,
                left@ == all.take(left@.len() as int),
                left@.len() <= all.len(),
                rest@.len() == all.len() - left@.len(),
                forall|j: int| 0 <= j < rest@.len() ==> #[trigger] rest@[j] == all[all.len() - 1 - j],
            decreases left@.len(),
        {
            match left.pop() {
                Some(row) => {
                    rest.push(row);
                },
                None => {
                    return Flush { rest, deleting: false };
                },
            }
        }
    }

    /// The operation to issue next, if the flush is not over.
    pub fn next_write(&mut self) -> (r: Option<(Vec<u8>, KvOp<V>)>)
        ensures
            match r {
                None => old(self).pending().len() == 0 && final(self).pending() == old(self).pending(),
                Some((k, op)) => old(self).pending().len() > 0 && (k@, op) == old(self).pending()[0] && final(self).pending() == old(self).pending().drop_first()
                    && final(self).deleting() == (op is Delete),
            },
    {
        match self.rest.pop() {
            Some((k, op)) => {
                self.deleting = match &op {
                    KvOp::Delete => true,
                    KvOp::Put(_) => false,
                };
                proof {
                    assert(self.pending() =~= old(self).pending().drop_first());
                }
                Some((k, op))
            },
            None => None,
        }
    }

    /// Takes the outcome of the operation that was handed out last. That a
    /// `Delete` found nothing to delete is no failure; any other failure is
    /// the failure of the flush, and ends it.
    pub fn settle(&mut self, outcome: WriteOutcome) -> (r: DatabaseResult<()>)
        ensures
            r == settled(old(self).deleting(), outcome),
            final(self).deleting() == old(self).deleting(),
            r is Ok ==> final(self).pending() == old(self).pending(),
            r is Err ==> final(self).pending() == Seq::<(Seq<u8>, KvOp<V>)>::empty(),
    {
        let r = if self.deleting {
            settle_delete(outcome)
        } else {
            settle_write(outcome)
        };
        if r.is_err() {
            self.rest.clear();
            proof {
                assert(self.pending() =~= Seq::<(Seq<u8>, KvOp<V>)>::empty());
            }
        }
        r
    }
}

} // verus!
