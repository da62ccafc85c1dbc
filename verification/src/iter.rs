//! Iteration over a buffer: the staged entries and the persisted entries
//! merged into one stream in key order.
use crate::entries::{lemma_subrange_sorted, sorted};
use crate::key::{compare_keys, has_prefix, key_lt, lemma_prefix_block, partial_key_match, KeyOrder};
use crate::merge::{
    emitted, lemma_matching_head_is_all, lemma_matching_head_without_last,
    lemma_merged_from_end, lemma_merged_from_start, matching_head, merged,
};
use crate::scratch::{KvOp, Scratch};
use crate::table::Table;
use vstd::prelude::*;

verus! {

/// A double-ended iterator over what a buffer shows between two bounds.
///
/// It walks a window of the scratch space and a window of the table, and
/// yields the merge of the two: each key once, the staged value where one
/// is staged, nothing where a `Delete` is staged.
pub struct SingleIter<'a, V> {
    scratch: &'a Scratch<V>,
    table: &'a Table<V>,
    s_lo: usize,
    s_hi: usize,
    t_lo: usize,
    t_hi: usize,
    reversed: bool,
}

impl<'a, V> SingleIter<'a, V> {
    /// The windows lie within sources that are in key order.
    pub closed spec fn wf(&self) -> bool {
        &&& self.scratch.wf()
        &&& self.table.wf()
        &&& self.s_lo <= self.s_hi <= self.scratch.entries().len()
        &&& self.t_lo <= self.t_hi <= self.table.entries().len()
    }

    /// The merge of the two windows, in ascending key order.
    pub closed spec fn window(&self) -> Seq<(Seq<u8>, V)> {
        merged(
            self.scratch.entries().subrange(self.s_lo as int, self.s_hi as int),
            self.table.entries().subrange(self.t_lo as int, self.t_hi as int),
        )
    }

    /// Whether `next` walks the keys downwards.
    pub closed spec fn is_reversed(&self) -> bool {
        self.reversed
    }

    /// What is still to come, in the order in which `next` yields it.
    pub open spec fn remaining(&self) -> Seq<(Seq<u8>, V)> {
        if self.is_reversed() {
            self.window().reverse()
        } else {
            self.window()
        }
    }

    /// An iterator over the scratch entries from place `s_lo` on and the
    /// table entries from place `t_lo` on.
    pub(crate) fn new(scratch: &'a Scratch<V>, table: &'a Table<V>, s_lo: usize, t_lo: usize) -> (it:
        Self)
        requires
            scratch.wf(),
            table.wf(),
            s_lo <= scratch.entries().len(),
            t_lo <= table.entries().len(),
        ensures
            it.wf(),
            !it.is_reversed(),
            it.window() == merged(
                scratch.entries().skip(s_lo as int),
                table.entries().skip(t_lo as int),
            ),
    {
        let s_hi = scratch.len();
        let t_hi = table.len();
        proof {
            assert(scratch.entries().subrange(s_lo as int, s_hi as int) =~= scratch.entries().skip(
                s_lo as int,
            ));
            assert(table.entries().subrange(t_lo as int, t_hi as int) =~= table.entries().skip(
                t_lo as int,
            ));
        }
        SingleIter { scratch, table, s_lo, s_hi, t_lo, t_hi, reversed: false }
    }

    /// Takes the entry with the least key off the window.
    fn pop_front(&mut self) -> (r: Option<(&'a [u8], &'a V)>)
        requires
            old(self).wf(),
        ensures
            final(self).wf(),
            final(self).is_reversed() == old(self).is_reversed(),
            match r {
                None => old(self).window().len() == 0 && final(self).window() == old(self).window(),
                Some((k, v)) => old(self).window().len() > 0 && (k@, *v) == old(self).window()[0]
                    && final(self).window() == old(self).window().drop_first(),
            },
    {
        let scratch: &'a Scratch<V> = self.scratch;
        let table: &'a Table<V> = self.table;
        loop
            invariant
                self.wf(),
                self.scratch == scratch,
                self.table == table,
                self.reversed == old(self).reversed,
                self.window() == old(self).window(),
            decreases self.s_hi - self.s_lo,
        {
            let ghost ss = scratch.entries().subrange(self.s_lo as int, self.s_hi as int);
            let ghost ts = table.entries().subrange(self.t_lo as int, self.t_hi as int);
            proof {
                lemma_merged_from_start(ss, ts);
                if ss.len() > 0 {
                    assert(ss.drop_first() =~= scratch.entries().subrange(
                        self.s_lo + 1,
                        self.s_hi as int,
                    ));
                }
                if ts.len() > 0 {
                    assert(ts.drop_first() =~= table.entries().subrange(
                        self.t_lo + 1,
                        self.t_hi as int,
                    ));
                }
            }
            if self.s_lo == self.s_hi {
                if self.t_lo == self.t_hi {
                    return None;
                }
                let j = self.t_lo;
                self.t_lo = j + 1;
                proof {
                    lemma_merged_from_start(ss, ts.drop_first());
                }
                return Some((table.key_at(j), table.value_at(j)));
            }
            let i = self.s_lo;
            let sk = scratch.key_at(i);
            let mut both = false;
            if self.t_lo < self.t_hi {
                match compare_keys(sk, table.key_at(self.t_lo)) {
                    KeyOrder::Less => {},
                    KeyOrder::Equal => {
                        both = true;
                    },
                    KeyOrder::Greater => {
                        let j = self.t_lo;
                        self.t_lo = j + 1;
                        proof {
                            assert((seq![ts[0]] + merged(ss, ts.drop_first())).drop_first()
                                =~= merged(ss, ts.drop_first()));
                        }
                        return Some((table.key_at(j), table.value_at(j)));
                    },
                }
            }
            self.s_lo = i + 1;
            if both {
                self.t_lo = self.t_lo + 1;
            }
            let ghost rest = self.window();
            match scratch.value_at(i) {
                KvOp::Put(v) => {
                    proof {
                        assert((emitted(ss[0]) + rest).drop_first() =~= rest);
                    }
                    return Some((sk, &**v));
                },
                KvOp::Delete => {
                    proof {
                        assert(emitted(ss[0]) + rest =~= rest);
                    }
                },
            }
        }
    }

    /// Takes the entry with the greatest key off the window.
    fn pop_back(&mut self) -> (r: Option<(&'a [u8], &'a V)>)
        requires
            old(self).wf(),
        ensures
            final(self).wf(),
            final(self).is_reversed() == old(self).is_reversed(),
            match r {
                None => old(self).window().len() == 0 && final(self).window() == old(self).window(),
                Some((k, v)) => old(self).window().len() > 0 && (k@, *v) == old(self).window().last() && final(self).window() == old(self).window().drop_last(),
            },
    {
        let scratch: &'a Scratch<V> = self.scratch;
        let table: &'a Table<V> = self.table;
        loop
            invariant
                self.wf(),
                self.scratch == scratch,
                self.table == table,
                self.reversed == old(self).reversed,
                self.window() == old(self).window(),
            decreases self.s_hi - self.s_lo,
        {
            let ghost ss = scratch.entries().subrange(self.s_lo as int, self.s_hi as int);
            let ghost ts = table.entries().subrange(self.t_lo as int, self.t_hi as int);
            proof {
                lemma_subrange_sorted(scratch.entries(), self.s_lo as int, self.s_hi as int);
                lemma_subrange_sorted(table.entries(), self.t_lo as int, self.t_hi as int);
                if ss.len() + ts.len() > 0 {
                    lemma_merged_from_end(ss, ts);
                }
                if ss.len() > 0 {
                    assert(ss.drop_last() =~= scratch.entries().subrange(
                        self.s_lo as int,
                        self.s_hi - 1,
                    ));
                }
                if ts.len() > 0 {
                    assert(ts.drop_last() =~= table.entries().subrange(
                        self.t_lo as int,
                        self.t_hi - 1,
                    ));
                }
            }
            if self.s_lo == self.s_hi {
                if self.t_lo == self.t_hi {
                    return None;
                }
                let j = self.t_hi - 1;
                self.t_hi = j;
                proof {
                    let rest = merged(ss, ts.drop_last());
                    assert(rest.push(ts.last()).drop_last() =~= rest);
                }
                return Some((table.key_at(j), table.value_at(j)));
            }
            let i = self.s_hi - 1;
            let sk = scratch.key_at(i);
            let mut both = false;
            if self.t_lo < self.t_hi {
                match compare_keys(sk, table.key_at(self.t_hi - 1)) {
                    KeyOrder::Greater => {},
                    KeyOrder::Equal => {
                        both = true;
                    },
                    KeyOrder::Less => {
                        let j = self.t_hi - 1;
                        self.t_hi = j;
                        proof {
                            let rest = merged(ss, ts.drop_last());
                            assert(rest.push(ts.last()).drop_last() =~= rest);
                        }
                        return Some((table.key_at(j), table.value_at(j)));
                    },
                }
            }
            self.s_hi = i;
            if both {
                self.t_hi = self.t_hi - 1;
            }
            let ghost rest = self.window();
            match scratch.value_at(i) {
                KvOp::Put(v) => {
                    proof {
                        assert((rest + emitted(ss.last())).drop_last() =~= rest);
                    }
                    return Some((sk, &**v));
                },
                KvOp::Delete => {
                    proof {
                        assert(rest + emitted(ss.last()) =~= rest);
                    }
                },
            }
        }
    }

    /// The next entry in the direction of the iterator, if any is left.
    pub fn next(&mut self) -> (r: Option<(&'a [u8], &'a V)>)
        requires
            old(self).wf(),
        ensures
            final(self).wf(),
            final(self).is_reversed() == old(self).is_reversed(),
            match r {
                None => old(self).remaining().len() == 0 && final(self).remaining() == old(self).remaining(),
                Some((k, v)) => old(self).remaining().len() > 0 && (k@, *v) == old(self).remaining()[0] && final(self).remaining() == old(self).remaining().drop_first(),
            },
    {
        if self.reversed {
            let r = self.pop_back();
            proof {
                let w = old(self).window();
                if r is Some {
                    assert(w.reverse().drop_first() =~= w.drop_last().reverse());
                }
            }
            r
        } else {
            self.pop_front()
        }
    }

    /// The next entry from the far end, if any is left.
    pub fn next_back(&mut self) -> (r: Option<(&'a [u8], &'a V)>)
        requires
            old(self).wf(),
        ensures
            final(self).wf(),
            final(self).is_reversed() == old(self).is_reversed(),
            match r {
                None => old(self).remaining().len() == 0 && final(self).remaining() == old(self).remaining(),
                Some((k, v)) => old(self).remaining().len() > 0 && (k@, *v) == old(self).remaining().last() && final(self).remaining() == old(self).remaining().drop_last(),
            },
    {
        if self.reversed {
            let r = self.pop_front();
            proof {
                let w = old(self).window();
                if r is Some {
                    assert(w.reverse().drop_last() =~= w.drop_first().reverse());
                }
            }
            r
        } else {
            self.pop_back()
        }
    }

    /// The same iterator walking the other way: what was to come last
    /// comes first.
    pub fn rev(self) -> (it: Self)
        requires
            self.wf(),
        ensures
            it.wf(),
            it.is_reversed() == !self.is_reversed(),
            it.window() == self.window(),
            it.remaining() == self.remaining().reverse(),
    {
        proof {
            let w = self.window();
            assert(w.reverse().reverse() =~= w);
        }
        SingleIter {
            scratch: self.scratch,
            table: self.table,
            s_lo: self.s_lo,
            s_hi: self.s_hi,
            t_lo: self.t_lo,
            t_hi: self.t_hi,
            reversed: !self.reversed,
        }
    }
}

/// An iterator that starts at a given key.
pub type SingleIterFrom<'a, V> = SingleIter<'a, V>;

/// A double-ended iterator over the entries whose keys start with a given
/// prefix. Upwards it walks from the prefix and ends at the first merged
/// key that does not start with it. Downwards it passes over the merged
/// keys that sort after all that start with the prefix.
pub struct SingleIterKeyMatch<'a, V> {
    iter: SingleIterFrom<'a, V>,
    key: Vec<u8>,
    done: bool,
    reversed: bool,
}

impl<'a, V> SingleIterKeyMatch<'a, V> {
    /// The iterator underneath is well formed, walks upwards, and yields
    /// keys in ascending order from the prefix on.
    pub closed spec fn wf(&self) -> bool {
        &&& self.iter.wf()
        &&& !self.iter.is_reversed()
        &&& sorted(self.iter.remaining())
        &&& forall|i: int|
            0 <= i < self.iter.remaining().len() ==> !key_lt(
                (#[trigger] self.iter.remaining()[i]).0,
                self.key@,
            )
    }

    /// What is still to come, in ascending key order.
    pub closed spec fn matches(&self) -> Seq<(Seq<u8>, V)> {
        if self.done {
            Seq::empty()
        } else {
            matching_head(self.iter.remaining(), self.key@)
        }
    }

    /// Whether `next` walks the keys downwards.
    pub closed spec fn is_reversed(&self) -> bool {
        self.reversed
    }

    /// What is still to come, in the order in which `next` yields it.
    pub open spec fn remaining(&self) -> Seq<(Seq<u8>, V)> {
        if self.is_reversed() {
            self.matches().reverse()
        } else {
            self.matches()
        }
    }

    /// The entries of `iter` whose keys start with `key`, where `iter`
    /// walks upwards from `key`.
    pub(crate) fn new(iter: SingleIterFrom<'a, V>, key: Vec<u8>) -> (it: Self)
        requires
            iter.wf(),
            !iter.is_reversed(),
            sorted(iter.remaining()),
            forall|i: int|
                0 <= i < iter.remaining().len() ==> !key_lt((#[trigger] iter.remaining()[i]).0, key@),
        ensures
            it.wf(),
            !it.is_reversed(),
            it.remaining() == matching_head(iter.remaining(), key@),
    {
        SingleIterKeyMatch { iter, key, done: false, reversed: false }
    }

    /// Takes the entry with the least key off what is to come.
    fn pop_front(&mut self) -> (r: Option<(&'a [u8], &'a V)>)
        requires
            old(self).wf(),
        ensures
            final(self).wf(),
            final(self).is_reversed() == old(self).is_reversed(),
            match r {
                None => old(self).matches().len() == 0 && final(self).matches() == old(self).matches(),
                Some((k, v)) => old(self).matches().len() > 0 && (k@, *v) == old(self).matches()[0]
                    && final(self).matches() == old(self).matches().drop_first(),
            },
    {
        if self.done {
            return None;
        }
        let ghost before = self.iter.remaining();
        match self.iter.next() {
            Some((k, v)) => {
                proof {
                    lemma_subrange_sorted(before, 1, before.len() as int);
                    assert(before.drop_first() =~= before.subrange(1, before.len() as int));
                    assert forall|i: int| 0 <= i < before.drop_first().len() implies !key_lt(
                        (#[trigger] before.drop_first()[i]).0,
                        self.key@,
                    ) by {
                        assert(before.drop_first()[i] == before[i + 1]);
                    }
                }
                if partial_key_match(self.key.as_slice(), k) {
                    proof {
                        let rest = matching_head(before.drop_first(), self.key@);
                        assert((seq![before[0]] + rest).drop_first() =~= rest);
                    }
                    Some((k, v))
                } else {
                    self.done = true;
                    None
                }
            },
            None => {
                self.done = true;
                None
            },
        }
    }

    /// Takes the entry with the greatest key off what is to come.
    fn pop_back(&mut self) -> (r: Option<(&'a [u8], &'a V)>)
        requires
            old(self).wf(),
        ensures
            final(self).wf(),
            final(self).is_reversed() == old(self).is_reversed(),
            match r {
                None => old(self).matches().len() == 0 && final(self).matches() == old(self).matches(),
                Some((k, v)) => old(self).matches().len() > 0 && (k@, *v) == old(self).matches().last() && final(self).matches() == old(self).matches().drop_last(),
            },
    {
        if self.done {
            return None;
        }
        loop
            invariant
                self.wf(),
                !self.done,
                self.reversed == old(self).reversed,
                self.key == old(self).key,
                self.matches() == old(self).matches(),
            decreases self.iter.remaining().len(),
        {
            let ghost before = self.iter.remaining();
            match self.iter.next_back() {
                Some((k, v)) => {
                    proof {
                        lemma_subrange_sorted(before, 0, before.len() - 1);
                        assert(before.drop_last() =~= before.subrange(0, before.len() - 1));
                        assert forall|i: int| 0 <= i < before.drop_last().len() implies !key_lt(
                            (#[trigger] before.drop_last()[i]).0,
                            self.key@,
                        ) by {
                            assert(before.drop_last()[i] == before[i]);
                        }
                    }
                    if partial_key_match(self.key.as_slice(), k) {
                        proof {
                            lemma_matching_head_is_all(before, self.key@);
                            let rest = before.drop_last();
                            if rest.len() > 0 {
                                assert(rest.last() == before[before.len() - 2]);
                                if !has_prefix(rest.last().0, self.key@) {
                                    assert(key_lt(
                                        before[before.len() - 2].0,
                                        before[before.len() - 1].0,
                                    ));
                                    lemma_prefix_block(self.key@, rest.last().0, before.last().0);
                                }
                                lemma_matching_head_is_all(rest, self.key@);
                            }
                        }
                        return Some((k, v));
                    } else {
                        proof {
                            lemma_matching_head_without_last(before, self.key@);
                        }
                    }
                },
                None => {
                    self.done = true;
                    return None;
                },
            }
        }
    }

    /// The next entry in the direction of the iterator, if any is left.
    pub fn next(&mut self) -> (r: Option<(&'a [u8], &'a V)>)
        requires
            old(self).wf(),
        ensures
            final(self).wf(),
            final(self).is_reversed() == old(self).is_reversed(),
            match r {
                None => old(self).remaining().len() == 0 && final(self).remaining() == old(self).remaining(),
                Some((k, v)) => old(self).remaining().len() > 0 && (k@, *v) == old(self).remaining()[0] && final(self).remaining() == old(self).remaining().drop_first(),
            },
    {
        if self.reversed {
            let r = self.pop_back();
            proof {
                let w = old(self).matches();
                if r is Some {
                    assert(w.reverse().drop_first() =~= w.drop_last().reverse());
                }
            }
            r
        } else {
            self.pop_front()
        }
    }

    /// The next entry from the far end, if any is left.
    pub fn next_back(&mut self) -> (r: Option<(&'a [u8], &'a V)>)
        requires
            old(self).wf(),
        ensures
            final(self).wf(),
            final(self).is_reversed() == old(self).is_reversed(),
            match r {
                None => old(self).remaining().len() == 0 && final(self).remaining() == old(self).remaining(),
                Some((k, v)) => old(self).remaining().len() > 0 && (k@, *v) == old(self).remaining().last() && final(self).remaining() == old(self).remaining().drop_last(),
            },
    {
        if self.reversed {
            let r = self.pop_front();
            proof {
                let w = old(self).matches();
                if r is Some {
                    assert(w.reverse().drop_last() =~= w.drop_first().reverse());
                }
            }
            r
        } else {
            self.pop_back()
        }
    }

    /// The same iterator walking the other way: what was to come last
    /// comes first.
    pub fn rev(self) -> (it: Self)
        requires
            self.wf(),
        ensures
            it.wf(),
            it.is_reversed() == !self.is_reversed(),
            it.remaining() == self.remaining().reverse(),
    {
        proof {
            let w = self.matches();
            assert(w.reverse().reverse() =~= w);
        }
        SingleIterKeyMatch {
            iter: self.iter,
            key: self.key,
            done: self.done,
            reversed: !self.reversed,
        }
    }
}

} // verus!
