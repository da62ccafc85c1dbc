//! Draining iteration: each entry that is yielded is also staged for
//! removal, so that a later flush takes it out of the table.
use crate::entries::lemma_subrange_sorted;
use crate::key::{compare_keys, key_lt, lemma_key_lt_transitive, KeyOrder};
use crate::merge::{emitted, lemma_merged_from_end, lemma_merged_from_start, merged};
use crate::scratch::{KvOp, Scratch};
use crate::table::Table;
use vstd::prelude::*;
use vstd::slice::slice_to_vec;

verus! {

/// Where a draining walk stands: the table it reads, and the windows of
/// the scratch space and of the table that are still to be merged.
pub struct DrainCursor<'a, V> {
    table: &'a Table<V>,
    s_lo: usize,
    s_hi: usize,
    t_lo: usize,
    t_hi: usize,
    reversed: bool,
}

/// A double-ended iterator that yields what a buffer shows and stages a
/// `Delete` for the key of each entry that it yields.
pub struct DrainIter<'a, V> {
    /// The scratch space of the buffer that is drained.
    pub scratch: &'a mut Scratch<V>,
    /// Where the walk stands.
    pub cursor: DrainCursor<'a, V>,
}

impl<'a, V: Clone> DrainIter<'a, V> {
    /// The windows lie within sources that are in key order, and the
    /// scratch entries outside the window lie outside the keys of the
    /// table's window: below them before the window, above them after it.
    pub closed spec fn wf(&self) -> bool {
        let s = self.scratch.entries();
        let t = self.cursor.table.entries();
        &&& self.scratch.wf()
        &&& self.cursor.table.wf()
        &&& self.cursor.s_lo <= self.cursor.s_hi <= s.len()
        &&& self.cursor.t_lo <= self.cursor.t_hi <= t.len()
        &&& forall|j: int, i: int|
            #![trigger s[j], t[i]]
            0 <= j < self.cursor.s_lo && self.cursor.t_lo <= i < self.cursor.t_hi ==> key_lt(
                s[j].0,
                t[i].0,
            )
        &&& forall|j: int, i: int|
            #![trigger s[j], t[i]]
            self.cursor.s_hi <= j < s.len() && self.cursor.t_lo <= i < self.cursor.t_hi ==> key_lt(
                t[i].0,
                s[j].0,
            )
    }

    /// The merge of the two windows, in ascending key order.
    pub closed spec fn window(&self) -> Seq<(Seq<u8>, V)> {
        merged(
            self.scratch.entries().subrange(self.cursor.s_lo as int, self.cursor.s_hi as int),
            self.cursor.table.entries().subrange(self.cursor.t_lo as int, self.cursor.t_hi as int),
        )
    }

    /// Whether `next` walks the keys downwards.
    pub closed spec fn is_reversed(&self) -> bool {
        self.cursor.reversed
    }

    /// What is still to come, in the order in which `next` yields it.
    pub open spec fn remaining(&self) -> Seq<(Seq<u8>, V)> {
        if self.is_reversed() {
            self.window().reverse()
        } else {
            self.window()
        }
    }

    /// A draining iterator over all of `scratch` and `table`.
    pub(crate) fn new(scratch: &'a mut Scratch<V>, table: &'a Table<V>) -> (it: Self)
        requires
            old(scratch).wf(),
            table.wf(),
        ensures
            it.wf(),
            !it.is_reversed(),
            *it.scratch == *old(scratch),
            *final(it.scratch) == *final(scratch),
            it.window() == merged(old(scratch).entries(), table.entries()),
    {
        let s_hi = scratch.len();
        let t_hi = table.len();
        proof {
            assert(scratch.entries().subrange(0, s_hi as int) =~= scratch.entries());
            assert(table.entries().subrange(0, t_hi as int) =~= table.entries());
        }
        DrainIter {
            scratch,
            cursor: DrainCursor { table, s_lo: 0, s_hi, t_lo: 0, t_hi, reversed: false },
        }
    }

    /// Yields the table entry at the front of the table's window, which no
    /// staged entry comes before, and stages a `Delete` for it.
    fn take_table_front(&mut self) -> (r: (Vec<u8>, V))
        requires
            old(self).wf(),
            old(self).cursor.t_lo < old(self).cursor.t_hi,
            old(self).cursor.s_lo < old(self).cursor.s_hi ==> key_lt(
                old(self).cursor.table.entries()[old(self).cursor.t_lo as int].0,
                old(self).scratch.entries()[old(self).cursor.s_lo as int].0,
            ),
        ensures
            final(self).wf(),
            final(self).scratch.wf(),
            *final(final(self).scratch) == *final(old(self).scratch),
            final(self).is_reversed() == old(self).is_reversed(),
            final(self).cursor.table == old(self).cursor.table,
            old(self).window().len() > 0,
            r.0@ == old(self).window()[0].0,
            cloned(old(self).window()[0].1, r.1),
            final(self).window() == old(self).window().drop_first(),
            final(self).scratch@ == old(self).scratch@.insert(r.0@, KvOp::Delete),
    {
        let table: &'a Table<V> = self.cursor.table;
        let i = self.cursor.s_lo;
        let j = self.cursor.t_lo;
        let ghost s = self.scratch.entries();
        let ghost t = table.entries();
        let ghost ss = s.subrange(self.cursor.s_lo as int, self.cursor.s_hi as int);
        let ghost ts = t.subrange(self.cursor.t_lo as int, self.cursor.t_hi as int);
        let key = slice_to_vec(table.key_at(j));
        let value = table.value_at(j).clone();
        proof {
            lemma_merged_from_start(ss, ts);
            lemma_merged_from_start(ss, ts.drop_first());
            assert(ts[0] == t[j as int]);
            assert(ts.drop_first() =~= t.subrange(j + 1, self.cursor.t_hi as int));
            assert((seq![ts[0]] + merged(ss, ts.drop_first())).drop_first() =~= merged(
                ss,
                ts.drop_first(),
            ));
            assert forall|a: int| i <= a < s.len() implies key_lt(key@, (#[trigger] s[a]).0) by {
                if a < self.cursor.s_hi {
                    assert(ss[0] == s[i as int]);
                    if a > i {
                        assert(key_lt(s[i as int].0, s[a].0));
                        lemma_key_lt_transitive(key@, s[i as int].0, s[a].0);
                    }
                } else {
                    assert(key_lt(t[j as int].0, s[a].0));
                }
            }
            assert forall|a: int| 0 <= a < i implies key_lt((#[trigger] s[a]).0, key@) by {
                assert(key_lt(s[a].0, t[j as int].0));
            }
        }
        self.scratch.insert_at(i, key.clone(), KvOp::Delete);
        let grown = self.scratch.len();
        assert(self.cursor.s_hi < grown);
        self.cursor.s_lo = i + 1;
        self.cursor.s_hi = self.cursor.s_hi + 1;
        self.cursor.t_lo = j + 1;
        proof {
            let s2 = self.scratch.entries();
            assert(s2.subrange(self.cursor.s_lo as int, self.cursor.s_hi as int) =~= ss);
            assert forall|a: int, b: int|
                #![trigger s2[a], t[b]]
                0 <= a < self.cursor.s_lo && self.cursor.t_lo <= b < self.cursor.t_hi implies key_lt(
                s2[a].0,
                t[b].0,
            ) by {
                if a < i {
                    assert(s2[a] == s[a]);
                    assert(key_lt(s[a].0, t[b].0));
                } else {
                    assert(key_lt(t[j as int].0, t[b].0));
                }
            }
            assert forall|a: int, b: int|
                #![trigger s2[a], t[b]]
                self.cursor.s_hi <= a < s2.len() && self.cursor.t_lo <= b < self.cursor.t_hi implies key_lt(
                t[b].0,
                s2[a].0,
            ) by {
                assert(s2[a] == s[a - 1]);
                assert(key_lt(t[b].0, s[a - 1].0));
            }
        }
        (key, value)
    }

    /// Takes the entry with the least key off the window and stages a
    /// `Delete` for it.
    fn pop_front(&mut self) -> (r: Option<(Vec<u8>, V)>)
        requires
            old(self).wf(),
        ensures
            final(self).wf(),
            final(self).scratch.wf(),
            *final(final(self).scratch) == *final(old(self).scratch),
            final(self).is_reversed() == old(self).is_reversed(),
            final(self).cursor.table == old(self).cursor.table,
            match r {
                None => old(self).window().len() == 0 && final(self).window() == old(
                    self,
                ).window() && final(self).scratch@ == old(self).scratch@,
                Some((k, v)) => old(self).window().len() > 0 && k@ == old(self).window()[0].0
                    && cloned(old(self).window()[0].1, v) && final(self).window() == old(
                    self,
                ).window().drop_first() && final(self).scratch@ == old(self).scratch@.insert(
                    k@,
                    KvOp::Delete,
                ),
            },
    {
        let table: &'a Table<V> = self.cursor.table;
        loop
            invariant
                self.wf(),
                self.cursor.table == table,
                table == old(self).cursor.table,
                self.cursor.reversed == old(self).cursor.reversed,
                self.window() == old(self).window(),
                self.scratch@ == old(self).scratch@,
                *final(self.scratch) == *final(old(self).scratch),
            decreases self.cursor.s_hi - self.cursor.s_lo,
        {
            let ghost s = self.scratch.entries();
            let ghost t = table.entries();
            let ghost ss = s.subrange(self.cursor.s_lo as int, self.cursor.s_hi as int);
            let ghost ts = t.subrange(self.cursor.t_lo as int, self.cursor.t_hi as int);
            proof {
                lemma_merged_from_start(ss, ts);
            }
            if self.cursor.s_lo == self.cursor.s_hi {
                if self.cursor.t_lo == self.cursor.t_hi {
                    return None;
                }
                return Some(self.take_table_front());
            }
            let i = self.cursor.s_lo;
            let ghost c0 = self.cursor.t_lo as int;
            let mut both = false;
            if self.cursor.t_lo < self.cursor.t_hi {
                match compare_keys(self.scratch.key_at(i), table.key_at(self.cursor.t_lo)) {
                    KeyOrder::Less => {},
                    KeyOrder::Equal => {
                        both = true;
                    },
                    KeyOrder::Greater => {
                        return Some(self.take_table_front());
                    },
                }
            }
            let key = slice_to_vec(self.scratch.key_at(i));
            let prev = self.scratch.replace_at(i, KvOp::Delete);
            self.cursor.s_lo = i + 1;
            if both {
                self.cursor.t_lo = self.cursor.t_lo + 1;
            }
            proof {
                let s2 = self.scratch.entries();
                assert(ss[0] == s[i as int]);
                assert(s2.subrange(self.cursor.s_lo as int, self.cursor.s_hi as int)
                    =~= ss.drop_first());
                if ts.len() > 0 {
                    assert(ts[0] == t[c0]);
                    assert(ts.drop_first() =~= t.subrange(c0 + 1, self.cursor.t_hi as int));
                }
                assert forall|a: int, b: int|
                    #![trigger s2[a], t[b]]
                    0 <= a < self.cursor.s_lo && self.cursor.t_lo <= b < self.cursor.t_hi implies key_lt(
                    s2[a].0,
                    t[b].0,
                ) by {
                    if a < i {
                        assert(s2[a] == s[a]);
                        assert(key_lt(s[a].0, t[b].0));
                    } else {
                        assert(s2[a].0 == s[i as int].0);
                        if b > c0 {
                            assert(key_lt(t[c0].0, t[b].0));
                            if !both {
                                lemma_key_lt_transitive(s[i as int].0, t[c0].0, t[b].0);
                            }
                        }
                    }
                }
                assert forall|a: int, b: int|
                    #![trigger s2[a], t[b]]
                    self.cursor.s_hi <= a < s2.len() && self.cursor.t_lo <= b < self.cursor.t_hi implies key_lt(
                    t[b].0,
                    s2[a].0,
                ) by {
                    assert(s2[a] == s[a]);
                    assert(key_lt(t[b].0, s[a].0));
                }
            }
            let ghost rest = self.window();
            match prev {
                KvOp::Put(v) => {
                    proof {
                        assert((emitted(ss[0]) + rest).drop_first() =~= rest);
                    }
                    return Some((key, *v));
                },
                KvOp::Delete => {
                    proof {
                        assert(emitted(ss[0]) + rest =~= rest);
                        assert(self.scratch.entries() =~= s);
                    }
                },
            }
        }
    }

    /// Yields the table entry at the back of the table's window, which no
    /// staged entry comes after, and stages a `Delete` for it.
    fn take_table_back(&mut self) -> (r: (Vec<u8>, V))
        requires
            old(self).wf(),
            old(self).cursor.t_lo < old(self).cursor.t_hi,
            old(self).cursor.s_lo < old(self).cursor.s_hi ==> key_lt(
                old(self).scratch.entries()[old(self).cursor.s_hi - 1].0,
                old(self).cursor.table.entries()[old(self).cursor.t_hi - 1].0,
            ),
        ensures
            final(self).wf(),
            final(self).scratch.wf(),
            *final(final(self).scratch) == *final(old(self).scratch),
            final(self).is_reversed() == old(self).is_reversed(),
            final(self).cursor.table == old(self).cursor.table,
            old(self).window().len() > 0,
            r.0@ == old(self).window().last().0,
            cloned(old(self).window().last().1, r.1),
            final(self).window() == old(self).window().drop_last(),
            final(self).scratch@ == old(self).scratch@.insert(r.0@, KvOp::Delete),
    {
        let table: &'a Table<V> = self.cursor.table;
        let i = self.cursor.s_hi;
        let j = self.cursor.t_hi - 1;
        let ghost s = self.scratch.entries();
        let ghost t = table.entries();
        let ghost ss = s.subrange(self.cursor.s_lo as int, self.cursor.s_hi as int);
        let ghost ts = t.subrange(self.cursor.t_lo as int, self.cursor.t_hi as int);
        let key = slice_to_vec(table.key_at(j));
        let value = table.value_at(j).clone();
        proof {
            lemma_subrange_sorted(s, self.cursor.s_lo as int, self.cursor.s_hi as int);
            lemma_subrange_sorted(t, self.cursor.t_lo as int, self.cursor.t_hi as int);
            lemma_merged_from_end(ss, ts);
            assert(ts.last() == t[j as int]);
            assert(ts.drop_last() =~= t.subrange(self.cursor.t_lo as int, j as int));
            assert(merged(ss, ts.drop_last()).push(ts.last()).drop_last() =~= merged(
                ss,
                ts.drop_last(),
            ));
            assert forall|a: int| 0 <= a < i implies key_lt((#[trigger] s[a]).0, key@) by {
                if a >= self.cursor.s_lo {
                    assert(ss.last() == s[i - 1]);
                    if a < i - 1 {
                        assert(key_lt(s[a].0, s[i - 1].0));
                        lemma_key_lt_transitive(s[a].0, s[i - 1].0, key@);
                    }
                } else {
                    assert(key_lt(s[a].0, t[j as int].0));
                }
            }
            assert forall|a: int| i <= a < s.len() implies key_lt(key@, (#[trigger] s[a]).0) by {
                assert(key_lt(t[j as int].0, s[a].0));
            }
        }
        self.scratch.insert_at(i, key.clone(), KvOp::Delete);
        self.cursor.t_hi = j;
        proof {
            let s2 = self.scratch.entries();
            assert(s2.subrange(self.cursor.s_lo as int, self.cursor.s_hi as int) =~= ss);
            assert forall|a: int, b: int|
                #![trigger s2[a], t[b]]
                0 <= a < self.cursor.s_lo && self.cursor.t_lo <= b < self.cursor.t_hi implies key_lt(
                s2[a].0,
                t[b].0,
            ) by {
                assert(s2[a] == s[a]);
                assert(key_lt(s[a].0, t[b].0));
            }
            assert forall|a: int, b: int|
                #![trigger s2[a], t[b]]
                self.cursor.s_hi <= a < s2.len() && self.cursor.t_lo <= b < self.cursor.t_hi implies key_lt(
                t[b].0,
                s2[a].0,
            ) by {
                if a > i {
                    assert(s2[a] == s[a - 1]);
                    assert(key_lt(t[b].0, s[a - 1].0));
                } else {
                    assert(key_lt(t[b].0, t[j as int].0));
                }
            }
        }
        (key, value)
    }

    /// Takes the entry with the greatest key off the window and stages a
    /// `Delete` for it.
    fn pop_back(&mut self) -> (r: Option<(Vec<u8>, V)>)
        requires
            old(self).wf(),
        ensures
            final(self).wf(),
            final(self).scratch.wf(),
            *final(final(self).scratch) == *final(old(self).scratch),
            final(self).is_reversed() == old(self).is_reversed(),
            final(self).cursor.table == old(self).cursor.table,
            match r {
                None => old(self).window().len() == 0 && final(self).window() == old(
                    self,
                ).window() && final(self).scratch@ == old(self).scratch@,
                Some((k, v)) => old(self).window().len() > 0 && k@ == old(self).window().last().0
                    && cloned(old(self).window().last().1, v) && final(self).window() == old(
                    self,
                ).window().drop_last() && final(self).scratch@ == old(self).scratch@.insert(
                    k@,
                    KvOp::Delete,
                ),
            },
    {
        let table: &'a Table<V> = self.cursor.table;
        loop
            invariant
                self.wf(),
                self.cursor.table == table,
                table == old(self).cursor.table,
                self.cursor.reversed == old(self).cursor.reversed,
                self.window() == old(self).window(),
                self.scratch@ == old(self).scratch@,
                *final(self.scratch) == *final(old(self).scratch),
            decreases self.cursor.s_hi - self.cursor.s_lo,
        {
            let ghost s = self.scratch.entries();
            let ghost t = table.entries();
            let ghost ss = s.subrange(self.cursor.s_lo as int, self.cursor.s_hi as int);
            let ghost ts = t.subrange(self.cursor.t_lo as int, self.cursor.t_hi as int);
            proof {
                lemma_subrange_sorted(s, self.cursor.s_lo as int, self.cursor.s_hi as int);
                lemma_subrange_sorted(t, self.cursor.t_lo as int, self.cursor.t_hi as int);
                if ss.len() + ts.len() > 0 {
                    lemma_merged_from_end(ss, ts);
                }
            }
            if self.cursor.s_lo == self.cursor.s_hi {
                if self.cursor.t_lo == self.cursor.t_hi {
                    return None;
                }
                return Some(self.take_table_back());
            }
            let i = self.cursor.s_hi - 1;
            let ghost d0 = self.cursor.t_hi as int;
            let mut both = false;
            if self.cursor.t_lo < self.cursor.t_hi {
                match compare_keys(self.scratch.key_at(i), table.key_at(self.cursor.t_hi - 1)) {
                    KeyOrder::Greater => {},
                    KeyOrder::Equal => {
                        both = true;
                    },
                    KeyOrder::Less => {
                        return Some(self.take_table_back());
                    },
                }
            }
            let key = slice_to_vec(self.scratch.key_at(i));
            let prev = self.scratch.replace_at(i, KvOp::Delete);
            self.cursor.s_hi = i;
            if both {
                self.cursor.t_hi = self.cursor.t_hi - 1;
            }
            proof {
                let s2 = self.scratch.entries();
                assert(ss.last() == s[i as int]);
                assert(s2.subrange(self.cursor.s_lo as int, self.cursor.s_hi as int)
                    =~= ss.drop_last());
                if ts.len() > 0 {
                    assert(ts.last() == t[d0 - 1]);
                    assert(ts.drop_last() =~= t.subrange(self.cursor.t_lo as int, d0 - 1));
                }
                assert forall|a: int, b: int|
                    #![trigger s2[a], t[b]]
                    0 <= a < self.cursor.s_lo && self.cursor.t_lo <= b < self.cursor.t_hi implies key_lt(
                    s2[a].0,
                    t[b].0,
                ) by {
                    assert(s2[a] == s[a]);
                    assert(key_lt(s[a].0, t[b].0));
                }
                assert forall|a: int, b: int|
                    #![trigger s2[a], t[b]]
                    self.cursor.s_hi <= a < s2.len() && self.cursor.t_lo <= b < self.cursor.t_hi implies key_lt(
                    t[b].0,
                    s2[a].0,
                ) by {
                    if a > i {
                        assert(s2[a] == s[a]);
                        assert(key_lt(t[b].0, s[a].0));
                    } else {
                        assert(s2[a].0 == s[i as int].0);
                        if b < d0 - 1 {
                            assert(key_lt(t[b].0, t[d0 - 1].0));
                            if !both {
                                lemma_key_lt_transitive(t[b].0, t[d0 - 1].0, s[i as int].0);
                            }
                        }
                    }
                }
            }
            let ghost rest = self.window();
            match prev {
                KvOp::Put(v) => {
                    proof {
                        assert((rest + emitted(ss.last())).drop_last() =~= rest);
                    }
                    return Some((key, *v));
                },
                KvOp::Delete => {
                    proof {
                        assert(rest + emitted(ss.last()) =~= rest);
                        assert(self.scratch.entries() =~= s);
                    }
                },
            }
        }
    }

    /// The next entry in the direction of the iterator, if any is left. The
    /// scratch space then holds a `Delete` for its key.
    pub fn next(&mut self) -> (r: Option<(Vec<u8>, V)>)
        requires
            old(self).wf(),
        ensures
            final(self).wf(),
            final(self).scratch.wf(),
            *final(final(self).scratch) == *final(old(self).scratch),
            final(self).is_reversed() == old(self).is_reversed(),
            match r {
                None => old(self).remaining().len() == 0 && final(self).remaining() == old(
                    self,
                ).remaining() && final(self).scratch@ == old(self).scratch@,
                Some((k, v)) => old(self).remaining().len() > 0 && k@ == old(self).remaining()[0].0
                    && cloned(old(self).remaining()[0].1, v) && final(self).remaining() == old(
                    self,
                ).remaining().drop_first() && final(self).scratch@ == old(self).scratch@.insert(
                    k@,
                    KvOp::Delete,
                ),
            },
    {
        if self.cursor.reversed {
            let r = self.pop_back();
            proof {
                let w = old(self).window();
                if r is Some {
                    assert(w.reverse().drop_first() =~= w.drop_last().reverse());
                }
            }
            r
        } else {
            self.pop_front()
        }
    }

    /// The next entry from the far end, if any is left. The scratch space
    /// then holds a `Delete` for its key.
    pub fn next_back(&mut self) -> (r: Option<(Vec<u8>, V)>)
        requires
            old(self).wf(),
        ensures
            final(self).wf(),
            final(self).scratch.wf(),
            *final(final(self).scratch) == *final(old(self).scratch),
            final(self).is_reversed() == old(self).is_reversed(),
            match r {
                None => old(self).remaining().len() == 0 && final(self).remaining() == old(
                    self,
                ).remaining() && final(self).scratch@ == old(self).scratch@,
                Some((k, v)) => old(self).remaining().len() > 0 && k@ == old(
                    self,
                ).remaining().last().0 && cloned(old(self).remaining().last().1, v) && final(self).remaining() == old(self).remaining().drop_last() && final(self).scratch@ == old(
                    self,
                ).scratch@.insert(k@, KvOp::Delete),
            },
    {
        if self.cursor.reversed {
            let r = self.pop_front();
            proof {
                let w = old(self).window();
                if r is Some {
                    assert(w.reverse().drop_last() =~= w.drop_first().reverse());
                }
            }
            r
        } else {
            self.pop_back()
        }
    }

    /// The same iterator walking the other way: what was to come last
    /// comes first.
    pub fn rev(self) -> (it: Self)
        requires
            self.wf(),
        ensures
            it.wf(),
            it.is_reversed() == !self.is_reversed(),
            *it.scratch == *old(self.scratch),
            *final(it.scratch) == *final(self.scratch),
            it.remaining() == self.remaining().reverse(),
    {
        proof {
            let w = self.window();
            assert(w.reverse().reverse() =~= w);
        }
        let DrainIter { scratch, cursor } = self;
        DrainIter {
            scratch,
            cursor: DrainCursor {
                table: cursor.table,
                s_lo: cursor.s_lo,
                s_hi: cursor.s_hi,
                t_lo: cursor.t_lo,
                t_hi: cursor.t_hi,
                reversed: !cursor.reversed,
            },
        }
    }
}

} // verus!
