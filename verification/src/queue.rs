//! Spatially distancing fair queue: first in, first out inside a group,
//! while rotating across groups so that items of one group are served as far
//! apart as possible.

use std::collections::VecDeque;
use vstd::prelude::*;

use crate::group::FairGroup;
use crate::rotation::find_first;
use crate::rotation::insert_step;
use crate::rotation::norm_cursor;
use crate::rotation::peek_step;
use crate::rotation::pop_step;
use crate::rotation::same_matcher;
use crate::rotation::sum_len;
use crate::rotation::wf_state;

verus! {

/// Round-robin over FIFO buckets. Groups are discovered lazily by comparing
/// each inserted item against the front item of every existing bucket; the
/// rotation cursor walks the buckets so that no bucket is served twice in a
/// row while another still has items.
pub struct FairQueue<'a, V: FairGroup> {
    groups: Vec<VecDeque<&'a V>>,
    pointer: usize,
    len: usize,
}

impl<'a, V: FairGroup> FairQueue<'a, V> {
    /// The bucket sequence, each bucket front-to-back.
    pub closed spec fn buckets(&self) -> Seq<Seq<&'a V>> {
        self.groups@.map_values(|g: VecDeque<&'a V>| g@)
    }

    /// The rotation cursor.
    pub closed spec fn cursor(&self) -> nat {
        self.pointer as nat
    }

    /// The recorded number of resident items.
    pub closed spec fn total(&self) -> nat {
        self.len as nat
    }

    /// The grouping predicate of the stored value type, applied as
    /// `candidate.is_same_group(representative)`.
    pub open spec fn same_fn() -> spec_fn(&'a V, &'a V) -> bool {
        |a: &'a V, b: &'a V| a.same_group(*b)
    }

    /// Invariant: no bucket is empty, the cursor is in range (or 0 when
    /// there are no buckets), and the recorded count is the true total.
    pub open spec fn wf(&self) -> bool {
        wf_state(self.buckets(), self.cursor()) && self.total() == sum_len(self.buckets())
    }

    /// Creates an empty queue.
    pub fn new() -> (r: Self)
        ensures
            r.wf(),
            r.buckets() == Seq::<Seq<&'a V>>::empty(),
            r.cursor() == 0,
            r.total() == 0,
    {
        let r = Self { groups: Vec::new(), pointer: 0, len: 0 };
        proof {
            assert(r.buckets() =~= Seq::<Seq<&'a V>>::empty());
        }
        r
    }

    /// Scans the buckets in sequence order for the first whose front item
    /// the new value matches, as the insertion rule asks.
    fn find_group(&self, value: &'a V) -> (r: Option<usize>)
        ensures
            ({
                let f = find_first(
                    self.buckets(),
                    same_matcher(Self::same_fn(), false, value),
                );
                match r {
                    Some(i) => i == f && 0 <= f < self.buckets().len(),
                    None => f == -1,
                }
            }),
    {
        let ghost bs = self.buckets();
        let ghost m = same_matcher(Self::same_fn(), false, value);
        let n = self.groups.len();
        let mut i: usize = 0;
        while i < n
            invariant
                i <= n,
                n == self.groups@.len(),
                bs == self.buckets(),
                m == same_matcher(Self::same_fn(), false, value),
                forall|j: int| 0 <= j < i ==> !m(#[trigger] bs[j]),
            decreases n - i,
        {
            let g = &self.groups[i];
            if g.len() > 0 {
                let rep: &'a V = g[0];
                if value.is_same_group(rep) {
                    proof {
                        assert(m(bs[i as int]));
                        crate::rotation::lemma_find_first(bs, m);
                    }
                    return Some(i);
                }
            }
            proof {
                assert(!m(bs[i as int]));
            }
            i = i + 1;
        }
        proof {
            crate::rotation::lemma_find_first(bs, m);
        }
        None
    }

    /// Inserts a new item, appending it to the first bucket whose front item
    /// it matches, or opening a new bucket at the back of the sequence.
    pub fn insert(&mut self, value: &'a V)
        requires
            old(self).wf(),
            old(self).total() < usize::MAX,
        ensures
            final(self).wf(),
            final(self).buckets() == insert_step(
                old(self).buckets(),
                Self::same_fn(),
                false,
                value,
            ),
            final(self).cursor() == old(self).cursor(),
            final(self).total() == old(self).total() + 1,
    {
        let ghost bs = self.buckets();
        let ghost m = same_matcher(Self::same_fn(), false, value);
        match self.find_group(value) {
            Some(i) => {
                let g = &mut self.groups[i];
                g.push_back(value);
                proof {
                    assert(self.buckets() =~= bs.update(i as int, bs[i as int].push(value)));
                    crate::rotation::lemma_sum_len_update(
                        bs,
                        i as int,
                        bs[i as int].push(value),
                    );
                }
            },
            None => {
                let mut new_group: VecDeque<&'a V> = VecDeque::new();
                new_group.push_back(value);
                proof {
                    assert(new_group@ =~= seq![value]);
                }
                self.groups.push(new_group);
                proof {
                    assert(self.buckets() =~= bs.push(seq![value]));
                    crate::rotation::lemma_sum_len_push(bs, seq![value]);
                }
            },
        }
        self.len = self.len + 1;
    }

    /// Retrieves the next item per the rotation policy (FIFO inside a
    /// bucket), or nothing when the queue is empty. A drained bucket leaves
    /// the sequence by swap-removal; a surviving bucket passes the cursor on.
    pub fn pop(&mut self) -> (r: Option<&'a V>)
        requires
            old(self).wf(),
        ensures
            final(self).wf(),
            ({
                let s = pop_step(old(self).buckets(), old(self).cursor(), false);
                &&& final(self).buckets() == s.0
                &&& final(self).cursor() == s.1
                &&& r == s.2
            }),
            r is Some <==> old(self).total() > 0,
            r is Some ==> final(self).total() + 1 == old(self).total(),
            r is None ==> *final(self) == *old(self),
    {
        let ghost bs = old(self).buckets();
        let ghost cur = old(self).cursor();
        if self.len == 0 {
            return None;
        }
        proof {
            if bs.len() == 0 {
                assert(sum_len(bs) == 0);
            }
        }
        if self.pointer >= self.groups.len() {
            self.pointer = 0;
        }
        let p = self.pointer;
        proof {
            assert(p as nat == norm_cursor(bs, cur));
            // The invariant rules out an empty bucket under the cursor, so
            // the pop below always succeeds; this assertion stands in for
            // the defensive remove-and-retry a weaker invariant would need.
            assert(bs[p as int].len() > 0);
        }
        let g = &mut self.groups[p];
        let popped = g.pop_front();
        let item = popped.unwrap();
        let emptied = g.len() == 0;
        self.len = self.len - 1;
        if emptied {
            let _removed = self.groups.swap_remove(p);
            if self.groups.len() == 0 || p >= self.groups.len() {
                self.pointer = 0;
            }
            proof {
                assert(self.buckets() =~= crate::rotation::swap_remove_seq(bs, p as int));
                crate::rotation::lemma_sum_len_swap_remove(bs, p as int);
            }
        } else if self.groups.len() > 0 {
            self.pointer = (p + 1) % self.groups.len();
            proof {
                assert(self.buckets() =~= bs.update(p as int, bs[p as int].drop_first()));
                crate::rotation::lemma_sum_len_update(
                    bs,
                    p as int,
                    bs[p as int].drop_first(),
                );
            }
        }
        Some(item)
    }

    /// Peeks at the item the next pop would return, without any mutation.
    pub fn peek(&self) -> (r: Option<&'a V>)
        ensures
            r == peek_step(self.buckets(), self.cursor(), false),
            self.wf() ==> (r is Some <==> self.total() > 0),
    {
        proof {
            if self.wf() && self.buckets().len() > 0 {
                crate::rotation::lemma_sum_len_pos(self.buckets());
            }
        }
        if self.groups.len() == 0 {
            return None;
        }
        if self.pointer < self.groups.len() {
            let g = &self.groups[self.pointer];
            if g.len() > 0 {
                Some(g[0])
            } else {
                None
            }
        } else {
            None
        }
    }

    /// Returns the number of enqueued items.
    pub fn len(&self) -> (r: usize)
        ensures
            r == self.total(),
    {
        self.len
    }

    /// Returns true when the queue holds no items.
    pub fn is_empty(&self) -> (r: bool)
        ensures
            r == (self.total() == 0),
    {
        self.len == 0
    }

    /// Returns the number of distinct groups tracked by the queue.
    pub fn group_count(&self) -> (r: usize)
        ensures
            r == self.buckets().len(),
    {
        self.groups.len()
    }

    /// Starts a single-pass walk over the current front item of each group,
    /// in bucket sequence order, without consuming anything.
    pub fn group_heads<'q>(&'q self) -> (r: QueueGroupHeads<'q, 'a, V>)
        ensures
            r.wf(),
            r.buckets() == self.buckets(),
            r.remaining() == crate::rotation::heads(self.buckets(), false),
    {
        let r = QueueGroupHeads { groups: &self.groups, index: 0 };
        proof {
            assert(r.buckets().skip(0) =~= r.buckets());
        }
        r
    }

    /// Collects the current group heads into a vector.
    pub fn group_heads_vec(&self) -> (r: Vec<&'a V>)
        ensures
            r@ == crate::rotation::heads(self.buckets(), false),
    {
        let mut it = self.group_heads();
        let mut out: Vec<&'a V> = Vec::new();
        let mut more = true;
        while more
            invariant
                it.wf(),
                it.buckets() == self.buckets(),
                more ==> out@ + it.remaining() == crate::rotation::heads(self.buckets(), false),
                !more ==> out@ == crate::rotation::heads(self.buckets(), false),
            decreases (if more {
                1int
            } else {
                0int
            }), it.remaining().len(),
        {
            let ghost rem = it.remaining();
            match it.next() {
                Some(v) => {
                    out.push(v);
                    proof {
                        assert(out@ + it.remaining() =~= out@.drop_last() + rem);
                    }
                },
                None => {
                    more = false;
                    proof {
                        assert(rem =~= Seq::<&'a V>::empty());
                        assert(out@ + rem =~= out@);
                    }
                },
            }
        }
        out
    }

    /// Clears all items and resets the round-robin pointer.
    pub fn clear(&mut self)
        ensures
            final(self).wf(),
            final(self).buckets() == Seq::<Seq<&'a V>>::empty(),
            final(self).cursor() == 0,
            final(self).total() == 0,
    {
        self.groups.clear();
        self.pointer = 0;
        self.len = 0;
        proof {
            assert(self.buckets() =~= Seq::<Seq<&'a V>>::empty());
        }
    }

    /// Peek/pop coherence: `peek` returns exactly the item the next `pop`
    /// returns.
    pub proof fn lemma_peek_agrees_with_pop(&self)
        requires
            self.wf(),
        ensures
            peek_step(self.buckets(), self.cursor(), false) == pop_step(
                self.buckets(),
                self.cursor(),
                false,
            ).2,
    {
        crate::rotation::lemma_peek_pop_agree(self.buckets(), self.cursor(), false);
    }

    /// Fairness: when the group just served still has items and another
    /// group also has items, the next pop serves a different group.
    pub proof fn lemma_no_consecutive_same_group(&self)
        requires
            self.wf(),
            self.total() > 0,
        ensures
            ({
                let p = norm_cursor(self.buckets(), self.cursor()) as int;
                let s = pop_step(self.buckets(), self.cursor(), false);
                (crate::rotation::bucket_drop(self.buckets()[p], false).len() > 0 && s.0.len()
                    >= 2) ==> {
                    &&& s.0[p] == crate::rotation::bucket_drop(self.buckets()[p], false)
                    &&& norm_cursor(s.0, s.1) != p
                }
            }),
    {
        crate::rotation::lemma_no_consecutive_service(self.buckets(), self.cursor(), false);
    }

    /// Conservation while draining: popping this queue until empty returns
    /// exactly its resident items, each exactly once.
    pub proof fn lemma_drain_conservation(&self)
        requires
            self.wf(),
        ensures
            crate::rotation::pop_trace(self.buckets(), self.cursor(), false, self.total()).len()
                == self.total(),
            crate::rotation::pop_trace(
                self.buckets(),
                self.cursor(),
                false,
                self.total(),
            ).to_multiset() == crate::rotation::contents(self.buckets()),
    {
        crate::rotation::lemma_drain_conservation(
            self.buckets(),
            self.cursor(),
            false,
            self.total(),
        );
    }

    /// Conservation round trip: inserting any items into an empty queue and
    /// popping until empty returns exactly those items.
    pub proof fn lemma_round_trip_conservation(items: Seq<&'a V>)
        ensures
            ({
                let gs = crate::rotation::insert_trace(
                    Seq::empty(),
                    Self::same_fn(),
                    false,
                    items,
                );
                &&& sum_len(gs) == items.len()
                &&& crate::rotation::pop_trace(gs, 0, false, items.len()).len() == items.len()
                &&& crate::rotation::pop_trace(gs, 0, false, items.len()).to_multiset()
                    == items.to_multiset()
            }),
    {
        crate::rotation::lemma_round_trip_conservation(Self::same_fn(), false, items);
    }

    /// Intra-group order: the items of any one group come out of the drain
    /// in FIFO order, however the rotation interleaves the groups.
    pub proof fn lemma_group_fifo_order(&self, b: int)
        requires
            self.wf(),
            0 <= b < self.buckets().len(),
        ensures
            crate::rotation::is_subseq_of(
                self.buckets()[b],
                crate::rotation::pop_trace(self.buckets(), self.cursor(), false, self.total()),
            ),
    {
        crate::rotation::lemma_intra_bucket_order(self.buckets(), self.cursor(), false, b);
    }
}

impl<'a, V: FairGroup> Default for FairQueue<'a, V> {
    /// An empty queue.
    fn default() -> (r: Self)
        ensures
            r.wf(),
            r.buckets() == Seq::<Seq<&'a V>>::empty(),
            r.cursor() == 0,
            r.total() == 0,
    {
        Self::new()
    }
}

/// Single-pass walk over the first element of each group, yielding a fresh
/// snapshot of the queue's state at the time it was created.
pub struct QueueGroupHeads<'q, 'v, V: FairGroup> {
    groups: &'q Vec<VecDeque<&'v V>>,
    index: usize,
}

impl<'q, 'v, V: FairGroup> QueueGroupHeads<'q, 'v, V> {
    /// The bucket sequence being walked.
    pub closed spec fn buckets(&self) -> Seq<Seq<&'v V>> {
        self.groups@.map_values(|g: VecDeque<&'v V>| g@)
    }

    /// How many buckets have been passed already.
    pub closed spec fn pos(&self) -> nat {
        self.index as nat
    }

    /// The walk never runs past the bucket sequence.
    pub open spec fn wf(&self) -> bool {
        self.pos() <= self.buckets().len()
    }

    /// The heads not yet yielded.
    pub open spec fn remaining(&self) -> Seq<&'v V> {
        crate::rotation::heads(self.buckets().skip(self.pos() as int), false)
    }

    /// Yields the front item of the next non-empty group, or nothing once
    /// the walk is exhausted.
    pub fn next(&mut self) -> (r: Option<&'v V>)
        requires
            old(self).wf(),
        ensures
            final(self).wf(),
            final(self).buckets() == old(self).buckets(),
            old(self).remaining().len() == 0 ==> r is None && final(self).remaining().len() == 0,
            old(self).remaining().len() > 0 ==> r == Some(old(self).remaining().first())
                && final(self).remaining() == old(self).remaining().drop_first(),
    {
        let n = self.groups.len();
        while self.index < n
            invariant
                n == self.groups@.len(),
                self.index <= n,
                self.buckets() == old(self).buckets(),
                crate::rotation::heads(self.buckets().skip(self.index as int), false) == old(
                    self,
                ).remaining(),
            decreases n - self.index,
        {
            let ghost i = self.index as int;
            let g = &self.groups[self.index];
            self.index = self.index + 1;
            if g.len() > 0 {
                proof {
                    crate::rotation::lemma_heads_unfold(self.buckets(), i, false);
                }
                return Some(g[0]);
            }
            proof {
                crate::rotation::lemma_heads_unfold(self.buckets(), i, false);
            }
        }
        proof {
            assert(self.buckets().skip(n as int) =~= Seq::<Seq<&'v V>>::empty());
        }
        None
    }
}

} // verus!
