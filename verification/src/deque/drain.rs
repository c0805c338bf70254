//! Bulk removal of a range of elements.
use vstd::prelude::*;
use super::ArrayDeque;
use crate::iter::{occupied_values, all_occupied};
use crate::range::{IndexRange, range, range_valid, start_index, end_index};
use crate::ring::{phys, ring_dist, lemma_phys_inj, lemma_dist_phys, lemma_rebase, lemma_ring_move_rel};
use std::ops::Range;

verus! {

/// Position of the head after removing the positions `start..end` from a deque of length
/// `len` whose head is at `h`: the shorter of the two remaining parts is the one that moves.
pub open spec fn drain_head(h: int, start: int, end: int, len: int, cap: int) -> int {
    if len - (end - start) == 0 {
        0
    } else if start < len - end {
        phys(h, end - start, cap)
    } else {
        h
    }
}

/// The elements removed by `ArrayDeque::drain`, yielded from either end.
#[derive(Debug)]
pub struct Drain<T> {
    items: Vec<Option<T>>,
    idx: usize,
    end: usize,
}

impl<T> View for Drain<T> {
    type V = Seq<T>;

    /// The removed elements not yet yielded, in the order they had in the deque.
    closed spec fn view(&self) -> Seq<T> {
        occupied_values(self.items@.subrange(self.idx as int, self.end as int))
    }
}

impl<T> Drain<T> {
    /// The not yet yielded positions hold elements.
    pub closed spec fn wf(&self) -> bool {
        &&& self.idx <= self.end <= self.items@.len()
        &&& all_occupied(self.items@.subrange(self.idx as int, self.end as int))
    }

    /// The number of elements not yet yielded.
    pub fn len(&self) -> (r: usize)
        requires
            self.wf(),
        ensures
            r == self@.len(),
    {
        self.end - self.idx
    }

    /// The exact number of remaining elements, as a lower and an upper bound.
    pub fn size_hint(&self) -> (r: (usize, Option<usize>))
        requires
            self.wf(),
        ensures
            r.0 == self@.len(),
            r.1 == Some(self@.len() as usize),
    {
        let len = self.end - self.idx;
        (len, Some(len))
    }

    /// Yields the next removed element from the front.
    pub fn next(&mut self) -> (r: Option<T>)
        requires
            old(self).wf(),
        ensures
            final(self).wf(),
            old(self)@.len() == 0 ==> r is None && final(self)@ == old(self)@,
            old(self)@.len() > 0 ==> r == Some(old(self)@[0]) && final(self)@ == old(
                self)@.drop_first(),
    {
        if self.idx == self.end {
            return None;
        }
        let mut v: Option<T> = None;
        self.items.set_and_swap(self.idx, &mut v);
        self.idx = self.idx + 1;
        assert(self.items@.subrange(self.idx as int, self.end as int) =~= old(self).items@.subrange(old(self).idx as int, old(self).end as int).drop_first());
        v
    }

    /// Yields the next removed element from the back.
    pub fn next_back(&mut self) -> (r: Option<T>)
        requires
            old(self).wf(),
        ensures
            final(self).wf(),
            old(self)@.len() == 0 ==> r is None && final(self)@ == old(self)@,
            old(self)@.len() > 0 ==> r == Some(old(self)@.last()) && final(self)@ == old(
                self)@.drop_last(),
    {
        if self.idx == self.end {
            return None;
        }
        self.end = self.end - 1;
        let mut v: Option<T> = None;
        self.items.set_and_swap(self.end, &mut v);
        assert(self.items@.subrange(self.idx as int, self.end as int) =~= old(self).items@.subrange(old(self).idx as int, old(self).end as int).drop_last());
        v
    }
}

impl<T, const N: usize> ArrayDeque<T, N> {
    /// Removes the elements in `range` and returns them, in order, as a `Drain`.
    ///
    /// The remaining elements are joined by moving whichever of the two remaining parts is
    /// shorter. The range must lie within the deque: `start <= end <= len` once resolved.
    #[verifier::rlimit(80)]
    #[verifier::spinoff_prover]
    pub fn drain(&mut self, r: IndexRange) -> (d: Drain<T>)
        requires
            old(self).wf(),
            range_valid(r, old(self)@.len() as int),
        ensures
            final(self).wf(),
            d.wf(),
            ({
                let s = start_index(r.start);
                let e = end_index(r.end, old(self)@.len() as int);
                &&& d@ == old(self)@.subrange(s, e)
                &&& final(self)@ == old(self)@.take(s) + old(self)@.skip(e)
                &&& final(self).physical_head() == drain_head(
                    old(self).physical_head(),
                    s,
                    e,
                    old(self)@.len() as int,
                    N as int,
                )
            }),
    {
        let Range { start, end } = range(r, self.len);
        let drain_len = end - start;
        let ghost b0 = self.buf@;
        let ghost h = self.head as int;
        let ghost n = N as int;
        // Move the drained elements out, in order.
        let mut items: Vec<Option<T>> = Vec::new();
        let mut k = start;
        while k < end
            invariant
                self.head_ok(),
                self.head == h,
                n == N,
                self.len == old(self).len,
                start <= k <= end <= self.len <= N,
                b0 == old(self).buf@,
                old(self).wf(),
                self.buf@.len() == N,
                items@.len() == k - start,
                forall|j: int| 0 <= j < k - start ==> #[trigger] items@[j] == b0[phys(h, start + j, n)],
                forall|o: int|
                    0 <= o < N ==> #[trigger] self.buf@[phys(h, o, n)] == if start <= o < k {
                        None
                    } else {
                        b0[phys(h, o, n)]
                    },
            decreases end - k,
        {
            let slot = self.to_physical_idx(k);
            let mut v: Option<T> = None;
            self.buf.set_and_swap(slot, &mut v);
            items.push(v);
            proof {
                assert forall|o: int| 0 <= o < N implies #[trigger] self.buf@[phys(h, o, n)] == if start
                    <= o < k + 1 {
                    None
                } else {
                    b0[phys(h, o, n)]
                } by {
                    if o != k {
                        lemma_phys_inj(h, o, k as int, n);
                    }
                }
            }
            k = k + 1;
        }
        let ghost b1 = self.buf@;
        let head_len = start;
        let new_len = self.len - drain_len;
        let tail_len = new_len - head_len;
        if head_len != 0 && tail_len != 0 {
            if head_len < tail_len {
                let src = self.head;
                let dst = self.to_physical_idx(drain_len);
                self.wrap_copy(src, dst, head_len);
                proof {
                    assert(phys(h, 0, n) == h);
                    lemma_ring_move_rel(b1, h, 0, drain_len as int, head_len as int, n);
                }
            } else {
                let src = self.to_physical_idx(head_len + drain_len);
                let dst = self.to_physical_idx(head_len);
                self.wrap_copy(src, dst, tail_len);
                proof {
                    lemma_ring_move_rel(b1, h, end as int, start as int, tail_len as int, n);
                }
            }
        }
        let ghost b2 = self.buf@;
        if new_len == 0 {
            self.head = 0;
        } else if head_len < tail_len {
            self.head = self.to_physical_idx(drain_len);
        }
        self.len = new_len;
        proof {
            let hn = self.head as int;
            if new_len == 0 {
                assert forall|o: int| 0 <= o < N implies (#[trigger] self.buf@[phys(hn, o, n)] is Some
                    <==> o < self.len) by {
                    lemma_dist_phys(h, o, n);
                    assert(b2[phys(h, ring_dist(o, h, n), n)] is None);
                }
            } else if head_len < tail_len {
                lemma_rebase(h, drain_len as int, n);
                assert forall|o: int| 0 <= o < N implies (#[trigger] self.buf@[phys(hn, o, n)] is Some
                    <==> o < self.len) by {
                    assert(self.buf@[phys(hn, o, n)] == b2[phys(h, phys(drain_len as int, o, n), n)]);
                }
                assert forall|o: int| 0 <= o < self.len implies #[trigger] self.buf@[phys(hn, o, n)]
                    == b0[phys(h, if o < start { o } else { o + drain_len }, n)] by {
                    assert(self.buf@[phys(hn, o, n)] == b2[phys(h, phys(drain_len as int, o, n), n)]);
                }
            } else {
                assert forall|o: int| 0 <= o < N implies (#[trigger] self.buf@[phys(h, o, n)] is Some
                    <==> o < self.len) by {
                }
                assert forall|o: int| 0 <= o < self.len implies #[trigger] self.buf@[phys(h, o, n)]
                    == b0[phys(h, if o < start { o } else { o + drain_len }, n)] by {
                }
            }
        }
        assert(self@ =~= old(self)@.take(start as int) + old(self)@.skip(end as int));
        let d = Drain { items, idx: 0, end: drain_len };
        assert(d.items@.subrange(0, drain_len as int) =~= items@);
        assert(d@ =~= old(self)@.subrange(start as int, end as int));
        d
    }
}

} // verus!
