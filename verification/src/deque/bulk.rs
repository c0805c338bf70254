//! Operations that move many elements at once between deques.
use vstd::prelude::*;
use super::ArrayDeque;
use crate::ring::{phys, ring_dist, lemma_phys_inj, lemma_dist_phys};

verus! {

impl<T, const N: usize> ArrayDeque<T, N> {
    /// Splits the deque in two at `at`: `self` keeps the elements `[0, at)` and the
    /// returned deque holds `[at, len)`, stored from slot 0.
    ///
    /// `at` must not exceed the length.
    pub fn split_off(&mut self, at: usize) -> (other: Self)
        requires
            old(self).wf(),
            at <= old(self)@.len(),
        ensures
            final(self).wf(),
            other.wf(),
            final(self)@ == old(self)@.take(at as int),
            other@ == old(self)@.skip(at as int),
            final(self).physical_head() == old(self).physical_head(),
            other.physical_head() == 0,
    {
        let len = self.len;
        let other_len = len - at;
        let mut other = Self::new();
        let ghost b0 = self.buf@;
        let ghost h = self.head as int;
        let ghost n = N as int;
        proof {
            assert(other@.len() == other.len);
            assert forall|p: int| 0 <= p < N implies #[trigger] other.buf@[p] is None by {
                assert(other.buf@[phys(0, p, n)] is None);
            }
        }
        let mut k = at;
        while k < len
            invariant
                self.head_ok(),
                self.head == h,
                n == N,
                self.len == len,
                len == old(self).len,
                at <= k <= len <= N,
                b0 == old(self).buf@,
                old(self).wf(),
                self.buf@.len() == N,
                other.buf@.len() == N,
                other.head == 0,
                other.len == 0,
                forall|o: int|
                    0 <= o < N ==> #[trigger] self.buf@[phys(h, o, n)] == if at <= o < k {
                        None
                    } else {
                        b0[phys(h, o, n)]
                    },
                forall|p: int|
                    0 <= p < N ==> #[trigger] other.buf@[p] == if p < k - at {
                        b0[phys(h, at + p, n)]
                    } else {
                        None
                    },
            decreases len - k,
        {
            let slot = self.to_physical_idx(k);
            let mut v: Option<T> = None;
            self.buf.set_and_swap(slot, &mut v);
            other.buf.set(k - at, v);
            proof {
                assert forall|o: int| 0 <= o < N implies #[trigger] self.buf@[phys(h, o, n)] == if at
                    <= o < k + 1 {
                    None
                } else {
                    b0[phys(h, o, n)]
                } by {
                    if o != k {
                        lemma_phys_inj(h, o, k as int, n);
                    }
                }
            }
            k = k + 1;
        }
        self.len = at;
        other.len = other_len;
        proof {
            assert forall|o: int| 0 <= o < N implies (#[trigger] other.buf@[phys(0, o, n)] is Some
                <==> o < other.len) by {
            }
        }
        assert(self@ =~= old(self)@.take(at as int));
        assert(other@ =~= old(self)@.skip(at as int));
        other
    }

    /// Moves all elements of `other` to the back of `self`, leaving `other` empty.
    ///
    /// Returns `false` and changes neither deque if the combined length exceeds the capacity.
    pub fn append(&mut self, other: &mut Self) -> (r: bool)
        requires
            old(self).wf(),
            old(other).wf(),
        ensures
            final(self).wf(),
            final(other).wf(),
            r == (old(self)@.len() + old(other)@.len() <= N),
            final(self).physical_head() == old(self).physical_head(),
            r ==> final(self)@ == old(self)@ + old(other)@ && final(other)@ == Seq::<T>::empty()
                && final(other).physical_head() == 0,
            !r ==> final(self)@ == old(self)@ && final(other)@ == old(other)@ && final(
                other).physical_head() == old(other).physical_head(),
    {
        if self.len + other.len > N {
            return false;
        }
        let ghost bs = self.buf@;
        let ghost bo = other.buf@;
        let ghost h = self.head as int;
        let ghost ho = other.head as int;
        let ghost n = N as int;
        let base = self.len;
        let count = other.len;
        let mut k: usize = 0;
        while k < count
            invariant
                self.head_ok(),
                other.head_ok(),
                self.head == h,
                other.head == ho,
                n == N,
                self.len == base,
                other.len == count,
                base == old(self).len,
                count == old(other).len,
                base + count <= N,
                0 <= k <= count,
                bs == old(self).buf@,
                bo == old(other).buf@,
                old(self).wf(),
                old(other).wf(),
                self.buf@.len() == N,
                other.buf@.len() == N,
                forall|o: int|
                    0 <= o < N ==> #[trigger] self.buf@[phys(h, o, n)] == if base <= o < base + k {
                        bo[phys(ho, o - base, n)]
                    } else {
                        bs[phys(h, o, n)]
                    },
                forall|o: int|
                    0 <= o < N ==> #[trigger] other.buf@[phys(ho, o, n)] == if o < k {
                        None
                    } else {
                        bo[phys(ho, o, n)]
                    },
            decreases count - k,
        {
            let src = other.to_physical_idx(k);
            let dst = self.to_physical_idx(base + k);
            let mut v: Option<T> = None;
            other.buf.set_and_swap(src, &mut v);
            self.buf.set(dst, v);
            proof {
                assert forall|o: int| 0 <= o < N implies #[trigger] self.buf@[phys(h, o, n)] == if base
                    <= o < base + k + 1 {
                    bo[phys(ho, o - base, n)]
                } else {
                    bs[phys(h, o, n)]
                } by {
                    if o != base + k {
                        lemma_phys_inj(h, o, base + k, n);
                    }
                }
                assert forall|o: int| 0 <= o < N implies #[trigger] other.buf@[phys(ho, o, n)] == if o
                    < k + 1 {
                    None
                } else {
                    bo[phys(ho, o, n)]
                } by {
                    if o != k {
                        lemma_phys_inj(ho, o, k as int, n);
                    }
                }
            }
            k = k + 1;
        }
        self.len = base + count;
        other.len = 0;
        proof {
            assert forall|p: int| 0 <= p < N implies #[trigger] other.buf@[phys(0, p, n)] is None by {
                lemma_dist_phys(ho, p, n);
                assert(other.buf@[phys(ho, ring_dist(p, ho, n), n)] is None);
            }
        }
        other.head = 0;
        assert(self@ =~= old(self)@ + old(other)@);
        assert(other@ =~= Seq::<T>::empty());
        true
    }
}

} // verus!