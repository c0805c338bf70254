//! Construction of empty deques and element-wise cloning.
use vstd::prelude::*;
use super::ArrayDeque;
use crate::ring::{phys, lemma_phys_inj, lemma_rebase};
use crate::range::{IndexRange, range, range_valid, start_index, end_index};
use std::ops::Range;

verus! {

impl<T, const N: usize> ArrayDeque<T, N> {
    /// A buffer of `N` empty slots.
    fn empty_buf() -> (buf: Vec<Option<T>>)
        ensures
            buf@.len() == N,
            forall|p: int| 0 <= p < N ==> #[trigger] buf@[p] is None,
    {
        let mut buf: Vec<Option<T>> = Vec::new();
        let mut i: usize = 0;
        while i < N
            invariant
                i <= N,
                buf@.len() == i,
                forall|p: int| 0 <= p < i ==> #[trigger] buf@[p] is None,
            decreases N - i,
        {
            buf.push(None);
            i += 1;
        }
        buf
    }
}

impl<T, const N: usize> Default for ArrayDeque<T, N> {
    /// Creates an empty deque.
    fn default() -> (d: Self)
        ensures
            N <= isize::MAX ==> d.wf() && d@ == Seq::<T>::empty() && d.physical_head() == 0,
    {
        let d = ArrayDeque { buf: Self::empty_buf(), head: 0, len: 0 };
        assert(d@ =~= Seq::<T>::empty());
        d
    }
}

impl<T: Clone, const N: usize> Clone for ArrayDeque<T, N> {
    /// Clones each element, front to back, into a fresh deque whose elements start at slot 0.
    fn clone(&self) -> (r: Self)
        ensures
            self.wf() ==> r.wf() && r@.len() == self@.len() && r.physical_head() == 0
                && forall|i: int| 0 <= i < self@.len() ==> cloned::<T>(#[trigger] self@[i], r@[i]),
    {
        let mut deq = ArrayDeque { buf: Self::empty_buf(), head: 0, len: 0 };
        if !self.check_shape() {
            return deq;
        }
        let ghost h = self.head as int;
        let ghost n = N as int;
        let mut k: usize = 0;
        while k < self.len
            invariant
                self.shape_ok(),
                h == self.head,
                n == N,
                deq.head == 0,
                deq.len == k,
                k <= self.len,
                deq.buf@.len() == N,
                forall|p: int| k <= p < N ==> #[trigger] deq.buf@[p] is None,
                self.wf() ==> forall|j: int|
                    0 <= j < k ==> #[trigger] deq.buf@[j] is Some && cloned::<T>(
                        self.buf@[phys(h, j, n)].unwrap(),
                        deq.buf@[j].unwrap(),
                    ),
            decreases self.len - k,
        {
            let slot = self.to_physical_idx(k);
            match self.buf[slot].as_ref() {
                Some(x) => {
                    let c = x.clone();
                    deq.buf.set(k, Some(c));
                },
                None => {
                    assert(!self.wf());
                },
            }
            deq.len = k + 1;
            k = k + 1;
        }
        proof {
            if self.wf() {
                assert forall|o: int| 0 <= o < N implies (#[trigger] deq.buf@[phys(0, o, n)] is Some
                    <==> o < deq.len) by {
                }
            }
        }
        deq
    }

    /// Drops the current elements, then clones those of `source` in.
    fn clone_from(&mut self, source: &Self)
        ensures
            source.wf() ==> final(self).wf() && final(self)@.len() == source@.len()
                && final(self).physical_head() == 0 && forall|i: int|
                0 <= i < source@.len() ==> cloned::<T>(#[trigger] source@[i], final(self)@[i]),
    {
        *self = ArrayDeque { buf: Vec::new(), head: 0, len: 0 };
        *self = source.clone();
    }
}

impl<T: Clone, const N: usize> ArrayDeque<T, N> {
    /// Makes the length `new_len`: removes elements from the back, or appends clones of
    /// `value` (the last appended element is `value` itself).
    ///
    /// Returns `Some(value)` and leaves the deque unchanged if `new_len` exceeds the capacity.
    pub fn resize(&mut self, new_len: usize, value: T) -> (r: Option<T>)
        requires
            old(self).wf(),
        ensures
            final(self).wf(),
            final(self).physical_head() == old(self).physical_head(),
            new_len > N ==> r == Some(value) && final(self)@ == old(self)@,
            new_len <= N ==> r is None,
            new_len <= old(self)@.len() ==> final(self)@ == old(self)@.take(new_len as int),
            old(self)@.len() < new_len <= N ==> {
                &&& final(self)@.len() == new_len
                &&& final(self)@.take(old(self)@.len() as int) == old(self)@
                &&& forall|i: int|
                    old(self)@.len() <= i < new_len ==> cloned::<T>(value, #[trigger] final(self)@[i])
            },
    {
        if new_len > N {
            return Some(value);
        }
        if new_len > self.len {
            let extra = new_len - self.len;
            let ghost l0 = self.len;
            let mut i: usize = 1;
            while i < extra
                invariant
                    self.wf(),
                    self.physical_head() == old(self).physical_head(),
                    l0 == old(self)@.len(),
                    extra == new_len - l0,
                    new_len <= N,
                    1 <= i <= extra,
                    self@.len() == l0 + i - 1,
                    self@.take(l0 as int) == old(self)@,
                    forall|j: int| l0 <= j < self@.len() ==> cloned::<T>(value, #[trigger] self@[j]),
                decreases extra - i,
            {
                let c = value.clone();
                let ghost pre = self@;
                self.push_back(c);
                assert(self@.take(l0 as int) =~= pre.take(l0 as int));
                i = i + 1;
            }
            let ghost pre = self@;
            self.push_back(value);
            assert(self@.take(l0 as int) =~= pre.take(l0 as int));
        } else {
            self.truncate(new_len);
        }
        None
    }

    /// Physical `(source, destination, count)` runs for copying the `count` positions that
    /// start at logical offset `src` from slot `head` to those that start at offset `dst`.
    /// At most one of the two ranges wraps, so two runs suffice.
    fn nonoverlapping_ranges(&self, src: usize, dst: usize, count: usize, head: usize) -> (r: [(
        usize,
        usize,
        usize,
    ); 2])
        requires
            self.shape_ok(),
            N > 0,
            head < N,
            src + count <= dst || dst + count <= src,
            src + count <= N,
            dst + count <= N,
        ensures
            r[0].2 + r[1].2 == count,
            r[0].0 + r[0].2 <= N,
            r[0].1 + r[0].2 <= N,
            r[1].0 + r[1].2 <= N,
            r[1].1 + r[1].2 <= N,
            forall|j: int|
                0 <= j < r[0].2 ==> r[0].0 + j == #[trigger] phys(head as int, src + j, N as int)
                    && r[0].1 + j == phys(head as int, dst + j, N as int),
            forall|j: int|
                0 <= j < r[1].2 ==> r[1].0 + j == #[trigger] phys(head as int, src + r[0].2 + j, N as int)
                    && r[1].1 + j == phys(head as int, dst + r[0].2 + j, N as int),
            ({
                let ps = phys(head as int, src as int, N as int);
                let pd = phys(head as int, dst as int, N as int);
                &&& !(ps + count > N && pd + count > N)
                &&& ps + count > N ==> r[0] == (ps as usize, pd as usize, (N - ps) as usize) && r[1].0 == 0
                &&& pd + count > N ==> r[0] == (ps as usize, pd as usize, (N - pd) as usize) && r[1].1 == 0
                &&& ps + count <= N && pd + count <= N ==> r[0] == (ps as usize, pd as usize, count)
                    && r[1] == (0usize, 0usize, 0usize)
            }),
    {
        let wrapped_src = self.wrap_add(head, src);
        let wrapped_dst = self.wrap_add(head, dst);
        let room_after_src = N - wrapped_src;
        let room_after_dst = N - wrapped_dst;
        let src_wraps = room_after_src < count;
        let dst_wraps = room_after_dst < count;
        if src_wraps {
            [(wrapped_src, wrapped_dst, room_after_src), (0, wrapped_dst + room_after_src, count - room_after_src)]
        } else if dst_wraps {
            [(wrapped_src, wrapped_dst, room_after_dst), (wrapped_src + room_after_dst, 0, count - room_after_dst)]
        } else {
            [(wrapped_src, wrapped_dst, count), (0, 0, 0)]
        }
    }

    /// Appends clones of the elements in the physical run `sp..sp + c`, writing them to the
    /// run `dp..dp + c` that follows the back. The clones of `s0[start..so]` are already
    /// in place behind the first `l0` elements.
    fn extend_clone_run(
        &mut self,
        sp: usize,
        dp: usize,
        c: usize,
        Ghost(start): Ghost<int>,
        Ghost(so): Ghost<int>,
        Ghost(l0): Ghost<int>,
        Ghost(s0): Ghost<Seq<T>>,
    )
        requires
            old(self).wf(),
            old(self)@.len() >= l0,
            s0.len() == l0,
            old(self)@.take(l0) == s0,
            0 <= start,
            so == start + (old(self)@.len() - l0),
            so + c <= l0,
            old(self)@.len() + c <= N,
            forall|j: int| 0 <= j < old(self)@.len() - l0 ==> cloned::<T>(s0[start + j], #[trigger] old(self)@[l0 + j]),
            forall|j: int| 0 <= j < c ==> sp + j == #[trigger] phys(old(self).head as int, so + j, N as int),
            forall|j: int| 0 <= j < c ==> dp + j == #[trigger] phys(old(self).head as int, old(self).len + j, N as int),
        ensures
            final(self).wf(),
            final(self).head == old(self).head,
            final(self)@.len() == old(self)@.len() + c,
            final(self)@.take(l0) == s0,
            forall|j: int| 0 <= j < final(self)@.len() - l0 ==> cloned::<T>(s0[start + j], #[trigger] final(self)@[l0 + j]),
    {
        let ghost h = self.head as int;
        let ghost n = N as int;
        let ghost len0 = self.len as int;
        let mut off: usize = 0;
        while off < c
            invariant
                self.wf(),
                self.head == h,
                n == N,
                h == old(self).head,
                len0 == old(self).len,
                self.len == len0 + off,
                self@.len() == self.len,
                off <= c,
                s0.len() == l0,
                self@.take(l0) == s0,
                0 <= start,
                len0 >= l0,
                so == start + (len0 - l0),
                so + c <= l0,
                len0 + c <= N,
                forall|j: int| 0 <= j < self@.len() - l0 ==> cloned::<T>(s0[start + j], #[trigger] self@[l0 + j]),
                forall|j: int| 0 <= j < c ==> sp + j == #[trigger] phys(h, so + j, n),
                forall|j: int| 0 <= j < c ==> dp + j == #[trigger] phys(h, len0 + j, n),
            decreases c - off,
        {
            let ghost pre = self@;
            let ghost l = self.len as int;
            proof {
                assert(sp + off == phys(h, so + off, n));
                assert(dp + off == phys(h, len0 + off, n));
                assert(pre[so + off] == s0[so + off]) by {
                    assert(pre.take(l0)[so + off] == pre[so + off]);
                }
                assert(pre[so + off] == self.buf@[phys(h, so + off, n)].unwrap());
            }
            let v = self.buf[sp + off].as_ref().unwrap().clone();
            let slot = dp + off;
            self.buf.set(slot, Some(v));
            self.len = self.len + 1;
            proof {
                assert forall|o: int| 0 <= o < N implies (#[trigger] self.buf@[phys(h, o, n)] is Some
                    <==> o < self.len) by {
                    if o != l {
                        lemma_phys_inj(h, o, l, n);
                    }
                }
                assert forall|k: int| 0 <= k < l implies self@[k] == pre[k] by {
                    lemma_phys_inj(h, k, l, n);
                }
                assert(self@.take(l0) =~= pre.take(l0));
                assert(self@[l] == v);
                assert forall|j: int| 0 <= j < self@.len() - l0 implies cloned::<T>(s0[start + j], #[trigger] self@[l0 + j]) by {
                    if l0 + j < l {
                        assert(self@[l0 + j] == pre[l0 + j]);
                    }
                }
            }
            off = off + 1;
        }
    }

    /// Appends clones of the positions `start..end` to the back.
    fn spec_extend_from_within(&mut self, start: usize, end: usize)
        requires
            old(self).wf(),
            start <= end <= old(self)@.len(),
            old(self)@.len() + (end - start) <= N,
        ensures
            final(self).wf(),
            final(self).physical_head() == old(self).physical_head(),
            final(self)@.len() == old(self)@.len() + (end - start),
            final(self)@.take(old(self)@.len() as int) == old(self)@,
            forall|j: int|
                0 <= j < end - start ==> cloned::<T>(old(self)@[start + j], #[trigger] final(self)@[old(self)@.len() + j]),
    {
        let count = end - start;
        if count == 0 {
            assert(self@.take(self@.len() as int) =~= self@);
            return;
        }
        let dst = self.len;
        let ghost l0 = self.len as int;
        let ghost s0 = self@;
        let ranges = self.nonoverlapping_ranges(start, dst, count, self.head);
        let (sp0, dp0, c0) = ranges[0];
        let (sp1, dp1, c1) = ranges[1];
        let ghost h = self.head as int;
        let ghost n = N as int;
        proof {
            assert(self@.take(l0) =~= s0);
            assert forall|j: int| 0 <= j < c0 implies sp0 + j == #[trigger] phys(h, start + j, n) by {
            }
            assert forall|j: int| 0 <= j < c0 implies dp0 + j == #[trigger] phys(h, l0 + j, n) by {
                assert(sp0 + j == phys(h, start + j, n));
            }
        }
        self.extend_clone_run(sp0, dp0, c0, Ghost(start as int), Ghost(start as int), Ghost(l0), Ghost(s0));
        proof {
            assert forall|j: int| 0 <= j < c1 implies sp1 + j == #[trigger] phys(h, (start + c0) + j, n) by {
            }
            assert forall|j: int| 0 <= j < c1 implies dp1 + j == #[trigger] phys(h, (l0 + c0) + j, n) by {
                assert(sp1 + j == phys(h, (start + c0) + j, n));
            }
        }
        self.extend_clone_run(sp1, dp1, c1, Ghost(start as int), Ghost(start + c0), Ghost(l0), Ghost(s0));
    }

    /// Prepends clones of the elements in the physical run `sp..sp + c`, back to front.
    /// Relative to the final head `nh`, the clones go to positions `q0..q0 + c`; the
    /// positions from `q0 + c` up to `count` are already filled.
    fn prepend_clone_run(
        &mut self,
        sp: usize,
        c: usize,
        Ghost(q0): Ghost<int>,
        Ghost(nh): Ghost<int>,
        Ghost(start): Ghost<int>,
        Ghost(count): Ghost<int>,
        Ghost(l0): Ghost<int>,
        Ghost(s0): Ghost<Seq<T>>,
    )
        requires
            old(self).wf(),
            N > 0,
            0 <= nh < N,
            0 <= q0,
            q0 + c <= count,
            0 <= start,
            start + count <= l0,
            l0 + count <= N,
            s0.len() == l0,
            old(self)@.len() == l0 + (count - (q0 + c)),
            old(self).head == phys(nh, q0 + c, N as int),
            old(self)@.skip(count - (q0 + c)) == s0,
            forall|j: int|
                0 <= j < count - (q0 + c) ==> cloned::<T>(s0[start + q0 + c + j], #[trigger] old(self)@[j]),
            forall|j: int| 0 <= j < c ==> sp + j == #[trigger] phys(nh, count + start + q0 + j, N as int),
        ensures
            final(self).wf(),
            final(self).head == phys(nh, q0, N as int),
            final(self)@.len() == l0 + (count - q0),
            final(self)@.skip(count - q0) == s0,
            forall|j: int| 0 <= j < count - q0 ==> cloned::<T>(s0[start + q0 + j], #[trigger] final(self)@[j]),
    {
        let ghost n = N as int;
        let mut off: usize = c;
        while off > 0
            invariant
                self.wf(),
                n == N,
                N > 0,
                0 <= nh < N,
                0 <= q0,
                q0 + c <= count,
                0 <= start,
                start + count <= l0,
                l0 + count <= N,
                s0.len() == l0,
                off <= c,
                self@.len() == l0 + (count - (q0 + off)),
                self.head == phys(nh, q0 + off, n),
                self@.skip(count - (q0 + off)) == s0,
                forall|j: int|
                    0 <= j < count - (q0 + off) ==> cloned::<T>(s0[start + q0 + off + j], #[trigger] self@[j]),
                forall|j: int| 0 <= j < c ==> sp + j == #[trigger] phys(nh, count + start + q0 + j, n),
            decreases off,
        {
            off = off - 1;
            let ghost pre = self@;
            let ghost w = count - (q0 + off + 1);
            let ghost q = q0 + off;
            proof {
                assert(sp + off == phys(nh, count + start + q0 + off, n));
                let idx = w + start + q;
                lemma_rebase(nh, q + 1, n);
                assert(phys(q + 1, idx, n) == count + start + q);
                assert(phys(self.head as int, idx, n) == phys(nh, count + start + q, n));
                assert(pre[idx] == s0[start + q]) by {
                    assert(pre.skip(w)[start + q] == pre[w + start + q]);
                }
                assert(pre[idx] == self.buf@[phys(self.head as int, idx, n)].unwrap());
            }
            let v = self.buf[sp + off].as_ref().unwrap().clone();
            self.push_front(v);
            proof {
                assert(self@.skip(count - (q0 + off)) =~= s0) by {
                    assert(self@.skip(count - (q0 + off)) =~= pre.skip(w));
                }
                assert(self.head == phys(nh, q0 + off, n));
            }
        }
    }

    /// Prepends clones of the positions `start..end` to the front, keeping their order.
    fn spec_prepend_from_within(&mut self, start: usize, end: usize)
        requires
            old(self).wf(),
            start <= end <= old(self)@.len(),
            old(self)@.len() + (end - start) <= N,
        ensures
            final(self).wf(),
            final(self).physical_head() == phys(old(self).physical_head(), N - (end - start), N as int),
            final(self)@.len() == old(self)@.len() + (end - start),
            final(self)@.skip(end - start) == old(self)@,
            forall|j: int|
                0 <= j < end - start ==> cloned::<T>(old(self)@[start + j], #[trigger] final(self)@[j]),
    {
        let count = end - start;
        if count == 0 {
            assert(self@.skip(0) =~= self@);
            return;
        }
        let ghost l0 = self.len as int;
        let ghost s0 = self@;
        let new_head = self.wrap_sub(self.head, count);
        let ranges = self.nonoverlapping_ranges(start + count, 0, count, new_head);
        let (sp0, _dp0, c0) = ranges[0];
        let (sp1, _dp1, c1) = ranges[1];
        let ghost nh = new_head as int;
        let ghost n = N as int;
        proof {
            assert(self@.skip(0) =~= s0);
            assert(self.head == phys(nh, count as int, n));
            assert forall|j: int| 0 <= j < c1 implies sp1 + j == #[trigger] phys(nh, count + start + c0 + j, n) by {
                assert(sp1 + j == phys(nh, (start + count) + c0 + j, n));
            }
        }
        self.prepend_clone_run(sp1, c1, Ghost(c0 as int), Ghost(nh), Ghost(start as int), Ghost(count as int), Ghost(l0), Ghost(s0));
        proof {
            assert forall|j: int| 0 <= j < c0 implies sp0 + j == #[trigger] phys(nh, count + start + 0 + j, n) by {
                assert(sp0 + j == phys(nh, (start + count) + j, n));
            }
        }
        self.prepend_clone_run(sp0, c0, Ghost(0), Ghost(nh), Ghost(start as int), Ghost(count as int), Ghost(l0), Ghost(s0));
    }

    /// Clones the elements in `src` and appends the clones to the back, in order.
    ///
    /// The range must lie within the deque: `start <= end <= len` once resolved. Returns
    /// `false` and leaves the deque unchanged if the clones do not fit in the remaining
    /// capacity.
    pub fn extend_from_within(&mut self, src: IndexRange) -> (r: bool)
        requires
            old(self).wf(),
            range_valid(src, old(self)@.len() as int),
        ensures
            final(self).wf(),
            final(self).physical_head() == old(self).physical_head(),
            ({
                let s = start_index(src.start);
                let e = end_index(src.end, old(self)@.len() as int);
                &&& r == (e - s <= N - old(self)@.len())
                &&& !r ==> final(self)@ == old(self)@
                &&& r ==> {
                    &&& final(self)@.len() == old(self)@.len() + (e - s)
                    &&& final(self)@.take(old(self)@.len() as int) == old(self)@
                    &&& forall|j: int|
                        0 <= j < e - s ==> cloned::<T>(old(self)@[s + j], #[trigger] final(self)@[old(self)@.len() + j])
                }
            }),
    {
        let Range { start, end } = range(src, self.len);
        if end - start > N - self.len {
            return false;
        }
        self.spec_extend_from_within(start, end);
        true
    }

    /// Clones the elements in `src` and prepends the clones to the front, in order.
    ///
    /// The range must lie within the deque: `start <= end <= len` once resolved. Returns
    /// `false` and leaves the deque unchanged if the clones do not fit in the remaining
    /// capacity.
    pub fn prepend_from_within(&mut self, src: IndexRange) -> (r: bool)
        requires
            old(self).wf(),
            range_valid(src, old(self)@.len() as int),
        ensures
            final(self).wf(),
            ({
                let s = start_index(src.start);
                let e = end_index(src.end, old(self)@.len() as int);
                &&& r == (e - s <= N - old(self)@.len())
                &&& !r ==> final(self)@ == old(self)@ && final(self).physical_head() == old(self).physical_head()
                &&& r ==> {
                    &&& final(self)@.len() == old(self)@.len() + (e - s)
                    &&& final(self)@.skip(e - s) == old(self)@
                    &&& forall|j: int| 0 <= j < e - s ==> cloned::<T>(old(self)@[s + j], #[trigger] final(self)@[j])
                    &&& final(self).physical_head() == phys(old(self).physical_head(), N - (e - s), N as int)
                }
            }),
    {
        let Range { start, end } = range(src, self.len);
        if end - start > N - self.len {
            return false;
        }
        self.spec_prepend_from_within(start, end);
        true
    }
}

} // verus!