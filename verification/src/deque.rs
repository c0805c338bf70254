//! The ring-buffer deque and its core operations.
use vstd::prelude::*;
use crate::slots::{rotate_slots_left, swap_slots};
use crate::iter::{Iter, occupied_values, all_occupied};
use crate::iter_mut::{IterMut, mut_refs_of};
use crate::range::{IndexRange, range, range_valid, start_index, end_index};
use vstd::slice::slice_subrange;
use std::ops::Range;
use crate::ring::{
    wrap_spec, ring_dist, phys, wrap_index, ring_move, ring_wrap_copy, lemma_phys_add, lemma_phys_dist,
    lemma_dist_phys, lemma_ring_move_rel, lemma_phys_inj, lemma_rebase, lemma_ring_move_flat,
    contiguous_head, first_run_len, rotate_left_head, rotate_right_head,
};

mod bulk;
mod drain;
mod compare;
mod cloning;
mod filter;
mod predicates;
mod convert;
mod search;
mod extract;
mod bytes;
mod order;

pub use drain::{Drain, drain_head};
pub use compare::slot_eq;
pub use filter::{filter_by, lemma_filter_by_step};
pub use convert::{overflow_of, taken_of};
pub use extract::{ExtractIf, remove_loop, negated};
pub use search::{nth, before, key_answers};
pub use order::{lex_cmp, after};

verus! {

/// A fixed-capacity double-ended queue backed by a ring buffer of `N` slots.
///
/// Pushing onto a full deque hands the element back instead of growing.
#[derive(Debug)]
pub struct ArrayDeque<T, const N: usize> {
    buf: Vec<Option<T>>,
    head: usize,
    len: usize,
}

impl<T, const N: usize> View for ArrayDeque<T, N> {
    type V = Seq<T>;

    /// The elements from front to back.
    closed spec fn view(&self) -> Seq<T> {
        Seq::new(self.len as nat, |k: int| self.buf@[phys(self.head as int, k, N as int)].unwrap())
    }
}

impl<T, const N: usize> ArrayDeque<T, N> {
    /// The physical slot that holds the front element (the split point of `as_slices`).
    pub closed spec fn physical_head(&self) -> int {
        self.head as int
    }

    /// The head is a valid physical slot and the capacity is addressable.
    closed spec fn head_ok(&self) -> bool {
        &&& N <= isize::MAX
        &&& (if N == 0 { self.head == 0 } else { self.head < N })
    }

    /// The fields describe a buffer of `N` slots, a valid head and a length that fits.
    pub closed spec fn shape_ok(&self) -> bool {
        &&& self.head_ok()
        &&& self.buf@.len() == N
        &&& self.len <= N
    }

    /// Runtime check of `shape_ok`.
    pub(crate) fn check_shape(&self) -> (r: bool)
        ensures
            r == self.shape_ok(),
    {
        let limit: usize = isize::MAX as usize;
        if N > limit || self.buf.len() != N || self.len > N {
            return false;
        }
        if N == 0 {
            self.head == 0
        } else {
            self.head < N
        }
    }

    /// Internal consistency: exactly the slots of the live region are occupied.
    pub closed spec fn wf(&self) -> bool {
        &&& self.head_ok()
        &&& self.buf@.len() == N
        &&& self.len <= N
        &&& forall|o: int|
            0 <= o < N ==> (#[trigger] self.buf@[phys(self.head as int, o, N as int)] is Some <==> o
                < self.len)
    }

    /// The slots of the live region, front to back.
    pub closed spec fn slots(&self) -> Seq<Option<T>> {
        Seq::new(self.len as nat, |k: int| self.buf@[phys(self.head as int, k, N as int)])
    }

    /// In a well-formed deque every live slot holds the element at its position.
    pub proof fn lemma_slots_view(&self)
        requires
            self.wf(),
        ensures
            self.slots() == self@.map_values(|x: T| Some(x)),
    {
        assert forall|k: int| 0 <= k < self.len implies #[trigger] self.slots()[k] == Some(self@[k]) by {
            assert(self.buf@[phys(self.head as int, k, N as int)] is Some);
        }
        assert(self.slots() =~= self@.map_values(|x: T| Some(x)));
    }

    /// The number of live slots.
    pub(crate) fn live_len(&self) -> (r: usize)
        ensures
            r == self.slots().len(),
    {
        self.len
    }

    /// The live slot at position `k`.
    pub(crate) fn slot_at(&self, k: usize) -> (r: &Option<T>)
        requires
            self.shape_ok(),
            k < self.slots().len(),
        ensures
            *r == self.slots()[k as int],
    {
        let p = self.to_physical_idx(k);
        &self.buf[p]
    }

    /// A well-formed deque never holds more elements than its capacity, and its head is a
    /// slot of the buffer (slot 0 when the capacity is zero).
    pub proof fn lemma_wf_bounds(&self)
        requires
            self.wf(),
        ensures
            self@.len() <= N,
            N > 0 ==> 0 <= self.physical_head() < N,
            N == 0 ==> self.physical_head() == 0,
    {
    }

    /// Physical slot `sub` places before `idx`, wrapping around the ring.
    fn wrap_sub(&self, idx: usize, sub: usize) -> (r: usize)
        requires
            self.head_ok(),
            idx < N,
            sub <= N,
        ensures
            r == phys(idx as int, N - sub, N as int),
            r < N,
    {
        wrap_index(idx + N - sub, N)
    }

    /// Physical slot `addend` places after `idx`, wrapping around the ring.
    fn wrap_add(&self, idx: usize, addend: usize) -> (r: usize)
        requires
            self.head_ok(),
            idx < N || (idx == 0 && N == 0),
            addend <= N,
        ensures
            r == phys(idx as int, addend as int, N as int),
            N > 0 ==> r < N,
    {
        wrap_index(idx + addend, N)
    }

    /// Physical slot of logical index `idx`.
    fn to_physical_idx(&self, idx: usize) -> (r: usize)
        requires
            self.head_ok(),
            idx <= N,
        ensures
            r == phys(self.head as int, idx as int, N as int),
            N > 0 ==> r < N,
    {
        self.wrap_add(self.head, idx)
    }

    /// Creates an empty deque.
    pub fn new() -> (d: Self)
        requires
            N <= isize::MAX,
        ensures
            d.wf(),
            d@ == Seq::<T>::empty(),
            d.physical_head() == 0,
    {
        let mut buf: Vec<Option<T>> = Vec::new();
        let mut i: usize = 0;
        while i < N
            invariant
                i <= N,
                buf@.len() == i,
                forall|p: int| 0 <= p < i ==> #[trigger] buf@[p] is None,
            decreases N - i,
        {
            buf.push(None);
            i += 1;
        }
        let d = ArrayDeque { buf, head: 0, len: 0 };
        assert(d@ =~= Seq::<T>::empty());
        d
    }

    /// Returns the capacity of the deque.
    pub fn capacity(&self) -> (r: usize)
        ensures
            r == N,
    {
        N
    }

    /// Returns the number of elements in the deque.
    pub fn len(&self) -> (r: usize)
        requires
            self.wf(),
        ensures
            r == self@.len(),
    {
        self.len
    }

    /// Returns how many more elements the deque can store.
    pub fn remaining_capacity(&self) -> (r: usize)
        requires
            self.wf(),
        ensures
            r == N - self@.len(),
    {
        N - self.len
    }

    /// Returns `true` if the deque is empty.
    pub fn is_empty(&self) -> (r: bool)
        requires
            self.wf(),
        ensures
            r == (self@.len() == 0),
    {
        self.len == 0
    }

    /// Returns `true` if the deque is at full capacity.
    pub fn is_full(&self) -> (r: bool)
        requires
            self.wf(),
        ensures
            r == (self@.len() == N),
    {
        self.len == N
    }

    /// Provides a reference to the element at the given index (0 is the front).
    pub fn get(&self, index: usize) -> (r: Option<&T>)
        requires
            self.wf(),
        ensures
            match r {
                Some(x) => index < self@.len() && *x == self@[index as int],
                None => index >= self@.len(),
            },
    {
        if index < self.len {
            let idx = self.to_physical_idx(index);
            self.buf[idx].as_ref()
        } else {
            None
        }
    }

    /// Provides a reference to the front element, or `None` if the deque is empty.
    pub fn front(&self) -> (r: Option<&T>)
        requires
            self.wf(),
        ensures
            match r {
                Some(x) => self@.len() > 0 && *x == self@[0],
                None => self@.len() == 0,
            },
    {
        self.get(0)
    }

    /// Provides a reference to the back element, or `None` if the deque is empty.
    pub fn back(&self) -> (r: Option<&T>)
        requires
            self.wf(),
        ensures
            match r {
                Some(x) => self@.len() > 0 && *x == self@.last(),
                None => self@.len() == 0,
            },
    {
        if self.len == 0 {
            None
        } else {
            self.get(self.len - 1)
        }
    }

    /// Appends an element to the back of the deque, returning `None` if successful.
    ///
    /// If the deque is at full capacity, returns the element back without modifying the deque.
    pub fn push_back(&mut self, value: T) -> (r: Option<T>)
        requires
            old(self).wf(),
        ensures
            final(self).wf(),
            final(self).physical_head() == old(self).physical_head(),
            old(self)@.len() == N ==> r == Some(value) && final(self)@ == old(self)@,
            old(self)@.len() < N ==> r is None && final(self)@ == old(self)@.push(value),
    {
        if self.len == N {
            Some(value)
        } else {
            let idx = self.to_physical_idx(self.len);
            self.buf.set(idx, Some(value));
            self.len = self.len + 1;
            proof {
                let h = self.head as int;
                let l = old(self).len as int;
                assert forall|o: int| 0 <= o < N implies (#[trigger] self.buf@[phys(h, o, N as int)] is Some
                    <==> o < self.len) by {
                    if o != l {
                        lemma_phys_inj(h, o, l, N as int);
                    }
                }
                assert forall|k: int| 0 <= k < l implies #[trigger] self.buf@[phys(h, k, N as int)] == old(self).buf@[phys(h, k, N as int)] by {
                    lemma_phys_inj(h, k, l, N as int);
                }
            }
            assert(self@ =~= old(self)@.push(value));
            None
        }
    }

    /// Prepends an element to the front of the deque, returning `None` if successful.
    ///
    /// If the deque is at full capacity, returns the element back without modifying the deque.
    pub fn push_front(&mut self, value: T) -> (r: Option<T>)
        requires
            old(self).wf(),
        ensures
            final(self).wf(),
            old(self)@.len() == N ==> r == Some(value) && final(self)@ == old(self)@
                && final(self).physical_head() == old(self).physical_head(),
            old(self)@.len() < N ==> r is None && final(self)@ == seq![value] + old(self)@
                && final(self).physical_head() == phys(old(self).physical_head(), N - 1, N as int),
    {
        if self.len == N {
            Some(value)
        } else {
            let new_head = self.wrap_sub(self.head, 1);
            self.buf.set(new_head, Some(value));
            self.head = new_head;
            self.len = self.len + 1;
            proof {
                let h = old(self).head as int;
                let n = N as int;
                lemma_rebase(h, n - 1, n);
                assert forall|o: int| 0 <= o < N implies (#[trigger] self.buf@[phys(new_head as int, o, n)] is Some
                    <==> o < self.len) by {
                    if o > 0 {
                        lemma_phys_inj(h, o - 1, n - 1, n);
                    }
                }
                assert forall|k: int| 0 < k < self.len implies #[trigger] self.buf@[phys(new_head as int, k, n)] == old(self).buf@[phys(h, k - 1, n)] by {
                    lemma_phys_inj(h, k - 1, n - 1, n);
                }
            }
            assert(self@ =~= seq![value] + old(self)@);
            None
        }
    }

    /// Removes the first element and returns it, or `None` if the deque is empty.
    pub fn pop_front(&mut self) -> (r: Option<T>)
        requires
            old(self).wf(),
        ensures
            final(self).wf(),
            old(self)@.len() == 0 ==> r is None && final(self)@ == old(self)@
                && final(self).physical_head() == old(self).physical_head(),
            old(self)@.len() > 0 ==> r == Some(old(self)@[0]) && final(self)@ == old(self)@.drop_first() && final(self).physical_head() == phys(old(self).physical_head(), 1, N as int),
    {
        if self.len == 0 {
            None
        } else {
            let old_head = self.head;
            let new_head = self.to_physical_idx(1);
            let mut v: Option<T> = None;
            self.buf.set_and_swap(old_head, &mut v);
            self.head = new_head;
            self.len = self.len - 1;
            proof {
                let h = old_head as int;
                let n = N as int;
                let a = if n == 1 { 0int } else { 1int };
                assert(phys(h, 1, n) == phys(h, a, n));
                lemma_rebase(h, a, n);
                assert(phys(h, 0, n) == h);
                assert forall|o: int| 0 <= o < N implies (#[trigger] self.buf@[phys(new_head as int, o, n)] is Some
                    <==> o < self.len) by {
                    if phys(a, o, n) != 0 {
                        lemma_phys_inj(h, phys(a, o, n), 0, n);
                    }
                }
                assert forall|k: int| 0 <= k < self.len implies #[trigger] self.buf@[phys(new_head as int, k, n)] == old(self).buf@[phys(h, k + 1, n)] by {
                    lemma_phys_inj(h, k + 1, 0, n);
                }
            }
            assert(self@ =~= old(self)@.drop_first());
            v
        }
    }

    /// Removes the last element and returns it, or `None` if the deque is empty.
    pub fn pop_back(&mut self) -> (r: Option<T>)
        requires
            old(self).wf(),
        ensures
            final(self).wf(),
            final(self).physical_head() == old(self).physical_head(),
            old(self)@.len() == 0 ==> r is None && final(self)@ == old(self)@,
            old(self)@.len() > 0 ==> r == Some(old(self)@.last()) && final(self)@ == old(self)@.drop_last(),
    {
        if self.len == 0 {
            None
        } else {
            let idx = self.to_physical_idx(self.len - 1);
            self.len = self.len - 1;
            let mut v: Option<T> = None;
            self.buf.set_and_swap(idx, &mut v);
            proof {
                let h = self.head as int;
                let n = N as int;
                assert forall|o: int| 0 <= o < N implies (#[trigger] self.buf@[phys(h, o, n)] is Some
                    <==> o < self.len) by {
                    if o != self.len {
                        lemma_phys_inj(h, o, self.len as int, n);
                    }
                }
                assert forall|k: int| 0 <= k < self.len implies #[trigger] self.buf@[phys(h, k, n)] == old(self).buf@[phys(h, k, n)] by {
                    lemma_phys_inj(h, k, self.len as int, n);
                }
            }
            assert(self@ =~= old(self)@.drop_last());
            v
        }
    }

    /// Moves `len` slots from physical slot `src` to physical slot `dst`, wrapping around.
    fn wrap_copy(&mut self, src: usize, dst: usize, len: usize)
        requires
            N <= isize::MAX,
            old(self).buf@.len() == N,
            src < N,
            dst < N,
            len <= N,
            ring_dist(dst as int, src as int, N as int) < len ==> ring_dist(
                dst as int,
                src as int,
                N as int,
            ) + len <= N,
        ensures
            final(self).buf@ == ring_move(old(self).buf@, src as int, dst as int, len as int, N as int),
            final(self).head == old(self).head,
            final(self).len == old(self).len,
    {
        ring_wrap_copy(&mut self.buf, N, src, dst, len);
    }

    /// Removes the element at `index` by moving the elements behind it one slot forward.
    pub(crate) fn remove_shift_tail(&mut self, index: usize) -> (r: Option<T>)
        requires
            old(self).wf(),
            index < old(self)@.len(),
        ensures
            final(self).wf(),
            r == Some(old(self)@[index as int]),
            final(self)@ == old(self)@.remove(index as int),
            final(self).physical_head() == old(self).physical_head(),
    {
        let wrapped_idx = self.to_physical_idx(index);
        let mut elem: Option<T> = None;
        self.buf.set_and_swap(wrapped_idx, &mut elem);
        let ghost b1 = self.buf@;
        let ghost h = self.head as int;
        let ghost n = N as int;
        let ghost l = self.len as int;
        let ghost i = index as int;
        proof {
            assert forall|x: int| 0 <= x < n implies #[trigger] b1[phys(h, x, n)] == if x == i {
                None
            } else {
                old(self).buf@[phys(h, x, n)]
            } by {
                if x != i {
                    lemma_phys_inj(h, x, i, n);
                }
            }
        }
        let k = self.len - index - 1;
        let src = self.wrap_add(wrapped_idx, 1);
        self.wrap_copy(src, wrapped_idx, k);
        self.len = self.len - 1;
        proof {
            let s = phys(i, 1, n);
            if n > 1 {
                lemma_phys_add(h, i, 1, n);
            }
            lemma_ring_move_rel(b1, h, s, i, k as int, n);
            assert forall|o: int| 0 <= o < n implies (#[trigger] self.buf@[phys(h, o, n)] is Some
                <==> o < self.len) by {
                let d = ring_dist(o, i, n);
                if d < k {
                    lemma_phys_dist(h, phys(s, d, n), n);
                }
            }
            assert forall|o: int| 0 <= o < self.len implies #[trigger] self.buf@[phys(h, o, n)]
                == old(self).buf@[phys(h, if o < i { o } else { o + 1 }, n)] by {
            }
        }
        assert(self@ =~= old(self)@.remove(index as int));
        elem
    }

    /// Removes the element at `index` by moving the elements before it one slot back.
    fn remove_shift_head(&mut self, index: usize) -> (r: Option<T>)
        requires
            old(self).wf(),
            index < old(self)@.len(),
        ensures
            final(self).wf(),
            r == Some(old(self)@[index as int]),
            final(self)@ == old(self)@.remove(index as int),
            final(self).physical_head() == phys(old(self).physical_head(), 1, N as int),
    {
        let wrapped_idx = self.to_physical_idx(index);
        let mut elem: Option<T> = None;
        self.buf.set_and_swap(wrapped_idx, &mut elem);
        let ghost b1 = self.buf@;
        let ghost h = self.head as int;
        let ghost n = N as int;
        let ghost l = self.len as int;
        let ghost i = index as int;
        proof {
            assert forall|x: int| 0 <= x < n implies #[trigger] b1[phys(h, x, n)] == if x == i {
                None
            } else {
                old(self).buf@[phys(h, x, n)]
            } by {
                if x != i {
                    lemma_phys_inj(h, x, i, n);
                }
            }
        }
        let k = self.len - index - 1;
        let old_head = self.head;
        let new_head = self.to_physical_idx(1);
        self.wrap_copy(old_head, new_head, index);
        self.head = new_head;
        self.len = self.len - 1;
        proof {
            let a = if n == 1 { 0int } else { 1int };
            assert(phys(h, 1, n) == phys(h, a, n));
            assert(phys(h, 0, n) == h);
            lemma_rebase(h, a, n);
            lemma_ring_move_rel(b1, h, 0, a, i, n);
            assert forall|o: int| 0 <= o < n implies (#[trigger] self.buf@[phys(new_head as int, o, n)] is Some
                <==> o < self.len) by {
                let x = phys(a, o, n);
                assert(self.buf@[phys(new_head as int, o, n)] == self.buf@[phys(h, x, n)]);
            }
            assert forall|o: int| 0 <= o < self.len implies #[trigger] self.buf@[phys(new_head as int, o, n)]
                == old(self).buf@[phys(h, if o < i { o } else { o + 1 }, n)] by {
                let x = phys(a, o, n);
                assert(self.buf@[phys(new_head as int, o, n)] == self.buf@[phys(h, x, n)]);
            }
        }
            assert(self@ =~= old(self)@.remove(index as int));
        elem
    }

    /// Removes and returns the element at `index`, moving whichever side of the gap is
    /// shorter to close it. Returns `None` if `index` is out of bounds.
    pub fn remove(&mut self, index: usize) -> (r: Option<T>)
        requires
            old(self).wf(),
        ensures
            final(self).wf(),
            index >= old(self)@.len() ==> r is None && final(self)@ == old(self)@
                && final(self).physical_head() == old(self).physical_head(),
            index < old(self)@.len() ==> r == Some(old(self)@[index as int]) && final(self)@
                == old(self)@.remove(index as int) && final(self).physical_head() == if old(
                self)@.len() - index - 1 < index {
                old(self).physical_head()
            } else {
                phys(old(self).physical_head(), 1, N as int)
            },
    {
        if self.len <= index {
            return None;
        }
        let k = self.len - index - 1;
        if k < index {
            self.remove_shift_tail(index)
        } else {
            self.remove_shift_head(index)
        }
    }

    /// Inserts `value` at `index` by moving the elements behind it one slot towards the back.
    fn insert_shift_tail(&mut self, index: usize, value: T)
        requires
            old(self).wf(),
            index <= old(self)@.len(),
            old(self)@.len() < N,
            old(self)@.len() - index < index,
        ensures
            final(self).wf(),
            final(self)@ == old(self)@.insert(index as int, value),
            final(self).physical_head() == old(self).physical_head(),
    {
        let ghost b0 = self.buf@;
        let ghost h = self.head as int;
        let ghost n = N as int;
        let ghost i = index as int;
        let k = self.len - index;
        let src = self.to_physical_idx(index);
        let dst = self.to_physical_idx(index + 1);
        self.wrap_copy(src, dst, k);
        let ghost b1 = self.buf@;
        self.buf.set(src, Some(value));
        self.len = self.len + 1;
        proof {
            let t = if i + 1 < n { i + 1 } else { 0 };
            assert(phys(h, i + 1, n) == phys(h, t, n));
            lemma_ring_move_rel(b0, h, i, t, k as int, n);
            assert forall|o: int| 0 <= o < n implies #[trigger] self.buf@[phys(h, o, n)] == if o == i {
                Some(value)
            } else {
                b1[phys(h, o, n)]
            } by {
                if o != i {
                    lemma_phys_inj(h, o, i, n);
                }
            }
            assert forall|o: int| 0 <= o < n implies (#[trigger] self.buf@[phys(h, o, n)] is Some
                <==> o < self.len) by {
            }
            assert forall|o: int| 0 <= o < self.len implies #[trigger] self.buf@[phys(h, o, n)]
                == if o < i {
                old(self).buf@[phys(h, o, n)]
            } else if o == i {
                Some(value)
            } else {
                old(self).buf@[phys(h, o - 1, n)]
            } by {
            }
        }
        assert(self@ =~= old(self)@.insert(index as int, value));
    }

    /// Inserts `value` at `index` by moving the elements before it one slot towards the front.
    fn insert_shift_head(&mut self, index: usize, value: T)
        requires
            old(self).wf(),
            index <= old(self)@.len(),
            old(self)@.len() < N,
        ensures
            final(self).wf(),
            final(self)@ == old(self)@.insert(index as int, value),
            final(self).physical_head() == phys(old(self).physical_head(), N - 1, N as int),
    {
        let ghost b0 = self.buf@;
        let ghost h = self.head as int;
        let ghost n = N as int;
        let ghost i = index as int;
        let k = self.len - index;
        let old_head = self.head;
        let new_head = self.wrap_sub(self.head, 1);
        self.wrap_copy(old_head, new_head, index);
        self.head = new_head;
        let slot = self.to_physical_idx(index);
        let ghost b1 = self.buf@;
        self.buf.set(slot, Some(value));
        self.len = self.len + 1;
        proof {
            let hn = new_head as int;
            assert(phys(h, 0, n) == h);
            lemma_rebase(h, n - 1, n);
            lemma_ring_move_rel(b0, h, 0, n - 1, i, n);
            assert forall|o: int| 0 <= o < n implies #[trigger] self.buf@[phys(hn, o, n)] == if o == i {
                Some(value)
            } else {
                b1[phys(h, phys(n - 1, o, n), n)]
            } by {
                if o != i {
                    lemma_phys_inj(hn, o, i, n);
                }
            }
            assert forall|o: int| 0 <= o < n implies (#[trigger] self.buf@[phys(hn, o, n)] is Some
                <==> o < self.len) by {
            }
            assert forall|o: int| 0 <= o < self.len implies #[trigger] self.buf@[phys(hn, o, n)]
                == if o < i {
                old(self).buf@[phys(h, o, n)]
            } else if o == i {
                Some(value)
            } else {
                old(self).buf@[phys(h, o - 1, n)]
            } by {
            }
        }
            assert(self@ =~= old(self)@.insert(index as int, value));
    }

    /// Inserts `value` at `index`, moving whichever side of it is shorter.
    fn insert_unchecked(&mut self, index: usize, value: T)
        requires
            old(self).wf(),
            index <= old(self)@.len(),
            old(self)@.len() < N,
        ensures
            final(self).wf(),
            final(self)@ == old(self)@.insert(index as int, value),
            final(self).physical_head() == if old(self)@.len() - index < index {
                old(self).physical_head()
            } else {
                phys(old(self).physical_head(), N - 1, N as int)
            },
    {
        let k = self.len - index;
        if k < index {
            self.insert_shift_tail(index, value);
        } else {
            self.insert_shift_head(index, value);
        }
    }

    /// Inserts an element at `index`, shifting the elements at and after it towards the back.
    ///
    /// Returns `Some(value)` without modifying the deque if `index` is greater than the
    /// length or the deque is full.
    pub fn insert(&mut self, index: usize, value: T) -> (r: Option<T>)
        requires
            old(self).wf(),
        ensures
            final(self).wf(),
            (index > old(self)@.len() || old(self)@.len() == N) ==> r == Some(value) && final(self)@ == old(self)@ && final(self).physical_head() == old(self).physical_head(),
            (index <= old(self)@.len() && old(self)@.len() < N) ==> r is None && final(self)@
                == old(self)@.insert(index as int, value) && final(self).physical_head() == if old(
                self)@.len() - index < index {
                old(self).physical_head()
            } else {
                phys(old(self).physical_head(), N - 1, N as int)
            },
    {
        if index > self.len || self.len == N {
            return Some(value);
        }
        self.insert_unchecked(index, value);
        None
    }

    /// Moves the first `mid` elements behind the last one (`2 * mid <= len`).
    fn rotate_left_inner(&mut self, mid: usize)
        requires
            old(self).wf(),
            2 * mid <= old(self)@.len(),
        ensures
            final(self).wf(),
            final(self)@ == old(self)@.skip(mid as int) + old(self)@.take(mid as int),
            final(self).physical_head() == phys(old(self).physical_head(), mid as int, N as int),
    {
        if mid == 0 {
            assert(self@ =~= old(self)@.skip(mid as int) + old(self)@.take(mid as int));
            return;
        }
        let ghost b0 = self.buf@;
        let ghost h = self.head as int;
        let ghost n = N as int;
        let ghost l = self.len as int;
        let ghost m = mid as int;
        let dst = self.to_physical_idx(self.len);
        let src = self.head;
        self.wrap_copy(src, dst, mid);
        self.head = self.to_physical_idx(mid);
        proof {
            let t = if l < n { l } else { 0 };
            assert(phys(h, l, n) == phys(h, t, n));
            assert(phys(h, 0, n) == h);
            lemma_ring_move_rel(b0, h, 0, t, m, n);
            lemma_rebase(h, m, n);
            let hn = self.head as int;
            assert forall|o: int| 0 <= o < n implies #[trigger] self.buf@[phys(hn, o, n)] == self.buf@[phys(h, phys(m, o, n), n)] by {
            }
            assert forall|o: int| 0 <= o < n implies (#[trigger] self.buf@[phys(hn, o, n)] is Some
                <==> o < self.len) by {
                let x = phys(m, o, n);
                assert(self.buf@[phys(hn, o, n)] == self.buf@[phys(h, x, n)]);
            }
            assert forall|o: int| 0 <= o < self.len implies #[trigger] self.buf@[phys(hn, o, n)]
                == old(self).buf@[phys(h, if o < l - m { o + m } else { o + m - l }, n)] by {
                let x = phys(m, o, n);
                assert(self.buf@[phys(hn, o, n)] == self.buf@[phys(h, x, n)]);
            }
        }
        assert(self@ =~= old(self)@.skip(mid as int) + old(self)@.take(mid as int));
    }

    /// Moves the last `k` elements in front of the first one (`2 * k <= len`).
    fn rotate_right_inner(&mut self, k: usize)
        requires
            old(self).wf(),
            2 * k <= old(self)@.len(),
        ensures
            final(self).wf(),
            final(self)@ == old(self)@.skip(old(self)@.len() - k) + old(self)@.take(
                old(self)@.len() - k,
            ),
            final(self).physical_head() == phys(old(self).physical_head(), N - k, N as int),
    {
        if k == 0 {
            assert(self@ =~= old(self)@.skip(old(self)@.len() - k) + old(self)@.take(
                old(self)@.len() - k,
            ));
            return;
        }
        let ghost b0 = self.buf@;
        let ghost h = self.head as int;
        let ghost n = N as int;
        let ghost l = self.len as int;
        let ghost kk = k as int;
        let new_head = self.wrap_sub(self.head, k);
        self.head = new_head;
        let src = self.to_physical_idx(self.len);
        self.wrap_copy(src, new_head, k);
        proof {
            let hn = new_head as int;
            assert(phys(hn, l, n) == phys(h, l - kk, n));
            lemma_ring_move_rel(b0, h, l - kk, n - kk, kk, n);
            lemma_rebase(h, n - kk, n);
            assert forall|o: int| 0 <= o < n implies (#[trigger] self.buf@[phys(hn, o, n)] is Some
                <==> o < self.len) by {
                let x = phys(n - kk, o, n);
                assert(self.buf@[phys(hn, o, n)] == self.buf@[phys(h, x, n)]);
            }
            assert forall|o: int| 0 <= o < self.len implies #[trigger] self.buf@[phys(hn, o, n)]
                == old(self).buf@[phys(h, if o < kk { o + l - kk } else { o - kk }, n)] by {
                let x = phys(n - kk, o, n);
                assert(self.buf@[phys(hn, o, n)] == self.buf@[phys(h, x, n)]);
            }
        }
        assert(self@ =~= old(self)@.skip(old(self)@.len() - k) + old(self)@.take(
            old(self)@.len() - k,
        ));
    }

    /// Rotates the deque `n` places to the left: element `n` becomes the front.
    ///
    /// `n` must not exceed the length; `n == len` is a no-op rotation.
    pub fn rotate_left(&mut self, n: usize)
        requires
            old(self).wf(),
            n <= old(self)@.len(),
        ensures
            final(self).wf(),
            final(self)@ == old(self)@.skip(n as int) + old(self)@.take(n as int),
            final(self).physical_head() == rotate_left_head(old(self).physical_head(), n as int, old(self)@.len() as int, N as int),
    {
        let k = self.len - n;
        if n <= k {
            self.rotate_left_inner(n);
        } else {
            self.rotate_right_inner(k);
        }
    }

    /// Rotates the deque `n` places to the right: the front element moves to index `n`.
    ///
    /// `n` must not exceed the length; `n == len` is a no-op rotation.
    pub fn rotate_right(&mut self, n: usize)
        requires
            old(self).wf(),
            n <= old(self)@.len(),
        ensures
            final(self).wf(),
            final(self)@ == old(self)@.skip(old(self)@.len() - n) + old(self)@.take(
                old(self)@.len() - n,
            ),
            final(self).physical_head() == rotate_right_head(old(self).physical_head(), n as int, old(self)@.len() as int, N as int),
    {
        let k = self.len - n;
        if n <= k {
            self.rotate_right_inner(n);
        } else {
            self.rotate_left_inner(k);
        }
    }

    /// Moves `len` slots from `src` to `dst` where neither range wraps.
    fn copy(&mut self, src: usize, dst: usize, len: usize)
        requires
            N <= isize::MAX,
            old(self).buf@.len() == N,
            src + len <= N,
            dst + len <= N,
        ensures
            final(self).buf@.len() == N,
            forall|p: int|
                0 <= p < N ==> #[trigger] final(self).buf@[p] == if dst <= p < dst + len {
                    old(self).buf@[src + p - dst]
                } else if src <= p < src + len {
                    None
                } else {
                    old(self).buf@[p]
                },
            final(self).head == old(self).head,
            final(self).len == old(self).len,
    {
        if len == 0 {
            return;
        }
        proof {
            lemma_ring_move_flat(self.buf@, src as int, dst as int, len as int, N as int);
        }
        self.wrap_copy(src, dst, len);
    }

    /// A buffer holding the old contents as one run starting at `self.head` is well formed
    /// and shows the same elements.
    proof fn lemma_flat_layout(&self, b0: Seq<Option<T>>, h: int)
        requires
            self.head_ok(),
            self.buf@.len() == N,
            self.len <= N,
            self.head + self.len <= N,
            0 <= h < N,
            b0.len() == N,
            forall|o: int| 0 <= o < N ==> (#[trigger] b0[phys(h, o, N as int)] is Some <==> o < self.len),
            forall|p: int|
                0 <= p < N ==> #[trigger] self.buf@[p] == if self.head <= p < self.head + self.len {
                    b0[phys(h, p - self.head, N as int)]
                } else {
                    None
                },
        ensures
            self.wf(),
            forall|k: int| 0 <= k < self.len ==> #[trigger] self.buf@[phys(self.head as int, k, N as int)] == b0[phys(h, k, N as int)],
    {
        let n = N as int;
        let hn = self.head as int;
        assert forall|o: int| 0 <= o < N implies (#[trigger] self.buf@[phys(hn, o, n)] is Some
            <==> o < self.len) by {
            lemma_phys_dist(hn, o, n);
        }
    }

    /// Whether the elements occupy one run of slots that does not wrap around.
    fn is_contiguous(&self) -> (r: bool)
        requires
            self.wf(),
        ensures
            r == (self.head + self@.len() <= N),
    {
        self.head <= N - self.len
    }

    /// Rearranges the storage so that the elements occupy one run of slots that does not
    /// wrap around, without changing their order.
    #[verifier::rlimit(40)]
    fn rearrange_contiguous(&mut self)
        requires
            old(self).wf(),
        ensures
            final(self).wf(),
            final(self)@ == old(self)@,
            final(self).physical_head() == contiguous_head(old(self).physical_head(), old(self)@.len() as int, N as int),
            final(self).physical_head() + final(self)@.len() <= N,
    {
        if self.is_contiguous() {
            return;
        }
        let ghost b0 = self.buf@;
        let ghost h0 = self.head as int;
        let ghost n = N as int;
        let head = self.head;
        let len = self.len;
        let cap = N;
        let free = cap - len;
        let head_len = cap - head;
        let tail = len - head_len;
        let tail_len = tail;
        proof {
            assert forall|p: int| 0 <= p < n implies (#[trigger] b0[p] is Some <==> ring_dist(p, h0, n) < len) by {
                lemma_dist_phys(h0, p, n);
            }
        }
        if free >= head_len {
            self.copy(0, head_len, tail_len);
            self.copy(head, 0, head_len);
            self.head = 0;
        } else if free >= tail_len {
            self.copy(head, tail, head_len);
            self.copy(0, tail + head_len, tail_len);
            self.head = tail;
        } else if head_len > tail_len {
            if free != 0 {
                self.copy(0, free, tail_len);
            }
            rotate_slots_left(&mut self.buf, free, cap, tail_len);
            self.head = free;
        } else {
            if free != 0 {
                self.copy(head, tail_len, head_len);
            }
            rotate_slots_left(&mut self.buf, 0, len, tail_len);
            self.head = 0;
        }
        proof {
            self.lemma_flat_layout(b0, h0);
        }
        assert(self@ =~= old(self)@);
    }

    /// Rearranges the storage so that the elements occupy one run of slots that does not
    /// wrap around, without changing their order, and returns mutable references to all of
    /// them, front to back. Whatever is written through the references is what the deque
    /// holds once the borrow ends.
    ///
    /// Afterwards `as_slices` returns all elements in its first slice.
    pub fn make_contiguous(&mut self) -> (r: Vec<&mut T>)
        requires
            old(self).wf(),
        ensures
            final(self).wf(),
            r@.len() == old(self)@.len(),
            forall|i: int| 0 <= i < r@.len() ==> *#[trigger] r@[i] == old(self)@[i],
            final(self)@ == Seq::new(r@.len(), |i: int| *final(r@[i])),
            final(self).physical_head() == contiguous_head(old(self).physical_head(), old(self)@.len() as int, N as int),
            final(self).physical_head() + final(self)@.len() <= N,
    {
        self.rearrange_contiguous();
        let ghost mid = *self;
        let (front, back) = self.as_mut_slices();
        proof {
            mid.lemma_wf_bounds();
            assert(back@.len() == 0);
            assert(Seq::new(front@.len(), |i: int| *final(front@[i])) + Seq::new(back@.len(), |i: int| *final(back@[i]))
                =~= Seq::new(front@.len(), |i: int| *final(front@[i])));
        }
        front
    }

    /// Provides a mutable reference to the element at the given index (0 is the front).
    pub fn get_mut(&mut self, index: usize) -> (r: Option<&mut T>)
        requires
            old(self).wf(),
        ensures
            final(self).wf(),
            final(self).physical_head() == old(self).physical_head(),
            match r {
                Some(x) => index < old(self)@.len() && *x == old(self)@[index as int] && final(self)@
                    == old(self)@.update(index as int, *final(x)),
                None => index >= old(self)@.len() && final(self)@ == old(self)@,
            },
    {
        if index < self.len {
            let idx = self.to_physical_idx(index);
            let r = self.buf[idx].as_mut();
            r
        } else {
            None
        }
    }

    /// Provides a mutable reference to the front element, or `None` if the deque is empty.
    pub fn front_mut(&mut self) -> (r: Option<&mut T>)
        requires
            old(self).wf(),
        ensures
            final(self).wf(),
            final(self).physical_head() == old(self).physical_head(),
            match r {
                Some(x) => old(self)@.len() > 0 && *x == old(self)@[0] && final(self)@ == old(
                    self,
                )@.update(0, *final(x)),
                None => old(self)@.len() == 0 && final(self)@ == old(self)@,
            },
    {
        self.get_mut(0)
    }

    /// Provides a mutable reference to the back element, or `None` if the deque is empty.
    pub fn back_mut(&mut self) -> (r: Option<&mut T>)
        requires
            old(self).wf(),
        ensures
            final(self).wf(),
            final(self).physical_head() == old(self).physical_head(),
            match r {
                Some(x) => old(self)@.len() > 0 && *x == old(self)@.last() && final(self)@ == old(
                    self,
                )@.update(old(self)@.len() - 1, *final(x)),
                None => old(self)@.len() == 0 && final(self)@ == old(self)@,
            },
    {
        if self.len == 0 {
            None
        } else {
            let i = self.len - 1;
            self.get_mut(i)
        }
    }

    /// Empties the slots of the logical positions `from..to` (offsets from the head).
    fn clear_slots(&mut self, from: usize, to: usize)
        requires
            old(self).head_ok(),
            old(self).buf@.len() == N,
            from <= to <= N,
        ensures
            final(self).buf@.len() == N,
            final(self).head == old(self).head,
            final(self).len == old(self).len,
            forall|o: int|
                0 <= o < N ==> #[trigger] final(self).buf@[phys(old(self).head as int, o, N as int)]
                    == if from <= o < to {
                    None
                } else {
                    old(self).buf@[phys(old(self).head as int, o, N as int)]
                },
    {
        let ghost b0 = self.buf@;
        let ghost h = self.head as int;
        let ghost n = N as int;
        let mut i = from;
        while i < to
            invariant
                self.head_ok(),
                self.head == h,
                n == N,
                b0.len() == N,
                self.buf@.len() == N,
                self.len == old(self).len,
                from <= i <= to <= N,
                forall|o: int|
                    0 <= o < N ==> #[trigger] self.buf@[phys(h, o, n)] == if from <= o < i {
                        None
                    } else {
                        b0[phys(h, o, n)]
                    },
            decreases to - i,
        {
            let slot = self.to_physical_idx(i);
            self.buf.set(slot, None);
            proof {
                assert forall|o: int| 0 <= o < N implies #[trigger] self.buf@[phys(h, o, n)] == if from
                    <= o < i + 1 {
                    None
                } else {
                    b0[phys(h, o, n)]
                } by {
                    if o != i {
                        lemma_phys_inj(h, o, i as int, n);
                    }
                }
            }
            i = i + 1;
        }
    }

    /// Shortens the deque, keeping the first `len` elements and dropping the rest.
    ///
    /// If `len` is greater or equal to the current length, this has no effect.
    pub fn truncate(&mut self, len: usize)
        requires
            old(self).wf(),
        ensures
            final(self).wf(),
            final(self).physical_head() == old(self).physical_head(),
            len >= old(self)@.len() ==> final(self)@ == old(self)@,
            len < old(self)@.len() ==> final(self)@ == old(self)@.take(len as int),
    {
        if len >= self.len {
            return;
        }
        let old_len = self.len;
        self.clear_slots(len, old_len);
        self.len = len;
        assert(self@ =~= old(self)@.take(len as int));
    }

    /// Shortens the deque, keeping the last `len` elements and dropping the rest.
    ///
    /// If `len` is greater or equal to the current length, this has no effect.
    pub fn truncate_front(&mut self, len: usize)
        requires
            old(self).wf(),
        ensures
            final(self).wf(),
            len >= old(self)@.len() ==> final(self)@ == old(self)@ && final(self).physical_head()
                == old(self).physical_head(),
            len < old(self)@.len() ==> final(self)@ == old(self)@.skip(old(self)@.len() - len)
                && final(self).physical_head() == phys(
                old(self).physical_head(),
                old(self)@.len() - len,
                N as int,
            ),
    {
        if len >= self.len {
            return;
        }
        let drop = self.len - len;
        self.clear_slots(0, drop);
        let new_head = self.to_physical_idx(drop);
        proof {
            let h = self.head as int;
            let n = N as int;
            let a = if drop < n { drop as int } else { 0 };
            assert(phys(h, drop as int, n) == phys(h, a, n));
            lemma_rebase(h, a, n);
            assert forall|o: int| 0 <= o < N implies (#[trigger] self.buf@[phys(new_head as int, o, n)] is Some
                <==> o < len) by {
                assert(self.buf@[phys(new_head as int, o, n)] == self.buf@[phys(h, phys(a, o, n), n)]);
            }
            assert forall|o: int| 0 <= o < len implies #[trigger] self.buf@[phys(new_head as int, o, n)]
                == old(self).buf@[phys(h, o + drop, n)] by {
                assert(self.buf@[phys(new_head as int, o, n)] == self.buf@[phys(h, phys(a, o, n), n)]);
            }
        }
        self.head = new_head;
        self.len = len;
        assert(self@ =~= old(self)@.skip(old(self)@.len() - len));
    }

    /// Removes all elements.
    pub fn clear(&mut self)
        requires
            old(self).wf(),
        ensures
            final(self).wf(),
            final(self)@ == Seq::<T>::empty(),
            final(self).physical_head() == 0,
    {
        self.truncate(0);
        proof {
            assert(self@.len() == 0);
            assert(self@.len() == self.len);
            assert forall|o: int| 0 <= o < N implies #[trigger] self.buf@[phys(0, o, N as int)] is None by {
                lemma_dist_phys(self.head as int, o, N as int);
                assert(self.buf@[phys(self.head as int, ring_dist(o, self.head as int, N as int), N as int)] is None);
            }
        }
        self.head = 0;
        assert(self@ =~= Seq::<T>::empty());
    }

    /// Swaps the elements at indices `i` and `j` (which may be equal).
    pub fn swap(&mut self, i: usize, j: usize)
        requires
            old(self).wf(),
            i < old(self)@.len(),
            j < old(self)@.len(),
        ensures
            final(self).wf(),
            final(self).physical_head() == old(self).physical_head(),
            final(self)@ == old(self)@.update(i as int, old(self)@[j as int]).update(
                j as int,
                old(self)@[i as int],
            ),
    {
        let ri = self.to_physical_idx(i);
        let rj = self.to_physical_idx(j);
        swap_slots(&mut self.buf, ri, rj);
        proof {
            let h = self.head as int;
            let n = N as int;
            assert forall|o: int| 0 <= o < N implies #[trigger] self.buf@[phys(h, o, n)] == if o == i {
                old(self).buf@[phys(h, j as int, n)]
            } else if o == j {
                old(self).buf@[phys(h, i as int, n)]
            } else {
                old(self).buf@[phys(h, o, n)]
            } by {
                if o != i {
                    lemma_phys_inj(h, o, i as int, n);
                }
                if o != j {
                    lemma_phys_inj(h, o, j as int, n);
                }
            }
        }
        assert(self@ =~= old(self)@.update(i as int, old(self)@[j as int]).update(
            j as int,
            old(self)@[i as int],
        ));
    }

    /// Removes the element at `index` and returns it, replacing it with the front element.
    ///
    /// Returns `None` if `index` is out of bounds.
    pub fn swap_remove_front(&mut self, index: usize) -> (r: Option<T>)
        requires
            old(self).wf(),
        ensures
            final(self).wf(),
            index >= old(self)@.len() ==> r is None && final(self)@ == old(self)@
                && final(self).physical_head() == old(self).physical_head(),
            index < old(self)@.len() ==> r == Some(old(self)@[index as int]) && final(self)@
                == old(self)@.update(index as int, old(self)@[0]).drop_first()
                && final(self).physical_head() == phys(old(self).physical_head(), 1, N as int),
    {
        let length = self.len;
        if index < length && index != 0 {
            self.swap(index, 0);
        } else if index >= length {
            return None;
        }
        assert(self@ =~= old(self)@.update(index as int, old(self)@[0]).update(0, old(self)@[index as int]));
        let r = self.pop_front();
        assert(self@ =~= old(self)@.update(index as int, old(self)@[0]).drop_first());
        r
    }

    /// Removes the element at `index` and returns it, replacing it with the back element.
    ///
    /// Returns `None` if `index` is out of bounds.
    pub fn swap_remove_back(&mut self, index: usize) -> (r: Option<T>)
        requires
            old(self).wf(),
        ensures
            final(self).wf(),
            final(self).physical_head() == old(self).physical_head(),
            index >= old(self)@.len() ==> r is None && final(self)@ == old(self)@,
            index < old(self)@.len() ==> r == Some(old(self)@[index as int]) && final(self)@
                == old(self)@.update(index as int, old(self)@.last()).drop_last(),
    {
        let length = self.len;
        if length > 0 && index < length - 1 {
            self.swap(index, length - 1);
        } else if index >= length {
            return None;
        }
        let r = self.pop_back();
        assert(self@ =~= old(self)@.update(index as int, old(self)@.last()).drop_last());
        r
    }

    /// Physical ranges of the slots that hold the logical positions `start..end`: the first
    /// range runs from the slot of `start` towards the end of the buffer, the second (empty
    /// unless the positions wrap around) continues at slot 0.
    fn slice_ranges(&self, start: usize, end: usize) -> (r: (Range<usize>, Range<usize>))
        requires
            self.wf(),
            start <= end <= self@.len(),
        ensures
            r.0.start <= r.0.end <= N,
            r.1.start == 0,
            r.1.end <= N,
            (r.0.end - r.0.start) + r.1.end == end - start,
            end - start > 0 ==> r.0.start == phys(self.physical_head(), start as int, N as int),
            r.0.end - r.0.start == first_run_len(phys(self.physical_head(), start as int, N as int), end - start, N as int),
            forall|j: int| 0 <= j < r.0.end - r.0.start ==> r.0.start + j == #[trigger] phys(self.physical_head(), start + j, N as int),
            forall|j: int| 0 <= j < r.1.end ==> j == #[trigger] phys(self.physical_head(), start + (r.0.end - r.0.start) + j, N as int),
    {
        let len = end - start;
        if len == 0 {
            (Range { start: 0, end: 0 }, Range { start: 0, end: 0 })
        } else {
            let wrapped_start = self.to_physical_idx(start);
            let head_len = N - wrapped_start;
            if head_len >= len {
                (Range { start: wrapped_start, end: wrapped_start + len }, Range { start: 0, end: 0 })
            } else {
                let tail_len = len - head_len;
                (Range { start: wrapped_start, end: N }, Range { start: 0, end: tail_len })
            }
        }
    }

    /// Physical ranges of the slots that hold all elements.
    fn slice_full_ranges(&self) -> (r: (Range<usize>, Range<usize>))
        requires
            self.wf(),
        ensures
            r.0.start <= r.0.end <= N,
            r.1.start == 0,
            r.1.end <= N,
            (r.0.end - r.0.start) + r.1.end == self@.len(),
            self@.len() > 0 ==> r.0.start == self.physical_head(),
            r.0.end - r.0.start == first_run_len(self.physical_head(), self@.len() as int, N as int),
            forall|j: int| 0 <= j < r.0.end - r.0.start ==> r.0.start + j == #[trigger] phys(self.physical_head(), j, N as int),
            forall|j: int| 0 <= j < r.1.end ==> j == #[trigger] phys(self.physical_head(), (r.0.end - r.0.start) + j, N as int),
    {
        self.slice_ranges(0, self.len)
    }

    /// Number of elements in the first run of slots (the first slice of `as_slices`).
    pub(crate) fn front_run_len(&self) -> (r: usize)
        requires
            self.wf(),
        ensures
            r == first_run_len(self.physical_head(), self@.len() as int, N as int),
            r <= self@.len(),
            self@.len() > 0 ==> r > 0,
    {
        let (a, _) = self.slice_full_ranges();
        a.end - a.start
    }

    /// An iterator over the logical positions `start..end`.
    fn iter_positions(&self, start: usize, end: usize) -> (r: Iter<'_, T>)
        requires
            self.wf(),
            start <= end <= self@.len(),
        ensures
            r.wf(),
            r@ == self@.subrange(start as int, end as int),
            r.front().len() == first_run_len(phys(self.physical_head(), start as int, N as int), end - start, N as int),
            r.front() + r.back() == r@,
    {
        let (a, b) = self.slice_ranges(start, end);
        let s = self.buf.as_slice();
        let i1 = slice_subrange(s, a.start, a.end);
        let i2 = slice_subrange(s, b.start, b.end);
        proof {
            let h = self.head as int;
            let n = N as int;
            let la = a.end - a.start;
            assert forall|j: int| 0 <= j < i1@.len() implies #[trigger] i1@[j] == self.buf@[phys(h, start + j, n)] by {
                assert(phys(h, start + j, n) == a.start + j);
            }
            assert forall|j: int| 0 <= j < i2@.len() implies #[trigger] i2@[j] == self.buf@[phys(h, start + la + j, n)] by {
                assert(phys(h, start + la + j, n) == j);
            }
            assert(all_occupied(i1@));
            assert(all_occupied(i2@));
            assert(occupied_values(i1@) + occupied_values(i2@) =~= self@.subrange(start as int, end as int));
        }
        Iter::new(i1, i2)
    }

    /// Returns a front-to-back iterator.
    pub fn iter(&self) -> (r: Iter<'_, T>)
        requires
            self.wf(),
        ensures
            r.wf(),
            r@ == self@,
            r.front().len() == first_run_len(self.physical_head(), self@.len() as int, N as int),
    {
        let r = self.iter_positions(0, self.len);
        assert(self@.subrange(0, self@.len() as int) =~= self@);
        r
    }

    /// Returns an iterator over the elements in `range`.
    ///
    /// The range must lie within the deque: `start <= end <= len` once resolved.
    pub fn range(&self, r: IndexRange) -> (it: Iter<'_, T>)
        requires
            self.wf(),
            range_valid(r, self@.len() as int),
        ensures
            it.wf(),
            it@ == self@.subrange(start_index(r.start), end_index(r.end, self@.len() as int)),
            it.front().len() == first_run_len(
                phys(self.physical_head(), start_index(r.start), N as int),
                it@.len() as int,
                N as int,
            ),
    {
        let Range { start, end } = range(r, self.len);
        self.iter_positions(start, end)
    }

    /// Returns the elements as the two runs of slots they occupy, front to back.
    ///
    /// The first run starts at the front element and extends at most to the end of the
    /// buffer; the second holds the rest.
    pub fn as_slices(&self) -> (r: (Vec<&T>, Vec<&T>))
        requires
            self.wf(),
        ensures
            r.0@.len() == first_run_len(self.physical_head(), self@.len() as int, N as int),
            r.0@.len() + r.1@.len() == self@.len(),
            forall|i: int| 0 <= i < r.0@.len() ==> *#[trigger] r.0@[i] == self@[i],
            forall|i: int| 0 <= i < r.1@.len() ==> *#[trigger] r.1@[i] == self@[r.0@.len() + i],
    {
        let it = self.iter();
        proof {
            it.lemma_view_split();
        }
        it.as_slices()
    }

    /// Mutable references to the elements at the logical positions `start..end`, as the two
    /// runs of slots they occupy. Whatever is written through the references is what the
    /// deque holds at those positions once the borrow ends; the layout does not change.
    #[verifier::rlimit(50)]
    #[verifier::spinoff_prover]
    fn mut_runs(&mut self, start: usize, end: usize) -> (r: (Vec<&mut T>, Vec<&mut T>))
        requires
            old(self).wf(),
            start <= end <= old(self)@.len(),
        ensures
            r.0@.len() == first_run_len(phys(old(self).physical_head(), start as int, N as int), end - start, N as int),
            r.0@.len() + r.1@.len() == end - start,
            forall|i: int| 0 <= i < r.0@.len() ==> *#[trigger] r.0@[i] == old(self)@[start + i],
            forall|i: int| 0 <= i < r.1@.len() ==> *#[trigger] r.1@[i] == old(self)@[start + r.0@.len() + i],
            final(self).wf(),
            final(self).physical_head() == old(self).physical_head(),
            final(self)@ == old(self)@.take(start as int) + Seq::new(r.0@.len(), |i: int| *final(r.0@[i]))
                + Seq::new(r.1@.len(), |i: int| *final(r.1@[i])) + old(self)@.skip(end as int),
    {
        let (a, b) = self.slice_ranges(start, end);
        let ghost b0 = self.buf@;
        let ghost h = self.head as int;
        let ghost n = N as int;
        let ghost la = a.end - a.start;
        let s = self.buf.as_mut_slice();
        let (lo, hi) = s.split_at_mut(a.start);
        let (i1, rest1) = hi.split_at_mut(a.end - a.start);
        let (i2, rest2) = lo.split_at_mut(b.end);
        proof {
            assert forall|j: int| 0 <= j < i1@.len() implies #[trigger] i1@[j] == b0[phys(h, start + j, n)] by {
                assert(phys(h, start + j, n) == a.start + j);
            }
            assert forall|j: int| 0 <= j < i2@.len() implies #[trigger] i2@[j] == b0[phys(h, start + la + j, n)] by {
                assert(phys(h, start + la + j, n) == j);
            }
        }
        let r1 = mut_refs_of(i1);
        let r2 = mut_refs_of(i2);
        proof {
            assert(final(rest1)@ == rest1@);
            assert(final(rest2)@ == rest2@);
        }
        (r1, r2)
    }

    /// A mutable iterator over the logical positions `start..end`.
    #[verifier::spinoff_prover]
    fn iter_mut_positions(&mut self, start: usize, end: usize) -> (r: IterMut<'_, T>)
        requires
            old(self).wf(),
            start <= end <= old(self)@.len(),
        ensures
            r.wf(),
            r@ == old(self)@.subrange(start as int, end as int),
            r.front().len() == first_run_len(phys(old(self).physical_head(), start as int, N as int), end - start, N as int),
            final(self).wf(),
            final(self).physical_head() == old(self).physical_head(),
            final(self)@ == old(self)@.take(start as int) + Seq::new((end - start) as nat, |i: int| *final(r.reference(i)))
                + old(self)@.skip(end as int),
    {
        let (a, b) = self.mut_runs(start, end);
        let ghost ga = a@;
        let ghost gb = b@;
        let it = IterMut::new(a, b);
        proof {
            let la = ga.len();
            it.lemma_view_reference();
            assert(it@ =~= old(self)@.subrange(start as int, end as int)) by {
                assert forall|i: int| la <= i < it@.len() implies it@[i] == old(self)@.subrange(start as int, end as int)[i] by {
                    assert(it.reference(i) == it.reference(la + (i - la)));
                }
            }
            assert(Seq::new(ga.len(), |i: int| *final(ga[i])) + Seq::new(gb.len(), |i: int| *final(gb[i]))
                =~= Seq::new((end - start) as nat, |i: int| *final(it.reference(i)))) by {
                assert forall|i: int| la <= i < end - start implies *final(it.reference(i)) == *final(gb[i - la]) by {
                    assert(it.reference(i) == it.reference(la + (i - la)));
                }
            }
        }
        it
    }

    /// Returns a front-to-back iterator that yields mutable references.
    ///
    /// Whatever is written through the references it yields, or that it still holds when it
    /// is dropped, is what the deque holds once the borrow ends.
    pub fn iter_mut(&mut self) -> (r: IterMut<'_, T>)
        requires
            old(self).wf(),
        ensures
            r.wf(),
            r@ == old(self)@,
            r.front().len() == first_run_len(old(self).physical_head(), old(self)@.len() as int, N as int),
            final(self).wf(),
            final(self).physical_head() == old(self).physical_head(),
            final(self)@ == Seq::new(old(self)@.len(), |i: int| *final(r.reference(i))),
    {
        let len = self.len;
        let r = self.iter_mut_positions(0, len);
        assert(old(self)@.subrange(0, old(self)@.len() as int) =~= old(self)@);
        assert(old(self)@.take(0) + Seq::new(old(self)@.len(), |i: int| *final(r.reference(i))) + old(self)@.skip(
            len as int,
        ) =~= Seq::new(old(self)@.len(), |i: int| *final(r.reference(i))));
        r
    }

    /// Returns an iterator over the elements in `range` that yields mutable references.
    ///
    /// The range must lie within the deque: `start <= end <= len` once resolved. Whatever
    /// is written through the references is what the deque holds at those positions once
    /// the borrow ends.
    pub fn range_mut(&mut self, r: IndexRange) -> (it: IterMut<'_, T>)
        requires
            old(self).wf(),
            range_valid(r, old(self)@.len() as int),
        ensures
            it.wf(),
            it@ == old(self)@.subrange(start_index(r.start), end_index(r.end, old(self)@.len() as int)),
            it.front().len() == first_run_len(
                phys(old(self).physical_head(), start_index(r.start), N as int),
                it@.len() as int,
                N as int,
            ),
            final(self).wf(),
            final(self).physical_head() == old(self).physical_head(),
            final(self)@ == old(self)@.take(start_index(r.start)) + Seq::new(
                it@.len(),
                |i: int| *final(it.reference(i)),
            ) + old(self)@.skip(end_index(r.end, old(self)@.len() as int)),
    {
        let Range { start, end } = range(r, self.len);
        self.iter_mut_positions(start, end)
    }

    /// Returns mutable references to the elements as the two runs of slots they occupy.
    ///
    /// Whatever is written through the references is what the deque holds once the borrow
    /// ends; the layout does not change.
    pub fn as_mut_slices(&mut self) -> (r: (Vec<&mut T>, Vec<&mut T>))
        requires
            old(self).wf(),
        ensures
            r.0@.len() == first_run_len(old(self).physical_head(), old(self)@.len() as int, N as int),
            r.0@.len() + r.1@.len() == old(self)@.len(),
            forall|i: int| 0 <= i < r.0@.len() ==> *#[trigger] r.0@[i] == old(self)@[i],
            forall|i: int| 0 <= i < r.1@.len() ==> *#[trigger] r.1@[i] == old(self)@[r.0@.len() + i],
            final(self).wf(),
            final(self).physical_head() == old(self).physical_head(),
            final(self)@ == Seq::new(r.0@.len(), |i: int| *final(r.0@[i])) + Seq::new(
                r.1@.len(),
                |i: int| *final(r.1@[i]),
            ),
    {
        let len = self.len;
        let r = self.mut_runs(0, len);
        proof {
            assert(phys(old(self).physical_head(), 0, N as int) == old(self).physical_head());
            assert(old(self)@.take(0) + Seq::new(r.0@.len(), |i: int| *final(r.0@[i])) + Seq::new(
                r.1@.len(),
                |i: int| *final(r.1@[i]),
            ) + old(self)@.skip(len as int) =~= Seq::new(r.0@.len(), |i: int| *final(r.0@[i])) + Seq::new(
                r.1@.len(),
                |i: int| *final(r.1@[i]),
            ));
        }
        r
    }
}


impl<T, const N: usize> std::ops::Index<usize> for ArrayDeque<T, N> {
    type Output = T;

    /// The element at `index` (counted from the front); `index` must be within the deque.
    fn index(&self, index: usize) -> (r: &T)
        ensures
            *r == self@[index as int],
    {
        self.get(index).unwrap()
    }
}

impl<T, const N: usize> vstd::std_specs::core::IndexSpecImpl<usize> for ArrayDeque<T, N> {
    open spec fn index_req(&self, index: &usize) -> bool {
        self.wf() && *index < self@.len()
    }
}

} // verus!