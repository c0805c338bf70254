//! Equality between deques and membership tests.
use vstd::prelude::*;
use vstd::std_specs::cmp::{PartialEqSpec, PartialEqSpecImpl};
use super::ArrayDeque;
use crate::ring::phys;

verus! {

/// Two slots compare equal when both hold elements that compare equal.
pub open spec fn slot_eq<T: PartialEq>(a: Option<T>, b: Option<T>) -> bool {
    match (a, b) {
        (Some(x), Some(y)) => x.eq_spec(&y),
        _ => false,
    }
}

impl<T, const N: usize> ArrayDeque<T, N> {
    /// What `==` computes: equal lengths and pairwise equal elements, front to back.
    pub closed spec fn deque_eq<const M: usize>(&self, other: &ArrayDeque<T, M>) -> bool
        where T: PartialEq,
    {
        &&& self.len == other.len
        &&& self.shape_ok()
        &&& other.shape_ok()
        &&& forall|k: int|
            0 <= k < self.len ==> #[trigger] slot_eq(
                self.buf@[phys(self.head as int, k, N as int)],
                other.buf@[phys(other.head as int, k, M as int)],
            )
    }

    /// On well-formed deques, `==` holds exactly when the lengths agree and the elements
    /// agree pairwise.
    pub proof fn lemma_eq_iff_elements<const M: usize>(&self, other: &ArrayDeque<T, M>)
        where T: PartialEq,
        requires
            self.wf(),
            other.wf(),
        ensures
            self.deque_eq(other) <==> (self@.len() == other@.len() && forall|i: int|
                0 <= i < self@.len() ==> #[trigger] self@[i].eq_spec(&other@[i])),
    {
        if self@.len() == other@.len() {
            if forall|i: int| 0 <= i < self@.len() ==> #[trigger] self@[i].eq_spec(&other@[i]) {
                assert forall|k: int| 0 <= k < self.len implies #[trigger] slot_eq(
                    self.buf@[phys(self.head as int, k, N as int)],
                    other.buf@[phys(other.head as int, k, M as int)],
                ) by {
                    assert(self@[k].eq_spec(&other@[k]));
                }
            }
            if self.deque_eq(other) {
                assert forall|i: int| 0 <= i < self@.len() implies #[trigger] self@[i].eq_spec(&other@[i]) by {
                    assert(slot_eq(
                        self.buf@[phys(self.head as int, i, N as int)],
                        other.buf@[phys(other.head as int, i, M as int)],
                    ));
                }
            }
        }
    }

    /// Returns `true` if the deque contains an element equal to `x`.
    pub fn contains(&self, x: &T) -> (r: bool)
        where T: PartialEq,
        requires
            self.wf(),
        ensures
            T::obeys_eq_spec() ==> (r <==> exists|i: int| 0 <= i < self@.len() && #[trigger] self@[i].eq_spec(x)),
    {
        let mut k: usize = 0;
        while k < self.len
            invariant
                self.wf(),
                k <= self.len,
                T::obeys_eq_spec() ==> forall|j: int| 0 <= j < k ==> !#[trigger] self@[j].eq_spec(x),
            decreases self.len - k,
        {
            let e = self.get(k).unwrap();
            if e.eq(x) {
                return true;
            }
            k = k + 1;
        }
        false
    }
}

impl<T: PartialEq, const N: usize, const M: usize> PartialEq<ArrayDeque<T, M>> for ArrayDeque<T, N> {
    fn eq(&self, other: &ArrayDeque<T, M>) -> (r: bool) {
        if self.len != other.len {
            return false;
        }
        if !self.check_shape() || !other.check_shape() {
            return false;
        }
        let mut k: usize = 0;
        while k < self.len
            invariant
                self.len == other.len,
                self.shape_ok(),
                other.shape_ok(),
                k <= self.len,
                T::obeys_eq_spec() ==> forall|j: int|
                    0 <= j < k ==> #[trigger] slot_eq(
                        self.buf@[phys(self.head as int, j, N as int)],
                        other.buf@[phys(other.head as int, j, M as int)],
                    ),
            decreases self.len - k,
        {
            let a = self.to_physical_idx(k);
            let b = other.to_physical_idx(k);
            let ghost sk = slot_eq(
                self.buf@[phys(self.head as int, k as int, N as int)],
                other.buf@[phys(other.head as int, k as int, M as int)],
            );
            match (self.buf[a].as_ref(), other.buf[b].as_ref()) {
                (Some(x), Some(y)) => {
                    if !x.eq(y) {
                        assert(T::obeys_eq_spec() ==> !sk);
                        return false;
                    }
                },
                _ => {
                    assert(!sk);
                    return false;
                },
            }
            k = k + 1;
        }
        true
    }
}

impl<T: PartialEq, const N: usize, const M: usize> PartialEqSpecImpl<ArrayDeque<T, M>> for ArrayDeque<T, N> {
    open spec fn obeys_eq_spec() -> bool {
        T::obeys_eq_spec()
    }

    open spec fn eq_spec(&self, other: &ArrayDeque<T, M>) -> bool {
        self.deque_eq(other)
    }
}

impl<T: Eq, const N: usize> Eq for ArrayDeque<T, N> {
}

/// A slot compares equal to a value when it holds an element that compares equal to it.
pub open spec fn slot_matches<T: PartialEq<U>, U>(a: Option<T>, b: U) -> bool {
    match a {
        Some(x) => x.eq_spec(&b),
        None => false,
    }
}

impl<T, const N: usize> ArrayDeque<T, N> {
    /// What `==` against a sequence of other values computes: equal lengths and pairwise
    /// equal elements, front to back.
    pub closed spec fn seq_eq<U>(&self, other: Seq<U>) -> bool
        where T: PartialEq<U>,
    {
        &&& self.len == other.len()
        &&& self.shape_ok()
        &&& forall|k: int|
            0 <= k < self.len ==> #[trigger] slot_matches(self.buf@[phys(self.head as int, k, N as int)], other[k])
    }

    /// On a well-formed deque, `==` against a sequence holds exactly when the lengths agree
    /// and the elements agree pairwise.
    pub proof fn lemma_seq_eq_iff_elements<U>(&self, other: Seq<U>)
        where T: PartialEq<U>,
        requires
            self.wf(),
        ensures
            self.seq_eq(other) <==> (self@.len() == other.len() && forall|i: int|
                0 <= i < other.len() ==> #[trigger] self@[i].eq_spec(&other[i])),
    {
        if self@.len() == other.len() {
            if forall|i: int| 0 <= i < other.len() ==> #[trigger] self@[i].eq_spec(&other[i]) {
                assert forall|k: int| 0 <= k < self.len implies #[trigger] slot_matches(
                    self.buf@[phys(self.head as int, k, N as int)],
                    other[k],
                ) by {
                    assert(self@[k].eq_spec(&other[k]));
                }
            }
            if self.seq_eq(other) {
                assert forall|i: int| 0 <= i < other.len() implies #[trigger] self@[i].eq_spec(&other[i]) by {
                    assert(slot_matches(self.buf@[phys(self.head as int, i, N as int)], other[i]));
                }
            }
        }
    }

    /// Compares the elements, front to back, with those of `other`.
    fn eq_elements<U>(&self, other: &[U]) -> (r: bool)
        where T: PartialEq<U>,
        ensures
            <T as PartialEqSpec<U>>::obeys_eq_spec() ==> r == self.seq_eq(other@),
    {
        if self.len != other.len() {
            return false;
        }
        if !self.check_shape() {
            return false;
        }
        let mut k: usize = 0;
        while k < self.len
            invariant
                self.len == other@.len(),
                self.shape_ok(),
                k <= self.len,
                <T as PartialEqSpec<U>>::obeys_eq_spec() ==> forall|j: int|
                    0 <= j < k ==> #[trigger] slot_matches(self.buf@[phys(self.head as int, j, N as int)], other@[j]),
            decreases self.len - k,
        {
            let a = self.to_physical_idx(k);
            let ghost sk = slot_matches(self.buf@[phys(self.head as int, k as int, N as int)], other@[k as int]);
            match self.buf[a].as_ref() {
                Some(x) => {
                    if !x.eq(&other[k]) {
                        assert(<T as PartialEqSpec<U>>::obeys_eq_spec() ==> !sk);
                        return false;
                    }
                },
                None => {
                    assert(!sk);
                    return false;
                },
            }
            k = k + 1;
        }
        true
    }
}

impl<T: PartialEq<U>, U, const N: usize> PartialEq<Vec<U>> for ArrayDeque<T, N> {
    fn eq(&self, other: &Vec<U>) -> (r: bool) {
        self.eq_elements(other.as_slice())
    }
}

impl<T: PartialEq<U>, U, const N: usize> PartialEqSpecImpl<Vec<U>> for ArrayDeque<T, N> {
    open spec fn obeys_eq_spec() -> bool {
        <T as PartialEqSpec<U>>::obeys_eq_spec()
    }

    open spec fn eq_spec(&self, other: &Vec<U>) -> bool {
        self.seq_eq(other@)
    }
}

impl<const M: usize, T: PartialEq<U>, U, const N: usize> PartialEq<[U; M]> for ArrayDeque<T, N> {
    fn eq(&self, other: &[U; M]) -> (r: bool) {
        self.eq_elements(other.as_slice())
    }
}

impl<const M: usize, T: PartialEq<U>, U, const N: usize> PartialEqSpecImpl<[U; M]> for ArrayDeque<T, N> {
    open spec fn obeys_eq_spec() -> bool {
        <T as PartialEqSpec<U>>::obeys_eq_spec()
    }

    open spec fn eq_spec(&self, other: &[U; M]) -> bool {
        self.seq_eq(other@)
    }
}

impl<'a, const M: usize, T: PartialEq<U>, U, const N: usize> PartialEq<&'a [U; M]> for ArrayDeque<T, N> {
    fn eq(&self, other: &&'a [U; M]) -> (r: bool) {
        self.eq_elements((*other).as_slice())
    }
}

impl<'a, const M: usize, T: PartialEq<U>, U, const N: usize> PartialEqSpecImpl<&'a [U; M]> for ArrayDeque<T, N> {
    open spec fn obeys_eq_spec() -> bool {
        <T as PartialEqSpec<U>>::obeys_eq_spec()
    }

    open spec fn eq_spec(&self, other: &&'a [U; M]) -> bool {
        self.seq_eq((*other)@)
    }
}

impl<'a, const M: usize, T: PartialEq<U>, U, const N: usize> PartialEq<&'a mut [U; M]> for ArrayDeque<T, N> {
    fn eq(&self, other: &&'a mut [U; M]) -> (r: bool) {
        self.eq_elements((*other).as_slice())
    }
}

impl<'a, const M: usize, T: PartialEq<U>, U, const N: usize> PartialEqSpecImpl<&'a mut [U; M]> for ArrayDeque<T, N> {
    open spec fn obeys_eq_spec() -> bool {
        <T as PartialEqSpec<U>>::obeys_eq_spec()
    }

    open spec fn eq_spec(&self, other: &&'a mut [U; M]) -> bool {
        self.seq_eq((*other)@)
    }
}

impl<'a, T: PartialEq<U>, U, const N: usize> PartialEq<&'a [U]> for ArrayDeque<T, N> {
    fn eq(&self, other: &&'a [U]) -> (r: bool) {
        self.eq_elements(*other)
    }
}

impl<'a, T: PartialEq<U>, U, const N: usize> PartialEqSpecImpl<&'a [U]> for ArrayDeque<T, N> {
    open spec fn obeys_eq_spec() -> bool {
        <T as PartialEqSpec<U>>::obeys_eq_spec()
    }

    open spec fn eq_spec(&self, other: &&'a [U]) -> bool {
        self.seq_eq((*other)@)
    }
}

impl<'a, T: PartialEq<U>, U, const N: usize> PartialEq<&'a mut [U]> for ArrayDeque<T, N> {
    fn eq(&self, other: &&'a mut [U]) -> (r: bool) {
        self.eq_elements(&**other)
    }
}

impl<'a, T: PartialEq<U>, U, const N: usize> PartialEqSpecImpl<&'a mut [U]> for ArrayDeque<T, N> {
    open spec fn obeys_eq_spec() -> bool {
        <T as PartialEqSpec<U>>::obeys_eq_spec()
    }

    open spec fn eq_spec(&self, other: &&'a mut [U]) -> bool {
        self.seq_eq((*other)@)
    }
}

} // verus!
