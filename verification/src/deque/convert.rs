//! Building a deque from, and extending it with, the items of an iterator.
use vstd::prelude::*;
use super::ArrayDeque;
use std::collections::VecDeque;
use vstd::std_specs::iter::IteratorSpec;

verus! {

/// What filling `room` free slots from an iterator whose remaining items are `rem` leaves
/// behind: nothing if they all fit, else the first item that did not fit and the items
/// after it.
pub open spec fn overflow_of<T>(rem: Seq<T>, room: int) -> Option<(T, Seq<T>)> {
    if rem.len() <= room {
        None
    } else {
        Some((rem[room], rem.skip(room + 1)))
    }
}

/// The items that fill `room` free slots from an iterator whose remaining items are `rem`.
pub open spec fn taken_of<T>(rem: Seq<T>, room: int) -> Seq<T> {
    if rem.len() <= room {
        rem
    } else {
        rem.take(room)
    }
}

/// Moves the items of an array into a new `Vec`, in order: the array goes into a box,
/// which is viewed as a boxed slice and turned into a `Vec` without copying.
fn vec_from_array<T, const U: usize>(array: [T; U]) -> (v: Vec<T>)
    ensures
        v@ == array@,
{
    let boxed: Box<[T; U]> = Box::new(array);
    let slice: Box<[T]> = boxed;
    slice.into_vec()
}

impl<T, const N: usize> ArrayDeque<T, N> {
    /// Appends items of `iter` to the back until the deque is full or the iterator is done,
    /// without asking the iterator for more once the deque is full.
    fn fill_back<I: Iterator<Item = T>>(&mut self, iter: &mut I)
        requires
            old(self).wf(),
        ensures
            final(self).wf(),
            final(self).physical_head() == old(self).physical_head(),
            old(self)@.len() <= final(self)@.len(),
            final(self)@.take(old(self)@.len() as int) == old(self)@,
            (*final(iter)).obeys_prophetic_iter_laws() == (*old(iter)).obeys_prophetic_iter_laws(),
            (*old(iter)).obeys_prophetic_iter_laws() ==> {
                let rem = (*old(iter)).remaining();
                let room = N - old(self)@.len();
                &&& final(self)@ == old(self)@ + taken_of(rem, room)
                &&& room <= rem.len() <==> final(self)@.len() == N
                &&& room <= rem.len() ==> (*final(iter)).remaining() == rem.skip(room)
            },
    {
        let ghost it0 = *iter;
        let ghost s0 = self@;
        let ghost l0 = self@.len();
        while self.len < N
            invariant_except_break
                self.wf(),
                self.physical_head() == old(self).physical_head(),
                s0 == old(self)@,
                it0 == *old(iter),
                l0 == s0.len(),
                l0 <= self@.len() <= N,
                self@.take(l0 as int) == s0,
                (*iter).obeys_prophetic_iter_laws() == it0.obeys_prophetic_iter_laws(),
                it0.obeys_prophetic_iter_laws() ==> {
                    &&& self@ == s0 + it0.remaining().take(self@.len() - l0)
                    &&& self@.len() - l0 <= it0.remaining().len()
                    &&& (*iter).remaining() == it0.remaining().skip(self@.len() - l0)
                },
            ensures
                self.wf(),
                self.physical_head() == old(self).physical_head(),
                l0 <= self@.len() <= N,
                self@.take(l0 as int) == s0,
                (*iter).obeys_prophetic_iter_laws() == it0.obeys_prophetic_iter_laws(),
                it0.obeys_prophetic_iter_laws() ==> {
                    &&& self@ == s0 + taken_of(it0.remaining(), N - l0)
                    &&& N - l0 <= it0.remaining().len() <==> self@.len() == N
                    &&& self@.len() == N ==> (*iter).remaining() == it0.remaining().skip(N - l0)
                },
            decreases N - self.len,
        {
            let ghost pre = self@;
            match iter.next() {
                Some(value) => {
                    self.push_back(value);
                    proof {
                        if it0.obeys_prophetic_iter_laws() {
                            let k = pre.len() - l0;
                            let rem = it0.remaining();
                            assert(rem.skip(k)[0] == rem[k]);
                            assert(rem.take(k + 1) =~= rem.take(k).push(rem[k]));
                            assert(rem.skip(k).drop_first() =~= rem.skip(k + 1));
                        }
                        assert(self@.take(l0 as int) =~= pre.take(l0 as int));
                    }
                },
                None => {
                    proof {
                        if it0.obeys_prophetic_iter_laws() {
                            let k = pre.len() - l0;
                            assert(it0.remaining().take(k) =~= it0.remaining());
                        }
                    }
                    break;
                },
            }
        }
    }

    /// Appends items of `iter` to the back until the deque is full or the iterator is done.
    ///
    /// If the iterator still has an item once the deque is full, returns that item together
    /// with the iterator, which then holds the items after it.
    pub fn try_extend_from_iter<I: Iterator<Item = T>>(&mut self, iter: I) -> (r: Option<(T, I)>)
        requires
            old(self).wf(),
        ensures
            final(self).wf(),
            final(self).physical_head() == old(self).physical_head(),
            old(self)@.len() <= final(self)@.len(),
            final(self)@.take(old(self)@.len() as int) == old(self)@,
            r is Some ==> final(self)@.len() == N,
            iter.obeys_prophetic_iter_laws() ==> {
                let rem = iter.remaining();
                let room = N - old(self)@.len();
                &&& final(self)@ == old(self)@ + taken_of(rem, room)
                &&& match r {
                    None => overflow_of(rem, room) is None,
                    Some((v, rest)) => overflow_of(rem, room) == Some((v, rest.remaining()))
                        && rest.obeys_prophetic_iter_laws(),
                }
            },
    {
        let mut iter = iter;
        let ghost it0 = iter;
        self.fill_back(&mut iter);
        if self.len < N {
            return None;
        }
        proof {
            if it0.obeys_prophetic_iter_laws() {
                let rem = it0.remaining();
                let room = N - old(self)@.len();
                assert(room < rem.len() ==> rem.skip(room)[0] == rem[room]);
                assert(room < rem.len() ==> rem.skip(room).drop_first() =~= rem.skip(room + 1));
            }
        }
        match iter.next() {
            Some(value) => Some((value, iter)),
            None => None,
        }
    }

    /// Creates a deque from the items of an iterator.
    ///
    /// If the iterator yields more items than the capacity, returns the full deque, the first
    /// item that did not fit and the iterator holding the items after it.
    pub fn try_from_iter<I: Iterator<Item = T>>(iter: I) -> (r: Result<Self, (Self, T, I)>)
        requires
            N <= isize::MAX,
        ensures
            match r {
                Ok(d) => d.wf() && d.physical_head() == 0,
                Err((d, _, _)) => d.wf() && d.physical_head() == 0 && d@.len() == N,
            },
            iter.obeys_prophetic_iter_laws() ==> {
                let rem = iter.remaining();
                match r {
                    Ok(d) => rem.len() <= N && d@ == rem,
                    Err((d, v, rest)) => N < rem.len() && d@ == rem.take(N as int) && v == rem[N as int]
                        && rest.remaining() == rem.skip(N + 1) && rest.obeys_prophetic_iter_laws(),
                }
            },
    {
        let ghost it0 = iter;
        let mut d = Self::new();
        let rest = d.try_extend_from_iter(iter);
        assert(it0.obeys_prophetic_iter_laws() ==> Seq::<T>::empty() + taken_of(it0.remaining(), N as int)
            =~= taken_of(it0.remaining(), N as int));
        match rest {
            None => Ok(d),
            Some((v, rest)) => Err((d, v, rest)),
        }
    }

    /// Creates a deque from the first items of an iterator, at most as many as the capacity;
    /// the iterator is not asked for an item beyond that.
    pub fn from_iter_unchecked<I: Iterator<Item = T>>(iter: I) -> (d: Self)
        requires
            N <= isize::MAX,
        ensures
            d.wf(),
            d.physical_head() == 0,
            iter.obeys_prophetic_iter_laws() ==> d@ == taken_of(iter.remaining(), N as int),
    {
        let mut iter = iter;
        let mut d = Self::new();
        d.fill_back(&mut iter);
        proof {
            assert(Seq::<T>::empty() + taken_of(iter.remaining(), N as int) =~= taken_of(iter.remaining(), N as int));
        }
        d
    }

    /// Creates a deque holding the items of `vec` in order, or hands `vec` back if it holds
    /// more items than the capacity.
    pub fn try_from_vec(vec: Vec<T>) -> (r: Result<Self, Vec<T>>)
        requires
            N <= isize::MAX,
        ensures
            vec@.len() <= N <==> r is Ok,
            r matches Ok(d) ==> d.wf() && d@ == vec@ && d.physical_head() == 0,
            r matches Err(v) ==> v == vec,
    {
        if vec.len() > N {
            return Err(vec);
        }
        let ghost v0 = vec@;
        let it = vec.into_iter();
        proof {
            broadcast use vstd::std_specs::vec::axiom_spec_into_iter;
        }
        Ok(Self::from_iter_unchecked(it))
    }

    /// Creates a deque from an array of exactly the capacity's length.
    pub fn from_array<const U: usize>(array: [T; U]) -> (d: Self)
        requires
            U == N,
            N <= isize::MAX,
        ensures
            d.wf(),
            d@ == array@,
            d.physical_head() == 0,
    {
        match Self::try_from_vec(vec_from_array(array)) {
            Ok(d) => d,
            Err(_) => {
                proof {
                    assert(false);
                }
                Self::new()
            },
        }
    }

    /// Creates a deque from an array, or hands the array back if it is longer than the
    /// capacity.
    pub fn try_from_array<const SIZE: usize>(arr: [T; SIZE]) -> (r: Result<Self, [T; SIZE]>)
        requires
            N <= isize::MAX,
        ensures
            SIZE <= N <==> r is Ok,
            r matches Ok(d) ==> d.wf() && d@ == arr@ && d.physical_head() == 0,
            r matches Err(a) ==> a == arr,
    {
        if SIZE > N {
            return Err(arr);
        }
        match Self::try_from_vec(vec_from_array(arr)) {
            Ok(d) => Ok(d),
            Err(_) => {
                proof {
                    assert(false);
                }
                Ok(Self::new())
            },
        }
    }

    /// Moves the elements into a `Vec`, front to back.
    pub fn into_vec(self) -> (v: Vec<T>)
        requires
            self.wf(),
        ensures
            v@ == self@,
    {
        let mut d = self;
        let mut v: Vec<T> = Vec::new();
        let ghost s0 = d@;
        while d.len() > 0
            invariant
                d.wf(),
                v@ + d@ == s0,
            decreases d@.len(),
        {
            let ghost pre = d@;
            match d.pop_front() {
                Some(x) => {
                    v.push(x);
                    proof {
                        assert(v@ + d@ =~= s0);
                    }
                },
                None => {},
            }
        }
        proof {
            assert(v@ + d@ =~= v@);
        }
        v
    }

    /// Creates a deque from an iterator that reported `len` items: hands the iterator back
    /// untouched if `len` exceeds the capacity, else takes items until the deque is full or
    /// the iterator is done.
    pub fn try_from_iter_of_len<I: Iterator<Item = T>>(iter: I, len: usize) -> (r: Result<Self, I>)
        requires
            N <= isize::MAX,
        ensures
            len <= N <==> r is Ok,
            r matches Ok(d) ==> d.wf() && d.physical_head() == 0 && (iter.obeys_prophetic_iter_laws()
                ==> d@ == taken_of(iter.remaining(), N as int)),
            r matches Err(it) ==> it == iter,
    {
        if len > N {
            return Err(iter);
        }
        Ok(Self::from_iter_unchecked(iter))
    }

    /// Appends the items of an iterator that reported `len` items: hands the iterator back
    /// untouched if `len` exceeds the remaining capacity, else appends items until the deque
    /// is full or the iterator is done.
    pub fn try_extend_from_iter_of_len<I: Iterator<Item = T>>(&mut self, iter: I, len: usize) -> (r: Option<I>)
        requires
            old(self).wf(),
        ensures
            final(self).wf(),
            final(self).physical_head() == old(self).physical_head(),
            len <= N - old(self)@.len() <==> r is None,
            r matches Some(it) ==> it == iter && final(self)@ == old(self)@,
            r is None ==> old(self)@.len() <= final(self)@.len() && final(self)@.take(old(self)@.len() as int)
                == old(self)@,
            r is None && iter.obeys_prophetic_iter_laws() ==> final(self)@ == old(self)@ + taken_of(
                iter.remaining(),
                N - old(self)@.len(),
            ),
    {
        if len > N - self.len {
            return Some(iter);
        }
        let mut iter = iter;
        self.fill_back(&mut iter);
        None
    }

    /// Creates a deque holding the items of `items` in order, or hands `items` back if it
    /// holds more items than the capacity.
    pub fn try_from_vec_deque(items: VecDeque<T>) -> (r: Result<Self, VecDeque<T>>)
        requires
            N <= isize::MAX,
        ensures
            items@.len() <= N <==> r is Ok,
            r matches Ok(d) ==> d.wf() && d@ == items@ && d.physical_head() == 0,
            r matches Err(v) ==> v == items,
    {
        if items.len() > N {
            return Err(items);
        }
        let mut items = items;
        let mut d = Self::new();
        let ghost s0 = items@;
        while items.len() > 0
            invariant
                d.wf(),
                d.physical_head() == 0,
                s0.len() <= N,
                d@ + items@ == s0,
            decreases items@.len(),
        {
            let ghost pre = items@;
            let x = items.pop_front().unwrap();
            d.push_back(x);
            proof {
                assert(pre =~= seq![x] + items@);
                assert(d@ + items@ =~= s0);
            }
        }
        proof {
            assert(d@ + items@ =~= d@);
        }
        Ok(d)
    }

    /// Moves the elements into a `VecDeque`, front to back.
    pub fn into_vec_deque(self) -> (v: VecDeque<T>)
        requires
            self.wf(),
        ensures
            v@ == self@,
    {
        let mut d = self;
        let mut v: VecDeque<T> = VecDeque::new();
        let ghost s0 = d@;
        while d.len() > 0
            invariant
                d.wf(),
                v@ + d@ == s0,
            decreases d@.len(),
        {
            match d.pop_front() {
                Some(x) => {
                    v.push_back(x);
                    proof {
                        assert(v@ + d@ =~= s0);
                    }
                },
                None => {},
            }
        }
        proof {
            assert(v@ + d@ =~= v@);
        }
        v
    }
}

} // verus!
