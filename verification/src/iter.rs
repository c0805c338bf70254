//! Front-to-back iteration over the elements of an `ArrayDeque`.
use vstd::prelude::*;
use vstd::slice::slice_subrange;

verus! {

/// The values held by a run of occupied slots.
pub open spec fn occupied_values<T>(s: Seq<Option<T>>) -> Seq<T> {
    Seq::new(s.len(), |i: int| s[i].unwrap())
}

/// Whether every slot of the run is occupied.
pub open spec fn all_occupied<T>(s: Seq<Option<T>>) -> bool {
    forall|i: int| 0 <= i < s.len() ==> #[trigger] s[i] is Some
}

/// An iterator over the elements of an `ArrayDeque`, holding the two runs of slots that
/// the elements occupy (the second is empty unless the elements wrap around the buffer).
#[derive(Debug)]
pub struct Iter<'a, T> {
    i1: &'a [Option<T>],
    i2: &'a [Option<T>],
}

impl<'a, T> View for Iter<'a, T> {
    type V = Seq<T>;

    /// The elements not yet yielded, from front to back.
    closed spec fn view(&self) -> Seq<T> {
        occupied_values(self.i1@) + occupied_values(self.i2@)
    }
}

impl<'a, T> Iter<'a, T> {
    /// The remaining elements of the first run.
    pub closed spec fn front(&self) -> Seq<T> {
        occupied_values(self.i1@)
    }

    /// The remaining elements of the second run.
    pub closed spec fn back(&self) -> Seq<T> {
        occupied_values(self.i2@)
    }

    /// Both runs consist of occupied slots only.
    pub closed spec fn wf(&self) -> bool {
        &&& all_occupied(self.i1@)
        &&& all_occupied(self.i2@)
        &&& self.i1@.len() + self.i2@.len() <= usize::MAX
    }

    /// Builds an iterator over two runs of occupied slots.
    pub(crate) fn new(i1: &'a [Option<T>], i2: &'a [Option<T>]) -> (r: Self)
        requires
            all_occupied(i1@),
            all_occupied(i2@),
            i1@.len() + i2@.len() <= usize::MAX,
        ensures
            r.wf(),
            r.front() == occupied_values(i1@),
            r.back() == occupied_values(i2@),
            r@ == r.front() + r.back(),
    {
        Iter { i1, i2 }
    }

    /// The view is the first run followed by the second.
    pub proof fn lemma_view_split(&self)
        ensures
            self@ == self.front() + self.back(),
    {
    }

    /// Returns the elements not yet yielded, as the two runs they occupy.
    pub fn as_slices(&self) -> (r: (Vec<&'a T>, Vec<&'a T>))
        requires
            self.wf(),
        ensures
            r.0@.len() == self.front().len(),
            r.1@.len() == self.back().len(),
            forall|i: int| 0 <= i < r.0@.len() ==> *#[trigger] r.0@[i] == self.front()[i],
            forall|i: int| 0 <= i < r.1@.len() ==> *#[trigger] r.1@[i] == self.back()[i],
    {
        (refs_of(self.i1), refs_of(self.i2))
    }

    /// The number of elements not yet yielded.
    pub fn len(&self) -> (r: usize)
        requires
            self.wf(),
        ensures
            r == self@.len(),
    {
        self.i1.len() + self.i2.len()
    }

    /// The exact number of remaining elements, as a lower and an upper bound.
    pub fn size_hint(&self) -> (r: (usize, Option<usize>))
        requires
            self.wf(),
        ensures
            r.0 == self@.len(),
            r.1 == Some(self@.len() as usize),
    {
        let len = self.len();
        (len, Some(len))
    }

    /// Yields the next element from the front.
    pub fn next(&mut self) -> (r: Option<&'a T>)
        requires
            old(self).wf(),
        ensures
            final(self).wf(),
            old(self).front().len() > 0 ==> r is Some && *r.unwrap() == old(self).front()[0]
                && final(self).front() == old(self).front().drop_first() && final(self).back()
                == old(self).back(),
            old(self).front().len() == 0 && old(self).back().len() > 0 ==> r is Some
                && *r.unwrap() == old(self).back()[0] && final(self).front() == old(
                self).back().drop_first() && final(self).back().len() == 0,
            old(self)@.len() == 0 ==> r is None && final(self)@.len() == 0,
            old(self)@.len() > 0 ==> r is Some && *r.unwrap() == old(self)@[0] && final(self)@ == old(self)@.drop_first(),
    {
        if self.i1.len() == 0 {
            std::mem::swap(&mut self.i1, &mut self.i2);
        }
        if self.i1.len() == 0 {
            return None;
        }
        let s: &'a [Option<T>] = self.i1;
        let x: &'a Option<T> = &s[0];
        self.i1 = slice_subrange(s, 1, s.len());
        assert(occupied_values(self.i1@) =~= occupied_values(s@).drop_first());
        x.as_ref()
    }

    /// Yields the next element from the back.
    pub fn next_back(&mut self) -> (r: Option<&'a T>)
        requires
            old(self).wf(),
        ensures
            final(self).wf(),
            old(self).back().len() > 0 ==> r is Some && *r.unwrap() == old(self).back().last()
                && final(self).back() == old(self).back().drop_last() && final(self).front()
                == old(self).front(),
            old(self).back().len() == 0 && old(self).front().len() > 0 ==> r is Some
                && *r.unwrap() == old(self).front().last() && final(self).back() == old(
                self).front().drop_last() && final(self).front().len() == 0,
            old(self)@.len() == 0 ==> r is None && final(self)@.len() == 0,
            old(self)@.len() > 0 ==> r is Some && *r.unwrap() == old(self)@.last() && final(self)@ == old(self)@.drop_last(),
    {
        if self.i2.len() == 0 {
            std::mem::swap(&mut self.i1, &mut self.i2);
        }
        if self.i2.len() == 0 {
            return None;
        }
        let s: &'a [Option<T>] = self.i2;
        let n = s.len();
        let x: &'a Option<T> = &s[n - 1];
        self.i2 = slice_subrange(s, 0, n - 1);
        assert(occupied_values(self.i2@) =~= occupied_values(s@).drop_last());
        x.as_ref()
    }

    /// Yields the remaining elements front to back and returns what `f` accumulates over
    /// them, starting from `init`.
    pub fn fold<B, F: FnMut(B, &'a T) -> B>(self, init: B, f: F) -> (r: B)
        requires
            self.wf(),
            forall|b: B, i: int| 0 <= i < self@.len() ==> f.requires((b, &self@[i])),
        ensures
            exists|accs: Seq<B>|
                #![trigger accs.len()]
                {
                    &&& accs.len() == self@.len() + 1
                    &&& accs[0] == init
                    &&& accs.last() == r
                    &&& forall|i: int| 0 <= i < self@.len() ==> f.ensures((accs[i], &self@[i]), #[trigger] accs[i + 1])
                },
    {
        let mut it = self;
        let mut f = f;
        let ghost f0 = f;
        let ghost s0 = self@;
        let mut acc = init;
        let ghost mut accs: Seq<B> = seq![init];
        let ghost mut k: int = 0;
        while it.len() > 0
            invariant
                it.wf(),
                0 <= k <= s0.len(),
                it@ == s0.skip(k),
                f == f0,
                forall|b: B, i: int| 0 <= i < s0.len() ==> f0.requires((b, &s0[i])),
                accs.len() == k + 1,
                accs[0] == init,
                accs.last() == acc,
                forall|i: int| 0 <= i < k ==> f0.ensures((accs[i], &s0[i]), #[trigger] accs[i + 1]),
            decreases s0.len() - k,
        {
            proof {
                it.lemma_view_split();
            }
            let x = it.next().unwrap();
            proof {
                it.lemma_view_split();
                assert(*x == s0[k]);
                assert(it@ =~= s0.skip(k + 1));
            }
            let a = f(acc, x);
            acc = a;
            proof {
                let prev = accs;
                accs = accs.push(a);
                assert forall|i: int| 0 <= i < k + 1 implies f0.ensures((accs[i], &s0[i]), #[trigger] accs[i + 1]) by {
                    if i < k {
                        assert(accs[i] == prev[i]);
                        assert(accs[i + 1] == prev[i + 1]);
                    }
                }
                k = k + 1;
            }
        }
        proof {
            assert(k == s0.len());
        }
        acc
    }

    /// Yields the remaining elements back to front and returns what `f` accumulates over
    /// them, starting from `init`.
    pub fn rfold<B, F: FnMut(B, &'a T) -> B>(self, init: B, f: F) -> (r: B)
        requires
            self.wf(),
            forall|b: B, i: int| 0 <= i < self@.len() ==> f.requires((b, &self@[i])),
        ensures
            exists|accs: Seq<B>|
                #![trigger accs.len()]
                {
                    &&& accs.len() == self@.len() + 1
                    &&& accs[0] == init
                    &&& accs.last() == r
                    &&& forall|i: int|
                        0 <= i < self@.len() ==> f.ensures((accs[i], &self@[self@.len() - 1 - i]), #[trigger] accs[i + 1])
                },
    {
        let mut it = self;
        let mut f = f;
        let ghost f0 = f;
        let ghost s0 = self@;
        let ghost n = s0.len();
        let mut acc = init;
        let ghost mut accs: Seq<B> = seq![init];
        let ghost mut k: int = 0;
        while it.len() > 0
            invariant
                it.wf(),
                n == s0.len(),
                0 <= k <= n,
                it@ == s0.take(n - k),
                f == f0,
                forall|b: B, i: int| 0 <= i < n ==> f0.requires((b, &s0[i])),
                accs.len() == k + 1,
                accs[0] == init,
                accs.last() == acc,
                forall|i: int| 0 <= i < k ==> f0.ensures((accs[i], &s0[n - 1 - i]), #[trigger] accs[i + 1]),
            decreases n - k,
        {
            proof {
                it.lemma_view_split();
            }
            let x = it.next_back().unwrap();
            proof {
                it.lemma_view_split();
                assert(*x == s0[n - 1 - k]);
                assert(it@ =~= s0.take(n - (k + 1)));
            }
            let a = f(acc, x);
            acc = a;
            proof {
                let prev = accs;
                accs = accs.push(a);
                assert forall|i: int| 0 <= i < k + 1 implies f0.ensures((accs[i], &s0[n - 1 - i]), #[trigger] accs[i + 1]) by {
                    if i < k {
                        assert(accs[i] == prev[i]);
                        assert(accs[i + 1] == prev[i + 1]);
                    }
                }
                k = k + 1;
            }
        }
        acc
    }

    /// Consumes the iterator and returns its back element.
    pub fn last(self) -> (r: Option<&'a T>)
        requires
            self.wf(),
        ensures
            self@.len() == 0 ==> r is None,
            self@.len() > 0 ==> r is Some && *r.unwrap() == self@.last(),
    {
        let mut it = self;
        it.next_back()
    }
}

impl<'a, T> Clone for Iter<'a, T> {
    /// An iterator over the same remaining elements.
    fn clone(&self) -> (r: Self)
        ensures
            r == *self,
    {
        Iter { i1: self.i1, i2: self.i2 }
    }
}

impl<'a, T> Default for Iter<'a, T> {
    /// Creates an empty iterator.
    fn default() -> (r: Self)
        ensures
            r.wf(),
            r@ == Seq::<T>::empty(),
    {
        let r = Iter { i1: &[], i2: &[] };
        assert(r@ =~= Seq::<T>::empty());
        r
    }
}

/// References to the values of a run of occupied slots.
pub(crate) fn refs_of<'a, T>(s: &'a [Option<T>]) -> (r: Vec<&'a T>)
    requires
        all_occupied(s@),
    ensures
        r@.len() == s@.len(),
        forall|i: int| 0 <= i < r@.len() ==> *#[trigger] r@[i] == s@[i].unwrap(),
{
    let mut r: Vec<&'a T> = Vec::new();
    let mut i: usize = 0;
    while i < s.len()
        invariant
            all_occupied(s@),
            i <= s@.len(),
            r@.len() == i,
            forall|j: int| 0 <= j < i ==> *#[trigger] r@[j] == s@[j].unwrap(),
        decreases s@.len() - i,
    {
        let x = s[i].as_ref().unwrap();
        r.push(x);
        i = i + 1;
    }
    r
}

} // verus!
