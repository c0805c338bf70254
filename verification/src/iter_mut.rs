//! Front-to-back iteration with mutable access to the elements of an `ArrayDeque`.
use vstd::prelude::*;
use crate::iter::all_occupied;

verus! {

/// A mutable iterator over the elements of an `ArrayDeque`.
///
/// It holds one mutable reference per element not yet yielded, and remembers where the
/// second run of slots begins, so that `as_slices` and `into_slices` split the remaining
/// elements the way the deque stores them.
#[derive(Debug)]
pub struct IterMut<'a, T> {
    refs: Vec<Option<&'a mut T>>,
    lo: usize,
    split: usize,
    hi: usize,
}

impl<'a, T> View for IterMut<'a, T> {
    type V = Seq<T>;

    /// The elements not yet yielded, from front to back.
    closed spec fn view(&self) -> Seq<T> {
        Seq::new((self.hi - self.lo) as nat, |i: int| *self.refs@[self.lo + i].unwrap())
    }
}

impl<'a, T> IterMut<'a, T> {
    /// The reference to the `i`-th element not yet yielded. What is written through it is
    /// what the deque holds at that position once the borrow ends.
    pub closed spec fn reference(&self, i: int) -> &'a mut T {
        self.refs@[self.lo + i].unwrap()
    }

    /// The `i`-th element not yet yielded is the current value behind the `i`-th reference.
    pub proof fn lemma_view_reference(&self)
        ensures
            forall|i: int| 0 <= i < self@.len() ==> #[trigger] self@[i] == *self.reference(i),
    {
    }

    /// The remaining elements of the first run.
    pub closed spec fn front(&self) -> Seq<T> {
        self@.take(self.split - self.lo)
    }

    /// The remaining elements of the second run.
    pub closed spec fn back(&self) -> Seq<T> {
        self@.skip(self.split - self.lo)
    }

    /// The positions not yet yielded hold references.
    pub closed spec fn wf(&self) -> bool {
        &&& self.lo <= self.split <= self.hi <= self.refs@.len()
        &&& forall|i: int| self.lo <= i < self.hi ==> #[trigger] self.refs@[i] is Some
    }

    /// The view is the first run followed by the second.
    pub proof fn lemma_view_split(&self)
        requires
            self.wf(),
        ensures
            self@ == self.front() + self.back(),
    {
        assert(self@ =~= self.front() + self.back());
    }

    /// Once the iterator is done with (dropped), the elements it has not yielded keep the
    /// values they have at that point.
    pub proof fn lemma_released(&self)
        requires
            self.wf(),
            has_resolved(*self),
        ensures
            forall|i: int| 0 <= i < self@.len() ==> *final(#[trigger] self.reference(i)) == *self.reference(i),
    {
        assert forall|i: int| 0 <= i < self@.len() implies *final(#[trigger] self.reference(i)) == *self.reference(i) by {
            assert(has_resolved(self.refs));
            assert(has_resolved(self.refs@[self.lo + i]));
        }
    }

    /// Builds an iterator over the references of the two runs, in order.
    pub(crate) fn new(first: Vec<&'a mut T>, second: Vec<&'a mut T>) -> (r: Self)
        requires
            first@.len() + second@.len() <= usize::MAX,
        ensures
            r.wf(),
            r@.len() == first@.len() + second@.len(),
            r.front().len() == first@.len(),
            forall|i: int| 0 <= i < first@.len() ==> *#[trigger] r.reference(i) == *first@[i]
                && *final(r.reference(i)) == *final(first@[i]),
            forall|i: int| 0 <= i < second@.len() ==> *#[trigger] r.reference(first@.len() + i) == *second@[i]
                && *final(r.reference(first@.len() + i)) == *final(second@[i]),
    {
        let mut all = first;
        let mut second = second;
        let n1 = all.len();
        let ghost f0 = all@;
        let ghost s0 = second@;
        all.append(&mut second);
        let total = all.len();
        let ghost a0 = all@;
        assert(a0 == f0 + s0);
        let mut rev: Vec<Option<&'a mut T>> = Vec::new();
        while all.len() > 0
            invariant
                all@.len() + rev@.len() == total,
                total == a0.len(),
                forall|i: int| 0 <= i < all@.len() ==> #[trigger] all@[i] == a0[i],
                forall|i: int| 0 <= i < rev@.len() ==> (#[trigger] rev@[i]) is Some
                    && *rev@[i].unwrap() == *a0[total - 1 - i] && *final(rev@[i].unwrap()) == *final(a0[total - 1 - i]),
            decreases all@.len(),
        {
            let x = all.pop().unwrap();
            rev.push(Some(x));
        }
        let mut refs: Vec<Option<&'a mut T>> = Vec::new();
        while rev.len() > 0
            invariant
                rev@.len() + refs@.len() == total,
                total == a0.len(),
                forall|i: int| 0 <= i < rev@.len() ==> (#[trigger] rev@[i]) is Some
                    && *rev@[i].unwrap() == *a0[total - 1 - i] && *final(rev@[i].unwrap()) == *final(a0[total - 1 - i]),
                forall|i: int| 0 <= i < refs@.len() ==> (#[trigger] refs@[i]) is Some
                    && *refs@[i].unwrap() == *a0[i] && *final(refs@[i].unwrap()) == *final(a0[i]),
            decreases rev@.len(),
        {
            let x = rev.pop().unwrap();
            refs.push(x);
        }
        let r = IterMut { refs, lo: 0, split: n1, hi: total };
        proof {
            assert forall|i: int| 0 <= i < s0.len() implies *#[trigger] r.reference(f0.len() + i) == *s0[i]
                && *final(r.reference(f0.len() + i)) == *final(s0[i]) by {
                assert(a0[f0.len() + i] == s0[i]);
            }
        }
        r
    }

    /// The number of elements not yet yielded.
    pub fn len(&self) -> (r: usize)
        requires
            self.wf(),
        ensures
            r == self@.len(),
    {
        self.hi - self.lo
    }

    /// The exact number of remaining elements, as a lower and an upper bound.
    pub fn size_hint(&self) -> (r: (usize, Option<usize>))
        requires
            self.wf(),
        ensures
            r.0 == self@.len(),
            r.1 == Some(self@.len() as usize),
    {
        let len = self.len();
        (len, Some(len))
    }

    /// Views the elements not yet yielded as the two runs they occupy.
    pub fn as_slices(&self) -> (r: (Vec<&T>, Vec<&T>))
        requires
            self.wf(),
        ensures
            r.0@.len() == self.front().len(),
            r.1@.len() == self.back().len(),
            forall|i: int| 0 <= i < r.0@.len() ==> *#[trigger] r.0@[i] == self.front()[i],
            forall|i: int| 0 <= i < r.1@.len() ==> *#[trigger] r.1@[i] == self.back()[i],
    {
        let mut a: Vec<&T> = Vec::new();
        let mut b: Vec<&T> = Vec::new();
        let mut k = self.lo;
        while k < self.hi
            invariant
                self.wf(),
                self.lo <= k <= self.hi,
                k <= self.split ==> a@.len() == k - self.lo && b@.len() == 0,
                k > self.split ==> a@.len() == self.split - self.lo && b@.len() == k - self.split,
                forall|i: int| 0 <= i < a@.len() ==> *#[trigger] a@[i] == self@[i],
                forall|i: int| 0 <= i < b@.len() ==> *#[trigger] b@[i] == self@[self.split - self.lo + i],
            decreases self.hi - k,
        {
            let x: &T = match &self.refs[k] {
                Some(r) => &**r,
                None => {
                    proof {
                        assert(false);
                    }
                    return (a, b);
                },
            };
            if k < self.split {
                a.push(x);
            } else {
                b.push(x);
            }
            k = k + 1;
        }
        (a, b)
    }

    /// Consumes the iterator and returns the mutable references to the elements not yet
    /// yielded, as the two runs they occupy.
    pub fn into_slices(self) -> (r: (Vec<&'a mut T>, Vec<&'a mut T>))
        requires
            self.wf(),
        ensures
            r.0@.len() == self.front().len(),
            r.1@.len() == self.back().len(),
            forall|i: int| 0 <= i < r.0@.len() ==> *#[trigger] r.0@[i] == *self.reference(i)
                && *final(r.0@[i]) == *final(self.reference(i)),
            forall|i: int| 0 <= i < r.1@.len() ==> *#[trigger] r.1@[i] == *self.reference(self.front().len() + i)
                && *final(r.1@[i]) == *final(self.reference(self.front().len() + i)),
    {
        let IterMut { mut refs, lo, split, hi } = self;
        let ghost r0 = refs@;
        let mut a: Vec<&'a mut T> = Vec::new();
        let mut b: Vec<&'a mut T> = Vec::new();
        let mut k = lo;
        while k < hi
            invariant
                lo <= split <= hi <= refs@.len(),
                lo <= k <= hi,
                refs@.len() == r0.len(),
                forall|j: int| k <= j < hi ==> #[trigger] refs@[j] == r0[j],
                forall|j: int| lo <= j < hi ==> (#[trigger] r0[j]) is Some,
                k <= split ==> a@.len() == k - lo && b@.len() == 0,
                k > split ==> a@.len() == split - lo && b@.len() == k - split,
                forall|i: int| 0 <= i < a@.len() ==> *#[trigger] a@[i] == *r0[lo + i].unwrap()
                    && *final(a@[i]) == *final(r0[lo + i].unwrap()),
                forall|i: int| 0 <= i < b@.len() ==> *#[trigger] b@[i] == *r0[split + i].unwrap()
                    && *final(b@[i]) == *final(r0[split + i].unwrap()),
            decreases hi - k,
        {
            let mut slot: Option<&'a mut T> = None;
            refs.set_and_swap(k, &mut slot);
            let x = slot.unwrap();
            if k < split {
                a.push(x);
            } else {
                b.push(x);
            }
            k = k + 1;
        }
        (a, b)
    }

    /// Yields the next element from the front.
    pub fn next(&mut self) -> (r: Option<&'a mut T>)
        requires
            old(self).wf(),
        ensures
            final(self).wf(),
            old(self).front().len() > 0 ==> final(self).front() == old(self).front().drop_first()
                && final(self).back() == old(self).back(),
            old(self).front().len() == 0 && old(self).back().len() > 0 ==> final(self).front() == old(
                self).back().drop_first() && final(self).back().len() == 0,
            old(self)@.len() == 0 ==> r is None && final(self)@.len() == 0,
            old(self)@.len() > 0 ==> r == Some(old(self).reference(0)) && *r.unwrap() == old(self)@[0]
                && final(self)@ == old(self)@.drop_first() && forall|i: int|
                0 <= i < final(self)@.len() ==> #[trigger] final(self).reference(i) == old(self).reference(i + 1),
    {
        if self.lo == self.split {
            self.split = self.hi;
        }
        if self.lo == self.split {
            assert(self@ =~= Seq::<T>::empty());
            return None;
        }
        let ghost pre = *self;
        let mut slot: Option<&'a mut T> = None;
        self.refs.set_and_swap(self.lo, &mut slot);
        self.lo = self.lo + 1;
        proof {
            assert(self@ =~= pre@.drop_first());
            assert(self.front() =~= pre.front().drop_first());
            assert(self.back() =~= pre.back());
        }
        slot
    }

    /// Yields the next element from the back.
    pub fn next_back(&mut self) -> (r: Option<&'a mut T>)
        requires
            old(self).wf(),
        ensures
            final(self).wf(),
            old(self).back().len() > 0 ==> final(self).back() == old(self).back().drop_last()
                && final(self).front() == old(self).front(),
            old(self).back().len() == 0 && old(self).front().len() > 0 ==> final(self).back() == old(
                self).front().drop_last() && final(self).front().len() == 0,
            old(self)@.len() == 0 ==> r is None && final(self)@.len() == 0,
            old(self)@.len() > 0 ==> r == Some(old(self).reference(old(self)@.len() - 1)) && *r.unwrap()
                == old(self)@.last() && final(self)@ == old(self)@.drop_last() && forall|i: int|
                0 <= i < final(self)@.len() ==> #[trigger] final(self).reference(i) == old(self).reference(i),
    {
        if self.split == self.hi {
            self.split = self.lo;
        }
        if self.split == self.hi {
            assert(self@ =~= Seq::<T>::empty());
            return None;
        }
        let ghost pre = *self;
        self.hi = self.hi - 1;
        let mut slot: Option<&'a mut T> = None;
        self.refs.set_and_swap(self.hi, &mut slot);
        proof {
            assert(self@ =~= pre@.drop_last());
            assert(self.back() =~= pre.back().drop_last());
            assert(self.front() =~= pre.front());
        }
        slot
    }

    /// Yields the remaining elements front to back and returns what `f` accumulates over
    /// them, starting from `init`; `f` may modify the elements, and what it leaves in them
    /// is what they hold once the borrow ends.
    pub fn fold<B, F: FnMut(B, &'a mut T) -> B>(self, init: B, f: F) -> (r: B)
        requires
            self.wf(),
            forall|b: B, i: int, x: &'a mut T| 0 <= i < self@.len() && *x == self@[i] ==> f.requires((b, x)),
        ensures
            exists|accs: Seq<B>, refs: Seq<&'a mut T>|
                #![trigger accs.len(), refs.len()]
                {
                    &&& accs.len() == self@.len() + 1
                    &&& refs.len() == self@.len()
                    &&& accs[0] == init
                    &&& accs.last() == r
                    &&& forall|i: int|
                        0 <= i < self@.len() ==> *#[trigger] refs[i] == self@[i] && *final(refs[i]) == *final(self.reference(i)) && f.ensures((accs[i], refs[i]), accs[i + 1])
                },
    {
        let mut it = self;
        let mut f = f;
        let ghost f0 = f;
        let ghost it0 = self;
        let ghost n = self@.len();
        let mut acc = init;
        let ghost mut accs: Seq<B> = seq![init];
        let ghost mut refs: Seq<&'a mut T> = Seq::empty();
        let ghost mut k: int = 0;
        while it.len() > 0
            invariant
                it.wf(),
                0 <= k <= n,
                n == it0@.len(),
                it@.len() == n - k,
                forall|i: int| 0 <= i < n - k ==> #[trigger] it.reference(i) == it0.reference(i + k),
                f == f0,
                forall|b: B, i: int, x: &'a mut T| 0 <= i < n && *x == it0@[i] ==> f0.requires((b, x)),
                accs.len() == k + 1,
                refs.len() == k,
                accs[0] == init,
                accs.last() == acc,
                forall|i: int|
                    0 <= i < k ==> *#[trigger] refs[i] == it0@[i] && *final(refs[i]) == *final(it0.reference(i))
                        && f0.ensures((accs[i], refs[i]), accs[i + 1]),
            decreases n - k,
        {
            let ghost pre = it;
            let x = it.next().unwrap();
            assert(x == it0.reference(k));
            assert(*x == it0@[k]);
            let (a, Ghost(xr)) = call_fold(&mut f, acc, x);
            proof {
                let pa = accs;
                let pr = refs;
                accs = accs.push(a);
                refs = refs.push(xr);
                assert forall|i: int| 0 <= i < k + 1 implies *#[trigger] refs[i] == it0@[i] && *final(refs[i]) == *final(it0.reference(i)) && f0.ensures((accs[i], refs[i]), accs[i + 1]) by {
                    if i < k {
                        assert(accs[i] == pa[i]);
                        assert(accs[i + 1] == pa[i + 1]);
                        assert(refs[i] == pr[i]);
                    }
                }
                assert forall|i: int| 0 <= i < n - (k + 1) implies #[trigger] it.reference(i) == it0.reference(i + (k + 1)) by {
                    assert(it.reference(i) == pre.reference(i + 1));
                }
                k = k + 1;
            }
            acc = a;
        }
        acc
    }

    /// Yields the remaining elements back to front and returns what `f` accumulates over
    /// them, starting from `init`; `f` may modify the elements, and what it leaves in them
    /// is what they hold once the borrow ends.
    pub fn rfold<B, F: FnMut(B, &'a mut T) -> B>(self, init: B, f: F) -> (r: B)
        requires
            self.wf(),
            forall|b: B, i: int, x: &'a mut T| 0 <= i < self@.len() && *x == self@[i] ==> f.requires((b, x)),
        ensures
            exists|accs: Seq<B>, refs: Seq<&'a mut T>|
                #![trigger accs.len(), refs.len()]
                {
                    &&& accs.len() == self@.len() + 1
                    &&& refs.len() == self@.len()
                    &&& accs[0] == init
                    &&& accs.last() == r
                    &&& forall|i: int|
                        0 <= i < self@.len() ==> *#[trigger] refs[i] == self@[self@.len() - 1 - i] && *final(refs[i])
                            == *final(self.reference(self@.len() - 1 - i)) && f.ensures((accs[i], refs[i]), accs[i + 1])
                },
    {
        let mut it = self;
        let mut f = f;
        let ghost f0 = f;
        let ghost it0 = self;
        let ghost n = self@.len();
        let mut acc = init;
        let ghost mut accs: Seq<B> = seq![init];
        let ghost mut refs: Seq<&'a mut T> = Seq::empty();
        let ghost mut k: int = 0;
        while it.len() > 0
            invariant
                it.wf(),
                0 <= k <= n,
                n == it0@.len(),
                it@.len() == n - k,
                forall|i: int| 0 <= i < n - k ==> #[trigger] it.reference(i) == it0.reference(i),
                f == f0,
                forall|b: B, i: int, x: &'a mut T| 0 <= i < n && *x == it0@[i] ==> f0.requires((b, x)),
                accs.len() == k + 1,
                refs.len() == k,
                accs[0] == init,
                accs.last() == acc,
                forall|i: int|
                    0 <= i < k ==> *#[trigger] refs[i] == it0@[n - 1 - i] && *final(refs[i]) == *final(it0.reference(n - 1 - i)) && f0.ensures((accs[i], refs[i]), accs[i + 1]),
            decreases n - k,
        {
            let ghost pre = it;
            let x = it.next_back().unwrap();
            assert(x == it0.reference(n - 1 - k));
            assert(*x == it0@[n - 1 - k]);
            let (a, Ghost(xr)) = call_fold(&mut f, acc, x);
            proof {
                let pa = accs;
                let pr = refs;
                accs = accs.push(a);
                refs = refs.push(xr);
                assert forall|i: int| 0 <= i < k + 1 implies *#[trigger] refs[i] == it0@[n - 1 - i] && *final(refs[i])
                    == *final(it0.reference(n - 1 - i)) && f0.ensures((accs[i], refs[i]), accs[i + 1]) by {
                    if i < k {
                        assert(accs[i] == pa[i]);
                        assert(accs[i + 1] == pa[i + 1]);
                        assert(refs[i] == pr[i]);
                    }
                }
                assert forall|i: int| 0 <= i < n - (k + 1) implies #[trigger] it.reference(i) == it0.reference(i) by {
                    assert(it.reference(i) == pre.reference(i));
                }
                k = k + 1;
            }
            acc = a;
        }
        acc
    }

    /// Consumes the iterator and returns its back element.
    pub fn last(self) -> (r: Option<&'a mut T>)
        requires
            self.wf(),
        ensures
            self@.len() == 0 ==> r is None,
            self@.len() > 0 ==> r == Some(self.reference(self@.len() - 1)) && *r.unwrap() == self@.last(),
    {
        let mut it = self;
        it.next_back()
    }
}

impl<'a, T> Default for IterMut<'a, T> {
    /// Creates an empty iterator.
    fn default() -> (r: Self)
        ensures
            r.wf(),
            r@ == Seq::<T>::empty(),
    {
        let r = IterMut { refs: Vec::new(), lo: 0, split: 0, hi: 0 };
        assert(r@ =~= Seq::<T>::empty());
        r
    }
}

/// Calls `g` once with `b` and `x`, moving both into the call; also hands back `x` as a
/// ghost value so that the caller can name it.
fn call_fold<A, B, G: FnMut(B, A) -> B>(g: &mut G, b: B, x: A) -> (r: (B, Ghost<A>))
    requires
        (*old(g)).requires((b, x)),
    ensures
        (*old(g)).ensures((b, r.1@), r.0),
        r.1@ == x,
        *final(g) == *old(g),
{
    let ghost gx = x;
    let v = (*g)(b, x);
    (v, Ghost(gx))
}

/// Mutable references to the values of a run of occupied slots. Whatever is written
/// through them is what the slots hold once the borrow ends.
pub(crate) fn mut_refs_of<'a, T>(s: &'a mut [Option<T>]) -> (r: Vec<&'a mut T>)
    requires
        all_occupied(old(s)@),
    ensures
        r@.len() == old(s)@.len(),
        forall|i: int| 0 <= i < r@.len() ==> *#[trigger] r@[i] == old(s)@[i].unwrap(),
        final(s)@ == Seq::new(r@.len(), |i: int| Some(*final(r@[i]))),
{
    let ghost s0 = s@;
    let ghost sg = s;
    let total = s.len();
    let mut r: Vec<&'a mut T> = Vec::new();
    let mut rest: &'a mut [Option<T>] = s;
    let mut i: usize = 0;
    if rest.len() == 0 {
        let none = rest.first_mut();
        assert(none is None);
        return r;
    }
    while rest.len() > 1
        invariant
            all_occupied(s0),
            rest@.len() >= 1,
            total == s0.len(),
            i + rest@.len() == s0.len(),
            r@.len() == i,
            forall|j: int| 0 <= j < rest@.len() ==> #[trigger] rest@[j] == s0[i + j],
            forall|j: int| 0 <= j < i ==> *#[trigger] r@[j] == s0[j].unwrap(),
            final(sg)@ == Seq::new(i as nat, |j: int| Some(*final(r@[j]))) + final(rest)@,
        decreases rest@.len(),
    {
        let mut cur: &'a mut [Option<T>] = &mut [];
        std::mem::swap(&mut cur, &mut rest);
        let (first, tail) = cur.split_at_mut(1);
        rest = tail;
        let slot = first.first_mut().unwrap();
        let x = slot.as_mut().unwrap();
        r.push(x);
        i = i + 1;
    }
    let slot = rest.first_mut().unwrap();
    let x = slot.as_mut().unwrap();
    r.push(x);
    r
}


} // verus!
