//! Operations driven by caller-supplied closures, and insertions that hand back a
//! reference to the new element.
use vstd::prelude::*;
use super::ArrayDeque;
use super::filter::{filter_by, lemma_filter_by_step};

verus! {

broadcast use vstd::function::group_function_axioms;

/// Calls `g` once with `a`, moving `a` into the call; also hands back the argument as a
/// ghost value so that the caller can name it.
pub(crate) fn call_pred<A, G: FnMut(A) -> bool>(g: &mut G, a: A) -> (r: (bool, Ghost<A>))
    requires
        (*old(g)).requires((a,)),
    ensures
        (*old(g)).ensures((r.1@,), r.0),
        r.1@ == a,
        *final(g) == *old(g),
{
    let ghost ga = a;
    let b = (*g)(a);
    (b, Ghost(ga))
}

impl<T, const N: usize> ArrayDeque<T, N> {
    /// Removes and returns the front element if `predicate` returns `true` for it; the
    /// predicate may modify the element. Returns `None` without calling the predicate if
    /// the deque is empty.
    pub fn pop_front_if<F>(&mut self, predicate: F) -> (r: Option<T>)
        where F: FnOnce(&mut T) -> bool,
        requires
            old(self).wf(),
            forall|x: &mut T| *x == old(self)@[0] ==> predicate.requires((x,)),
        ensures
            final(self).wf(),
            old(self)@.len() == 0 ==> r is None && final(self)@ == old(self)@
                && final(self).physical_head() == old(self).physical_head(),
            old(self)@.len() > 0 ==> exists|x: &mut T, b: bool|
                #![trigger predicate.ensures((x,), b)]
                {
                    &&& *x == old(self)@[0]
                    &&& predicate.ensures((x,), b)
                    &&& b ==> r == Some(*final(x)) && final(self)@ == old(self)@.drop_first()
                        && final(self).physical_head() == crate::ring::phys(old(self).physical_head(), 1, N as int)
                    &&& !b ==> r is None && final(self)@ == old(self)@.update(0, *final(x))
                        && final(self).physical_head() == old(self).physical_head()
                },
    {
        if self.len == 0 {
            return None;
        }
        let first = self.front_mut().unwrap();
        if predicate(first) {
            self.pop_front()
        } else {
            None
        }
    }

    /// Removes and returns the back element if `predicate` returns `true` for it; the
    /// predicate may modify the element. Returns `None` without calling the predicate if
    /// the deque is empty.
    pub fn pop_back_if<F>(&mut self, predicate: F) -> (r: Option<T>)
        where F: FnOnce(&mut T) -> bool,
        requires
            old(self).wf(),
            forall|x: &mut T| *x == old(self)@.last() ==> predicate.requires((x,)),
        ensures
            final(self).wf(),
            final(self).physical_head() == old(self).physical_head(),
            old(self)@.len() == 0 ==> r is None && final(self)@ == old(self)@,
            old(self)@.len() > 0 ==> exists|x: &mut T, b: bool|
                #![trigger predicate.ensures((x,), b)]
                {
                    &&& *x == old(self)@.last()
                    &&& predicate.ensures((x,), b)
                    &&& b ==> r == Some(*final(x)) && final(self)@ == old(self)@.drop_last()
                    &&& !b ==> r is None && final(self)@ == old(self)@.update(
                        old(self)@.len() - 1,
                        *final(x),
                    )
                },
    {
        if self.len == 0 {
            return None;
        }
        let last = self.back_mut().unwrap();
        if predicate(last) {
            self.pop_back()
        } else {
            None
        }
    }

    /// Appends an element to the back and returns a mutable reference to it.
    ///
    /// If the deque is full, returns the element back as `Err` without modifying the deque.
    pub fn push_back_mut(&mut self, value: T) -> (r: Result<&mut T, T>)
        requires
            old(self).wf(),
        ensures
            final(self).wf(),
            final(self).physical_head() == old(self).physical_head(),
            match r {
                Ok(x) => old(self)@.len() < N && *x == value && final(self)@ == old(self)@.push(
                    *final(x),
                ),
                Err(v) => old(self)@.len() == N && v == value && final(self)@ == old(self)@,
            },
    {
        if self.len == N {
            return Err(value);
        }
        self.push_back(value);
        Ok(self.back_mut().unwrap())
    }

    /// Prepends an element to the front and returns a mutable reference to it.
    ///
    /// If the deque is full, returns the element back as `Err` without modifying the deque.
    pub fn push_front_mut(&mut self, value: T) -> (r: Result<&mut T, T>)
        requires
            old(self).wf(),
        ensures
            final(self).wf(),
            match r {
                Ok(x) => old(self)@.len() < N && *x == value && final(self)@ == seq![*final(x)]
                    + old(self)@ && final(self).physical_head() == crate::ring::phys(
                    old(self).physical_head(),
                    N - 1,
                    N as int,
                ),
                Err(v) => old(self)@.len() == N && v == value && final(self)@ == old(self)@
                    && final(self).physical_head() == old(self).physical_head(),
            },
    {
        if self.len == N {
            return Err(value);
        }
        self.push_front(value);
        let r = self.front_mut().unwrap();
        Ok(r)
    }

    /// Inserts an element at `index` and returns a mutable reference to it.
    ///
    /// Returns the element back as `Err`, without modifying the deque, if `index` is greater
    /// than the length or the deque is full.
    pub fn insert_mut(&mut self, index: usize, value: T) -> (r: Result<&mut T, T>)
        requires
            old(self).wf(),
        ensures
            final(self).wf(),
            match r {
                Ok(x) => index <= old(self)@.len() < N && *x == value && final(self)@ == old(self)@.insert(index as int, *final(x)),
                Err(v) => (index > old(self)@.len() || old(self)@.len() == N) && v == value
                    && final(self)@ == old(self)@ && final(self).physical_head() == old(self).physical_head(),
            },
    {
        if index > self.len || self.len == N {
            return Err(value);
        }
        self.insert_unchecked(index, value);
        let r = self.get_mut(index).unwrap();
        Ok(r)
    }

    /// Keeps only the elements for which `f` returns `true`, visiting each element once,
    /// front to back; `f` may modify the elements it visits. The kept elements keep their
    /// order.
    pub fn retain_mut<F>(&mut self, mut f: F)
        where F: FnMut(&mut T) -> bool,
        requires
            old(self).wf(),
            forall|i: int, x: &mut T| 0 <= i < old(self)@.len() && *x == old(self)@[i] ==> f.requires((x,)),
        ensures
            final(self).wf(),
            final(self).physical_head() == old(self).physical_head(),
            exists|keep: Seq<bool>, refs: Seq<&mut T>|
                #![trigger keep.len(), refs.len()]
                {
                    &&& keep.len() == old(self)@.len()
                    &&& refs.len() == old(self)@.len()
                    &&& forall|i: int|
                        0 <= i < old(self)@.len() ==> *#[trigger] refs[i] == old(self)@[i] && f.ensures((refs[i],), keep[i])
                    &&& final(self)@ == filter_by(Seq::new(refs.len(), |i: int| *final(refs[i])), keep)
                },
    {
        let len = self.len;
        let mut idx: usize = 0;
        let mut cur: usize = 0;
        let ghost mut keep: Seq<bool> = Seq::empty();
        let ghost mut refs: Seq<&mut T> = Seq::empty();
        let ghost s0 = old(self)@;
        let ghost f0 = f;
        proof {
            assert(self@.take(0) =~= Seq::<T>::empty());
            assert(Seq::new(0, |i: int| *final(refs[i])) =~= Seq::<T>::empty());
        }
        while cur < len
            invariant
                self.wf(),
                self.physical_head() == old(self).physical_head(),
                s0 == old(self)@,
                self@.len() == len,
                len == s0.len(),
                idx <= cur <= len,
                keep.len() == cur,
                refs.len() == cur,
                f == f0,
                forall|i: int, x: &mut T| 0 <= i < s0.len() && *x == s0[i] ==> f.requires((x,)),
                forall|i: int| 0 <= i < cur ==> *#[trigger] refs[i] == s0[i] && f.ensures((refs[i],), keep[i]),
                self@.take(idx as int) == filter_by(Seq::new(refs.len(), |i: int| *final(refs[i])), keep),
                self@.subrange(cur as int, len as int) == s0.subrange(cur as int, len as int),
            decreases len - cur,
        {
            proof {
                assert(self@.subrange(cur as int, len as int)[0] == self@[cur as int]);
                assert(s0.subrange(cur as int, len as int)[0] == s0[cur as int]);
            }
            let ghost pre = self@;
            let ghost vals = Seq::new(refs.len(), |i: int| *final(refs[i]));
            let x = self.get_mut(cur).unwrap();
            let (b, Ghost(xr)) = call_pred(&mut f, x);
            let ghost v = self@[cur as int];
            proof {
                let s = vals.push(v);
                lemma_filter_by_step(s, keep.push(b), cur as int);
                assert(keep.push(b).take(cur as int) =~= keep);
                assert(s.take(cur as int) =~= vals);
                assert(s.take(cur + 1) =~= s);
                assert(self@.take(idx as int) =~= pre.take(idx as int));
                assert(Seq::new(refs.push(xr).len(), |i: int| *final(refs.push(xr)[i])) =~= s);
            }
            let ghost mid = self@;
            if b {
                if idx != cur {
                    self.swap(idx, cur);
                }
                proof {
                    assert(self@.take(idx + 1) =~= filter_by(vals, keep).push(v));
                }
                idx = idx + 1;
            }
            proof {
                let keep_old = keep;
                let refs_old = refs;
                keep = keep.push(b);
                refs = refs.push(xr);
                assert forall|i: int| 0 <= i < cur + 1 implies *#[trigger] refs[i] == s0[i] && f.ensures((refs[i],), keep[i]) by {
                    if i < cur {
                        assert(refs[i] == refs_old[i]);
                        assert(keep[i] == keep_old[i]);
                    }
                }
                assert forall|j: int| cur + 1 <= j < len implies #[trigger] self@[j] == s0[j] by {
                    assert(pre[j] == pre.subrange(cur as int, len as int)[j - cur]);
                    assert(s0[j] == s0.subrange(cur as int, len as int)[j - cur]);
                    assert(mid[j] == pre[j]);
                }
                assert(self@.subrange(cur + 1, len as int) =~= s0.subrange(cur + 1, len as int));
            }
            cur = cur + 1;
        }
        if cur != idx {
            self.truncate(idx);
        }
        proof {
            assert(self@ =~= filter_by(Seq::new(refs.len(), |i: int| *final(refs[i])), keep));
        }
    }

    /// Makes the length `new_len`: removes elements from the back, or appends values produced
    /// by calling `generator` once per new element, in order.
    ///
    /// Returns `false` and leaves the deque unchanged if `new_len` exceeds the capacity.
    pub fn resize_with<G: FnMut() -> T>(&mut self, new_len: usize, generator: G) -> (r: bool)
        requires
            old(self).wf(),
            generator.requires(()),
        ensures
            final(self).wf(),
            final(self).physical_head() == old(self).physical_head(),
            r == (new_len <= N),
            !r ==> final(self)@ == old(self)@,
            r && new_len <= old(self)@.len() ==> final(self)@ == old(self)@.take(new_len as int),
            r && old(self)@.len() < new_len ==> {
                &&& final(self)@.len() == new_len
                &&& final(self)@.take(old(self)@.len() as int) == old(self)@
                &&& forall|i: int|
                    old(self)@.len() <= i < new_len ==> generator.ensures((), #[trigger] final(self)@[i])
            },
    {
        if new_len > N {
            return false;
        }
        let mut generator = generator;
        if new_len > self.len {
            let ghost l0 = self.len;
            let ghost g0 = generator;
            while self.len < new_len
                invariant
                    self.wf(),
                    self.physical_head() == old(self).physical_head(),
                    l0 == old(self)@.len(),
                    l0 <= self@.len() <= new_len <= N,
                    generator == g0,
                    g0.requires(()),
                    self@.take(l0 as int) == old(self)@,
                    forall|j: int| l0 <= j < self@.len() ==> g0.ensures((), #[trigger] self@[j]),
                decreases new_len - self.len,
            {
                let v = generator();
                let ghost pre = self@;
                self.push_back(v);
                assert(self@.take(l0 as int) =~= pre.take(l0 as int));
            }
        } else {
            self.truncate(new_len);
        }
        true
    }
}

} // verus!