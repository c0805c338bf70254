//! Keeping the elements that satisfy a predicate.
use vstd::prelude::*;
use super::ArrayDeque;

verus! {

broadcast use vstd::function::group_function_axioms;

/// The elements of `s` whose flag in `keep` is set, in order.
pub open spec fn filter_by<T>(s: Seq<T>, keep: Seq<bool>) -> Seq<T>
    decreases s.len(),
{
    if s.len() == 0 {
        Seq::empty()
    } else {
        let rest = filter_by(s.drop_last(), keep.take(s.len() - 1));
        if keep[s.len() - 1] {
            rest.push(s.last())
        } else {
            rest
        }
    }
}

/// Keeping the flagged elements of a prefix one element longer extends the result by
/// that element exactly when it is flagged.
pub proof fn lemma_filter_by_step<T>(s: Seq<T>, keep: Seq<bool>, k: int)
    requires
        0 <= k < s.len(),
        keep.len() == k + 1,
    ensures
        filter_by(s.take(k + 1), keep) == if keep[k] {
            filter_by(s.take(k), keep.take(k)).push(s[k])
        } else {
            filter_by(s.take(k), keep.take(k))
        },
{
    assert(s.take(k + 1).drop_last() =~= s.take(k));
}

impl<T, const N: usize> ArrayDeque<T, N> {
    /// Keeps only the elements for which `f` returns `true`, visiting each element once,
    /// front to back, and preserving the order of the kept elements.
    pub fn retain<F>(&mut self, mut f: F)
        where F: FnMut(&T) -> bool,
        requires
            old(self).wf(),
            forall|i: int| 0 <= i < old(self)@.len() ==> f.requires((&old(self)@[i],)),
        ensures
            final(self).wf(),
            final(self).physical_head() == old(self).physical_head(),
            exists|keep: Seq<bool>|
                #![trigger filter_by(old(self)@, keep)]
                {
                    &&& keep.len() == old(self)@.len()
                    &&& forall|i: int|
                        0 <= i < old(self)@.len() ==> f.ensures((&old(self)@[i],), #[trigger] keep[i])
                    &&& final(self)@ == filter_by(old(self)@, keep)
                },
    {
        let len = self.len;
        let mut idx: usize = 0;
        let mut cur: usize = 0;
        let ghost mut keep: Seq<bool> = Seq::empty();
        let ghost s0 = old(self)@;
        let ghost f0 = f;
        proof {
            assert(s0.take(0) =~= Seq::<T>::empty());
            assert(self@.take(0) =~= Seq::<T>::empty());
        }
        while cur < len
            invariant
                self.wf(),
                self.physical_head() == old(self).physical_head(),
                s0 == old(self)@,
                self@.len() == len,
                len == s0.len(),
                idx <= cur <= len,
                keep.len() == cur,
                f == f0,
                forall|i: int| 0 <= i < s0.len() ==> f.requires((&s0[i],)),
                forall|i: int| 0 <= i < cur ==> f.ensures((&s0[i],), #[trigger] keep[i]),
                self@.take(idx as int) == filter_by(s0.take(cur as int), keep),
                self@.subrange(cur as int, len as int) == s0.subrange(cur as int, len as int),
            decreases len - cur,
        {
            proof {
                assert(self@.subrange(cur as int, len as int)[0] == self@[cur as int]);
                assert(s0.subrange(cur as int, len as int)[0] == s0[cur as int]);
            }
            let ghost pre = self@;
            let x = self.get(cur).unwrap();
            let b = f(x);
            proof {
                lemma_filter_by_step(s0, keep.push(b), cur as int);
                assert(keep.push(b).take(cur as int) =~= keep);
            }
            if b {
                if idx != cur {
                    self.swap(idx, cur);
                }
                proof {
                    assert(self@.take(idx + 1) =~= filter_by(s0.take(cur as int), keep).push(s0[cur as int]));
                }
                idx = idx + 1;
            }
            proof {
                keep = keep.push(b);
                assert forall|j: int| cur + 1 <= j < len implies #[trigger] self@[j] == s0[j] by {
                    assert(pre[j] == pre.subrange(cur as int, len as int)[j - cur]);
                    assert(s0[j] == s0.subrange(cur as int, len as int)[j - cur]);
                }
                assert(self@.subrange(cur + 1, len as int) =~= s0.subrange(cur + 1, len as int));
            }
            cur = cur + 1;
        }
        if cur != idx {
            self.truncate(idx);
        }
        proof {
            assert(s0.take(len as int) =~= s0);
            assert(self@ =~= filter_by(s0, keep));
            assert(keep.len() == s0.len());
            assert(forall|i: int| 0 <= i < s0.len() ==> f.ensures((&s0[i],), #[trigger] keep[i]));
        }
    }
}

} // verus!
