//! Removing, in a range, the elements that a caller-supplied predicate selects.
use vstd::prelude::*;
use super::ArrayDeque;
use super::predicates::call_pred;
use super::filter::filter_by;
use crate::range::{IndexRange, range_valid, start_index, end_index};

verus! {

broadcast use vstd::function::group_function_axioms;

/// The flags of `f`, each one negated.
pub open spec fn negated(f: Seq<bool>) -> Seq<bool> {
    Seq::new(f.len(), |i: int| !f[i])
}

/// Filtering a sequence one element longer extends the result by that element exactly
/// when its flag is set.
pub proof fn lemma_filter_by_push<T>(s: Seq<T>, f: Seq<bool>, x: T, b: bool)
    requires
        f.len() == s.len(),
    ensures
        filter_by(s.push(x), f.push(b)) == if b {
            filter_by(s, f).push(x)
        } else {
            filter_by(s, f)
        },
{
    assert(s.push(x).drop_last() =~= s);
    assert(f.push(b).take(s.len() as int) =~= f);
}

/// The elements kept by a set of flags and those kept by the negated flags are, together,
/// as many as the sequence has.
pub proof fn lemma_filter_by_split_len<T>(s: Seq<T>, f: Seq<bool>)
    requires
        f.len() == s.len(),
    ensures
        filter_by(s, f).len() + filter_by(s, negated(f)).len() == s.len(),
    decreases s.len(),
{
    if s.len() > 0 {
        let n = s.len() - 1;
        lemma_filter_by_split_len(s.drop_last(), f.take(n));
        assert(negated(f).take(n) =~= negated(f.take(n)));
    }
}

/// Filtering read from the front: the first element is kept exactly when its flag is set,
/// ahead of what the rest keeps.
pub proof fn lemma_filter_by_front<T>(s: Seq<T>, f: Seq<bool>)
    requires
        f.len() == s.len(),
        s.len() > 0,
    ensures
        filter_by(s, f) == if f[0] {
            seq![s[0]] + filter_by(s.drop_first(), f.drop_first())
        } else {
            filter_by(s.drop_first(), f.drop_first())
        },
    decreases s.len(),
{
    let n = s.len() - 1;
    if n == 0 {
        assert(filter_by(s.drop_last(), f.take(0)) == Seq::<T>::empty());
        assert(filter_by(s.drop_first(), f.drop_first()) == Seq::<T>::empty());
        assert(Seq::<T>::empty().push(s[0]) =~= seq![s[0]] + Seq::<T>::empty());
    } else {
        lemma_filter_by_front(s.drop_last(), f.take(n));
        assert(s.drop_last().drop_first() =~= s.drop_first().drop_last());
        assert(f.take(n).drop_first() =~= f.drop_first().take(n - 1));
        let x = filter_by(s.drop_first().drop_last(), f.drop_first().take(n - 1));
        assert(filter_by(s.drop_first(), f.drop_first()) == if f[n] {
            x.push(s.last())
        } else {
            x
        });
        assert((seq![s[0]] + x).push(s.last()) =~= seq![s[0]] + x.push(s.last()));
    }
}

/// The loop that `extract_if` is equivalent to,
///
/// `while i < d.len() - tail { if pred(&mut d[i]) { removed.push(d.remove(i)) } else { i += 1 } }`,
///
/// run on contents `d` from position `i`, where the predicate's successive calls leave the
/// element they are given as `vals[t]` and answer `answers[t]`. Gives the contents when the
/// loop stops, the removed values in order, and the elements handed to the predicate in order.
pub open spec fn remove_loop<T>(d: Seq<T>, i: int, tail: int, vals: Seq<T>, answers: Seq<bool>) -> (Seq<T>, Seq<T>, Seq<T>)
    decreases vals.len(),
{
    if 0 <= i < d.len() - tail && vals.len() > 0 {
        let d1 = d.update(i, vals[0]);
        let rest = if answers[0] {
            remove_loop(d1.remove(i), i, tail, vals.drop_first(), answers.drop_first())
        } else {
            remove_loop(d1, i + 1, tail, vals.drop_first(), answers.drop_first())
        };
        (rest.0, if answers[0] { seq![vals[0]] + rest.1 } else { rest.1 }, seq![d[i]] + rest.2)
    } else {
        (d, Seq::empty(), Seq::empty())
    }
}

/// Run on contents `p + u` from position `p.len()`, with one call for each element of `u`
/// in front of its last `tail` ones, the loop hands those elements to the predicate in
/// order, keeps `p`, the values it does not select and the last `tail` elements, and
/// removes the values it selects.
pub proof fn lemma_remove_loop<T>(p: Seq<T>, u: Seq<T>, tail: int, vals: Seq<T>, answers: Seq<bool>)
    requires
        0 <= tail,
        vals.len() + tail == u.len(),
        answers.len() == vals.len(),
    ensures
        ({
            let r = remove_loop(p + u, p.len() as int, tail, vals, answers);
            &&& r.0 == p + filter_by(vals, negated(answers)) + u.skip(vals.len() as int)
            &&& r.1 == filter_by(vals, answers)
            &&& r.2 == u.take(vals.len() as int)
        }),
    decreases vals.len(),
{
    let i = p.len() as int;
    let k = vals.len() as int;
    if k == 0 {
        assert(p + filter_by(vals, negated(answers)) + u.skip(0) =~= p + u);
        assert(u.take(0) =~= Seq::<T>::empty());
    } else {
        let d = p + u;
        let d1 = d.update(i, vals[0]);
        let rv = vals.drop_first();
        let ra = answers.drop_first();
        lemma_filter_by_front(vals, answers);
        lemma_filter_by_front(vals, negated(answers));
        assert(negated(answers).drop_first() =~= negated(ra));
        assert(d[i] == u[0]);
        assert(u.skip(1).skip(k - 1) =~= u.skip(k));
        assert(seq![u[0]] + u.skip(1).take(k - 1) =~= u.take(k));
        if answers[0] {
            assert(d1.remove(i) =~= p + u.skip(1));
            lemma_remove_loop(p, u.skip(1), tail, rv, ra);
        } else {
            assert(d1 =~= p.push(vals[0]) + u.skip(1));
            lemma_remove_loop(p.push(vals[0]), u.skip(1), tail, rv, ra);
            assert(p.push(vals[0]) + filter_by(rv, negated(ra)) + u.skip(k) =~= p + (seq![vals[0]]
                + filter_by(rv, negated(ra))) + u.skip(k));
        }
    }
}

/// An iterator that removes, one at a time, the elements of a range of a deque that a
/// predicate selects. It borrows the deque: elements it has not reached yet stay in the
/// deque when it is dropped.
pub struct ExtractIf<'a, T, const N: usize, F> {
    deque: &'a mut ArrayDeque<T, N>,
    /// Position of the next element to inspect.
    idx: usize,
    /// End of the range still to inspect.
    end: usize,
    pred: F,
    /// The deque's contents when the iterator was made.
    orig: Ghost<Seq<T>>,
    /// The deque's physical head when the iterator was made.
    head: Ghost<int>,
    /// The range, in positions of the original contents.
    start: Ghost<int>,
    stop: Ghost<int>,
    /// The elements inspected so far, as the predicate left them.
    seen: Ghost<Seq<T>>,
    /// The predicate's answer for each inspected element.
    picked: Ghost<Seq<bool>>,
}

impl<'a, T, const N: usize, F> ExtractIf<'a, T, N, F> {
    /// The borrowed deque as it is now.
    pub closed spec fn deque(&self) -> ArrayDeque<T, N> {
        *self.deque
    }

    /// The reference through which the deque is borrowed.
    pub closed spec fn deque_ref(&self) -> &'a mut ArrayDeque<T, N> {
        self.deque
    }

    /// Position of the next element to inspect.
    pub closed spec fn next_index(&self) -> int {
        self.idx as int
    }

    /// End of the range still to inspect.
    pub closed spec fn scan_end(&self) -> int {
        self.end as int
    }

    /// The predicate that selects the elements to remove.
    pub closed spec fn predicate(&self) -> F {
        self.pred
    }

    /// The deque's contents when the iterator was made.
    pub closed spec fn original(&self) -> Seq<T> {
        self.orig@
    }

    /// The deque's physical head when the iterator was made.
    pub closed spec fn initial_head(&self) -> int {
        self.head@
    }

    /// Start of the range, as a position in the original contents.
    pub closed spec fn range_start(&self) -> int {
        self.start@
    }

    /// End of the range, as a position in the original contents.
    pub closed spec fn range_end(&self) -> int {
        self.stop@
    }

    /// The elements of the range inspected so far, in order, as the predicate left them.
    pub closed spec fn inspected(&self) -> Seq<T> {
        self.seen@
    }

    /// The predicate's answer for each inspected element.
    pub closed spec fn answers(&self) -> Seq<bool> {
        self.picked@
    }

    /// The elements removed and handed out so far, in order.
    pub open spec fn yielded(&self) -> Seq<T> {
        filter_by(self.inspected(), self.answers())
    }

    /// The inspected elements that stay in the deque, in order.
    pub open spec fn kept(&self) -> Seq<T> {
        filter_by(self.inspected(), negated(self.answers()))
    }

    /// Once the iterator is done with (dropped), the borrowed deque keeps the contents it has
    /// at that point.
    pub proof fn lemma_released(&self)
        requires
            has_resolved(*self),
        ensures
            *final(self.deque_ref()) == self.deque(),
    {
    }

    /// The deque is well formed, the range still to inspect lies within it, and the deque
    /// holds the elements before the range, the inspected elements not removed, and the
    /// elements not inspected yet, with its physical head where it was.
    pub closed spec fn wf(&self) -> bool {
        &&& self.deque.wf()
        &&& self.idx <= self.end <= self.deque@.len()
        &&& self.deque.physical_head() == self.head@
        &&& self.seen@.len() == self.picked@.len()
        &&& 0 <= self.start@
        &&& self.start@ + self.seen@.len() <= self.stop@ <= self.orig@.len()
        &&& self.idx == self.start@ + self.kept().len()
        &&& self.end == self.idx + (self.stop@ - self.start@ - self.seen@.len())
        &&& self.deque@ == self.orig@.take(self.start@) + self.kept() + self.orig@.skip(
            self.start@ + self.seen@.len(),
        )
    }

    /// Dropping the iterator, whether or not it was run to the end, leaves in the deque the
    /// elements before the range, the inspected elements it did not remove (as the predicate
    /// left them) and every element it had not reached, in their original order; the length
    /// drops by the number of elements removed, and the physical head stays where it was.
    pub proof fn law_extract_if_drop(&self)
        requires
            self.wf(),
            has_resolved(*self),
        ensures
            (*final(self.deque_ref()))@ == self.original().take(self.range_start()) + self.kept()
                + self.original().skip(self.range_start() + self.inspected().len()),
            (*final(self.deque_ref()))@.len() == self.original().len() - self.yielded().len(),
            (*final(self.deque_ref())).physical_head() == self.initial_head(),
    {
        lemma_filter_by_split_len(self.seen@, self.picked@);
    }

    /// Run to the end, the iterator does what the loop `remove_loop` describes: with the
    /// predicate answering and leaving the elements as it did for the iterator, the loop
    /// hands it the same elements in the same order, removes the same values in the same
    /// order, and leaves the same contents.
    pub proof fn law_extract_if_remove_loop(&self)
        requires
            self.wf(),
            self.next_index() == self.scan_end(),
        ensures
            ({
                let r = remove_loop(
                    self.original(),
                    self.range_start(),
                    self.original().len() - self.range_end(),
                    self.inspected(),
                    self.answers(),
                );
                &&& r.0 == self.deque()@
                &&& r.1 == self.yielded()
                &&& r.2 == self.original().subrange(self.range_start(), self.range_end())
            }),
    {
        let o = self.orig@;
        let st = self.start@;
        let k = self.seen@.len() as int;
        lemma_remove_loop(o.take(st), o.skip(st), o.len() - self.stop@, self.seen@, self.picked@);
        assert(o.take(st) + o.skip(st) =~= o);
        assert(o.skip(st).skip(k) =~= o.skip(st + k));
        assert(o.skip(st).take(k) =~= o.subrange(st, self.stop@));
    }
}

impl<'a, T, const N: usize, F: FnMut(&mut T) -> bool> ExtractIf<'a, T, N, F> {
    /// Inspects the elements of the range in order, calling the predicate once on each (it
    /// may modify the element), and removes and returns the first one it selects. Elements
    /// it does not select stay where they are; the elements behind a removed one move one
    /// slot forward, and the physical head does not move. Returns `None` once the range is
    /// exhausted.
    pub fn next(&mut self) -> (r: Option<T>)
        requires
            old(self).wf(),
            forall|i: int, x: &mut T|
                old(self).next_index() <= i < old(self).scan_end() && *x == old(self).deque()@[i]
                    ==> old(self).predicate().requires((x,)),
        ensures
            final(self).wf(),
            final(self).predicate() == old(self).predicate(),
            *final(final(self).deque_ref()) == *final(old(self).deque_ref()),
            final(self).original() == old(self).original(),
            final(self).initial_head() == old(self).initial_head(),
            final(self).range_start() == old(self).range_start(),
            final(self).range_end() == old(self).range_end(),
            final(self).deque().physical_head() == old(self).deque().physical_head(),
            match r {
                Some(v) => final(self).yielded() == old(self).yielded().push(v),
                None => final(self).yielded() == old(self).yielded() && final(self).next_index()
                    == final(self).scan_end(),
            },
            exists|refs: Seq<&mut T>|
                #![trigger refs.len()]
                {
                    let d = old(self).deque()@;
                    let i0 = old(self).next_index();
                    let e0 = old(self).scan_end();
                    let m = refs.len() as int;
                    &&& i0 + m <= e0
                    &&& forall|t: int|
                        0 <= t < m ==> *#[trigger] refs[t] == d[i0 + t] && old(self).predicate().ensures(
                            (refs[t],),
                            r is Some && t == m - 1,
                        )
                    &&& final(self).inspected() == old(self).inspected() + Seq::new(refs.len(), |q: int| *final(refs[q]))
                    &&& final(self).answers() == old(self).answers() + Seq::new(refs.len(), |q: int| r is Some && q == m - 1)
                    &&& match r {
                        Some(v) => {
                            &&& m >= 1
                            &&& v == *final(refs[m - 1])
                            &&& final(self).deque()@ == d.take(i0) + Seq::new(refs.len(), |q: int| *final(refs[q])).drop_last() + d.skip(i0 + m)
                            &&& final(self).next_index() == i0 + m - 1
                            &&& final(self).scan_end() == e0 - 1
                        },
                        None => {
                            &&& m == e0 - i0
                            &&& final(self).deque()@ == d.take(i0) + Seq::new(refs.len(), |q: int| *final(refs[q])) + d.skip(e0)
                            &&& final(self).next_index() == e0
                            &&& final(self).scan_end() == e0
                        },
                    }
                },
    {
        let ghost d = self.deque@;
        let ghost i0 = self.idx as int;
        let ghost e0 = self.end as int;
        let ghost p0 = self.pred;
        let ghost o = self.orig@;
        let ghost st = self.start@;
        let ghost sn0 = self.seen@;
        let ghost an0 = self.picked@;
        let ghost y0 = filter_by(sn0, an0);
        let ghost mut refs: Seq<&mut T> = Seq::empty();
        proof {
            assert(d =~= d.take(i0) + Seq::new(refs.len(), |q: int| *final(refs[q])) + d.skip(i0));
            assert(sn0 =~= sn0 + Seq::new(refs.len(), |q: int| *final(refs[q])));
            assert(an0 =~= an0 + Seq::new(refs.len(), |q: int| false));
        }
        while self.idx < self.end
            invariant
                self.wf(),
                self.pred == p0,
                p0 == old(self).predicate(),
                d == old(self).deque()@,
                i0 == old(self).next_index(),
                e0 == old(self).scan_end(),
                *final(self.deque) == *final(old(self).deque_ref()),
                self.orig@ == o,
                o == old(self).original(),
                self.head@ == old(self).initial_head(),
                self.deque.physical_head() == old(self).deque().physical_head(),
                self.start@ == st,
                st == old(self).range_start(),
                self.stop@ == old(self).range_end(),
                sn0 == old(self).inspected(),
                an0 == old(self).answers(),
                self.seen@ == sn0 + Seq::new(refs.len(), |q: int| *final(refs[q])),
                self.picked@ == an0 + Seq::new(refs.len(), |q: int| false),
                filter_by(self.seen@, self.picked@) == y0,
                y0 == old(self).yielded(),
                self.end == e0,
                self.idx == i0 + refs.len(),
                i0 <= self.idx <= e0 <= d.len(),
                forall|i: int, x: &mut T| i0 <= i < e0 && *x == d[i] ==> p0.requires((x,)),
                forall|t: int| 0 <= t < refs.len() ==> *#[trigger] refs[t] == d[i0 + t] && p0.ensures((refs[t],), false),
                self.deque@ == d.take(i0) + Seq::new(refs.len(), |q: int| *final(refs[q])) + d.skip(i0 + refs.len()),
            decreases self.end - self.idx,
        {
            let i = self.idx;
            let ghost pre = self.deque@;
            let ghost sn = self.seen@;
            let ghost an = self.picked@;
            let ghost kk = filter_by(sn, negated(an));
            proof {
                assert(pre[i as int] == d[i as int]);
            }
            let x = self.deque.get_mut(i).unwrap();
            let (b, Ghost(xr)) = call_pred(&mut self.pred, x);
            let ghost nrefs = refs.push(xr);
            let ghost v = self.deque@[i as int];
            proof {
                assert(self.deque@ == pre.update(i as int, *final(xr)));
                assert(v == *final(xr));
                assert(Seq::new(nrefs.len(), |q: int| *final(nrefs[q])) =~= Seq::new(refs.len(), |q: int| *final(refs[q])).push(*final(xr)));
                assert(Seq::new(nrefs.len(), |q: int| *final(nrefs[q])).drop_last() =~= Seq::new(refs.len(), |q: int| *final(refs[q])));
                assert forall|t: int| 0 <= t < nrefs.len() implies *#[trigger] nrefs[t] == d[i0 + t] && p0.ensures(
                    (nrefs[t],),
                    b && t == nrefs.len() - 1,
                ) by {
                    if t < refs.len() {
                        assert(nrefs[t] == refs[t]);
                    }
                }
                lemma_filter_by_push(sn, an, v, b);
                lemma_filter_by_push(sn, negated(an), v, !b);
                assert(negated(an.push(b)) =~= negated(an).push(!b));
            }
            self.seen = Ghost(sn.push(v));
            self.picked = Ghost(an.push(b));
            if b {
                self.end = self.end - 1;
                let r = self.deque.remove_shift_tail(i);
                proof {
                    assert(self.deque@ =~= d.take(i0) + Seq::new(nrefs.len(), |q: int| *final(nrefs[q])).drop_last() + d.skip(i0 + nrefs.len()));
                    assert(self.deque@ =~= o.take(st) + kk + o.skip(st + sn.len() + 1));
                    assert(self.seen@ =~= sn0 + Seq::new(nrefs.len(), |q: int| *final(nrefs[q])));
                    let rr = r;
                    assert(self.picked@ =~= an0 + Seq::new(nrefs.len(), |q: int| rr is Some && q == nrefs.len() - 1));
                }
                return r;
            }
            proof {
                assert(self.deque@ =~= d.take(i0) + Seq::new(nrefs.len(), |q: int| *final(nrefs[q])) + d.skip(i0 + nrefs.len()));
                assert(self.deque@ =~= o.take(st) + kk.push(v) + o.skip(st + sn.len() + 1));
                assert(self.seen@ =~= sn0 + Seq::new(nrefs.len(), |q: int| *final(nrefs[q])));
                assert(self.picked@ =~= an0 + Seq::new(nrefs.len(), |q: int| false));
                refs = nrefs;
            }
            self.idx = self.idx + 1;
        }
        proof {
            let rr: Option<T> = None;
            assert(self.picked@ =~= an0 + Seq::new(refs.len(), |q: int| rr is Some && q == refs.len() - 1));
        }
        None
    }

    /// Bounds on the number of elements still to be removed.
    pub fn size_hint(&self) -> (r: (usize, Option<usize>))
        requires
            self.wf(),
        ensures
            r == (0usize, Some((self.scan_end() - self.next_index()) as usize)),
    {
        (0, Some(self.end - self.idx))
    }
}

impl<T, const N: usize> ArrayDeque<T, N> {
    /// Returns an iterator that removes the elements in `range` that `filter` selects: see
    /// `ExtractIf::next`. The deque stays borrowed while the iterator lives; the elements
    /// the iterator has not reached when it is dropped stay in the deque.
    ///
    /// The range must lie within the deque.
    pub fn extract_if<F: FnMut(&mut T) -> bool>(&mut self, range: IndexRange, filter: F) -> (e: ExtractIf<'_, T, N, F>)
        requires
            old(self).wf(),
            range_valid(range, old(self)@.len() as int),
        ensures
            e.wf(),
            e.deque() == *old(self),
            e.next_index() == start_index(range.start),
            e.scan_end() == end_index(range.end, old(self)@.len() as int),
            e.predicate() == filter,
            e.original() == old(self)@,
            e.initial_head() == old(self).physical_head(),
            e.range_start() == start_index(range.start),
            e.range_end() == end_index(range.end, old(self)@.len() as int),
            e.inspected() == Seq::<T>::empty(),
            e.answers() == Seq::<bool>::empty(),
            *final(self) == *final(e.deque_ref()),
    {
        let len = self.len;
        let std::ops::Range { start, end } = crate::range::range(range, len);
        let ghost s0 = self@;
        let ghost h0 = self.physical_head();
        proof {
            let none: Seq<bool> = Seq::empty();
            assert(filter_by(Seq::<T>::empty(), negated(none)) =~= Seq::<T>::empty());
            assert(s0.take(start as int) + Seq::<T>::empty() + s0.skip(start as int) =~= s0);
        }
        ExtractIf {
            deque: self,
            idx: start,
            end,
            pred: filter,
            orig: Ghost(s0),
            head: Ghost(h0),
            start: Ghost(start as int),
            stop: Ghost(end as int),
            seen: Ghost(Seq::empty()),
            picked: Ghost(Seq::empty()),
        }
    }
}

} // verus!
