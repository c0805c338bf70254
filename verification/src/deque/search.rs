//! Binary searches over a deque that is sorted, or partitioned, with respect to a
//! caller-supplied comparator or predicate.
use vstd::prelude::*;
use std::cmp::Ordering;
use super::ArrayDeque;
use vstd::std_specs::cmp::OrdSpec;

verus! {

broadcast use vstd::function::group_function_axioms;

/// The element at position `i` of `s`.
pub open spec fn nth<T>(s: Seq<T>, i: usize) -> T {
    s[i as int]
}

/// The element just before position `i` of `s`.
pub open spec fn before<T>(s: Seq<T>, i: usize) -> T {
    s[i - 1]
}

/// `f` may map `x` to a key that compares to `b` as `o` (when `B`'s ordering is specified).
pub open spec fn key_answers<T, B: Ord, F: FnMut(&T) -> B>(f: F, x: &T, b: &B, o: Ordering) -> bool {
    exists|k: B| #[trigger] f.ensures((x,), k) && (B::obeys_cmp_spec() ==> k.cmp_spec(b) == o)
}

/// Calls `f` on `x` and compares the key it returns with `b`.
fn key_order<T, B: Ord, F: FnMut(&T) -> B>(f: &mut F, x: &T, b: &B) -> (r: Ordering)
    requires
        (*old(f)).requires((x,)),
    ensures
        *final(f) == *old(f),
        key_answers(*old(f), x, b, r),
{
    let k = (*f)(x);
    k.cmp(b)
}

impl<T, const N: usize> ArrayDeque<T, N> {
    /// Binary search for a position where `pred` flips from `true` to `false`, within
    /// `lo..=hi`, given that `pred` was seen true just before `lo` and false at `hi`.
    fn partition_in<P: FnMut(&T) -> bool>(&self, pred: &mut P, lo: usize, hi: usize) -> (r: usize)
        requires
            self.wf(),
            lo <= hi <= self@.len(),
            forall|i: int| 0 <= i < self@.len() ==> (*old(pred)).requires((&self@[i],)),
            lo > 0 ==> (*old(pred)).ensures((&before(self@, lo),), true),
            hi < self@.len() ==> (*old(pred)).ensures((&nth(self@, hi),), false),
        ensures
            *final(pred) == *old(pred),
            lo <= r <= hi,
            r > 0 ==> (*old(pred)).ensures((&before(self@, r),), true),
            r < self@.len() ==> (*old(pred)).ensures((&nth(self@, r),), false),
    {
        let ghost p0 = *pred;
        let mut a = lo;
        let mut b = hi;
        while a < b
            invariant
                self.wf(),
                *pred == p0,
                p0 == *old(pred),
                lo <= a <= b <= hi <= self@.len(),
                forall|i: int| 0 <= i < self@.len() ==> p0.requires((&self@[i],)),
                a > 0 ==> p0.ensures((&before(self@, a),), true),
                b < self@.len() ==> p0.ensures((&nth(self@, b),), false),
            decreases b - a,
        {
            let mid = a + (b - a) / 2;
            let x = self.get(mid).unwrap();
            if (*pred)(x) {
                a = mid + 1;
            } else {
                b = mid;
            }
        }
        a
    }

    /// Returns the index of the partition point of `pred`: the first position of the part
    /// where it is false, for a deque whose elements satisfying `pred` all come first.
    ///
    /// The result `r` is a position where `pred` was seen to flip: it was true on the element
    /// before `r` (if any) and false on the element at `r` (if any). On a deque that is not
    /// partitioned by `pred`, any such position may be returned.
    pub fn partition_point<P: FnMut(&T) -> bool>(&self, pred: P) -> (r: usize)
        requires
            self.wf(),
            forall|i: int| 0 <= i < self@.len() ==> pred.requires((&self@[i],)),
        ensures
            r <= self@.len(),
            r > 0 ==> pred.ensures((&before(self@, r),), true),
            r < self@.len() ==> pred.ensures((&nth(self@, r),), false),
    {
        let mut pred = pred;
        let front = self.front_run_len();
        if front < self.len {
            let x = self.get(front).unwrap();
            if pred(x) {
                return self.partition_in(&mut pred, front + 1, self.len);
            }
        }
        self.partition_in(&mut pred, 0, front)
    }

    /// Binary search with comparator `f` within `lo..hi`, given that `f` was seen to answer
    /// `Less` just before `lo` and `Greater` at `hi`.
    fn search_by_in<F: FnMut(&T) -> Ordering>(&self, f: &mut F, lo: usize, hi: usize) -> (r: Result<usize, usize>)
        requires
            self.wf(),
            lo <= hi <= self@.len(),
            forall|i: int| 0 <= i < self@.len() ==> (*old(f)).requires((&self@[i],)),
            lo > 0 ==> (*old(f)).ensures((&before(self@, lo),), Ordering::Less),
            hi < self@.len() ==> (*old(f)).ensures((&nth(self@, hi),), Ordering::Greater),
        ensures
            *final(f) == *old(f),
            match r {
                Ok(i) => lo <= i < hi && (*old(f)).ensures((&nth(self@, i),), Ordering::Equal),
                Err(i) => lo <= i <= hi && (i > 0 ==> (*old(f)).ensures((&before(self@, i),), Ordering::Less))
                    && (i < self@.len() ==> (*old(f)).ensures((&nth(self@, i),), Ordering::Greater)),
            },
    {
        let ghost f0 = *f;
        let mut a = lo;
        let mut b = hi;
        while a < b
            invariant
                self.wf(),
                *f == f0,
                f0 == *old(f),
                lo <= a <= b <= hi <= self@.len(),
                forall|i: int| 0 <= i < self@.len() ==> f0.requires((&self@[i],)),
                a > 0 ==> f0.ensures((&before(self@, a),), Ordering::Less),
                b < self@.len() ==> f0.ensures((&nth(self@, b),), Ordering::Greater),
            decreases b - a,
        {
            let mid = a + (b - a) / 2;
            let x = self.get(mid).unwrap();
            match (*f)(x) {
                Ordering::Less => {
                    a = mid + 1;
                },
                Ordering::Greater => {
                    b = mid;
                },
                Ordering::Equal => {
                    return Ok(mid);
                },
            }
        }
        Err(a)
    }

    /// Binary searches a sorted deque with a comparator that tells, for an element, whether
    /// it is `Less`, `Equal` or `Greater` than the target.
    ///
    /// `Ok(i)`: the comparator answered `Equal` for the element at `i` (with several matches,
    /// any of them). `Err(i)`: the position where a matching element could be inserted: the
    /// comparator answered `Less` for the element before `i` (if any) and `Greater` for the
    /// element at `i` (if any). On a deque not sorted for the comparator the result is any
    /// position with these properties.
    pub fn binary_search_by<F: FnMut(&T) -> Ordering>(&self, f: F) -> (r: Result<usize, usize>)
        requires
            self.wf(),
            forall|i: int| 0 <= i < self@.len() ==> f.requires((&self@[i],)),
        ensures
            match r {
                Ok(i) => i < self@.len() && f.ensures((&nth(self@, i),), Ordering::Equal),
                Err(i) => i <= self@.len() && (i > 0 ==> f.ensures((&before(self@, i),), Ordering::Less))
                    && (i < self@.len() ==> f.ensures((&nth(self@, i),), Ordering::Greater)),
            },
    {
        let mut f = f;
        let front = self.front_run_len();
        if front < self.len {
            let x = self.get(front).unwrap();
            match f(x) {
                Ordering::Equal => {
                    return Ok(front);
                },
                Ordering::Less => {
                    return self.search_by_in(&mut f, front + 1, self.len);
                },
                Ordering::Greater => {},
            }
        }
        self.search_by_in(&mut f, 0, front)
    }

    /// Binary searches a sorted deque for `x`.
    ///
    /// `Ok(i)`: the element at `i` compares equal to `x` (with several matches, any of them).
    /// `Err(i)`: the position where `x` could be inserted keeping the order: the element
    /// before `i` (if any) is less than `x` and the element at `i` (if any) greater. This is
    /// stated for types whose ordering is specified.
    pub fn binary_search(&self, x: &T) -> (r: Result<usize, usize>)
        where T: Ord,
        requires
            self.wf(),
        ensures
            match r {
                Ok(i) => i < self@.len(),
                Err(i) => i <= self@.len(),
            },
            T::obeys_cmp_spec() ==> match r {
                Ok(i) => nth(self@, i).cmp_spec(x) == Ordering::Equal,
                Err(i) => (i > 0 ==> before(self@, i).cmp_spec(x) == Ordering::Less)
                    && (i < self@.len() ==> nth(self@, i).cmp_spec(x) == Ordering::Greater),
            },
    {
        let f = |e: &T| -> (o: Ordering)
            ensures
                T::obeys_cmp_spec() ==> o == e.cmp_spec(x),
            { e.cmp(x) };
        self.binary_search_by(f)
    }

    /// Binary search by key within `lo..hi`, given that the key just before `lo` was seen
    /// less than `b` and the key at `hi` greater.
    fn search_by_key_in<B: Ord, F: FnMut(&T) -> B>(&self, b: &B, f: &mut F, lo: usize, hi: usize) -> (r: Result<usize, usize>)
        requires
            self.wf(),
            lo <= hi <= self@.len(),
            forall|i: int| 0 <= i < self@.len() ==> (*old(f)).requires((&self@[i],)),
            lo > 0 ==> key_answers(*old(f), &before(self@, lo), b, Ordering::Less),
            hi < self@.len() ==> key_answers(*old(f), &nth(self@, hi), b, Ordering::Greater),
        ensures
            *final(f) == *old(f),
            match r {
                Ok(i) => lo <= i < hi && key_answers(*old(f), &nth(self@, i), b, Ordering::Equal),
                Err(i) => lo <= i <= hi && (i > 0 ==> key_answers(*old(f), &before(self@, i), b, Ordering::Less))
                    && (i < self@.len() ==> key_answers(*old(f), &nth(self@, i), b, Ordering::Greater)),
            },
    {
        let ghost f0 = *f;
        let mut a = lo;
        let mut c = hi;
        while a < c
            invariant
                self.wf(),
                *f == f0,
                f0 == *old(f),
                lo <= a <= c <= hi <= self@.len(),
                forall|i: int| 0 <= i < self@.len() ==> f0.requires((&self@[i],)),
                a > 0 ==> key_answers(f0, &before(self@, a), b, Ordering::Less),
                c < self@.len() ==> key_answers(f0, &nth(self@, c), b, Ordering::Greater),
            decreases c - a,
        {
            let mid = a + (c - a) / 2;
            let x = self.get(mid).unwrap();
            match key_order(f, x, b) {
                Ordering::Less => {
                    a = mid + 1;
                },
                Ordering::Greater => {
                    c = mid;
                },
                Ordering::Equal => {
                    return Ok(mid);
                },
            }
        }
        Err(a)
    }

    /// Binary searches a deque sorted by the key `f` for the key `b`.
    ///
    /// `Ok(i)`: the key of the element at `i` compares equal to `b` (with several matches,
    /// any of them). `Err(i)`: the position where an element with key `b` could be inserted:
    /// the key of the element before `i` (if any) is less than `b` and the key of the element
    /// at `i` (if any) greater. Keys are compared by `B`'s ordering, where it is specified.
    pub fn binary_search_by_key<B: Ord, F: FnMut(&T) -> B>(&self, b: &B, f: F) -> (r: Result<usize, usize>)
        requires
            self.wf(),
            forall|i: int| 0 <= i < self@.len() ==> f.requires((&self@[i],)),
        ensures
            match r {
                Ok(i) => i < self@.len() && key_answers(f, &nth(self@, i), b, Ordering::Equal),
                Err(i) => i <= self@.len() && (i > 0 ==> key_answers(f, &before(self@, i), b, Ordering::Less))
                    && (i < self@.len() ==> key_answers(f, &nth(self@, i), b, Ordering::Greater)),
            },
    {
        let mut f = f;
        let front = self.front_run_len();
        if front < self.len {
            let x = self.get(front).unwrap();
            match key_order(&mut f, x, b) {
                Ordering::Equal => {
                    return Ok(front);
                },
                Ordering::Less => {
                    return self.search_by_key_in(b, &mut f, front + 1, self.len);
                },
                Ordering::Greater => {},
            }
        }
        self.search_by_key_in(b, &mut f, 0, front)
    }
}

} // verus!
