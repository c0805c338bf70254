//! Lexicographic ordering of deques.
use vstd::prelude::*;
use std::cmp::Ordering;
use vstd::std_specs::cmp::PartialOrdSpec;
use vstd::std_specs::cmp::PartialOrdSpecImpl;
use super::ArrayDeque;

verus! {

/// The elements of `s` from position `k` on.
pub open spec fn after<U>(s: Seq<U>, k: usize) -> Seq<U> {
    s.skip(k as int)
}

/// Lexicographic comparison of two sequences: the first pair of elements that does not
/// compare `Equal` decides; if one sequence is a prefix of the other, the shorter is less.
pub open spec fn lex_cmp<U: PartialOrd>(a: Seq<U>, b: Seq<U>) -> Option<Ordering>
    decreases a.len(),
{
    if a.len() == 0 {
        if b.len() == 0 {
            Some(Ordering::Equal)
        } else {
            Some(Ordering::Less)
        }
    } else if b.len() == 0 {
        Some(Ordering::Greater)
    } else {
        match a[0].partial_cmp_spec(&b[0]) {
            Some(Ordering::Equal) => lex_cmp(a.drop_first(), b.drop_first()),
            c => c,
        }
    }
}

/// Comparing the elements wrapped in `Some` compares the elements.
pub proof fn lemma_lex_cmp_some<U: PartialOrd>(a: Seq<U>, b: Seq<U>)
    ensures
        lex_cmp(a.map_values(|x: U| Some(x)), b.map_values(|x: U| Some(x))) == lex_cmp(a, b),
    decreases a.len(),
{
    let sa = a.map_values(|x: U| Some(x));
    let sb = b.map_values(|x: U| Some(x));
    if a.len() > 0 && b.len() > 0 {
        assert(sa.drop_first() =~= a.drop_first().map_values(|x: U| Some(x)));
        assert(sb.drop_first() =~= b.drop_first().map_values(|x: U| Some(x)));
        lemma_lex_cmp_some(a.drop_first(), b.drop_first());
    }
}

/// Elements that compare `Equal` pairwise at the front do not change a lexicographic
/// comparison: it is decided by what follows them.
proof fn lemma_lex_equal_prefix<U: PartialOrd>(a: Seq<U>, b: Seq<U>, k: int)
    requires
        0 <= k <= a.len(),
        k <= b.len(),
        forall|i: int| 0 <= i < k ==> #[trigger] a[i].partial_cmp_spec(&b[i]) == Some(Ordering::Equal),
    ensures
        lex_cmp(a, b) == lex_cmp(a.skip(k), b.skip(k)),
    decreases k,
{
    if k == 0 {
        assert(a.skip(0) =~= a);
        assert(b.skip(0) =~= b);
    } else {
        assert(a[0].partial_cmp_spec(&b[0]) == Some(Ordering::Equal));
        assert forall|i: int| 0 <= i < k - 1 implies #[trigger] a.drop_first()[i].partial_cmp_spec(
            &b.drop_first()[i],
        ) == Some(Ordering::Equal) by {
            assert(a[i + 1].partial_cmp_spec(&b[i + 1]) == Some(Ordering::Equal));
        }
        lemma_lex_equal_prefix(a.drop_first(), b.drop_first(), k - 1);
        assert(a.drop_first().skip(k - 1) =~= a.skip(k));
        assert(b.drop_first().skip(k - 1) =~= b.skip(k));
    }
}

impl<T: PartialOrd, const N: usize> ArrayDeque<T, N> {
    /// The first pair of elements that does not compare `Equal` decides the comparison of two
    /// deques: if the elements before position `k` compare `Equal` pairwise and the elements
    /// at `k` compare as `o` (less, greater, or incomparable), the deques compare as `o`,
    /// whatever their lengths.
    pub proof fn law_partial_cmp_first_difference(&self, other: &Self, k: int, o: Option<Ordering>)
        requires
            self.wf(),
            other.wf(),
            0 <= k < self@.len(),
            k < other@.len(),
            forall|i: int| 0 <= i < k ==> #[trigger] self@[i].partial_cmp_spec(&other@[i]) == Some(Ordering::Equal),
            self@[k].partial_cmp_spec(&other@[k]) == o,
            o != Some(Ordering::Equal),
        ensures
            PartialOrdSpec::partial_cmp_spec(self, other) == o,
    {
        self.lemma_partial_cmp_elements(other);
        lemma_lex_equal_prefix(self@, other@, k);
        assert(self@.skip(k)[0] == self@[k]);
        assert(other@.skip(k)[0] == other@[k]);
    }

    /// When every element of the shorter deque compares `Equal` to the element at the same
    /// position of the other, the shorter deque is less, the longer one greater, and deques of
    /// the same length compare `Equal`.
    pub proof fn law_partial_cmp_prefix(&self, other: &Self)
        requires
            self.wf(),
            other.wf(),
            forall|i: int|
                0 <= i < self@.len() && 0 <= i < other@.len() ==> #[trigger] self@[i].partial_cmp_spec(
                    &other@[i],
                ) == Some(Ordering::Equal),
        ensures
            self@.len() < other@.len() ==> PartialOrdSpec::partial_cmp_spec(self, other) == Some(Ordering::Less),
            self@.len() > other@.len() ==> PartialOrdSpec::partial_cmp_spec(self, other) == Some(Ordering::Greater),
            self@.len() == other@.len() ==> PartialOrdSpec::partial_cmp_spec(self, other) == Some(Ordering::Equal),
    {
        self.lemma_partial_cmp_elements(other);
        if self@.len() < other@.len() {
            lemma_lex_equal_prefix(self@, other@, self@.len() + 0int);
        } else {
            lemma_lex_equal_prefix(self@, other@, other@.len() + 0int);
        }
    }

    /// What `partial_cmp` computes: the lexicographic comparison of the live slots.
    pub closed spec fn deque_partial_cmp(&self, other: &Self) -> Option<Ordering> {
        if self.shape_ok() && other.shape_ok() {
            lex_cmp(self.slots(), other.slots())
        } else {
            None
        }
    }

    /// On well-formed deques, `partial_cmp` compares the elements lexicographically, front
    /// to back.
    pub proof fn lemma_partial_cmp_elements(&self, other: &Self)
        requires
            self.wf(),
            other.wf(),
        ensures
            self.deque_partial_cmp(other) == lex_cmp(self@, other@),
    {
        self.lemma_slots_view();
        other.lemma_slots_view();
        lemma_lex_cmp_some(self@, other@);
    }
}

/// One step of a lexicographic comparison: when both suffixes are nonempty and their first
/// elements compare `Equal`, the comparison continues with the next suffixes.
proof fn lemma_lex_step<U: PartialOrd>(a: Seq<U>, b: Seq<U>, k: usize)
    requires
        k < a.len(),
        k < b.len(),
        k + 1 <= usize::MAX,
    ensures
        after(a, k).len() > 0,
        after(b, k).len() > 0,
        after(a, k)[0] == a[k as int],
        after(b, k)[0] == b[k as int],
        after(a, k).drop_first() == after(a, (k + 1) as usize),
        after(b, k).drop_first() == after(b, (k + 1) as usize),
{
    assert(after(a, k).drop_first() =~= after(a, (k + 1) as usize));
    assert(after(b, k).drop_first() =~= after(b, (k + 1) as usize));
}

impl<T: PartialOrd, const N: usize> PartialOrd for ArrayDeque<T, N> {
    fn partial_cmp(&self, other: &Self) -> (r: Option<Ordering>) {
        if !self.check_shape() || !other.check_shape() {
            return None;
        }
        let la = self.live_len();
        let lb = other.live_len();
        let ghost sa = self.slots();
        let ghost sb = other.slots();
        proof {
            assert(after(sa, 0) =~= sa);
            assert(after(sb, 0) =~= sb);
        }
        let mut k: usize = 0;
        while k < la && k < lb
            invariant
                self.shape_ok(),
                other.shape_ok(),
                sa == self.slots(),
                sb == other.slots(),
                la == sa.len(),
                lb == sb.len(),
                k <= la,
                k <= lb,
                T::obeys_partial_cmp_spec() ==> lex_cmp(sa, sb) == lex_cmp(after(sa, k), after(sb, k)),
            decreases la - k,
        {
            let x = self.slot_at(k);
            let y = other.slot_at(k);
            proof {
                lemma_lex_step(sa, sb, k);
            }
            let c = match (x, y) {
                (Some(p), Some(q)) => p.partial_cmp(q),
                (None, None) => Some(Ordering::Equal),
                (None, Some(_)) => Some(Ordering::Less),
                (Some(_), None) => Some(Ordering::Greater),
            };
            match c {
                Some(Ordering::Equal) => {},
                _ => {
                    return c;
                },
            }
            k = k + 1;
        }
        if k < la {
            Some(Ordering::Greater)
        } else if k < lb {
            Some(Ordering::Less)
        } else {
            Some(Ordering::Equal)
        }
    }
}

impl<T: PartialOrd, const N: usize> PartialOrdSpecImpl for ArrayDeque<T, N> {
    open spec fn obeys_partial_cmp_spec() -> bool {
        T::obeys_partial_cmp_spec()
    }

    open spec fn partial_cmp_spec(&self, other: &Self) -> Option<Ordering> {
        self.deque_partial_cmp(other)
    }
}

} // verus!
