//! Index ranges into the logical contents of a deque.
use vstd::prelude::*;
use std::ops::Range;

verus! {

/// One end of an index range.
#[derive(Clone, Copy, Debug, PartialEq, Eq, Structural)]
pub enum Bound {
    Included(usize),
    Excluded(usize),
    Unbounded,
}

/// A range of logical indices, given by its two ends.
#[derive(Clone, Copy, Debug, PartialEq, Eq, Structural)]
pub struct IndexRange {
    pub start: Bound,
    pub end: Bound,
}

impl IndexRange {
    /// `start..end`
    pub fn new(start: usize, end: usize) -> (r: Self)
        ensures
            r == (IndexRange { start: Bound::Included(start), end: Bound::Excluded(end) }),
    {
        IndexRange { start: Bound::Included(start), end: Bound::Excluded(end) }
    }

    /// `..`
    pub fn full() -> (r: Self)
        ensures
            r == (IndexRange { start: Bound::Unbounded, end: Bound::Unbounded }),
    {
        IndexRange { start: Bound::Unbounded, end: Bound::Unbounded }
    }

    /// `start..`
    pub fn from_start(start: usize) -> (r: Self)
        ensures
            r == (IndexRange { start: Bound::Included(start), end: Bound::Unbounded }),
    {
        IndexRange { start: Bound::Included(start), end: Bound::Unbounded }
    }

    /// `..end`
    pub fn up_to(end: usize) -> (r: Self)
        ensures
            r == (IndexRange { start: Bound::Unbounded, end: Bound::Excluded(end) }),
    {
        IndexRange { start: Bound::Unbounded, end: Bound::Excluded(end) }
    }

    /// `start..=end`
    pub fn inclusive(start: usize, end: usize) -> (r: Self)
        ensures
            r == (IndexRange { start: Bound::Included(start), end: Bound::Included(end) }),
    {
        IndexRange { start: Bound::Included(start), end: Bound::Included(end) }
    }

    /// `..=end`
    pub fn up_to_inclusive(end: usize) -> (r: Self)
        ensures
            r == (IndexRange { start: Bound::Unbounded, end: Bound::Included(end) }),
    {
        IndexRange { start: Bound::Unbounded, end: Bound::Included(end) }
    }
}

/// The exclusive end that `end` denotes in a sequence of length `len`.
pub open spec fn end_index(end: Bound, len: int) -> int {
    match end {
        Bound::Included(e) => e + 1,
        Bound::Excluded(e) => e as int,
        Bound::Unbounded => len,
    }
}

/// The inclusive start that `start` denotes.
pub open spec fn start_index(start: Bound) -> int {
    match start {
        Bound::Included(s) => s as int,
        Bound::Excluded(s) => s + 1,
        Bound::Unbounded => 0,
    }
}

/// Whether `r` denotes a valid range into a sequence of length `len`:
/// `start <= end <= len` once both ends are resolved.
pub open spec fn range_valid(r: IndexRange, len: int) -> bool {
    let end = end_index(r.end, len);
    &&& end <= len
    &&& start_index(r.start) <= end
}

/// Resolves `r` against a sequence of length `len`; the range must be valid.
pub fn range(r: IndexRange, len: usize) -> (res: Range<usize>)
    requires
        range_valid(r, len as int),
    ensures
        res.start == start_index(r.start),
        res.end == end_index(r.end, len as int),
{
    let end = match r.end {
        Bound::Included(e) => e + 1,
        Bound::Excluded(e) => e,
        Bound::Unbounded => len,
    };
    let start = match r.start {
        Bound::Excluded(s) => s + 1,
        Bound::Included(s) => s,
        Bound::Unbounded => 0,
    };
    Range { start, end }
}

/// Resolves `r` against a sequence of length `len`, or returns `None` if it is not valid.
pub fn try_range(r: IndexRange, len: usize) -> (res: Option<Range<usize>>)
    ensures
        res is Some <==> range_valid(r, len as int),
        res is Some ==> res.unwrap().start == start_index(r.start) && res.unwrap().end
            == end_index(r.end, len as int),
{
    let end = match r.end {
        Bound::Included(e) => {
            if e >= len {
                return None;
            }
            e + 1
        },
        Bound::Excluded(e) => {
            if e > len {
                return None;
            }
            e
        },
        Bound::Unbounded => len,
    };
    let start = match r.start {
        Bound::Excluded(s) => {
            if s >= end {
                return None;
            }
            s + 1
        },
        Bound::Included(s) => {
            if s > end {
                return None;
            }
            s
        },
        Bound::Unbounded => 0,
    };
    Some(Range { start, end })
}

} // verus!
