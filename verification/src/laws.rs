//! Properties that relate several operations of the deque, stated over the views and spec
//! functions that the operations' contracts use.
use vstd::prelude::*;
use crate::ring::{rotate_left_head, rotate_right_head, contiguous_head, first_run_len};
use crate::deque::{filter_by, taken_of, overflow_of};
use crate::deque::{nth, before};

verus! {

/// Popping from the back right after pushing to the back returns the pushed element and
/// restores the contents (`push_back` then `pop_back`).
pub proof fn law_push_back_pop_back<T>(s: Seq<T>, v: T)
    ensures
        s.push(v).last() == v,
        s.push(v).drop_last() == s,
{
    assert(s.push(v).drop_last() =~= s);
}

/// Popping from the front right after pushing to the front returns the pushed element and
/// restores the contents (`push_front` then `pop_front`).
pub proof fn law_push_front_pop_front<T>(s: Seq<T>, v: T)
    ensures
        (seq![v] + s)[0] == v,
        (seq![v] + s).drop_first() == s,
{
    assert((seq![v] + s).drop_first() =~= s);
}

/// First in, first out: pushing to the back does not change which element the front pop
/// returns, and the pushed element ends up behind the rest (`push_back` then `pop_front`).
pub proof fn law_queue_order<T>(s: Seq<T>, v: T)
    requires
        s.len() > 0,
    ensures
        s.push(v)[0] == s[0],
        s.push(v).drop_first() == s.drop_first().push(v),
{
    assert(s.push(v).drop_first() =~= s.drop_first().push(v));
}

/// Rotating right by `n` undoes rotating left by `n`, both for the contents and for the
/// physical layout (`rotate_left` then `rotate_right`).
pub proof fn law_rotate_left_right<T>(s: Seq<T>, n: int, h: int, cap: int)
    requires
        0 <= n <= s.len() <= cap,
        0 <= h < cap,
    ensures
        ({
            let t = s.skip(n) + s.take(n);
            &&& t.skip(t.len() - n) + t.take(t.len() - n) == s
            &&& rotate_right_head(rotate_left_head(h, n, s.len() as int, cap), n, s.len() as int, cap) == h
        }),
{
    let t = s.skip(n) + s.take(n);
    assert(t.skip(t.len() - n) =~= s.take(n));
    assert(t.take(t.len() - n) =~= s.skip(n));
    assert(s.take(n) + s.skip(n) =~= s);
}

/// Rotating left by `n` undoes rotating right by `n`, both for the contents and for the
/// physical layout (`rotate_right` then `rotate_left`).
pub proof fn law_rotate_right_left<T>(s: Seq<T>, n: int, h: int, cap: int)
    requires
        0 <= n <= s.len() <= cap,
        0 <= h < cap,
    ensures
        ({
            let t = s.skip(s.len() - n) + s.take(s.len() - n);
            &&& t.skip(n) + t.take(n) == s
            &&& rotate_left_head(rotate_right_head(h, n, s.len() as int, cap), n, s.len() as int, cap) == h
        }),
{
    let t = s.skip(s.len() - n) + s.take(s.len() - n);
    assert(t.skip(n) =~= s.take(s.len() - n));
    assert(t.take(n) =~= s.skip(s.len() - n));
    assert(s.take(s.len() - n) + s.skip(s.len() - n) =~= s);
}

/// Removing at `i` right after inserting `v` at `i` returns `v` and restores the contents
/// (`insert` then `remove`).
pub proof fn law_insert_remove<T>(s: Seq<T>, i: int, v: T)
    requires
        0 <= i <= s.len(),
    ensures
        s.insert(i, v)[i] == v,
        s.insert(i, v).remove(i) == s,
{
    assert(s.insert(i, v).remove(i) =~= s);
}

/// Swapping the same two positions twice restores the contents.
pub proof fn law_swap_twice<T>(s: Seq<T>, i: int, j: int)
    requires
        0 <= i < s.len(),
        0 <= j < s.len(),
    ensures
        ({
            let t = s.update(i, s[j]).update(j, s[i]);
            t.update(i, t[j]).update(j, t[i]) == s
        }),
{
    let t = s.update(i, s[j]).update(j, s[i]);
    assert(t.update(i, t[j]).update(j, t[i]) =~= s);
}

/// Appending the part that `split_off(at)` returned to the part it kept gives back the
/// contents before the split, and the two parts always fit together (`split_off` then `append`).
pub proof fn law_split_off_append<T>(s: Seq<T>, at: int, cap: int)
    requires
        0 <= at <= s.len() <= cap,
    ensures
        s.take(at).len() + s.skip(at).len() <= cap,
        s.take(at) + s.skip(at) == s,
{
    assert(s.take(at) + s.skip(at) =~= s);
}

/// What `drain` removes, put back between what it keeps, gives the contents before the call.
pub proof fn law_drain_reassembles<T>(s: Seq<T>, start: int, end: int)
    requires
        0 <= start <= end <= s.len(),
    ensures
        s.take(start) + s.subrange(start, end) + s.skip(end) == s,
{
    assert(s.take(start) + s.subrange(start, end) + s.skip(end) =~= s);
}

/// After `make_contiguous` the first slice of `as_slices` holds every element, so the
/// second is empty.
pub proof fn law_contiguous_single_slice(h: int, len: int, cap: int)
    requires
        0 <= len <= cap,
        0 <= h < cap,
    ensures
        first_run_len(contiguous_head(h, len, cap), len, cap) == len,
        0 <= contiguous_head(h, len, cap) < cap,
{
}

/// Keeping the elements with a flag set never lengthens the contents, and keeping all of
/// them changes nothing (`retain` with a predicate that holds everywhere).
pub proof fn law_filter_keep_all<T>(s: Seq<T>, keep: Seq<bool>)
    requires
        keep.len() == s.len(),
    ensures
        filter_by(s, keep).len() <= s.len(),
        (forall|i: int| 0 <= i < s.len() ==> keep[i]) ==> filter_by(s, keep) == s,
    decreases s.len(),
{
    if s.len() > 0 {
        law_filter_keep_all(s.drop_last(), keep.take(s.len() - 1));
        if forall|i: int| 0 <= i < s.len() ==> keep[i] {
            assert(filter_by(s.drop_last(), keep.take(s.len() - 1)).push(s.last()) =~= s);
        }
    }
}

/// Filling a deque from an iterator with no more items than the free room takes all of
/// them and leaves nothing behind (`try_extend_from_iter`, `try_from_iter`, `try_from_vec`).
pub proof fn law_fill_takes_all<T>(rem: Seq<T>, room: int)
    requires
        rem.len() <= room,
    ensures
        taken_of(rem, room) == rem,
        overflow_of(rem, room) is None,
{
}

/// Filling from an iterator with more items than the free room takes exactly the room's
/// worth, and the items taken, the first one left and the rest are the iterator's items
/// in order.
pub proof fn law_fill_overflow<T>(rem: Seq<T>, room: int)
    requires
        0 <= room < rem.len(),
    ensures
        taken_of(rem, room).len() == room,
        overflow_of(rem, room) matches Some((v, rest)) && taken_of(rem, room) + seq![v] + rest == rem,
{
    assert(rem.take(room) + seq![rem[room]] + rem.skip(room + 1) =~= rem);
}

/// Bytes read back from a deque come out in the order they were written: writing `b` to a
/// deque holding `s` and then reading everything gives `s` followed by `b`; reading exactly
/// `s.len()` bytes first gives `s` and leaves `b` (`write_all` then `read_exact`).
pub proof fn law_bytes_fifo(s: Seq<u8>, b: Seq<u8>)
    ensures
        (s + b).take(s.len() as int) == s,
        (s + b).skip(s.len() as int) == b,
{
    assert((s + b).take(s.len() as int) =~= s);
    assert((s + b).skip(s.len() as int) =~= b);
}

/// A partition point is unique: for a predicate with one answer per element under which
/// the elements are partitioned (no `false` before a `true`), two positions where the
/// predicate flips from `true` to `false` are the same position (`partition_point`).
pub proof fn law_partition_point_unique<T, P: FnMut(&T) -> bool>(s: Seq<T>, pred: P, r1: usize, r2: usize)
    requires
        forall|i: int| 0 <= i < s.len() ==> !(pred.ensures((&s[i],), true) && pred.ensures((&s[i],), false)),
        forall|i: int, j: int| 0 <= i < j < s.len() && pred.ensures((&s[j],), true) ==> !pred.ensures((&s[i],), false),
        r1 <= s.len(),
        r2 <= s.len(),
        r1 > 0 ==> pred.ensures((&before(s, r1),), true),
        r1 < s.len() ==> pred.ensures((&nth(s, r1),), false),
        r2 > 0 ==> pred.ensures((&before(s, r2),), true),
        r2 < s.len() ==> pred.ensures((&nth(s, r2),), false),
    ensures
        r1 == r2,
{
    if r1 < r2 {
        assert(pred.ensures((&s[r2 - 1],), true));
        assert(pred.ensures((&s[r1 as int],), false));
    }
    if r2 < r1 {
        assert(pred.ensures((&s[r1 - 1],), true));
        assert(pred.ensures((&s[r2 as int],), false));
    }
}

} // verus!
