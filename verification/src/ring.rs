//! Index arithmetic on a ring of `cap` physical slots.
use vstd::prelude::*;

verus! {

/// Folds a logical position that is less than twice the capacity back into `0..cap`.
pub open spec fn wrap_spec(i: int, cap: int) -> int {
    if i >= cap {
        i - cap
    } else {
        i
    }
}

/// Physical slot of the position `o` places after physical slot `h`.
pub open spec fn phys(h: int, o: int, cap: int) -> int {
    wrap_spec(h + o, cap)
}

/// Distance, walking forward around the ring, from physical slot `start` to slot `p`.
pub open spec fn ring_dist(p: int, start: int, cap: int) -> int {
    if p >= start {
        p - start
    } else {
        p + cap - start
    }
}

/// Returns the index in the underlying buffer for a given logical element index.
pub fn wrap_index(logical_index: usize, capacity: usize) -> (r: usize)
    requires
        (logical_index == 0 && capacity == 0) || logical_index < capacity || logical_index
            - capacity < capacity,
    ensures
        r == wrap_spec(logical_index as int, capacity as int),
        capacity > 0 ==> r < capacity,
{
    if logical_index >= capacity {
        logical_index - capacity
    } else {
        logical_index
    }
}

} // verus!

verus! {

/// The buffer after the slots at ring offsets `lo..hi` from `src` have been moved to the
/// same offsets from `dst`: each destination slot receives the source value, source slots
/// that are not also destinations are left empty, and every other slot is unchanged.
pub open spec fn ring_move_part<A>(
    b: Seq<Option<A>>,
    src: int,
    dst: int,
    lo: int,
    hi: int,
    cap: int,
) -> Seq<Option<A>> {
    Seq::new(
        b.len(),
        |p: int|
            if lo <= ring_dist(p, dst, cap) < hi {
                b[wrap_spec(src + ring_dist(p, dst, cap), cap)]
            } else if lo <= ring_dist(p, src, cap) < hi {
                None
            } else {
                b[p]
            },
    )
}

/// The buffer after `len` slots starting at `src` have been moved to `len` slots starting
/// at `dst`, both ranges wrapping around the ring of `cap` slots.
pub open spec fn ring_move<A>(b: Seq<Option<A>>, src: int, dst: int, len: int, cap: int) -> Seq<
    Option<A>,
> {
    ring_move_part(b, src, dst, 0, len, cap)
}

/// Moves `len` slots from ring position `src` to ring position `dst` of `buf`.
///
/// The two ranges may overlap in at most one contiguous region; the direction of the
/// element-wise move is chosen so that no slot is overwritten before it has been read.
pub fn ring_wrap_copy<A>(buf: &mut Vec<Option<A>>, cap: usize, src: usize, dst: usize, len: usize)
    requires
        old(buf)@.len() == cap,
        cap <= isize::MAX,
        src < cap,
        dst < cap,
        len <= cap,
        ring_dist(dst as int, src as int, cap as int) < len ==> ring_dist(
            dst as int,
            src as int,
            cap as int,
        ) + len <= cap,
    ensures
        final(buf)@ == ring_move(old(buf)@, src as int, dst as int, len as int, cap as int),
{
    let ghost b0 = buf@;
    if src == dst || len == 0 {
        assert(buf@ =~= ring_move(b0, src as int, dst as int, len as int, cap as int));
        return;
    }
    let dist = wrap_index(dst + cap - src, cap);
    assert(dist == ring_dist(dst as int, src as int, cap as int));
    if dist < len {
        // The destination starts inside the source: move from the back.
        let mut i: usize = len;
        assert(buf@ =~= ring_move_part(b0, src as int, dst as int, len as int, len as int, cap as int));
        while i > 0
            invariant
                b0.len() == cap,
                cap <= isize::MAX,
                src < cap,
                dst < cap,
                src != dst,
                0 < len <= cap,
                dist == ring_dist(dst as int, src as int, cap as int),
                dist < len,
                dist + len <= cap,
                i <= len,
                buf@ == ring_move_part(b0, src as int, dst as int, i as int, len as int, cap as int),
            decreases i,
        {
            i = i - 1;
            let s = wrap_index(src + i, cap);
            let d = wrap_index(dst + i, cap);
            let ghost before = buf@;
            let mut tmp: Option<A> = None;
            buf.set_and_swap(s, &mut tmp);
            buf.set(d, tmp);
            assert(buf@ =~= ring_move_part(b0, src as int, dst as int, i as int, len as int, cap as int));
        }
    } else {
        // The destination does not start inside the source: move from the front.
        let mut i: usize = 0;
        assert(buf@ =~= ring_move_part(b0, src as int, dst as int, 0, 0, cap as int));
        while i < len
            invariant
                b0.len() == cap,
                cap <= isize::MAX,
                src < cap,
                dst < cap,
                src != dst,
                0 < len <= cap,
                dist == ring_dist(dst as int, src as int, cap as int),
                dist >= len,
                i <= len,
                buf@ == ring_move_part(b0, src as int, dst as int, 0, i as int, cap as int),
            decreases len - i,
        {
            let s = wrap_index(src + i, cap);
            let d = wrap_index(dst + i, cap);
            let mut tmp: Option<A> = None;
            buf.set_and_swap(s, &mut tmp);
            buf.set(d, tmp);
            assert(buf@ =~= ring_move_part(b0, src as int, dst as int, 0, (i + 1) as int, cap as int));
            i = i + 1;
        }
    }
}

} // verus!

verus! {

/// Stepping twice around the ring adds the steps.
pub proof fn lemma_phys_add(h: int, a: int, c: int, cap: int)
    requires
        0 <= h < cap,
        0 <= a < cap,
        0 <= c < cap,
    ensures
        phys(phys(h, a, cap), c, cap) == phys(h, phys(a, c, cap), cap),
{
}

/// Positions `o` places after `h` are distinct valid slots, and the walk back is `o`.
pub proof fn lemma_phys_dist(h: int, o: int, cap: int)
    requires
        0 <= h < cap,
        0 <= o < cap,
    ensures
        0 <= phys(h, o, cap) < cap,
        ring_dist(phys(h, o, cap), h, cap) == o,
{
}

/// Every slot is reached from `h` by walking its ring distance.
pub proof fn lemma_dist_phys(h: int, p: int, cap: int)
    requires
        0 <= h < cap,
        0 <= p < cap,
    ensures
        0 <= ring_dist(p, h, cap) < cap,
        phys(h, ring_dist(p, h, cap), cap) == p,
{
}

/// Ring distance does not change when both positions are moved by the same step.
pub proof fn lemma_dist_translate(h: int, a: int, c: int, cap: int)
    requires
        0 <= h < cap,
        0 <= a < cap,
        0 <= c < cap,
    ensures
        ring_dist(phys(h, a, cap), phys(h, c, cap), cap) == ring_dist(a, c, cap),
{
}

/// `ring_move` read at positions relative to a base slot `h`, with source and destination
/// also given relative to `h`.
pub proof fn lemma_ring_move_rel<A>(b: Seq<Option<A>>, h: int, s: int, t: int, len: int, cap: int)
    requires
        b.len() == cap,
        0 <= h < cap,
        0 <= s < cap,
        0 <= t < cap,
        0 <= len <= cap,
    ensures
        forall|o: int|
            0 <= o < cap ==> #[trigger] ring_move(b, phys(h, s, cap), phys(h, t, cap), len, cap)[phys(
                h,
                o,
                cap,
            )] == if ring_dist(o, t, cap) < len {
                b[phys(h, phys(s, ring_dist(o, t, cap), cap), cap)]
            } else if ring_dist(o, s, cap) < len {
                None
            } else {
                b[phys(h, o, cap)]
            },
{
    assert forall|o: int| 0 <= o < cap implies #[trigger] ring_move(
        b,
        phys(h, s, cap),
        phys(h, t, cap),
        len,
        cap,
    )[phys(h, o, cap)] == if ring_dist(o, t, cap) < len {
        b[phys(h, phys(s, ring_dist(o, t, cap), cap), cap)]
    } else if ring_dist(o, s, cap) < len {
        None
    } else {
        b[phys(h, o, cap)]
    } by {
        lemma_phys_dist(h, o, cap);
        lemma_dist_translate(h, o, t, cap);
        lemma_dist_translate(h, o, s, cap);
        lemma_phys_add(h, s, ring_dist(o, t, cap), cap);
    }
}

} // verus!

verus! {

/// Different offsets below the capacity name different slots.
pub proof fn lemma_phys_inj(h: int, a: int, c: int, cap: int)
    requires
        0 <= h < cap,
        0 <= a < cap,
        0 <= c < cap,
        a != c,
    ensures
        phys(h, a, cap) != phys(h, c, cap),
{
    lemma_phys_dist(h, a, cap);
    lemma_phys_dist(h, c, cap);
}

/// Re-expresses positions relative to a new base `phys(h, a)` as positions relative to `h`.
pub proof fn lemma_rebase(h: int, a: int, cap: int)
    requires
        0 <= h < cap,
        0 <= a < cap,
    ensures
        0 <= phys(h, a, cap) < cap,
        forall|o: int|
            0 <= o < cap ==> #[trigger] phys(phys(h, a, cap), o, cap) == phys(h, phys(a, o, cap), cap),
{
    assert forall|o: int| 0 <= o < cap implies #[trigger] phys(phys(h, a, cap), o, cap) == phys(
        h,
        phys(a, o, cap),
        cap,
    ) by {
        lemma_phys_add(h, a, o, cap);
    }
}

} // verus!

verus! {

/// A move between two ranges that both lie inside `0..cap` does not wrap.
pub proof fn lemma_ring_move_flat<A>(b: Seq<Option<A>>, src: int, dst: int, len: int, cap: int)
    requires
        b.len() == cap,
        0 <= src,
        0 <= dst,
        0 <= len,
        src + len <= cap,
        dst + len <= cap,
        src < cap,
        dst < cap,
    ensures
        ring_move(b, src, dst, len, cap).len() == cap,
        forall|p: int|
            0 <= p < cap ==> #[trigger] ring_move(b, src, dst, len, cap)[p] == if dst <= p < dst
                + len {
                b[src + p - dst]
            } else if src <= p < src + len {
                None
            } else {
                b[p]
            },
{
}

/// Number of positions, out of `len` starting at slot `start`, that lie before the end of the
/// buffer (the length of the first run of `as_slices`).
pub open spec fn first_run_len(start: int, len: int, cap: int) -> int {
    if len == 0 {
        0
    } else if cap - start >= len {
        len
    } else {
        cap - start
    }
}

/// Position of the head after rotating a deque of length `len` with head `h` left by `n`:
/// the shorter side is the one that moves.
pub open spec fn rotate_left_head(h: int, n: int, len: int, cap: int) -> int {
    if n <= len - n {
        phys(h, n, cap)
    } else {
        phys(h, cap - (len - n), cap)
    }
}

/// Position of the head after rotating a deque of length `len` with head `h` right by `n`.
pub open spec fn rotate_right_head(h: int, n: int, len: int, cap: int) -> int {
    if n <= len - n {
        phys(h, cap - n, cap)
    } else {
        phys(h, len - n, cap)
    }
}

/// Position of the head after `make_contiguous` on a deque with head `h` and length `len`.
pub open spec fn contiguous_head(h: int, len: int, cap: int) -> int {
    if h <= cap - len {
        h
    } else {
        let free = cap - len;
        let head_len = cap - h;
        let tail_len = len - head_len;
        if free >= head_len {
            0
        } else if free >= tail_len {
            tail_len
        } else if head_len > tail_len {
            free
        } else {
            0
        }
    }
}

} // verus!
