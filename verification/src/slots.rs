//! In-place rearrangements of a run of slots inside a buffer.
use vstd::prelude::*;

verus! {

/// Exchanges the contents of slots `i` and `j`.
pub fn swap_slots<A>(buf: &mut Vec<Option<A>>, i: usize, j: usize)
    requires
        i < old(buf)@.len(),
        j < old(buf)@.len(),
    ensures
        final(buf)@ == old(buf)@.update(i as int, old(buf)@[j as int]).update(
            j as int,
            old(buf)@[i as int],
        ),
{
    if i == j {
        assert(buf@ =~= old(buf)@.update(i as int, old(buf)@[j as int]).update(
            j as int,
            old(buf)@[i as int],
        ));
        return;
    }
    let mut tmp: Option<A> = None;
    buf.set_and_swap(i, &mut tmp);
    buf.set_and_swap(j, &mut tmp);
    buf.set_and_swap(i, &mut tmp);
    assert(buf@ =~= old(buf)@.update(i as int, old(buf)@[j as int]).update(
        j as int,
        old(buf)@[i as int],
    ));
}

/// Reverses the order of the slots in `lo..hi`.
pub fn reverse_slots<A>(buf: &mut Vec<Option<A>>, lo: usize, hi: usize)
    requires
        lo <= hi <= old(buf)@.len(),
    ensures
        final(buf)@.len() == old(buf)@.len(),
        forall|p: int|
            0 <= p < old(buf)@.len() ==> #[trigger] final(buf)@[p] == if lo <= p < hi {
                old(buf)@[lo + hi - 1 - p]
            } else {
                old(buf)@[p]
            },
{
    let ghost b0 = buf@;
    let mut i = lo;
    let mut j = hi;
    while j - i > 1
        invariant
            lo <= i <= j <= hi,
            i - lo == hi - j,
            hi <= b0.len(),
            buf@.len() == b0.len(),
            forall|p: int|
                0 <= p < b0.len() ==> #[trigger] buf@[p] == if (lo <= p < i) || (j <= p < hi) {
                    b0[lo + hi - 1 - p]
                } else {
                    b0[p]
                },
        decreases j - i,
    {
        j = j - 1;
        swap_slots(buf, i, j);
        i = i + 1;
    }
}

/// Rotates the slots in `lo..hi` left by `r`: the slot at `lo + r` moves to `lo`.
pub fn rotate_slots_left<A>(buf: &mut Vec<Option<A>>, lo: usize, hi: usize, r: usize)
    requires
        lo <= hi <= old(buf)@.len(),
        r <= hi - lo,
    ensures
        final(buf)@.len() == old(buf)@.len(),
        forall|p: int|
            0 <= p < old(buf)@.len() ==> #[trigger] final(buf)@[p] == if lo <= p < hi {
                if p + r < hi {
                    old(buf)@[p + r]
                } else {
                    old(buf)@[p + r - (hi - lo)]
                }
            } else {
                old(buf)@[p]
            },
{
    let ghost b0 = buf@;
    reverse_slots(buf, lo, lo + r);
    let ghost b1 = buf@;
    reverse_slots(buf, lo + r, hi);
    let ghost b2 = buf@;
    reverse_slots(buf, lo, hi);
    assert forall|p: int| 0 <= p < b0.len() implies #[trigger] buf@[p] == if lo <= p < hi {
        if p + r < hi {
            b0[p + r]
        } else {
            b0[p + r - (hi - lo)]
        }
    } else {
        b0[p]
    } by {
        if lo <= p < hi {
            let q = lo + hi - 1 - p;
            assert(buf@[p] == b2[q]);
            if q < lo + r {
                assert(b2[q] == b1[q]);
                assert(b1[q] == b0[lo + lo + r - 1 - q]);
            } else {
                assert(b2[q] == b1[lo + r + hi - 1 - q]);
            }
        }
    }
}

} // verus!
