# hybrid_arraydeque

A fixed-capacity double-ended queue (`ArrayDeque<T, N>`) stored as a ring buffer of `N`
slots, with an API modelled on `std::collections::VecDeque`. Pushing onto a full deque
hands the element back instead of growing.

The library is written in Verus: every public operation carries a contract over the
deque's logical contents (`deque@`, a `Seq<T>`) and, where the layout is observable (as
through `as_slices`), over the physical slot of the front element.

## Layout

- `src/ring.rs` — index arithmetic on a ring of slots and the lemmas about it.
- `src/slots.rs` — swapping, reversing and rotating runs of slots.
- `src/range.rs` — index ranges (`IndexRange`, `Bound`) and their resolution.
- `src/deque.rs` — the deque, its well-formedness and its core operations; the
  submodules under `src/deque/` hold bulk moves, draining, comparison, cloning,
  filtering, closure-driven operations, construction from iterators, searching,
  predicate-driven extraction, byte-stream reading and writing, and ordering.
- `src/iter.rs`, `src/iter_mut.rs` — the iterators.
- `src/laws.rs` — properties that relate several operations.
- `tests/` — scenario tests.
- `app/lib.rs` — adapters that Verus does not check: std's `Read`/`BufRead`/`Write` for a
  byte deque, serde support, conversion from Rust range syntax to `IndexRange`, and
  filling a deque from an iterator that reports its own length.
