use hybrid_arraydeque::{ArrayDeque, IndexRange};
use std::cell::Cell;
use std::rc::Rc;

#[derive(Debug)]
struct DropSpy(Rc<Cell<usize>>);

impl Drop for DropSpy {
    fn drop(&mut self) {
        self.0.set(self.0.get() + 1);
    }
}

#[test]
fn drain_removes_requested_range() {
    let mut deque = ArrayDeque::<_, 8>::new();
    for value in 0..6 {
        assert!(deque.push_back(value).is_none());
    }

    let mut drained = [0; 2];
    let mut idx = 0;
    let mut it = deque.drain(IndexRange::new(2, 4));
    while let Some(value) = it.next() {
        drained[idx] = value;
        idx += 1;
    }
    assert_eq!(&drained[..idx], &[2, 3]);
    assert_eq!(deque.len(), 4);
    assert_eq!(deque.get(0), Some(&0));
    assert_eq!(deque.get(1), Some(&1));
    assert_eq!(deque.get(2), Some(&4));
    assert_eq!(deque.get(3), Some(&5));
}

#[test]
fn drain_iterator_supports_double_ended_iteration() {
    let mut deque = ArrayDeque::<_, 8>::new();
    for value in 0..5 {
        assert!(deque.push_back(value).is_none());
    }

    let mut drain = deque.drain(IndexRange::new(1, 4));
    assert_eq!(drain.next_back(), Some(3));
    assert_eq!(drain.next(), Some(1));
    assert_eq!(drain.next(), Some(2));
    assert_eq!(drain.next(), None);
    drop(drain);
    assert_eq!(deque.len(), 2);
    assert_eq!(deque.get(0), Some(&0));
    assert_eq!(deque.get(1), Some(&4));
}

#[test]
fn dropping_drain_drops_remaining_elements() {
    let counter = Rc::new(Cell::new(0));
    {
        let mut deque = ArrayDeque::<_, 8>::new();
        for _ in 0..4 {
            assert!(deque.push_back(DropSpy(counter.clone())).is_none());
        }
        let _ = deque.drain(IndexRange::new(1, 3));
        assert_eq!(deque.len(), 2);
    }
    assert_eq!(counter.get(), 4);
}

#[test]
fn drain_reports_its_length_and_whole_range() {
    let mut deque = ArrayDeque::<u8, 4>::new();
    for value in 0..4 {
        assert!(deque.push_back(value).is_none());
    }
    let mut drain = deque.drain(IndexRange::full());
    assert_eq!(drain.len(), 4);
    assert_eq!(drain.size_hint(), (4, Some(4)));
    assert_eq!(drain.next(), Some(0));
    assert_eq!(drain.len(), 3);
    drop(drain);
    assert!(deque.is_empty());
}

#[test]
fn drain_of_empty_range_changes_nothing() {
    let mut deque = ArrayDeque::<u8, 4>::new();
    for value in 0..3 {
        assert!(deque.push_back(value).is_none());
    }
    let mut drain = deque.drain(IndexRange::new(2, 2));
    assert_eq!(drain.next(), None);
    drop(drain);
    assert_eq!(deque.into_vec(), vec![0, 1, 2]);
}
