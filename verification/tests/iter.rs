use hybrid_arraydeque::{ArrayDeque, Iter};

#[test]
fn as_slices_reflect_wrapping_layout() {
    let mut deque = ArrayDeque::<_, 4>::new();
    for value in 0..4 {
        assert!(deque.push_back(value).is_none());
    }
    assert_eq!(deque.pop_front(), Some(0));
    assert!(deque.push_back(4).is_none());

    let mut iter = deque.iter();
    assert_eq!(iter.next(), Some(&1));
    let (front, back) = iter.as_slices();
    assert_eq!(front, [&2, &3]);
    assert_eq!(back, [&4]);
}

#[test]
fn next_and_next_back_cover_all_elements() {
    let mut deque = ArrayDeque::<_, 4>::new();
    for value in 0..4 {
        assert!(deque.push_back(value).is_none());
    }

    let mut iter = deque.iter();
    assert_eq!(iter.next(), Some(&0));
    assert_eq!(iter.next_back(), Some(&3));
    assert_eq!(iter.len(), 2);
    assert_eq!(iter.next(), Some(&1));
    assert_eq!(iter.next_back(), Some(&2));
    assert_eq!(iter.next(), None);
    assert_eq!(iter.next_back(), None);
}

#[test]
fn fold_and_rfold_process_all_items() {
    let mut deque = ArrayDeque::<_, 4>::new();
    for value in 0..4 {
        assert!(deque.push_back(value).is_none());
    }
    let iter = deque.iter();
    let sum = iter.clone().fold(0, |acc, &value| acc + value);
    assert_eq!(sum, 6);
    let rsum = iter.rfold(0, |acc, &value| acc + value);
    assert_eq!(rsum, 6);
}

#[test]
fn size_hint_tracks_remaining_items() {
    let mut deque = ArrayDeque::<_, 4>::new();
    for value in 0..4 {
        assert!(deque.push_back(value).is_none());
    }
    let mut iter = deque.iter();
    assert_eq!(iter.size_hint(), (4, Some(4)));
    iter.next();
    assert_eq!(iter.size_hint(), (3, Some(3)));
    iter.next_back();
    assert_eq!(iter.size_hint(), (2, Some(2)));
}

#[test]
fn last_returns_final_element() {
    let mut deque = ArrayDeque::<_, 4>::new();
    for value in 0..4 {
        assert!(deque.push_back(value).is_none());
    }
    assert_eq!(deque.iter().last(), Some(&3));
}

#[test]
fn iter_default_is_empty() {
    let iter: Iter<'static, u8> = Default::default();
    assert_eq!(iter.len(), 0);
    assert_eq!(iter.size_hint(), (0, Some(0)));
}

#[test]
fn fold_visits_front_to_back_and_rfold_back_to_front() {
    let mut deque = ArrayDeque::<u32, 4>::new();
    for value in 1..=3 {
        assert!(deque.push_back(value).is_none());
    }
    // Wrap the contents around the end of the buffer.
    assert_eq!(deque.pop_front(), Some(1));
    assert!(deque.push_back(4).is_none());
    assert!(deque.push_back(5).is_none());
    let digits = deque.iter().fold(0u32, |acc, &v| acc * 10 + v);
    assert_eq!(digits, 2345);
    let rdigits = deque.iter().rfold(0u32, |acc, &v| acc * 10 + v);
    assert_eq!(rdigits, 5432);
}

#[test]
fn range_iterates_over_a_subrange() {
    let mut deque = ArrayDeque::<u32, 5>::new();
    for value in 0..5 {
        assert!(deque.push_back(value).is_none());
    }
    let mut it = deque.range(hybrid_arraydeque::IndexRange::new(1, 4));
    assert_eq!(it.len(), 3);
    assert_eq!(it.next(), Some(&1));
    assert_eq!(it.next_back(), Some(&3));
    assert_eq!(it.next(), Some(&2));
    assert_eq!(it.next(), None);
    let it = deque.range(hybrid_arraydeque::IndexRange::inclusive(3, 4));
    assert_eq!(it.len(), 2);
    let it = deque.range(hybrid_arraydeque::IndexRange::from_start(5));
    assert_eq!(it.len(), 0);
}
