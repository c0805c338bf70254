use hybrid_arraydeque::{ArrayDeque, IterMut};

#[test]
fn into_slices_allows_mutation() {
    let mut deque = ArrayDeque::<_, 5>::new();
    for value in 0..5 {
        assert!(deque.push_back(value).is_none());
    }
    assert_eq!(deque.pop_front(), Some(0));
    assert!(deque.push_back(5).is_none());

    let mut iter = deque.iter_mut();
    assert_eq!(iter.next().map(|v| *v), Some(1));

    let (mut front, mut back) = iter.into_slices();
    *front[0] = 10;
    if let Some(last) = back.first_mut() {
        **last = 50;
    }

    assert_eq!(deque.get(0), Some(&1));
    assert_eq!(deque.get(1), Some(&10));
    assert_eq!(deque.get(4), Some(&50));
}

#[test]
fn as_slices_reflect_remaining_segments() {
    let mut deque = ArrayDeque::<_, 5>::new();
    for value in 0..5 {
        assert!(deque.push_back(value).is_none());
    }
    assert_eq!(deque.pop_front(), Some(0));
    assert!(deque.push_back(5).is_none());

    let mut iter = deque.iter_mut();
    iter.next();
    let (front, back) = iter.as_slices();
    assert_eq!(front, [&2, &3, &4]);
    assert_eq!(back, [&5]);
}

#[test]
fn fold_and_rfold_visit_all_items() {
    let mut deque = ArrayDeque::<_, 5>::new();
    for value in 0..5 {
        assert!(deque.push_back(value).is_none());
    }
    {
        let sum = deque.iter_mut().fold(0, |acc, item| acc + *item);
        assert_eq!(sum, 10);
    }
    {
        let sum = deque.iter_mut().rfold(0, |acc, item| acc + *item);
        assert_eq!(sum, 10);
    }
}

#[test]
fn size_hint_tracks_progress() {
    let mut deque = ArrayDeque::<_, 5>::new();
    for value in 0..5 {
        assert!(deque.push_back(value).is_none());
    }
    let mut iter = deque.iter_mut();
    assert_eq!(iter.size_hint(), (5, Some(5)));
    iter.next();
    assert_eq!(iter.size_hint(), (4, Some(4)));
    iter.next_back();
    assert_eq!(iter.size_hint(), (3, Some(3)));
}

#[test]
fn last_allows_mutating_tail() {
    let mut deque = ArrayDeque::<_, 5>::new();
    for value in 0..5 {
        assert!(deque.push_back(value).is_none());
    }
    if let Some(last) = deque.iter_mut().last() {
        *last = 99;
    }
    assert_eq!(deque.get(4), Some(&99));
}

#[test]
fn iter_mut_default_is_empty() {
    let iter: IterMut<'static, u8> = Default::default();
    assert_eq!(iter.len(), 0);
    assert_eq!(iter.size_hint(), (0, Some(0)));
}

#[test]
fn fold_may_modify_each_element() {
    let mut deque = ArrayDeque::<u32, 4>::new();
    for value in 1..=4 {
        assert!(deque.push_back(value).is_none());
    }
    let count = deque.iter_mut().fold(0, |acc, item| {
        *item *= 10;
        acc + 1
    });
    assert_eq!(count, 4);
    assert_eq!(deque.into_vec(), vec![10, 20, 30, 40]);
}

#[test]
fn range_mut_modifies_only_the_subrange() {
    let mut deque = ArrayDeque::<u32, 5>::new();
    for value in 0..5 {
        assert!(deque.push_back(value).is_none());
    }
    let mut it = deque.range_mut(hybrid_arraydeque::IndexRange::new(1, 3));
    while let Some(x) = it.next() {
        *x += 100;
    }
    assert_eq!(deque.into_vec(), vec![0, 101, 102, 3, 4]);
}
