use hybrid_arraydeque::{ArrayDeque, IndexRange};
use std::cmp::Ordering;
use std::collections::VecDeque;

fn deque_of<const N: usize>(values: &[i32]) -> ArrayDeque<i32, N> {
    ArrayDeque::try_from_vec(values.to_vec()).unwrap()
}

#[test]
fn new_deque_is_empty_with_fixed_capacity() {
    let deque: ArrayDeque<u32, 8> = ArrayDeque::new();
    assert_eq!(deque.capacity(), 8);
    assert_eq!(deque.len(), 0);
    assert_eq!(deque.remaining_capacity(), 8);
    assert!(deque.is_empty());
    assert!(!deque.is_full());
}

#[test]
fn push_back_on_full_deque_hands_the_value_back() {
    let mut deque = ArrayDeque::<u32, 2>::new();
    assert_eq!(deque.push_back(1), None);
    assert_eq!(deque.push_back(2), None);
    assert!(deque.is_full());
    assert_eq!(deque.push_back(3), Some(3));
    assert_eq!(deque.push_front(0), Some(0));
    assert_eq!(deque.into_vec(), vec![1, 2]);
}

#[test]
fn zero_capacity_deque_accepts_nothing() {
    let mut deque = ArrayDeque::<u32, 0>::new();
    assert_eq!(deque.push_back(1), Some(1));
    assert_eq!(deque.push_front(1), Some(1));
    assert_eq!(deque.pop_front(), None);
    assert_eq!(deque.pop_back(), None);
    assert!(deque.is_full());
}

#[test]
fn push_and_pop_at_both_ends() {
    let mut deque = ArrayDeque::<u32, 4>::new();
    assert!(deque.push_back(2).is_none());
    assert!(deque.push_front(1).is_none());
    assert!(deque.push_back(3).is_none());
    assert_eq!(deque.front(), Some(&1));
    assert_eq!(deque.back(), Some(&3));
    assert_eq!(deque.pop_front(), Some(1));
    assert_eq!(deque.pop_back(), Some(3));
    assert_eq!(deque.pop_back(), Some(2));
    assert_eq!(deque.pop_back(), None);
    assert_eq!(deque.front(), None);
}

#[test]
fn push_back_then_pop_back_restores_contents() {
    let mut deque = deque_of::<4>(&[1, 2]);
    assert!(deque.push_back(9).is_none());
    assert_eq!(deque.pop_back(), Some(9));
    assert_eq!(deque.into_vec(), vec![1, 2]);
}

#[test]
fn queue_order_is_first_in_first_out() {
    let mut deque = ArrayDeque::<u32, 3>::new();
    for round in 0..10u32 {
        assert!(deque.push_back(round).is_none());
        if round >= 2 {
            assert_eq!(deque.pop_front(), Some(round - 2));
        }
    }
    assert_eq!(deque.into_vec(), vec![8, 9]);
}

#[test]
fn get_and_get_mut_follow_logical_indices() {
    let mut deque = ArrayDeque::<u32, 3>::new();
    for v in 0..3 {
        assert!(deque.push_back(v).is_none());
    }
    assert_eq!(deque.pop_front(), Some(0));
    assert!(deque.push_back(3).is_none());
    assert_eq!(deque.get(0), Some(&1));
    assert_eq!(deque.get(2), Some(&3));
    assert_eq!(deque.get(3), None);
    *deque.get_mut(2).unwrap() = 30;
    *deque.front_mut().unwrap() = 10;
    *deque.back_mut().unwrap() += 1;
    assert_eq!(deque.into_vec(), vec![10, 2, 31]);
}

#[test]
fn insert_and_remove() {
    let mut deque = deque_of::<5>(&[1, 2, 3]);
    assert_eq!(deque.insert(1, 9), None);
    assert_eq!(deque.clone().into_vec(), vec![1, 9, 2, 3]);
    assert_eq!(deque.remove(1), Some(9));
    assert_eq!(deque.remove(7), None);
    assert_eq!(deque.insert(4, 0), Some(0));
    assert_eq!(deque.insert(3, 4), None);
    assert_eq!(deque.insert(0, 0), None);
    assert_eq!(deque.insert(0, 7), Some(7));
    assert_eq!(deque.into_vec(), vec![0, 1, 2, 3, 4]);
}

#[test]
fn swap_remove_front_and_back() {
    let mut deque = deque_of::<5>(&[1, 2, 3, 4]);
    assert_eq!(deque.swap_remove_back(0), Some(1));
    assert_eq!(deque.clone().into_vec(), vec![4, 2, 3]);
    assert_eq!(deque.swap_remove_front(2), Some(3));
    assert_eq!(deque.clone().into_vec(), vec![2, 4]);
    assert_eq!(deque.swap_remove_front(5), None);
    assert_eq!(deque.swap_remove_back(5), None);
}

#[test]
fn rotate_right_undoes_rotate_left() {
    let mut deque = deque_of::<6>(&[1, 2, 3, 4, 5]);
    deque.rotate_left(2);
    assert_eq!(deque.clone().into_vec(), vec![3, 4, 5, 1, 2]);
    deque.rotate_right(2);
    assert_eq!(deque.clone().into_vec(), vec![1, 2, 3, 4, 5]);
    let before = deque.as_slices().0.len();
    deque.rotate_left(4);
    deque.rotate_right(4);
    assert_eq!(deque.as_slices().0.len(), before);
    assert_eq!(deque.into_vec(), vec![1, 2, 3, 4, 5]);
}

#[test]
fn truncate_clear_and_truncate_front() {
    let mut deque = deque_of::<6>(&[1, 2, 3, 4, 5]);
    deque.truncate(10);
    assert_eq!(deque.len(), 5);
    deque.truncate(4);
    assert_eq!(deque.clone().into_vec(), vec![1, 2, 3, 4]);
    deque.truncate_front(2);
    assert_eq!(deque.clone().into_vec(), vec![3, 4]);
    deque.clear();
    assert!(deque.is_empty());
}

#[test]
fn contains_finds_only_present_values() {
    let deque = deque_of::<4>(&[0, 1]);
    assert!(deque.contains(&1));
    assert!(!deque.contains(&10));
}

#[test]
fn equality_ignores_capacity_and_layout() {
    let mut a = ArrayDeque::<i32, 4>::new();
    for v in 0..4 {
        assert!(a.push_back(v).is_none());
    }
    assert_eq!(a.pop_front(), Some(0));
    assert!(a.push_back(4).is_none());
    let b = deque_of::<8>(&[1, 2, 3, 4]);
    assert!(a == b);
    let c = deque_of::<8>(&[1, 2, 3, 5]);
    assert!(a != c);
    let d = deque_of::<8>(&[1, 2, 3]);
    assert!(a != d);
}

#[test]
fn split_off_then_append_restores_contents() {
    let mut deque = deque_of::<6>(&[1, 2, 3, 4, 5]);
    let mut tail = deque.split_off(2);
    assert_eq!(deque.clone().into_vec(), vec![1, 2]);
    assert_eq!(tail.clone().into_vec(), vec![3, 4, 5]);
    assert!(deque.append(&mut tail));
    assert!(tail.is_empty());
    assert_eq!(deque.into_vec(), vec![1, 2, 3, 4, 5]);
}

#[test]
fn append_refuses_what_does_not_fit() {
    let mut a = deque_of::<4>(&[1, 2, 3]);
    let mut b = deque_of::<4>(&[4, 5]);
    assert!(!a.append(&mut b));
    assert_eq!(a.into_vec(), vec![1, 2, 3]);
    assert_eq!(b.into_vec(), vec![4, 5]);
}

#[test]
fn retain_keeps_matching_elements_in_order() {
    let mut deque = deque_of::<8>(&[1, 2, 3, 4, 5, 6]);
    deque.retain(|&x| x % 2 == 0);
    assert_eq!(deque.into_vec(), vec![2, 4, 6]);
}

#[test]
fn retain_mut_may_modify_elements() {
    let mut deque = deque_of::<8>(&[1, 2, 3, 4]);
    deque.retain_mut(|x| {
        if *x % 2 == 0 {
            *x += 1;
            true
        } else {
            false
        }
    });
    assert_eq!(deque.into_vec(), vec![3, 5]);
}

#[test]
fn retain_with_always_true_changes_nothing() {
    let mut deque = deque_of::<8>(&[5, 1, 4]);
    deque.retain(|_| true);
    assert_eq!(deque.into_vec(), vec![5, 1, 4]);
}

#[test]
fn resize_grows_with_clones_and_shrinks() {
    let mut buf = deque_of::<8>(&[5, 10, 15]);
    assert_eq!(buf.resize(2, 0), None);
    assert_eq!(buf.clone().into_vec(), vec![5, 10]);
    let mut buf = deque_of::<8>(&[5, 10]);
    assert_eq!(buf.resize(5, 20), None);
    assert_eq!(buf.clone().into_vec(), vec![5, 10, 20, 20, 20]);
    assert_eq!(buf.resize(9, 1), Some(1));
    assert_eq!(buf.into_vec(), vec![5, 10, 20, 20, 20]);
}

#[test]
fn resize_with_calls_the_generator_per_new_element() {
    let mut buf = deque_of::<8>(&[5, 10, 15]);
    assert!(buf.resize_with(5, Default::default));
    assert_eq!(buf.into_vec(), vec![5, 10, 15, 0, 0]);

    let mut buf = deque_of::<8>(&[5, 10, 15]);
    assert!(buf.resize_with(2, || unreachable!()));
    assert_eq!(buf.into_vec(), vec![5, 10]);

    let mut buf = deque_of::<8>(&[5, 10]);
    let mut state = 100;
    assert!(buf.resize_with(5, || {
        state += 1;
        state
    }));
    assert_eq!(buf.clone().into_vec(), vec![5, 10, 101, 102, 103]);
    assert!(!buf.resize_with(9, || 0));
    assert_eq!(buf.into_vec(), vec![5, 10, 101, 102, 103]);
}

#[test]
fn extend_and_prepend_from_within() {
    let mut characters = ArrayDeque::<_, 20>::try_from_iter_of_len(['a', 'b', 'c', 'd', 'e'].into_iter(), 5).unwrap();
    assert!(characters.extend_from_within(IndexRange::from_start(2)));
    assert_eq!(characters.into_vec(), vec!['a', 'b', 'c', 'd', 'e', 'c', 'd', 'e']);

    let mut numbers = deque_of::<20>(&[0, 1, 2, 3, 4]);
    assert!(numbers.extend_from_within(IndexRange::up_to(2)));
    assert_eq!(numbers.into_vec(), vec![0, 1, 2, 3, 4, 0, 1]);

    let mut strings = ArrayDeque::<String, 20>::try_from_vec(vec!["hello".to_string(), "world".to_string(), "!".to_string()]).unwrap();
    assert!(strings.extend_from_within(IndexRange::inclusive(1, 2)));
    assert_eq!(strings.into_vec(), vec!["hello", "world", "!", "world", "!"]);

    let mut characters = ArrayDeque::<_, 20>::try_from_iter_of_len(['a', 'b', 'c', 'd', 'e'].into_iter(), 5).unwrap();
    assert!(characters.prepend_from_within(IndexRange::from_start(2)));
    assert_eq!(characters.into_vec(), vec!['c', 'd', 'e', 'a', 'b', 'c', 'd', 'e']);

    let mut numbers = deque_of::<20>(&[0, 1, 2, 3, 4]);
    assert!(numbers.prepend_from_within(IndexRange::up_to(2)));
    assert_eq!(numbers.into_vec(), vec![0, 1, 0, 1, 2, 3, 4]);

    let mut strings = ArrayDeque::<String, 20>::try_from_vec(vec!["hello".to_string(), "world".to_string(), "!".to_string()]).unwrap();
    assert!(strings.prepend_from_within(IndexRange::inclusive(1, 2)));
    assert_eq!(strings.into_vec(), vec!["world", "!", "hello", "world", "!"]);
}

#[test]
fn extend_from_within_refuses_when_there_is_no_room() {
    let mut numbers = deque_of::<6>(&[0, 1, 2, 3]);
    assert!(!numbers.extend_from_within(IndexRange::new(0, 3)));
    assert!(!numbers.prepend_from_within(IndexRange::new(0, 3)));
    assert_eq!(numbers.into_vec(), vec![0, 1, 2, 3]);
}

#[test]
fn pop_if_checks_the_end_element() {
    let mut deque = deque_of::<5>(&[0, 1, 2, 3, 4]);
    let pred = |x: &mut i32| *x % 2 == 0;
    assert_eq!(deque.pop_front_if(pred), Some(0));
    assert_eq!(deque.clone().into_vec(), vec![1, 2, 3, 4]);
    assert_eq!(deque.pop_front_if(pred), None);
    assert_eq!(deque.pop_back_if(pred), Some(4));
    assert_eq!(deque.pop_back_if(pred), None);
    assert_eq!(deque.into_vec(), vec![1, 2, 3]);
    let mut empty = ArrayDeque::<i32, 2>::new();
    assert_eq!(empty.pop_front_if(|_| true), None);
}

#[test]
fn push_mut_variants_hand_back_a_reference() {
    let mut deque = deque_of::<4>(&[1, 2, 3]);
    let x = deque.push_back_mut(4).unwrap();
    *x += 10;
    assert!(deque.push_front_mut(0).is_err());
    assert_eq!(deque.clone().into_vec(), vec![1, 2, 3, 14]);

    let mut deque = deque_of::<8>(&[1, 2, 3]);
    let x = deque.insert_mut(1, 5).unwrap();
    *x += 7;
    let y = deque.push_front_mut(9).unwrap();
    *y -= 1;
    assert!(deque.insert_mut(9, 0).is_err());
    assert_eq!(deque.into_vec(), vec![8, 1, 12, 2, 3]);
}

#[test]
fn extract_if_removes_selected_elements_in_order() {
    let mut numbers = ArrayDeque::<_, 16>::try_from_iter([1, 2, 3, 4, 5, 6, 8, 9, 11, 13, 14, 15].into_iter()).unwrap();
    let mut evens = ArrayDeque::<_, 16>::new();
    let mut extracted = numbers.extract_if(IndexRange::full(), |x| *x % 2 == 0);
    while let Some(value) = extracted.next() {
        assert!(evens.push_back(value).is_none());
    }
    assert_eq!(evens.into_vec(), vec![2, 4, 6, 8, 14]);
    assert_eq!(numbers.into_vec(), vec![1, 3, 5, 9, 11, 13, 15]);

    let mut items = ArrayDeque::<_, 16>::try_from_iter([0, 0, 0, 0, 0, 0, 0, 1, 2, 1, 2, 1, 2].into_iter()).unwrap();
    let mut ones = ArrayDeque::<_, 16>::new();
    let mut extracted = items.extract_if(IndexRange::from_start(7), |x| *x == 1);
    assert_eq!(extracted.size_hint(), (0, Some(6)));
    while let Some(value) = extracted.next() {
        assert!(ones.push_back(value).is_none());
    }
    assert_eq!(items.into_vec(), vec![0, 0, 0, 0, 0, 0, 0, 2, 2, 2]);
    assert_eq!(ones.len(), 3);
}

#[test]
fn extract_if_matches_remove_loop() {
    let some_predicate = |x: &mut i32| *x % 2 == 1;
    let mut deq = ArrayDeque::<_, 16>::try_from_iter(0..10).unwrap();
    let mut deq2 = deq.clone();
    let (start, end) = (1usize, 5usize);
    let mut i = start;
    let end_items = deq.len() - end;
    let mut extracted = vec![];
    while i < deq.len() - end_items {
        if some_predicate(deq.get_mut(i).unwrap()) {
            let val = deq.remove(i).unwrap();
            extracted.push(val);
        } else {
            i += 1;
        }
    }
    let mut it = deq2.extract_if(IndexRange::new(start, end), some_predicate);
    let mut extracted2 = vec![];
    while let Some(v) = it.next() {
        extracted2.push(v);
    }
    assert_eq!(deq, deq2);
    assert_eq!(extracted, extracted2);
}

#[test]
fn binary_searches_find_positions() {
    let deque = ArrayDeque::<i32, 16>::try_from_iter([0, 1, 1, 1, 1, 2, 3, 5, 8, 13, 21, 34, 55].into_iter()).unwrap();
    assert_eq!(deque.binary_search(&13), Ok(9));
    assert_eq!(deque.binary_search(&4), Err(7));
    assert_eq!(deque.binary_search(&100), Err(13));
    let r = deque.binary_search(&1);
    assert!(matches!(r, Ok(1..=4)));

    assert_eq!(deque.binary_search_by(|x| x.cmp(&13)), Ok(9));
    assert_eq!(deque.binary_search_by(|x| x.cmp(&4)), Err(7));
    assert_eq!(deque.binary_search_by(|x| x.cmp(&100)), Err(13));
    let r = deque.binary_search_by(|x| x.cmp(&1));
    assert!(matches!(r, Ok(1..=4)));

    let num = 42;
    let idx = deque.partition_point(|&x| x <= num);
    assert_eq!(idx, 12);
}

#[test]
fn binary_search_by_key_uses_the_key() {
    let deque = ArrayDeque::<(i32, i32), 16>::try_from_iter(
        [(0, 0), (2, 1), (4, 1), (5, 1), (3, 1), (1, 2), (2, 3), (4, 5), (5, 8), (3, 13), (1, 21), (2, 34), (4, 55)]
            .into_iter(),
    )
    .unwrap();
    assert_eq!(deque.binary_search_by_key(&13, |&(_, b)| b), Ok(9));
    assert_eq!(deque.binary_search_by_key(&4, |&(_, b)| b), Err(7));
    assert_eq!(deque.binary_search_by_key(&100, |&(_, b)| b), Err(13));
    let r = deque.binary_search_by_key(&1, |&(_, b)| b);
    assert!(matches!(r, Ok(1..=4)));
}

#[test]
fn binary_search_across_the_wrap_point() {
    let mut deque = ArrayDeque::<i32, 6>::new();
    for v in [0, 0, 0, 1, 3, 5] {
        assert!(deque.push_back(v).is_none());
    }
    for _ in 0..3 {
        deque.pop_front();
    }
    for v in [7, 9, 11] {
        assert!(deque.push_back(v).is_none());
    }
    // Contents 1 3 5 | 7 9 11, split over the two runs.
    assert_eq!(deque.as_slices().1.len(), 3);
    assert_eq!(deque.binary_search(&9), Ok(4));
    assert_eq!(deque.binary_search(&5), Ok(2));
    assert_eq!(deque.binary_search(&6), Err(3));
    assert_eq!(deque.binary_search(&0), Err(0));
    assert_eq!(deque.binary_search_by(|x| x.cmp(&7).then(Ordering::Equal)), Ok(3));
    assert_eq!(deque.partition_point(|&x| x < 8), 4);
    assert_eq!(deque.partition_point(|&x| x < 2), 1);
}

#[test]
fn partition_point_splits_the_deque() {
    let deque = ArrayDeque::<i32, 8>::try_from_iter([1, 2, 3, 3, 5, 6, 7].into_iter()).unwrap();
    let i = deque.partition_point(|&x| x < 5);
    assert_eq!(i, 4);
    let mut it = deque.iter();
    for _ in 0..i {
        assert!(*it.next().unwrap() < 5);
    }
    while let Some(&x) = it.next() {
        assert!(!(x < 5));
    }
}

#[test]
fn construction_from_iterators_and_arrays() {
    let deque = ArrayDeque::<u32, 4>::try_from_iter([10, 20, 30].into_iter()).unwrap();
    assert_eq!(deque.len(), 3);

    let result = ArrayDeque::<u32, 2>::try_from_iter(0..5);
    let (full, first_left, rest) = result.unwrap_err();
    assert_eq!(full.into_vec(), vec![0, 1]);
    assert_eq!(first_left, 2);
    assert_eq!(rest.collect::<Vec<_>>(), vec![3, 4]);

    let exact = ArrayDeque::<u32, 4>::try_from_iter_of_len(0..4, (0..4).len()).unwrap();
    assert_eq!(exact.len(), 4);
    assert!(ArrayDeque::<u32, 4>::try_from_iter_of_len(0..5, (0..5).len()).is_err());

    let unchecked = ArrayDeque::<u32, 4>::from_iter_unchecked(7..10);
    assert_eq!(unchecked.into_vec(), vec![7, 8, 9]);

    let deque = ArrayDeque::<String, 4>::from_array(["10".to_string(), "20".to_string(), "30".to_string(), "40".to_string()]);
    assert_eq!(deque.len(), 4);
    assert_eq!(deque.get(3).unwrap(), "40");

    let deque = ArrayDeque::<u32, 4>::try_from_array([1, 2, 3, 4]).unwrap();
    assert_eq!(deque.len(), 4);
    assert!(ArrayDeque::<u32, 2>::try_from_array([1, 2, 3]).is_err());

    let deque = ArrayDeque::<u32, 4>::try_from_vec(vec![1, 2]).unwrap();
    assert_eq!(deque.len(), 2);
    assert_eq!(ArrayDeque::<u32, 2>::try_from_vec(vec![1, 2, 3]).unwrap_err(), vec![1, 2, 3]);
}

#[test]
fn extending_from_iterators() {
    let mut deque = ArrayDeque::<u32, 4>::new();
    assert!(deque.try_extend_from_iter(0..2).is_none());
    assert_eq!(deque.clone().into_vec(), vec![0, 1]);

    let mut deque = ArrayDeque::<u32, 4>::new();
    let (first, rest) = deque.try_extend_from_iter(0..5).unwrap();
    assert_eq!(deque.len(), 4);
    assert_eq!(first, 4);
    assert_eq!(rest.collect::<Vec<_>>(), Vec::<u32>::new());

    let mut deque = ArrayDeque::<u32, 4>::new();
    let items = [0, 1, 2, 3].into_iter();
    let n = items.len();
    assert!(deque.try_extend_from_iter_of_len(items, n).is_none());
    assert_eq!(deque.len(), 4);

    let mut deque = ArrayDeque::<u32, 4>::new();
    let items = [0, 1, 2, 3, 4].into_iter();
    let n = items.len();
    let leftovers = deque.try_extend_from_iter_of_len(items, n).unwrap();
    assert_eq!(leftovers.collect::<Vec<_>>(), vec![0, 1, 2, 3, 4]);
    assert!(deque.is_empty());

    let mut deque = ArrayDeque::<u32, 4>::new();
    assert!(deque.try_extend_from_iter_of_len(0..9, 3).is_none());
    assert_eq!(deque.into_vec(), vec![0, 1, 2, 3]);
}

#[test]
fn into_vec_round_trips_try_from_vec() {
    let v = vec![3, 1, 4, 1, 5];
    let deque = ArrayDeque::<i32, 5>::try_from_vec(v.clone()).unwrap();
    assert_eq!(deque.into_vec(), v);
}

#[test]
fn make_contiguous_keeps_contents_in_one_slice() {
    let mut deque = ArrayDeque::<u32, 5>::new();
    for v in 0..5 {
        assert!(deque.push_back(v).is_none());
    }
    deque.pop_front();
    deque.pop_front();
    assert!(deque.push_back(5).is_none());
    assert!(deque.push_back(6).is_none());
    assert_eq!(deque.as_slices().1.len(), 2);
    deque.make_contiguous();
    let (front, back) = deque.as_slices();
    assert_eq!(front, [&2, &3, &4, &5, &6]);
    assert!(back.is_empty());
}

#[test]
fn default_and_clone() {
    let deque: ArrayDeque<u8, 3> = Default::default();
    assert!(deque.is_empty());
    let mut a = ArrayDeque::<u8, 3>::new();
    assert!(a.push_back(7).is_none());
    let b = a.clone();
    assert_eq!(a, b);
    let mut c = ArrayDeque::<u8, 3>::new();
    c.clone_from(&a);
    assert_eq!(c.into_vec(), vec![7]);
}

#[test]
fn deques_compare_lexicographically() {
    let a = deque_of::<4>(&[1, 2, 3]);
    let b = deque_of::<4>(&[1, 2, 4]);
    let c = deque_of::<4>(&[1, 2]);
    assert_eq!(a.partial_cmp(&b), Some(Ordering::Less));
    assert_eq!(b.partial_cmp(&a), Some(Ordering::Greater));
    assert_eq!(c.partial_cmp(&a), Some(Ordering::Less));
    assert_eq!(a.partial_cmp(&a.clone()), Some(Ordering::Equal));
    assert!(a < b);
    assert!(c <= a);
    let mut wrapped = ArrayDeque::<i32, 4>::new();
    for v in [0, 0, 1, 2] {
        assert!(wrapped.push_back(v).is_none());
    }
    wrapped.pop_front();
    wrapped.pop_front();
    assert!(wrapped.push_back(3).is_none());
    assert_eq!(wrapped.partial_cmp(&a), Some(Ordering::Equal));
    let x = ArrayDeque::<f64, 2>::try_from_vec(vec![f64::NAN]).unwrap();
    let y = ArrayDeque::<f64, 2>::try_from_vec(vec![1.0]).unwrap();
    assert_eq!(x.partial_cmp(&y), None);
}

#[test]
fn vec_deque_conversions_keep_order() {
    let deque = ArrayDeque::<i32, 4>::try_from_vec_deque(VecDeque::from(vec![1, 2, 3])).unwrap();
    assert_eq!(deque.len(), 3);
    assert!(ArrayDeque::<i32, 2>::try_from_vec_deque(VecDeque::from(vec![1, 2, 3])).is_err());
    let mut deque = ArrayDeque::<i32, 4>::new();
    deque.push_back(10);
    deque.push_back(20);
    deque.push_back(30);
    let vec_deque: VecDeque<i32> = deque.into_vec_deque();
    assert_eq!(vec_deque, VecDeque::from(vec![10, 20, 30]));
}

#[test]
fn make_contiguous_hands_out_the_elements_in_order() {
    let mut deque = ArrayDeque::<u32, 4>::new();
    for v in [9, 1, 2] {
        assert!(deque.push_back(v).is_none());
    }
    deque.pop_front();
    assert!(deque.push_back(3).is_none());
    assert!(deque.push_back(4).is_none());
    let mut slice = deque.make_contiguous();
    assert_eq!(slice.len(), 4);
    for x in slice.iter_mut() {
        **x *= 10;
    }
    assert_eq!(deque.as_slices().0, [&10, &20, &30, &40]);
}

#[test]
fn as_mut_slices_write_through() {
    let mut deque = ArrayDeque::<u32, 3>::new();
    for v in 0..3 {
        assert!(deque.push_back(v).is_none());
    }
    deque.pop_front();
    assert!(deque.push_back(3).is_none());
    let (mut front, mut back) = deque.as_mut_slices();
    assert_eq!(front.len(), 2);
    assert_eq!(back.len(), 1);
    *front[0] = 100;
    *back[0] = 300;
    assert_eq!(deque.into_vec(), vec![100, 2, 300]);
}

#[test]
fn extract_if_keeps_what_it_has_not_reached() {
    let mut deque = deque_of::<8>(&[1, 2, 3, 4, 5, 6]);
    {
        let mut it = deque.extract_if(IndexRange::full(), |x| *x % 2 == 0);
        assert_eq!(it.size_hint(), (0, Some(6)));
        assert_eq!(it.next(), Some(2));
        assert_eq!(it.size_hint(), (0, Some(4)));
    }
    assert_eq!(deque.into_vec(), vec![1, 3, 4, 5, 6]);
}

#[test]
fn extract_if_leaves_the_physical_head_in_place() {
    let mut deque = ArrayDeque::<i32, 8>::new();
    for v in 1..=6 {
        assert!(deque.push_back(v).is_none());
    }
    for _ in 0..3 {
        assert!(deque.pop_front().is_some());
    }
    for v in 7..=9 {
        assert!(deque.push_back(v).is_none());
    }
    assert_eq!(deque.as_slices().0.len(), 5);
    {
        let mut it = deque.extract_if(IndexRange::full(), |x| *x % 2 == 0);
        let mut removed = vec![];
        while let Some(v) = it.next() {
            removed.push(v);
        }
        assert_eq!(removed, vec![4, 6, 8]);
    }
    assert_eq!(deque.clone().into_vec(), vec![5, 7, 9]);
    let (front, back) = deque.as_slices();
    assert_eq!(front.len(), 3);
    assert!(back.is_empty());
    for v in 10..15 {
        assert!(deque.push_back(v).is_none());
    }
    assert_eq!(deque.as_slices().0.len(), 5);
}

#[test]
fn extract_if_dropped_early_keeps_changed_and_unreached_elements() {
    let mut deque = deque_of::<8>(&[1, 2, 3, 4, 5, 6]);
    {
        let mut it = deque.extract_if(IndexRange::new(1, 5), |x| {
            *x *= 10;
            *x > 25
        });
        assert_eq!(it.next(), Some(30));
    }
    assert_eq!(deque.len(), 5);
    assert_eq!(deque.into_vec(), vec![1, 20, 4, 5, 6]);
}

#[test]
fn deque_compares_equal_to_vec_array_and_slices() {
    let mut deque = ArrayDeque::<i32, 4>::new();
    for v in 0..4 {
        assert!(deque.push_back(v).is_none());
    }
    assert_eq!(deque.pop_front(), Some(0));
    assert_eq!(deque.pop_front(), Some(1));
    assert!(deque.push_back(4).is_none());
    assert!(deque.push_back(5).is_none());
    assert_eq!(deque.as_slices().1.len(), 2);

    assert!(deque == vec![2, 3, 4, 5]);
    assert!(deque != vec![2, 3, 4]);
    assert!(deque != vec![2, 3, 4, 6]);
    assert!(deque == [2, 3, 4, 5]);
    assert!(deque != [2, 3, 5, 4]);
    assert!(deque == &[2, 3, 4, 5]);
    let mut arr = [2, 3, 4, 5];
    assert!(deque == &mut arr);
    let slice: &[i32] = &[2, 3, 4, 5];
    assert!(deque == slice);
    assert!(deque != &slice[..3]);
    let mut buf = vec![2, 3, 4, 5];
    let slice_mut: &mut [i32] = &mut buf[..];
    assert!(deque == slice_mut);
}

#[test]
fn indexing_reads_elements_front_to_back() {
    let mut deque = ArrayDeque::<i32, 3>::new();
    for v in 1..=3 {
        assert!(deque.push_back(v).is_none());
    }
    assert_eq!(deque.pop_front(), Some(1));
    assert!(deque.push_back(4).is_none());
    assert_eq!(deque[0], 2);
    assert_eq!(deque[1], 3);
    assert_eq!(deque[2], 4);
}
