use hybrid_arraydeque::{ArrayDeque, IndexRange};

fn s<T: ToString>(value: T) -> String {
    value.to_string()
}

fn contents<T: Clone, const N: usize>(d: &ArrayDeque<T, N>) -> Vec<T> {
    let mut out = Vec::new();
    let mut it = d.iter();
    while let Some(x) = it.next() {
        out.push(x.clone());
    }
    out
}

fn strings(values: &[u32]) -> Vec<String> {
    values.iter().map(|v| s(v)).collect()
}

/// Empties the deque and moves its (otherwise unobservable) head to physical slot `pos`.
fn reset_at<const N: usize>(d: &mut ArrayDeque<String, N>, pos: usize) {
    d.clear();
    for _ in 0..pos {
        assert!(d.push_back(String::new()).is_none());
        assert!(d.pop_front().is_some());
    }
}

/// The physical slot of the front element, read off the layout of the deque once filled
/// up at the back; the fillers are removed again, which leaves the head where it was.
fn observed_head<const N: usize>(d: &mut ArrayDeque<String, N>) -> usize {
    let added = d.remaining_capacity();
    for _ in 0..added {
        assert!(d.push_back(String::new()).is_none());
    }
    let head = (N - d.as_slices().0.len()) % N;
    for _ in 0..added {
        assert!(d.pop_back().is_some());
    }
    head
}

fn owned(slices: (Vec<&String>, Vec<&String>)) -> (Vec<String>, Vec<String>) {
    (
        slices.0.into_iter().cloned().collect(),
        slices.1.into_iter().cloned().collect(),
    )
}

#[test]
fn heap_test_swap_front_back_remove() {
    fn run(back: bool) {
        let mut tester = ArrayDeque::<String, 15>::new();
        let usable_cap = tester.capacity();
        let final_len = usable_cap / 2;

        for len in 0..final_len {
            let expected: ArrayDeque<_, 15> = if back {
                ArrayDeque::try_from_iter_of_len((0..len).map(s), (0..len).len()).unwrap()
            } else {
                ArrayDeque::try_from_iter_of_len((0..len).rev().map(s), (0..len).len()).unwrap()
            };
            for head_pos in 0..usable_cap {
                reset_at(&mut tester, head_pos);
                if back {
                    for i in 0..len * 2 {
                        tester.push_front(s(i));
                    }
                    for i in 0..len {
                        assert_eq!(tester.swap_remove_back(i), Some(s(len * 2 - 1 - i)));
                    }
                } else {
                    for i in 0..len * 2 {
                        tester.push_back(s(i));
                    }
                    for i in 0..len {
                        let idx = tester.len() - 1 - i;
                        assert_eq!(tester.swap_remove_front(idx), Some(s(len * 2 - 1 - i)));
                    }
                }
                assert!(observed_head(&mut tester) <= tester.capacity());
                assert!(tester.len() <= tester.capacity());
                assert_eq!(tester, expected);
            }
        }
    }
    run(true);
    run(false);
}

#[test]
fn heap_test_insert() {
    let mut tester = ArrayDeque::<String, 15>::new();
    let cap = tester.capacity();
    let minlen = 1;
    for len in minlen..cap {
        let expected = ArrayDeque::<String, 15>::try_from_iter((0..).take(len).map(s)).unwrap();
        for head_pos in 0..cap {
            for to_insert in 0..len {
                reset_at(&mut tester, head_pos);
                for i in 0..len {
                    if i != to_insert {
                        tester.push_back(s(i));
                    }
                }
                tester.insert(to_insert, s(to_insert));
                assert!(observed_head(&mut tester) <= tester.capacity());
                assert!(tester.len() <= tester.capacity());
                assert_eq!(tester, expected);
            }
        }
    }
}

#[test]
fn heap_test_get_mut() {
    let mut tester = ArrayDeque::<String, 5>::new();
    tester.push_back(s(1));
    tester.push_back(s(2));
    tester.push_back(s(3));

    if let Some(elem) = tester.get_mut(0) {
        assert_eq!(elem, "1");
        *elem = s(10);
    }

    if let Some(elem) = tester.get_mut(2) {
        assert_eq!(elem, "3");
        *elem = s(30);
    }

    assert_eq!(tester.get(0).map(|v| v.as_str()), Some("10"));
    assert_eq!(tester.get(2).map(|v| v.as_str()), Some("30"));
    assert_eq!(tester.get_mut(3), None);

    tester.remove(2);
    assert_eq!(tester.len(), 2);
    assert_eq!(tester.get(1).map(|v| v.as_str()), Some("2"));
}

#[test]
fn heap_test_swap() {
    let mut tester = ArrayDeque::<String, 5>::new();
    tester.push_back(s(1));
    tester.push_back(s(2));
    tester.push_back(s(3));

    tester.swap(0, 0);
    assert_eq!(contents(&tester), strings(&[1, 2, 3]));
    tester.swap(0, 1);
    assert_eq!(contents(&tester), strings(&[2, 1, 3]));
    tester.swap(2, 1);
    assert_eq!(contents(&tester), strings(&[2, 3, 1]));
    tester.swap(1, 2);
    assert_eq!(contents(&tester), strings(&[2, 1, 3]));
    tester.swap(0, 2);
    assert_eq!(contents(&tester), strings(&[3, 1, 2]));
    tester.swap(2, 2);
    assert_eq!(contents(&tester), strings(&[3, 1, 2]));
}

#[test]
fn heap_test_rotate_left_right() {
    let mut tester: ArrayDeque<_, 10> = ArrayDeque::try_from_iter((1..=10).map(s)).unwrap();
    assert_eq!(tester.len(), 10);

    tester.rotate_left(0);
    assert_eq!(contents(&tester), strings(&[1, 2, 3, 4, 5, 6, 7, 8, 9, 10]));

    tester.rotate_right(0);
    assert_eq!(contents(&tester), strings(&[1, 2, 3, 4, 5, 6, 7, 8, 9, 10]));

    tester.rotate_left(3);
    assert_eq!(contents(&tester), strings(&[4, 5, 6, 7, 8, 9, 10, 1, 2, 3]));

    tester.rotate_right(5);
    assert_eq!(contents(&tester), strings(&[9, 10, 1, 2, 3, 4, 5, 6, 7, 8]));

    let len = tester.len();
    tester.rotate_left(len);
    assert_eq!(contents(&tester), strings(&[9, 10, 1, 2, 3, 4, 5, 6, 7, 8]));

    let len = tester.len();
    tester.rotate_right(len);
    assert_eq!(contents(&tester), strings(&[9, 10, 1, 2, 3, 4, 5, 6, 7, 8]));

    tester.rotate_left(1);
    assert_eq!(contents(&tester), strings(&[10, 1, 2, 3, 4, 5, 6, 7, 8, 9]));
}

#[test]
fn heap_test_drain() {
    let mut tester: ArrayDeque<String, 7> = ArrayDeque::new();

    let cap = tester.capacity();
    for len in 0..=cap {
        for head in 0..cap {
            for drain_start in 0..=len {
                for drain_end in drain_start..=len {
                    reset_at(&mut tester, head);
                    for i in 0..len {
                        tester.push_back(s(i));
                    }

                    let mut removed = Vec::new();
                    let mut drain = tester.drain(IndexRange::new(drain_start, drain_end));
                    while let Some(x) = drain.next() {
                        removed.push(x);
                    }
                    drop(drain);
                    let drained: ArrayDeque<_, 7> = ArrayDeque::try_from_iter(removed.into_iter()).unwrap();
                    let drained_expected: ArrayDeque<_, 7> =
                        ArrayDeque::try_from_iter((drain_start..drain_end).map(s)).unwrap();
                    assert_eq!(drained, drained_expected);

                    assert_eq!(tester.capacity(), cap);
                    assert!(observed_head(&mut tester) <= tester.capacity());
                assert!(tester.len() <= tester.capacity());

                    let expected: ArrayDeque<_, 14> =
                        ArrayDeque::try_from_iter((0..drain_start).chain(drain_end..len).map(s)).unwrap();
                    assert!(expected == tester);
                }
            }
        }
    }
}

#[test]
fn heap_test_split_off() {
    let mut tester = ArrayDeque::<String, 15>::new();
    let cap = tester.capacity();

    let minlen = 0;
    for len in minlen..cap {
        for at in 0..=len {
            let expected_self = ArrayDeque::<String, 15>::try_from_iter((0..).take(at).map(s)).unwrap();
            let expected_other =
                ArrayDeque::<String, 15>::try_from_iter((at..).take(len - at).map(s)).unwrap();

            for head_pos in 0..cap {
                reset_at(&mut tester, head_pos);
                for i in 0..len {
                    tester.push_back(s(i));
                }
                let mut result = tester.split_off(at);
                assert!(observed_head(&mut tester) <= tester.capacity());
                assert!(tester.len() <= tester.capacity());
                assert!(observed_head(&mut result) <= result.capacity());
                assert!(result.len() <= result.capacity());
                assert_eq!(tester, expected_self);
                assert_eq!(result, expected_other);
            }
        }
    }
}

#[test]
fn heap_test_from_vec() {
    let deque =
        ArrayDeque::<String, 4>::try_from_vec(vec!["1", "2", "3", "4"].into_iter().map(s).collect())
            .unwrap();
    assert_eq!(deque.len(), 4);

    let result =
        ArrayDeque::<String, 2>::try_from_vec(vec!["1", "2", "3"].into_iter().map(s).collect());
    assert!(result.is_err());
}

#[test]
fn heap_test_extend_basic() {
    let mut deque = ArrayDeque::<String, 4>::new();
    let items = ["1".to_string(), "2".to_string()].into_iter();
    let n = items.len();
    deque.try_extend_from_iter_of_len(items, n);
    assert_eq!(deque.len(), 2);
    assert_eq!(deque.get(0).unwrap(), "1");
    assert_eq!(deque.get(1).unwrap(), "2");
}

#[test]
fn heap_test_clone_deep_copies_heap_owning_elements() {
    let mut source = ArrayDeque::<String, 4>::new();
    source.push_back(s("hello"));
    source.push_front(s("world"));

    let cloned = source.clone();

    assert_eq!(source, cloned);
    for i in 0..source.len() {
        assert_ne!(source.get(i).unwrap().as_ptr(), cloned.get(i).unwrap().as_ptr());
    }
    drop(source);
    assert_eq!(cloned.get(0).unwrap(), "world");
    assert_eq!(cloned.get(1).unwrap(), "hello");
}

#[test]
fn heap_test_clone_from_deep_copies_heap_owning_elements() {
    let mut dst = ArrayDeque::<String, 4>::new();
    dst.push_back(s("stale-a"));
    dst.push_back(s("stale-b"));
    dst.push_back(s("stale-c"));

    let mut src = ArrayDeque::<String, 4>::new();
    src.push_back(s("fresh"));

    dst.clone_from(&src);
    assert_eq!(dst, src);
    assert_ne!(dst.get(0).unwrap().as_ptr(), src.get(0).unwrap().as_ptr());
}

#[test]
fn heap_make_contiguous_big_head() {
    let mut tester = ArrayDeque::<String, 15>::new();
    for i in 0..3 {
        tester.push_back(s(i));
    }
    for i in 3..10 {
        tester.push_front(s(i));
    }
    let expected_start = tester.as_slices().1.len();
    tester.make_contiguous();
    assert_eq!(observed_head(&mut tester), expected_start);
    let expected = strings(&[9, 8, 7, 6, 5, 4, 3, 0, 1, 2]);
    assert_eq!(owned(tester.as_slices()), (expected, vec![]));
}

#[test]
fn heap_make_contiguous_big_tail() {
    let mut tester = ArrayDeque::<String, 15>::new();
    for i in 0..8 {
        tester.push_back(s(i));
    }
    for i in 8..10 {
        tester.push_front(s(i));
    }
    tester.make_contiguous();
    let expected = strings(&[9, 8, 0, 1, 2, 3, 4, 5, 6, 7]);
    assert_eq!(owned(tester.as_slices()), (expected, vec![]));
}

#[test]
fn heap_make_contiguous_small_free() {
    let mut tester = ArrayDeque::<String, 16>::new();
    for ch in b'A'..b'I' {
        tester.push_back(String::from(ch as char));
    }
    for ch in b'I'..b'N' {
        tester.push_front(String::from(ch as char));
    }
    tester.make_contiguous();
    let expected = ["M", "L", "K", "J", "I", "A", "B", "C", "D", "E", "F", "G", "H"]
        .into_iter()
        .map(s)
        .collect::<Vec<_>>();
    assert_eq!(owned(tester.as_slices()), (expected, vec![]));

    tester.clear();
    for ch in b'I'..b'N' {
        tester.push_back(String::from(ch as char));
    }
    for ch in b'A'..b'I' {
        tester.push_front(String::from(ch as char));
    }
    tester.make_contiguous();
    let expected = ["H", "G", "F", "E", "D", "C", "B", "A", "I", "J", "K", "L", "M"]
        .into_iter()
        .map(s)
        .collect::<Vec<_>>();
    assert_eq!(owned(tester.as_slices()), (expected, vec![]));
}

#[test]
fn heap_make_contiguous_head_to_end() {
    let mut tester = ArrayDeque::<String, 16>::new();
    for ch in b'A'..b'L' {
        tester.push_back(String::from(ch as char));
    }
    for ch in b'L'..b'Q' {
        tester.push_front(String::from(ch as char));
    }
    tester.make_contiguous();
    let expected = ["P", "O", "N", "M", "L", "A", "B", "C", "D", "E", "F", "G", "H", "I", "J", "K"]
        .into_iter()
        .map(s)
        .collect::<Vec<_>>();
    assert_eq!(owned(tester.as_slices()), (expected, vec![]));

    tester.clear();
    for ch in b'L'..b'Q' {
        tester.push_back(String::from(ch as char));
    }
    for ch in b'A'..b'L' {
        tester.push_front(String::from(ch as char));
    }
    tester.make_contiguous();
    let expected = ["K", "J", "I", "H", "G", "F", "E", "D", "C", "B", "A", "L", "M", "N", "O", "P"]
        .into_iter()
        .map(s)
        .collect::<Vec<_>>();
    assert_eq!(owned(tester.as_slices()), (expected, vec![]));
}

#[test]
fn heap_make_contiguous_head_to_end_2() {
    let mut dq = ArrayDeque::<String, 6>::try_from_iter((0..6).map(s)).unwrap();
    dq.pop_front();
    dq.pop_front();
    dq.push_back(s(6));
    dq.push_back(s(7));
    dq.push_back(s(8));
    dq.make_contiguous();
    let collected: Vec<_> = contents(&dq);
    assert_eq!(owned(dq.as_slices()), (collected, vec![]));
}
