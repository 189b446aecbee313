use topset::TopSet;
use topset::TopSetReducing;

#[test]
fn heap_lowest_cost() {
    let mut top = TopSet::<f32, _>::new(5, f32::lt);
    top.extend(vec![81.5, 4.5, 4., 1., 45., 22., 11.]);
    top.extend(vec![81.5, 4.5, 4., 1., 45., 22., 11.]);

    assert_eq![top.pop(), Some(4.5)];
    assert_eq![top.pop(), Some(4.)];
    assert_eq![top.pop(), Some(4.)];
    assert_eq![top.pop(), Some(1.)];
    assert_eq![top.pop(), Some(1.)];
    assert_eq![top.pop(), None];
}

#[test]
fn heap_greatest_score() {
    assert_eq![
        vec![81, 5, 4, 5, 4, 1, 45, 22, 1, 5, 97, 5, 877, 12, 0]
            .topset(5, u32::gt)
            .into_iter_sorted()
            .last(),
        Some(877)
    ];
}

#[test]
fn dummy_tests_just_for_coverage() {
    let top = TopSet::new(10, u32::gt);
    let _ = top.clone();
}

#[test]
fn new_is_empty() {
    let top = TopSet::new(4, u32::gt);
    assert!(top.is_empty());
    assert_eq!(top.len(), 0);
    assert_eq!(top.capacity(), 4);
    assert_eq!(top.peek(), None);
}

#[test]
fn with_init_keeps_the_best() {
    let mut top = TopSet::with_init(2, u32::gt, vec![7, 5, 6, 9, 4, 2, 3]);
    assert_eq!(top.len(), 2);
    assert_eq!(top.pop(), Some(7));
    assert_eq!(top.pop(), Some(9));
    assert_eq!(top.pop(), None);
}

#[test]
fn insert_accepts_evicts_rejects() {
    let mut top = TopSet::new(2, u32::gt);
    assert_eq!(top.insert(7), None);
    assert_eq!(top.insert(8), None);
    assert_eq!(top.insert(9), Some(7));
    assert_eq!(top.insert(6), Some(6));
    let mut stored = top.into_vec();
    stored.sort();
    assert_eq!(stored, vec![8, 9]);
}

#[test]
fn insert_with_zero_capacity_rejects_everything() {
    let mut top = TopSet::new(0, u32::gt);
    assert_eq!(top.insert(5), Some(5));
    assert_eq!(top.insert(0), Some(0));
    assert_eq!(top.len(), 0);
    assert_eq!(top.peek(), None);
}

#[test]
fn capacity_never_exceeded() {
    let mut top = TopSet::new(3, i32::gt);
    for x in [5, -1, 8, 3, 3, 0, 12, -7, 9, 2] {
        top.insert(x);
        assert!(top.len() <= top.capacity());
    }
    assert_eq!(top.len(), 3);
}

#[test]
fn eviction_never_lowers_the_worst() {
    let mut top = TopSet::with_init(3, i32::gt, vec![4, 9, 6]);
    let worst_before = *top.peek().unwrap();
    assert_eq!(worst_before, 4);
    assert_eq!(top.insert(7), Some(4));
    let worst_after = *top.peek().unwrap();
    assert!(!top.beat(&worst_before, &worst_after));
    assert_eq!(worst_after, 6);
}

#[test]
fn peek_is_idempotent() {
    let top = TopSet::with_init(2, u32::gt, vec![7, 5, 6, 9, 4, 2, 3]);
    let first = top.peek().copied();
    let second = top.peek().copied();
    assert_eq!(first, second);
    assert_eq!(first, Some(7));
}

#[test]
fn is_candidate_matches_insert() {
    let top = TopSet::with_init(2, u32::gt, vec![7, 5, 6, 9, 4, 2, 3]);
    assert!(top.is_candidate(&10));
    assert!(top.is_candidate(&8));
    assert!(!top.is_candidate(&7));
    assert!(!top.is_candidate(&6));
}

#[test]
fn is_candidate_with_zero_capacity() {
    let top = TopSet::new(0, u32::gt);
    assert!(!top.is_candidate(&10));
}

#[test]
fn pops_come_out_ascending() {
    let mut top = TopSet::with_init(6, u32::gt, vec![81, 5, 4, 45, 22, 1, 97, 12, 0]);
    let mut prev = top.pop().unwrap();
    while let Some(next) = top.pop() {
        assert!(!top.beat(&prev, &next));
        prev = next;
    }
}

#[test]
fn round_trip_returns_the_best_n() {
    let input = vec![81, 5, 4, 5, 4, 1, 45, 22, 1, 5, 97, 5, 877, 12, 0];
    let top = input.topset(5, u32::gt);
    assert_eq!(top.into_sorted_vec(), vec![22, 45, 81, 97, 877]);
}

#[test]
fn into_sorted_vec_is_ascending() {
    let top = TopSet::with_init(3, u32::gt, vec![1, 2, 7, 4, 7, 5, 6, 9, 4, 2, 3]);
    assert_eq!(top.into_sorted_vec(), vec![7, 7, 9]);
}

#[test]
fn resize_shrink_discards_the_worst() {
    let mut top = TopSet::with_init(4, u32::gt, vec![7, 5, 6, 9, 4, 2, 3]);
    assert_eq!(top.peek(), Some(&5));
    top.resize(2);
    assert_eq!(top.len(), 2);
    assert_eq!(top.capacity(), 2);
    assert_eq!(top.peek(), Some(&7));
    assert_eq!(top.insert(1), Some(1));
    top.resize(3);
    assert_eq!(top.insert(1), None);
    assert_eq!(top.insert(2), Some(1));
    let mut stored = top.into_vec();
    stored.sort();
    assert_eq!(stored, vec![2, 7, 9]);
}

#[test]
fn resize_grow_discards_nothing() {
    let mut top = TopSet::with_init(2, u32::gt, vec![3, 8]);
    top.resize(10);
    assert_eq!(top.len(), 2);
    assert_eq!(top.capacity(), 10);
    assert_eq!(top.insert(1), None);
    assert_eq!(top.len(), 3);
}

#[test]
fn clear_keeps_capacity() {
    let mut top = TopSet::with_init(2, u32::gt, vec![7, 5, 6, 9, 4, 2, 3]);
    assert_eq!(top.len(), 2);
    top.clear();
    assert_eq!(top.len(), 0);
    assert_eq!(top.capacity(), 2);
}

#[test]
fn drain_empties_the_set() {
    let mut top = TopSet::with_init(4, u32::gt, vec![7, 5, 6, 9, 4, 2, 3]);
    let mut drained = top.drain();
    assert!(top.is_empty());
    assert_eq!(top.capacity(), 4);
    drained.sort();
    assert_eq!(drained, vec![5, 6, 7, 9]);
}

#[test]
fn iter_sees_all_items() {
    let top = TopSet::with_init(2, u32::gt, vec![7, 5, 6, 9, 4, 2, 3]);
    let mut elts = top.iter().iter().cloned().collect::<Vec<_>>();
    elts.sort();
    assert_eq!(elts, vec![7, 9]);
}

#[test]
fn beat_consults_only_the_duel() {
    let top = TopSet::with_init(2, u32::gt, vec![7, 5, 6, 9, 4, 2, 3]);
    assert!(top.beat(&4, &3));
    assert!(!top.beat(&4, &7));
    assert!(!top.beat(&4, &4));
}
