use topset::topset_greatest;
use topset::topset_lowest;
use topset::IntoIterSorted;
use topset::TopSet;
use topset::TopSetReducing;

#[test]
fn iter_lowest_cost() {
    let mut top = topset_lowest(
        vec![81.5, 4.5, 4., 1., 45., 22., 11., 81.5, 4.5, 4., 1., 45., 22., 11.],
        5,
    );

    assert_eq![top.pop(), Some(4.5)];
    assert_eq![top.pop(), Some(4.)];
    assert_eq![top.pop(), Some(4.)];
    assert_eq![top.pop(), Some(1.)];
    assert_eq![top.pop(), Some(1.)];
    assert_eq![top.pop(), None];
}

#[test]
fn iter_greatest_score() {
    assert_eq![
        topset_greatest(vec![81, 5, 4, 5, 4, 1, 45, 22, 1, 5, 97, 5, 877, 12, 0], 5)
            .into_iter_sorted()
            .last(),
        Some(877)
    ];
}

#[test]
fn sorted_iteration_is_ascending() {
    let top = TopSet::with_init(2, u32::gt, vec![7, 5, 6, 9, 4, 2, 3]);
    let mut iter = top.into_iter_sorted();
    assert_eq!(iter.next(), Some(7));
    assert_eq!(iter.next(), Some(9));
    assert_eq!(iter.next(), None);
}

#[test]
fn sorted_iteration_peek_and_sizes() {
    let top = TopSet::with_init(3, u32::gt, vec![1, 2, 7, 4, 7, 5, 6, 9]);
    let mut iter = top.into_iter_sorted();
    assert_eq!(iter.len(), 3);
    assert_eq!(iter.size_hint(), (3, Some(3)));
    assert_eq!(iter.peek(), Some(&7));
    assert_eq!(iter.peek(), Some(&7));
    assert_eq!(iter.next(), Some(7));
    assert_eq!(iter.len(), 2);
    assert_eq!(iter.count(), 2);
}

#[test]
fn sorted_iteration_last_is_the_best() {
    let top = TopSet::with_init(3, u32::gt, vec![1, 2, 7, 4, 7, 5, 6, 9]);
    assert_eq!(top.into_iter_sorted().last(), Some(9));

    let empty = TopSet::new(3, u32::gt);
    assert_eq!(empty.into_iter_sorted().last(), None);
}

#[test]
fn sorted_iteration_from_topset() {
    let top = TopSet::with_init(1, u32::gt, vec![3, 1, 2]);
    let mut iter = IntoIterSorted::from(top);
    assert_eq!(iter.next(), Some(3));
    assert_eq!(iter.next(), None);
}

#[test]
fn reducing_a_vector() {
    let mut top = vec![4, 5, 8, 3, 2, 1, 4, 7, 9, 8].topset(4, i32::gt);
    assert_eq!(top.len(), 4);
    assert_eq!(top.pop(), Some(7));
    assert_eq!(top.pop(), Some(8));
    assert_eq!(top.pop(), Some(8));
    assert_eq!(top.pop(), Some(9));
    assert_eq!(top.pop(), None);
}

#[test]
fn greatest_and_lowest_selections() {
    let items = vec![4, 5, 8, 3, 2, 1, 4, 7, 9, 8];
    let greatest = topset_greatest(items.clone(), 4);
    assert_eq!(greatest.into_sorted_vec(), vec![7, 8, 8, 9]);
    let lowest = topset_lowest(items, 4);
    assert_eq!(lowest.into_sorted_vec(), vec![4, 3, 2, 1]);
}
