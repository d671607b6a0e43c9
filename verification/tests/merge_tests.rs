use iter_set_ops::{merge_iters, merge_iters_by, Direction, Source};

#[test]
fn test_merge() {
    let it1 = Source::new(vec![1, 2, 3, 4, 5]);
    let it2 = Source::new(vec![3, 4, 5, 6, 7]);
    let it3 = Source::new(vec![2, 3, 4]);
    let mut m = merge_iters(vec![it1, it2, it3]);
    let res = m.collect_all();

    assert_eq!(res, vec![1, 2, 3, 4, 5, 6, 7]);
    let mut iters = m.into_sources();
    assert!(iters[1].next().is_none());
}

#[test]
fn test_merge_by() {
    let it1 = Source::new(vec![5, 4, 3, 2, 1]);
    let it2 = Source::new(vec![7, 6, 5, 4, 3]);
    let it3 = Source::new(vec![4, 3, 2]);
    let mut m = merge_iters_by(vec![it1, it2, it3], Direction::Descending);
    let res = m.collect_all();

    assert_eq!(res, vec![7, 6, 5, 4, 3, 2, 1]);
    let mut iters = m.into_sources();
    assert!(iters[1].next().is_none());
}

#[test]
fn merge_of_nothing_is_empty() {
    let mut m = merge_iters(Vec::new());
    assert!(m.next().is_none());
    let res = m.collect_all();
    assert_eq!(res, Vec::<u64>::new());
}

#[test]
fn empty_source_changes_nothing() {
    let with_empty = vec![
        Source::new(vec![1, 4]),
        Source::new(vec![]),
        Source::new(vec![2, 4, 9]),
    ];
    let without = vec![Source::new(vec![1, 4]), Source::new(vec![2, 4, 9])];
    let mut m1 = merge_iters(with_empty);
    let mut m2 = merge_iters(without);
    assert_eq!(m1.collect_all(), m2.collect_all());
}

#[test]
fn merge_is_lazy_and_stops_for_good() {
    let mut m = merge_iters(vec![Source::new(vec![8]), Source::new(vec![8])]);
    assert_eq!(m.next(), Some(8));
    assert!(m.next().is_none());
    assert!(m.next().is_none());
}

#[test]
fn reversed_order_reverses_the_union() {
    let asc = vec![Source::new(vec![1, 5, 9]), Source::new(vec![2, 5])];
    let desc = vec![Source::new(vec![9, 5, 1]), Source::new(vec![5, 2])];
    let up = merge_iters(asc).collect_all();
    let mut down = merge_iters_by(desc, Direction::Descending).collect_all();
    down.reverse();
    assert_eq!(up, down);
    assert_eq!(up, vec![1, 2, 5, 9]);
}

#[test]
fn single_source_passes_through() {
    let mut m = merge_iters(vec![Source::new(vec![3, 7, 11])]);
    assert_eq!(m.collect_all(), vec![3, 7, 11]);
}

#[test]
fn source_drains_from_the_front() {
    let mut s = Source::new(vec![10, 20]);
    assert_eq!(s.next(), Some(10));
    assert_eq!(s.next(), Some(20));
    assert!(s.next().is_none());
    assert!(s.next().is_none());
}

#[test]
fn extreme_values_merge_in_both_orders() {
    let up = merge_iters(vec![
        Source::new(vec![0, 5, u64::MAX]),
        Source::new(vec![5]),
    ])
    .collect_all();
    assert_eq!(up, vec![0, 5, u64::MAX]);

    let down = merge_iters_by(
        vec![Source::new(vec![u64::MAX, 5, 0]), Source::new(vec![5])],
        Direction::Descending,
    )
    .collect_all();
    assert_eq!(down, vec![u64::MAX, 5, 0]);
}
