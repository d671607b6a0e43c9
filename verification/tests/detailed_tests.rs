use iter_set_ops::{merge_iters_detailed, merge_iters_detailed_by, Direction, Source};

#[test]
fn test_merge_detailed() {
    let it1 = Source::new(vec![1, 2]);
    let it2 = Source::new(vec![2, 3]);
    let mut m = merge_iters_detailed(vec![it1, it2]);
    let res = m.collect_all();

    assert_eq!(res, vec![vec![(0, 1)], vec![(1, 2), (0, 2)], vec![(1, 3)]]);
    let mut iters = m.into_sources();
    assert!(iters[1].next().is_none());
}

#[test]
fn test_merge_detailed_by() {
    let it1 = Source::new(vec![2, 1]);
    let it2 = Source::new(vec![3, 2]);
    let mut m = merge_iters_detailed_by(vec![it1, it2], Direction::Descending);
    let res = m.collect_all();

    assert_eq!(res, vec![vec![(1, 3)], vec![(0, 2), (1, 2)], vec![(0, 1)]]);
    let mut iters = m.into_sources();
    assert!(iters[1].next().is_none());
}

#[test]
fn groups_cover_every_holder_of_a_value() {
    let sources = vec![
        Source::new(vec![1, 3]),
        Source::new(vec![3, 5]),
        Source::new(vec![3]),
    ];
    let mut m = merge_iters_detailed(sources);
    let res = m.collect_all();

    assert_eq!(res.len(), 3);
    assert_eq!(res[0], vec![(0, 1)]);
    // every source holds 3, so the group for 3 names each exactly once
    let mut holders: Vec<usize> = res[1].iter().map(|e| e.0).collect();
    holders.sort();
    assert_eq!(holders, vec![0, 1, 2]);
    assert!(res[1].iter().all(|e| e.1 == 3));
    assert_eq!(res[2], vec![(1, 5)]);
}

#[test]
fn flattened_groups_rebuild_each_source() {
    let a = vec![2, 4, 6];
    let b = vec![1, 2, 6, 7];
    let sources = vec![Source::new(a.clone()), Source::new(b.clone())];
    let mut m = merge_iters_detailed(sources);
    let res = m.collect_all();

    let rebuilt_a: Vec<u64> = res
        .iter()
        .flat_map(|g| g.iter())
        .filter(|e| e.0 == 0)
        .map(|e| e.1)
        .collect();
    let rebuilt_b: Vec<u64> = res
        .iter()
        .flat_map(|g| g.iter())
        .filter(|e| e.0 == 1)
        .map(|e| e.1)
        .collect();
    assert_eq!(rebuilt_a, a);
    assert_eq!(rebuilt_b, b);
}

#[test]
fn detailed_merge_of_nothing_is_empty() {
    let mut m = merge_iters_detailed(Vec::new());
    assert!(m.next().is_none());
    assert!(m.collect_all().is_empty());
}
