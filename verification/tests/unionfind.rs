use photo_cleanup::unionfind::UnionFind;

#[test]
fn merges_transitively() {
    let mut u = UnionFind::new(5);
    assert!(u.union(0, 1));
    assert!(u.union(1, 2));
    assert!(!u.union(0, 2), "уже в одном множестве");
    assert_eq!(u.find(0), u.find(2));
    assert_ne!(u.find(0), u.find(3));

    let g = u.groups();
    let sizes: Vec<usize> = g.values().map(|v| v.len()).collect();
    assert_eq!(sizes.iter().sum::<usize>(), 5);
    assert!(sizes.contains(&3));
}

#[test]
fn fresh_sets_are_singletons() {
    let mut u = UnionFind::new(3);
    for i in 0..3 {
        assert_eq!(u.find(i), i);
    }
    let g = u.groups();
    assert_eq!(g.len(), 3);
    assert_eq!(g[&1], vec![1]);
}

#[test]
fn equal_ranks_keep_the_first_representative() {
    let mut u = UnionFind::new(4);
    assert!(u.union(2, 3));
    assert_eq!(u.find(3), 2);
    // rank of 2 is now higher than rank of 0, so 2 survives
    assert!(u.union(0, 3));
    assert_eq!(u.find(0), 2);
    let g = u.groups();
    assert_eq!(g.len(), 2);
    assert_eq!(g[&2], vec![0, 2, 3]);
    assert_eq!(g[&1], vec![1]);
}

#[test]
fn find_is_idempotent() {
    let mut u = UnionFind::new(6);
    u.union(0, 1);
    u.union(2, 3);
    u.union(1, 3);
    let r = u.find(3);
    assert_eq!(u.find(r), r);
    assert!(!u.union(0, 2));
}

#[test]
fn empty_partition_has_no_groups() {
    let mut u = UnionFind::new(0);
    assert!(u.groups().is_empty());
}
