use planar_graphs::union_find::UnionFind;

#[test]
fn fresh_sets_are_singletons() {
    let mut uf = UnionFind::new(5);
    for x in 0..5 {
        assert_eq!(uf.find(x), x);
        for y in 0..5 {
            assert_eq!(uf.same_set(x, y), x == y);
        }
    }
}

#[test]
fn union_merges_two_sets_and_no_others() {
    let mut uf = UnionFind::new(6);
    uf.union(0, 1);
    uf.union(2, 3);
    assert!(uf.same_set(0, 1));
    assert!(uf.same_set(3, 2));
    assert!(!uf.same_set(1, 2));
    assert!(!uf.same_set(4, 5));
    uf.union(1, 3);
    for x in 0..4 {
        for y in 0..4 {
            assert!(uf.same_set(x, y));
        }
        assert!(!uf.same_set(x, 4));
        assert!(!uf.same_set(x, 5));
    }
    uf.union(0, 3);
    assert!(!uf.same_set(0, 4));
}

#[test]
fn the_smaller_set_hangs_below_the_larger() {
    let mut uf = UnionFind::new(5);
    // equal sizes: the root of the second argument hangs below that of the first
    uf.union(0, 1);
    assert_eq!(uf.find(1), 0);
    assert_eq!(uf.find(0), 0);
    uf.union(3, 2);
    assert_eq!(uf.find(2), 3);
    // a singleton joins the pair, whichever comes first
    uf.union(4, 1);
    assert_eq!(uf.find(4), 0);
    uf.union(2, 4);
    assert_eq!(uf.find(2), 0);
    assert_eq!(uf.find(3), 0);
}

#[test]
fn empty_union_find() {
    let _ = UnionFind::new(0);
}

#[test]
fn a_pair_takes_a_singleton_below_its_root() {
    let mut uf = UnionFind::new(4);
    uf.union(0, 1);
    uf.union(0, 2);
    assert_eq!(uf.find(2), 0);
    assert_eq!(uf.find(1), 0);
    assert_eq!(uf.find(3), 3);
    // the same with the singleton named first
    let mut uf = UnionFind::new(4);
    uf.union(2, 3);
    uf.union(0, 3);
    assert_eq!(uf.find(0), 2);
}
