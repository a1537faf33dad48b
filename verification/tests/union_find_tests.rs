use calendar_puzzle::union_find::UnionFind;

#[test]
fn new_forest_is_all_singletons() {
    let mut uf = UnionFind::new(5);
    assert_eq!(uf.roots(), vec![0, 1, 2, 3, 4]);
    for x in 0..5 {
        assert_eq!(uf.find(x), x);
        assert_eq!(uf.size(x), 1);
        assert_eq!(uf.members(x), vec![x]);
    }
}

#[test]
fn empty_forest_has_no_roots() {
    let uf = UnionFind::new(0);
    assert_eq!(uf.roots(), Vec::<usize>::new());
}

#[test]
fn union_joins_two_sets() {
    let mut uf = UnionFind::new(6);
    uf.union(1, 4);
    assert_eq!(uf.find(1), uf.find(4));
    assert_eq!(uf.size(1), 2);
    assert_eq!(uf.size(4), 2);
    assert_eq!(uf.members(4), vec![1, 4]);
    assert_eq!(uf.size(0), 1);
    assert_eq!(uf.roots().len(), 5);
}

#[test]
fn first_argument_wins_a_tie() {
    let mut uf = UnionFind::new(4);
    uf.union(2, 1);
    assert_eq!(uf.find(1), 2);
    assert_eq!(uf.find(2), 2);
    assert_eq!(uf.roots(), vec![0, 2, 3]);
}

#[test]
fn larger_set_keeps_its_representative() {
    let mut uf = UnionFind::new(6);
    uf.union(0, 1);
    uf.union(0, 2);
    assert_eq!(uf.find(2), 0);
    uf.union(5, 2);
    assert_eq!(uf.find(5), 0);
    assert_eq!(uf.size(5), 4);
    assert_eq!(uf.members(5), vec![0, 1, 2, 5]);
    assert_eq!(uf.roots(), vec![0, 3, 4]);
}

#[test]
fn union_within_one_set_changes_nothing() {
    let mut uf = UnionFind::new(3);
    uf.union(0, 1);
    uf.union(1, 0);
    assert_eq!(uf.size(0), 2);
    assert_eq!(uf.roots(), vec![0, 2]);
    assert_eq!(uf.members(2), vec![2]);
}

#[test]
fn chain_of_unions_makes_one_set() {
    let mut uf = UnionFind::new(49);
    for x in 0..48 {
        uf.union(x, x + 1);
    }
    assert_eq!(uf.roots().len(), 1);
    assert_eq!(uf.size(17), 49);
    assert_eq!(uf.members(48), (0..49).collect::<Vec<usize>>());
    let root = uf.find(48);
    for x in 0..49 {
        assert_eq!(uf.find(x), root);
    }
}
