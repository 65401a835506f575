use yakumo::union_find::UnionFind;

#[test]
fn test_union_find_0() {
    let mut uf = UnionFind::new(2);
    assert!(uf.in_same_set(0, 0));
    assert!(!uf.in_same_set(0, 1));
    assert_eq!(uf.union(0, 1), 0);
    assert_eq!(uf.find_root(1), 0);
    assert_eq!(uf.group_size(1), 2);
}

#[test]
fn test_union_find_1() {
    let mut uf = UnionFind::new(6);
    assert_eq!(uf.group_size(3), 1);
    assert_eq!(uf.group_size(4), 1);
    uf.union(3, 4);
    assert_eq!(uf.group_size(2), 1);
    assert_eq!(uf.group_size(3), 2);
    assert_eq!(uf.group_size(4), 2);
    uf.union(2, 3);
    assert_eq!(uf.group_size(2), 3);
    assert_eq!(uf.group_size(3), 3);
    assert_eq!(uf.group_size(4), 3);
    assert_eq!(uf.group_size(5), 1);
}

#[test]
fn union_find_chain_and_repeat() {
    let mut uf = UnionFind::new(8);
    for i in 0..7 {
        uf.union(i, i + 1);
    }
    assert_eq!(uf.group_size(0), 8);
    let r = uf.find_root(7);
    assert_eq!(uf.union(0, 7), r);
    assert!(uf.in_same_set(2, 6));
}
