use yakumo::fenwick::FenwickTree;

#[test]
fn fenwick_test_fenwick_basic() {
    let mut fenwick = FenwickTree::new(5, 0);
    for i in 0..5 {
        fenwick.add(i, i);
    }
    assert_eq!(fenwick.sum(0..0), 0);
    assert_eq!(fenwick.sum(1..3), 3);
    assert_eq!(fenwick.sum(0..5), 10);
}

#[test]
fn fenwick_test_fenwick_square() {
    for n in 0..=50 {
        let mut fenwick = FenwickTree::new(n, 0);
        for i in 0..n {
            fenwick.add(i, i * i);
        }
        for l in 0..=n {
            for r in l..=n {
                let mut s = 0;
                for i in l..r {
                    s += i * i;
                }
                assert_eq!(fenwick.sum(l..r), s);
            }
        }
    }
}

#[test]
fn fenwick_fold_and_prefix_sums() {
    let mut fenwick = FenwickTree::new(8, 0);
    for i in 0..8 {
        fenwick.add(i, 1 << i);
    }
    assert_eq!(fenwick.fold(0..0), 0);
    assert_eq!(fenwick.fold(0..8), 255);
    assert_eq!(fenwick.fold(3..6), 8 + 16 + 32);
    assert_eq!(fenwick.prefix_sum(4), 15);
    fenwick.add(2, 100);
    assert_eq!(fenwick.prefix_sum(3), 107);
    assert_eq!(fenwick.prefix_sum(2), 3);
}
