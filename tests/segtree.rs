use yakumo::naive_segtree::NaiveSegTree;
use yakumo::ops::{OpAdd, OpMax, OpMin, OpMul};
use yakumo::segtree::SegTree;

// [0, 1, 4, 9, 16]

#[test]
fn test_segtree_op_add() {
    let len = 5;

    let mut seg = NaiveSegTree::<OpAdd<usize>>::new(len);
    for i in 0..5 {
        seg.set(i, i * i);
    }
    assert_eq!(*seg.index(0), 0);
    assert_eq!(*seg.index(2), 4);
    assert_eq!(seg.fold(0..0), 0);
    assert_eq!(seg.fold(0..3), 5);
    assert_eq!(seg.fold(1..3), 5);
    assert_eq!(seg.bisect_fold(0, |&x| x <= 5), 3);
    assert_eq!(seg.bisect_fold(0, |&x| x < 5), 2);
    assert_eq!(seg.bisect_fold_rev(5, |&x| x <= 25), 3);
    assert_eq!(seg.bisect_fold_rev(5, |&x| x < 25), 4);

    let mut seg = SegTree::<OpAdd<usize>>::new(len);
    for i in 0..5 {
        seg.set(i, i * i);
    }
    assert_eq!(*seg.index(0), 0);
    assert_eq!(*seg.index(2), 4);
    assert_eq!(seg.fold(0..0), 0);
    assert_eq!(seg.fold(0..3), 5);
    assert_eq!(seg.fold(1..3), 5);
    assert_eq!(seg.bisect_fold(0, |&x| x <= 5), 3);
    assert_eq!(seg.bisect_fold(0, |&x| x < 5), 2);
    assert_eq!(seg.bisect_fold_rev(5, |&x| x <= 25), 3);
    assert_eq!(seg.bisect_fold_rev(5, |&x| x < 25), 4);
}

#[test]
fn test_segtree_op_mul() {
    let len = 5;

    let mut seg = NaiveSegTree::<OpMul<usize>>::new(len);
    for i in 0..5 {
        seg.set(i, i * i);
    }
    assert_eq!(*seg.index(0), 0);
    assert_eq!(*seg.index(2), 4);
    assert_eq!(seg.fold(0..0), 1);
    assert_eq!(seg.fold(0..3), 0);
    assert_eq!(seg.fold(1..3), 4);

    let mut seg = SegTree::<OpMul<usize>>::new(len);
    for i in 0..5 {
        seg.set(i, i * i);
    }
    assert_eq!(*seg.index(0), 0);
    assert_eq!(*seg.index(2), 4);
    assert_eq!(seg.fold(0..0), 1);
    assert_eq!(seg.fold(0..3), 0);
    assert_eq!(seg.fold(1..3), 4);
}

#[test]
fn test_segtree_op_min() {
    let len = 5;

    let mut seg = NaiveSegTree::<OpMin<usize>>::new(len);
    for i in 0..5 {
        seg.set(i, i * i);
    }
    assert_eq!(*seg.index(0), 0);
    assert_eq!(*seg.index(2), 4);
    assert_eq!(seg.fold(0..0), std::usize::MAX);
    assert_eq!(seg.fold(0..3), 0);
    assert_eq!(seg.fold(1..3), 1);

    let mut seg = SegTree::<OpMin<usize>>::new(len);
    for i in 0..5 {
        seg.set(i, i * i);
    }
    assert_eq!(*seg.index(0), 0);
    assert_eq!(*seg.index(2), 4);
    assert_eq!(seg.fold(0..0), std::usize::MAX);
    assert_eq!(seg.fold(0..3), 0);
    assert_eq!(seg.fold(1..3), 1);
}

#[test]
fn test_segtree_op_max() {
    let len = 5;

    let mut seg = NaiveSegTree::<OpMax<usize>>::new(len);
    for i in 0..5 {
        seg.set(i, i * i);
    }
    assert_eq!(*seg.index(0), 0);
    assert_eq!(*seg.index(2), 4);
    assert_eq!(seg.fold(0..0), 0);
    assert_eq!(seg.fold(0..3), 4);
    assert_eq!(seg.fold(1..3), 4);

    let mut seg = SegTree::<OpMax<usize>>::new(len);
    for i in 0..5 {
        seg.set(i, i * i);
    }
    assert_eq!(*seg.index(0), 0);
    assert_eq!(*seg.index(2), 4);
    assert_eq!(seg.fold(0..0), 0);
    assert_eq!(seg.fold(0..3), 4);
    assert_eq!(seg.fold(1..3), 4);
}

#[test]
fn test_segtree() {
    let seg = SegTree::<OpAdd<usize>>::from(vec![3, 1, 4]);
    assert_eq!(seg.fold(0..3), 8);
}

#[test]
fn squares_sum_scenario() {
    let seg = SegTree::<OpAdd<usize>>::from(vec![1, 4, 9, 16, 25]);
    assert_eq!(seg.fold(0..5), 55);
    assert_eq!(seg.fold(1..3), 13);
    assert_eq!(seg.fold(0..0), 0);
}

#[test]
fn empty_fold_is_identity_for_min_and_max() {
    let seg = SegTree::<OpMin<i32>>::from(vec![5, -3, 7]);
    assert_eq!(seg.fold(1..1), i32::MAX);
    assert_eq!(seg.fold(0..3), -3);
    let seg = SegTree::<OpMax<i32>>::from(vec![5, -3, 7]);
    assert_eq!(seg.fold(2..2), i32::MIN);
    assert_eq!(seg.fold(0..2), 5);
    let seg = SegTree::<OpMax<usize>>::new(4);
    assert_eq!(seg.fold(0..0), usize::MIN);
}

#[test]
fn repeated_set_keeps_the_aggregate() {
    let mut seg = SegTree::<OpAdd<usize>>::from(vec![1, 2, 3, 4]);
    seg.set(2, 10);
    let once = seg.fold(0..4);
    seg.set(2, 10);
    assert_eq!(seg.fold(0..4), once);
    assert_eq!(once, 17);
}

#[test]
fn folds_agree_with_direct_sums() {
    let values: Vec<usize> = (0..37).map(|i| (i * 7 + 3) % 11).collect();
    let seg = SegTree::<OpAdd<usize>>::from(values.clone());
    let naive = NaiveSegTree::<OpAdd<usize>>::from(values.clone());
    for l in 0..=values.len() {
        for r in l..=values.len() {
            let direct: usize = values[l..r].iter().sum();
            assert_eq!(seg.fold(l..r), direct);
            assert_eq!(naive.fold(l..r), direct);
        }
    }
}

#[test]
fn bisect_matches_naive_on_every_start() {
    let values: Vec<usize> = (0..23).map(|i| (i * 5 + 1) % 7).collect();
    let seg = SegTree::<OpAdd<usize>>::from(values.clone());
    let naive = NaiveSegTree::<OpAdd<usize>>::from(values.clone());
    for bound in 0..40 {
        for l in 0..=values.len() {
            assert_eq!(seg.bisect_fold(l, |&x| x <= bound), naive.bisect_fold(l, |&x| x <= bound));
        }
        for r in 0..=values.len() {
            assert_eq!(
                seg.bisect_fold_rev(r, |&x| x <= bound),
                naive.bisect_fold_rev(r, |&x| x <= bound)
            );
        }
    }
}

#[test]
fn bisect_at_the_ends() {
    let seg = SegTree::<OpAdd<usize>>::from(vec![1, 1, 1]);
    assert_eq!(seg.bisect_fold(3, |&x| x == 0), 3);
    assert_eq!(seg.bisect_fold(0, |_| true), 3);
    assert_eq!(seg.bisect_fold_rev(0, |&x| x == 0), 0);
    assert_eq!(seg.bisect_fold_rev(3, |_| true), 0);
}

fn fold_all<T: yakumo::traits::Fold<Output = usize>>(t: &T, n: usize) -> usize {
    yakumo::traits::Fold::fold(t, 0..n)
}

#[test]
fn folds_through_the_shared_interfaces() {
    let mut seg = SegTree::<OpAdd<usize>>::from(vec![1, 2, 3]);
    yakumo::traits::SetValue::set(&mut seg, 0, 5);
    assert_eq!(fold_all(&seg, 3), 10);
    assert_eq!(yakumo::traits::BisectFold::bisect_fold(&seg, 0, |&x: &usize| x <= 7), 2);
    assert_eq!(yakumo::traits::BisectFoldRev::bisect_fold_rev(&seg, 3, |&x: &usize| x <= 5), 1);
    let naive = NaiveSegTree::<OpAdd<usize>>::from(vec![5, 2, 3]);
    assert_eq!(fold_all(&naive, 3), 10);
    let mut fenwick = yakumo::fenwick::FenwickTree::new(3, 0);
    fenwick.add(1, 4);
    assert_eq!(fold_all(&fenwick, 3), 4);
}
