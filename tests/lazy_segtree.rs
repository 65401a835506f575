use yakumo::affine::{Affine as X, SumWithSize as S};
use yakumo::lazy_segtree::LazySegTree;

#[test]
fn test_lazy_segtree() {
    let a = vec![1, 2, 3, 4, 5];

    let mut vs = Vec::new();
    for y in a {
        vs.push(S { a: y, size: 1 });
    }

    let mut seg = LazySegTree::<S, X>::new(&vs);
    assert_eq!(seg.prod(0, 5).a, 15);
    seg.apply_range(2, 4, &X { a: 100, b: 101 });
    assert_eq!(seg.prod(0, 3).a, 404);
    seg.apply_range(1, 3, &X { a: 102, b: 103 });
    assert_eq!(seg.prod(2, 5).a, 41511);
    seg.apply_range(2, 5, &X { a: 104, b: 105 });
    assert_eq!(seg.prod(0, 5).a, 4317767);
}

fn affine(v: u64, x: &X) -> u64 {
    v.wrapping_mul(x.a).wrapping_add(x.b)
}

fn wrapping_sum(vs: &[u64]) -> u64 {
    vs.iter().fold(0u64, |acc, &v| acc.wrapping_add(v))
}

#[test]
fn lazy_matches_eager_array() {
    let n = 13;
    let mut eager: Vec<u64> = (0..n as u64).map(|i| i % 5 + 1).collect();
    let vs: Vec<S> = eager.iter().map(|&a| S { a, size: 1 }).collect();
    let mut seg = LazySegTree::<S, X>::new(&vs);
    let mut step = 0u64;
    for l in 0..n {
        for r in l..=n {
            step += 1;
            let x = X { a: step % 3 + 1, b: step % 4 };
            seg.apply_range(l, r, &x);
            for v in eager[l..r].iter_mut() {
                *v = affine(*v, &x);
            }
            let (pl, pr) = (step as usize % (n + 1), (step as usize * 7) % (n + 1));
            let (pl, pr) = if pl <= pr { (pl, pr) } else { (pr, pl) };
            assert_eq!(seg.prod(pl, pr).a, wrapping_sum(&eager[pl..pr]));
        }
    }
    assert_eq!(seg.all_prod().a, wrapping_sum(&eager));
    for i in 0..n {
        assert_eq!(seg.get(i).a, eager[i]);
    }
}

#[test]
fn lazy_range_apply_then_prod() {
    let vs: Vec<S> = (1..=8u64).map(|a| S { a, size: 1 }).collect();
    let mut seg = LazySegTree::<S, X>::new(&vs);
    seg.apply_range(0, 8, &X { a: 2, b: 1 });
    assert_eq!(seg.prod(0, 8).a, 2 * 36 + 8);
    seg.apply_range(3, 5, &X { a: 1, b: 10 });
    assert_eq!(seg.prod(3, 5).a, (2 * 4 + 1) + (2 * 5 + 1) + 20);
    assert_eq!(seg.get(4).a, 2 * 5 + 1 + 10);
    seg.apply(0, &X { a: 0, b: 7 });
    assert_eq!(seg.get(0).a, 7);
    assert_eq!(seg.prod(0, 0).a, 0);
}

#[test]
fn lazy_bisect_both_ways() {
    let vs: Vec<S> = vec![3, 1, 4, 1, 5, 9, 2, 6].into_iter().map(|a| S { a, size: 1 }).collect();
    let mut seg = LazySegTree::<S, X>::new(&vs);
    assert_eq!(seg.max_right(0, |s: &S| s.a <= 9), 4);
    assert_eq!(seg.max_right(2, |s: &S| s.a <= 10), 5);
    assert_eq!(seg.max_right(0, |s: &S| s.a <= 100), 8);
    assert_eq!(seg.max_right(8, |s: &S| s.a == 0), 8);
    assert_eq!(seg.min_left(8, |s: &S| s.a <= 8), 6);
    assert_eq!(seg.min_left(8, |s: &S| s.a <= 100), 0);
    assert_eq!(seg.min_left(0, |s: &S| s.a == 0), 0);
    assert_eq!(seg.min_left(5, |s: &S| s.a <= 6), 3);
    seg.apply_range(0, 8, &X { a: 1, b: 1 });
    assert_eq!(seg.max_right(0, |s: &S| s.a <= 9), 2);
    assert_eq!(seg.min_left(8, |s: &S| s.a <= 10), 6);
}

#[test]
fn lazy_set_and_get() {
    let vs: Vec<S> = vec![S { a: 0, size: 1 }; 6];
    let mut seg = LazySegTree::<S, X>::new(&vs);
    seg.apply_range(1, 5, &X { a: 1, b: 3 });
    seg.set(2, S { a: 100, size: 1 });
    assert_eq!(seg.get(2).a, 100);
    assert_eq!(seg.get(3).a, 3);
    assert_eq!(seg.all_prod().a, 3 + 100 + 3 + 3);
}
