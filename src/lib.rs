//! Algorithmic building blocks: a monoid-driven segment tree engine (plain,
//! lazy, and binary search over folds) together with small number-theoretic
//! and data-structure utilities.
pub mod algebra;
pub mod ops;
pub mod utils;
pub mod tree;
pub mod segtree;
pub mod naive_segtree;
pub mod lazy_segtree;
pub mod affine;
pub mod gcd;
pub mod mod_int;
pub mod fenwick;
pub mod traits;
pub mod geom;
pub mod binary_search;
pub mod union_find;
pub mod prime;
pub mod permutation;
pub mod combination;
pub mod scc;
pub mod factor;
pub mod dijkstra;
pub mod ford_fulkerson;
