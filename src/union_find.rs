//! Disjoint sets with union by size and path compression.
use vstd::prelude::*;
use vstd::set_lib::set_int_range;

verus! {

/// Disjoint sets over `0..n`: `size[a] > 0` exactly for representatives, and
/// then holds the size of the set; otherwise `par[a]` leads towards one.
pub struct UnionFind {
    par: Vec<usize>,
    size: Vec<usize>,
    root: Ghost<Seq<int>>,
    rank: Ghost<Seq<nat>>,
}

impl UnionFind {
    /// The representative of each element.
    pub closed spec fn roots(&self) -> Seq<int> {
        self.root@
    }

    /// The elements whose representative is `r`.
    pub open spec fn class(roots: Seq<int>, r: int) -> Set<int> {
        Set::new(|x: int| 0 <= x < roots.len() && roots[x] == r)
    }

    #[verifier::opaque]
    pub closed spec fn wf(&self) -> bool {
        let n = self.par@.len();
        &&& n <= usize::MAX
        &&& self.size@.len() == n
        &&& self.root@.len() == n
        &&& self.rank@.len() == n
        &&& forall|a: int| 0 <= a < n ==> 0 <= #[trigger] self.root@[a] < n && self.root@[self.root@[a]] == self.root@[a]
        &&& forall|a: int| 0 <= a < n ==> (self.size@[a] > 0 <==> #[trigger] self.root@[a] == a)
        &&& forall|a: int|
            0 <= a < n && #[trigger] self.root@[a] != a ==> {
                &&& (self.par@[a] as int) < n
                &&& self.root@[self.par@[a] as int] == self.root@[a]
                &&& self.rank@[self.par@[a] as int] > self.rank@[a]
                &&& self.rank@[a] < self.rank@[self.root@[a]]
            }
        &&& forall|a: int|
            0 <= a < n && #[trigger] self.root@[a] == a ==> self.size@[a] == Self::class(self.root@, a).len()
                && self.rank@[a] < self.size@[a]
    }

    /// How far `a` may be from its representative.
    pub closed spec fn height_bound(&self, a: int) -> int {
        self.par@.len() - self.rank@[a]
    }

    /// A class is finite and within `0..n`.
    proof fn lemma_class_finite(roots: Seq<int>, r: int)
        ensures
            Self::class(roots, r).finite(),
            Self::class(roots, r).len() <= roots.len(),
    {
        let c = Self::class(roots, r);
        let all = set_int_range(0, roots.len() as int);
        assert(c.subset_of(all));
        vstd::set_lib::lemma_int_range(0, roots.len() as int);
        vstd::set_lib::lemma_len_subset(c, all);
    }

    /// Two different classes together fit in `0..n`.
    proof fn lemma_class_sizes(roots: Seq<int>, x: int, y: int)
        requires
            x != y,
        ensures
            Self::class(roots, x).len() + Self::class(roots, y).len() <= roots.len(),
            Self::class(roots, x).len() + Self::class(roots, y).len() == Self::class(roots, x).union(
                Self::class(roots, y),
            ).len(),
    {
        let cx = Self::class(roots, x);
        let cy = Self::class(roots, y);
        Self::lemma_class_finite(roots, x);
        Self::lemma_class_finite(roots, y);
        assert(cx.disjoint(cy));
        vstd::set_lib::lemma_set_disjoint_lens(cx, cy);
        let all = set_int_range(0, roots.len() as int);
        assert(cx.union(cy).subset_of(all));
        vstd::set_lib::lemma_int_range(0, roots.len() as int);
        vstd::set_lib::lemma_len_subset(cx.union(cy), all);
    }

    /// Hanging representative `y` below representative `x` keeps the invariant.
    proof fn lemma_union_step(&self, before: Self, xu: usize, yu: usize)
        requires
            before.wf(),
            xu < before.par@.len(),
            yu < before.par@.len(),
            xu != yu,
            before.root@[xu as int] == xu,
            before.root@[yu as int] == yu,
            before.size@[xu as int] >= before.size@[yu as int],
            self.par@ == before.par@.update(yu as int, xu),
            before.size@[xu as int] + before.size@[yu as int] <= usize::MAX,
            self.size@ == before.size@.update(
                xu as int,
                (before.size@[xu as int] + before.size@[yu as int]) as usize,
            ).update(yu as int, 0),
            self.root@ == Seq::new(
                before.root@.len(),
                |z: int|
                    if before.root@[z] == yu {
                        xu as int
                    } else {
                        before.root@[z]
                    },
            ),
            self.rank@ == before.rank@.update(
                xu as int,
                if before.rank@[xu as int] > before.rank@[yu as int] {
                    before.rank@[xu as int]
                } else {
                    before.rank@[yu as int] + 1
                },
            ),
        ensures
            self.wf(),
    {
        reveal(UnionFind::wf);
        let x = xu as int;
        let y = yu as int;
        let r0 = before.root@;
        let n = before.par@.len();
        let cx = Self::class(r0, x);
        let cy = Self::class(r0, y);
        Self::lemma_class_sizes(r0, x, y);
        assert(Self::class(self.root@, x) =~= cx.union(cy));
        assert(before.size@[x] == cx.len() && before.size@[y] == cy.len());
        assert forall|z: int| 0 <= z < n && #[trigger] self.root@[z] == z implies self.size@[z]
            == Self::class(self.root@, z).len() && self.rank@[z] < self.size@[z] by {
            if z != x {
                assert(Self::class(self.root@, z) =~= Self::class(r0, z));
                assert(before.root@[z] == z);
            }
        }
        assert forall|z: int| 0 <= z < n && #[trigger] self.root@[z] != z implies {
            &&& (self.par@[z] as int) < n
            &&& self.root@[self.par@[z] as int] == self.root@[z]
            &&& self.rank@[self.par@[z] as int] > self.rank@[z]
            &&& self.rank@[z] < self.rank@[self.root@[z]]
        } by {
            if z != y {
                assert(before.root@[z] != z);
                let p = before.par@[z] as int;
                assert(self.par@[z] == before.par@[z]);
                assert(before.root@[p] == before.root@[z]);
                assert(before.rank@[p] > before.rank@[z]);
                assert(before.rank@[z] < before.rank@[before.root@[z]]);
                if before.root@[z] == y {
                    assert(p != x);
                    assert(before.rank@[y] < self.rank@[x]);
                    assert(self.root@[p] == x);
                    assert(self.root@[z] == x);
                    assert(self.rank@[p] == before.rank@[p]);
                    assert(self.rank@[z] == before.rank@[z]);
                } else {
                    assert(self.root@[p] == before.root@[p]);
                    assert(z != x);
                    assert(self.rank@[z] == before.rank@[z]);
                    assert(self.rank@[p] >= before.rank@[p]);
                    assert(self.rank@[before.root@[z]] >= before.rank@[before.root@[z]]);
                }
            } else {
                assert(self.par@[y] == xu);
                assert(self.root@[x] == x);
                assert(self.root@[y] == x);
            }
            assert((self.par@[z] as int) < n);
            assert(self.root@[self.par@[z] as int] == self.root@[z]);
            assert(self.rank@[self.par@[z] as int] > self.rank@[z]);
            assert(self.rank@[z] < self.rank@[self.root@[z]]);
        }
        assert forall|z: int| 0 <= z < n implies 0 <= #[trigger] self.root@[z] < n && self.root@[self.root@[z]]
            == self.root@[z] by {
            assert(0 <= before.root@[z] < n);
        }
        assert forall|z: int| 0 <= z < n implies (self.size@[z] > 0 <==> #[trigger] self.root@[z] == z) by {
            assert(0 <= before.root@[z] < n);
            if z != x && z != y {
                assert(before.size@[z] > 0 <==> before.root@[z] == z);
            }
        }
    }

    /// `n` singletons.
    pub fn new(n: usize) -> (r: Self)
        ensures
            r.wf(),
            r.roots() == Seq::new(n as nat, |i: int| i),
    {
        let mut par: Vec<usize> = Vec::new();
        let mut size: Vec<usize> = Vec::new();
        while par.len() < n
            invariant
                par.len() == size.len(),
                par.len() <= n,
                forall|i: int| 0 <= i < size.len() ==> size@[i] == 1,
            decreases n - par.len(),
        {
            par.push(0);
            size.push(1);
        }
        let ghost root = Seq::new(n as nat, |i: int| i);
        let ghost rank = Seq::new(n as nat, |i: int| 0nat);
        proof {
            assert forall|a: int| 0 <= a < n implies Self::class(root, a).len() == 1 by {
                assert(Self::class(root, a) =~= set![a]);
            }
        }
        let r = UnionFind { par, size, root: Ghost(root), rank: Ghost(rank) };
        proof {
            reveal(UnionFind::wf);
        }
        r
    }

    /// The representative of `a`; compresses the path from `a` on the way back.
    pub fn find_root(&mut self, a: usize) -> (r: usize)
        requires
            old(self).wf(),
            a < old(self).roots().len(),
        ensures
            final(self).wf(),
            final(self).roots() == old(self).roots(),
            r == old(self).roots()[a as int],
        decreases old(self).height_bound(a as int),
    {
        proof {
            reveal(UnionFind::wf);
        }
        if self.size[a] > 0 {
            return a;
        }
        proof {
            assert(self.root@[a as int] != a);
            let ra = self.root@[a as int];
            assert(self.root@[ra] == ra);
            Self::lemma_class_finite(self.root@, ra);
        }
        let p = self.par[a];
        let r = self.find_root(p);
        self.par.set(a, r);
        proof {
            assert forall|x: int| 0 <= x < self.par@.len() && #[trigger] self.root@[x] == x implies self.size@[x]
                == Self::class(self.root@, x).len() && self.rank@[x] < self.size@[x] by {
            }
        }
        r
    }

    /// Hangs one of two different representatives below the other, the
    /// smaller set below the larger; returns the one that stays.
    fn link(&mut self, x0: usize, y0: usize) -> (r: usize)
        requires
            old(self).wf(),
            x0 < old(self).roots().len(),
            y0 < old(self).roots().len(),
            x0 != y0,
            old(self).roots()[x0 as int] == x0,
            old(self).roots()[y0 as int] == y0,
        ensures
            final(self).wf(),
            r == x0 || r == y0,
            final(self).roots() == Seq::new(
                old(self).roots().len(),
                |z: int|
                    if old(self).roots()[z] == x0 || old(self).roots()[z] == y0 {
                        r as int
                    } else {
                        old(self).roots()[z]
                    },
            ),
    {
        proof {
            reveal(UnionFind::wf);
        }
        let ghost r0 = self.root@;
        let mut x = x0;
        let mut y = y0;
        if self.size[x] < self.size[y] {
            x = y0;
            y = x0;
        }
        proof {
            Self::lemma_class_sizes(self.root@, x as int, y as int);
            assert(self.root@[x as int] == x && self.root@[y as int] == y);
        }
        let ghost before = *self;
        let sx = self.size[x] + self.size[y];
        self.size.set(x, sx);
        self.size.set(y, 0);
        self.par.set(y, x);
        proof {
            let rk = before.rank@;
            self.root = Ghost(Seq::new(r0.len(), |z: int| if r0[z] == y { x as int } else { r0[z] }));
            self.rank = Ghost(rk.update(x as int, if rk[x as int] > rk[y as int] { rk[x as int] } else { rk[y as int] + 1 }));
            self.lemma_union_step(before, x, y);
            assert(self.root@ =~= Seq::new(
                r0.len(),
                |z: int|
                    if r0[z] == x0 || r0[z] == y0 {
                        x as int
                    } else {
                        r0[z]
                    },
            ));
        }
        x
    }

    /// Joins the sets of `a` and `b`; returns the representative of the union.
    pub fn union(&mut self, a: usize, b: usize) -> (r: usize)
        requires
            old(self).wf(),
            a < old(self).roots().len(),
            b < old(self).roots().len(),
        ensures
            final(self).wf(),
            r == old(self).roots()[a as int] || r == old(self).roots()[b as int],
            final(self).roots() == Seq::new(
                old(self).roots().len(),
                |z: int|
                    if old(self).roots()[z] == old(self).roots()[a as int] || old(self).roots()[z]
                        == old(self).roots()[b as int] {
                        r as int
                    } else {
                        old(self).roots()[z]
                    },
            ),
    {
        let ghost r0 = self.root@;
        let x = self.find_root(a);
        let y = self.find_root(b);
        if x == y {
            proof {
                assert(self.root@ =~= Seq::new(
                    r0.len(),
                    |z: int|
                        if r0[z] == r0[a as int] || r0[z] == r0[b as int] {
                            x as int
                        } else {
                            r0[z]
                        },
                ));
            }
            return x;
        }
        proof {
            reveal(UnionFind::wf);
            assert(self.root@[x as int] == x && self.root@[y as int] == y);
        }
        self.link(x, y)
    }

    /// Whether `a` and `b` are in the same set.
    pub fn in_same_set(&mut self, a: usize, b: usize) -> (r: bool)
        requires
            old(self).wf(),
            a < old(self).roots().len(),
            b < old(self).roots().len(),
        ensures
            final(self).wf(),
            final(self).roots() == old(self).roots(),
            r == (old(self).roots()[a as int] == old(self).roots()[b as int]),
    {
        self.find_root(a) == self.find_root(b)
    }

    /// The number of elements in the set of `a`.
    pub fn group_size(&mut self, a: usize) -> (r: usize)
        requires
            old(self).wf(),
            a < old(self).roots().len(),
        ensures
            final(self).wf(),
            final(self).roots() == old(self).roots(),
            r == Self::class(old(self).roots(), old(self).roots()[a as int]).len(),
    {
        let x = self.find_root(a);
        proof {
            reveal(UnionFind::wf);
            assert(self.root@[x as int] == x);
        }
        self.size[x]
    }
}

} // verus!
