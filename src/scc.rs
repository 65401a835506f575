//! Strongly connected components (Kosaraju) and 2-SAT on top of them.
use vstd::prelude::*;

verus! {

/// A directed graph on `0..len`, with its reverse.
pub struct SccGraph {
    len: usize,
    data: Vec<Vec<usize>>,
    rev_data: Vec<Vec<usize>>,
}

/// The vertices not yet visited.
pub open spec fn unvisited(used: Seq<bool>) -> Set<int> {
    Set::new(|x: int| 0 <= x < used.len() && !used[x])
}

/// The groups one after another.
pub open spec fn concat_all(gs: Seq<Seq<usize>>) -> Seq<usize>
    decreases gs.len(),
{
    if gs.len() == 0 {
        Seq::empty()
    } else {
        concat_all(gs.drop_last()) + gs.last()
    }
}

proof fn lemma_unvisited_finite(used: Seq<bool>)
    ensures
        unvisited(used).finite(),
{
    let all = vstd::set_lib::set_int_range(0, used.len() as int);
    assert(unvisited(used).subset_of(all));
    vstd::set_lib::lemma_int_range(0, used.len() as int);
    vstd::set_lib::lemma_len_subset(unvisited(used), all);
}

/// Marking more vertices leaves fewer unvisited.
proof fn lemma_unvisited_shrinks(a: Seq<bool>, b: Seq<bool>, v: int)
    requires
        a.len() == b.len(),
        0 <= v < a.len(),
        !a[v],
        b[v],
        forall|x: int| 0 <= x < a.len() && a[x] ==> b[x],
    ensures
        unvisited(b).len() < unvisited(a).len(),
{
    lemma_unvisited_finite(a);
    assert(unvisited(b).subset_of(unvisited(a).remove(v)));
    vstd::set_lib::lemma_len_subset(unvisited(b), unvisited(a).remove(v));
}

impl SccGraph {
    /// Each vertex's successors.
    pub closed spec fn adj(&self) -> Seq<Seq<usize>> {
        Seq::new(self.data@.len(), |v: int| self.data@[v]@)
    }

    pub closed spec fn wf(&self) -> bool {
        &&& self.data@.len() == self.len
        &&& self.rev_data@.len() == self.len
        &&& forall|v: int, k: int| 0 <= v < self.len && 0 <= k < self.data@[v]@.len() ==> #[trigger] self.data@[v]@[k] < self.len
        &&& forall|v: int, k: int| 0 <= v < self.len && 0 <= k < self.rev_data@[v]@.len() ==> #[trigger] self.rev_data@[v]@[k] < self.len
    }

    /// The number of vertices.
    pub closed spec fn num_vertices(&self) -> nat {
        self.len as nat
    }

    /// A graph on `0..n` without edges.
    pub fn new(n: usize) -> (r: Self)
        ensures
            r.wf(),
            r.num_vertices() == n,
            r.adj() == Seq::new(n as nat, |v: int| Seq::<usize>::empty()),
    {
        let mut data: Vec<Vec<usize>> = Vec::new();
        let mut rev_data: Vec<Vec<usize>> = Vec::new();
        while data.len() < n
            invariant
                data.len() == rev_data.len(),
                data.len() <= n,
                forall|v: int| 0 <= v < data.len() ==> data@[v]@.len() == 0,
                forall|v: int| 0 <= v < rev_data.len() ==> rev_data@[v]@.len() == 0,
            decreases n - data.len(),
        {
            data.push(Vec::new());
            rev_data.push(Vec::new());
        }
        let r = SccGraph { len: n, data, rev_data };
        assert forall|v: int| 0 <= v < n implies r.adj()[v] =~= Seq::<usize>::empty() by {
        }
        assert(r.adj() =~= Seq::new(n as nat, |v: int| Seq::<usize>::empty()));
        r
    }

    /// Adds the edge `from -> to`.
    pub fn add_edge(&mut self, from: usize, to: usize)
        requires
            old(self).wf(),
            from < old(self).num_vertices(),
            to < old(self).num_vertices(),
        ensures
            final(self).wf(),
            final(self).num_vertices() == old(self).num_vertices(),
            final(self).adj() == old(self).adj().update(from as int, old(self).adj()[from as int].push(to)),
    {
        self.data[from].push(to);
        self.rev_data[to].push(from);
        proof {
            assert(self.adj() =~= old(self).adj().update(from as int, old(self).adj()[from as int].push(to)));
        }
    }
}

/// Membership in a concatenation.
proof fn lemma_concat_contains(a: Seq<usize>, b: Seq<usize>, x: usize)
    ensures
        (a + b).contains(x) <==> (a.contains(x) || b.contains(x)),
{
    if (a + b).contains(x) {
        let k = choose|k: int| 0 <= k < (a + b).len() && (a + b)[k] == x;
        if k < a.len() {
            assert(a[k] == x);
        } else {
            assert(b[k - a.len()] == x);
        }
    }
    if a.contains(x) {
        let k = choose|k: int| 0 <= k < a.len() && a[k] == x;
        assert((a + b)[k] == x);
    }
    if b.contains(x) {
        let k = choose|k: int| 0 <= k < b.len() && b[k] == x;
        assert((a + b)[a.len() + k] == x);
    }
}

/// Concatenating two disjoint sequences without repeats repeats nothing.
proof fn lemma_concat_no_dup(a: Seq<usize>, b: Seq<usize>)
    requires
        a.no_duplicates(),
        b.no_duplicates(),
        forall|x: usize| a.contains(x) ==> !b.contains(x),
    ensures
        (a + b).no_duplicates(),
{
    assert forall|i: int, j: int| 0 <= i < j < (a + b).len() implies (a + b)[i] != (a + b)[j] by {
        if i < a.len() && j >= a.len() {
            assert(a.contains(a[i]));
            assert(b[j - a.len()] == (a + b)[j]);
            assert(b.contains(b[j - a.len()]));
        } else if i >= a.len() {
            assert(b[i - a.len()] != b[j - a.len()]);
        } else {
            assert(a[i] != a[j]);
        }
    }
}

impl SccGraph {
    /// The groups of `g`, as sequences.
    pub open spec fn groups_view(g: Seq<Vec<usize>>) -> Seq<Seq<usize>> {
        Seq::new(g.len(), |i: int| g[i]@)
    }

    /// Strongly connected components: two depth-first passes, the second on
    /// the reversed graph in decreasing finishing order. The groups
    /// partition the vertices.
    pub fn scc(&self) -> (groups: Vec<Vec<usize>>)
        requires
            self.wf(),
        ensures
            concat_all(Self::groups_view(groups@)).no_duplicates(),
            forall|x: usize| x < self.num_vertices() ==> #[trigger] concat_all(Self::groups_view(groups@)).contains(x),
            forall|k: int|
                0 <= k < concat_all(Self::groups_view(groups@)).len() ==> #[trigger] concat_all(
                    Self::groups_view(groups@),
                )[k] < self.num_vertices(),
            forall|g: int| 0 <= g < groups.len() ==> #[trigger] groups@[g]@.len() > 0,
            forall|g: int, k: int|
                0 <= g < groups.len() && 0 <= k < groups@[g]@.len() ==> #[trigger] groups@[g]@[k]
                    < self.num_vertices(),
    {
        let n = self.len;
        let mut used: Vec<bool> = Vec::new();
        while used.len() < n
            invariant
                used.len() <= n,
                forall|x: int| 0 <= x < used.len() ==> !used@[x],
            decreases n - used.len(),
        {
            used.push(false);
        }
        let mut vs: Vec<usize> = Vec::new();
        let mut v: usize = 0;
        while v < n
            invariant
                self.wf(),
                n == self.len,
                v <= n,
                used@.len() == n,
                vs@.no_duplicates(),
                forall|k: int| 0 <= k < vs.len() ==> #[trigger] vs@[k] < n,
                forall|x: int| 0 <= x < n ==> (#[trigger] used@[x] <==> vs@.contains(x as usize)),
                forall|x: int| 0 <= x < v ==> #[trigger] used@[x],
            decreases n - v,
        {
            if !used[v] {
                let ghost u1 = used@;
                let ghost o1 = vs@;
                self.search(true, v, &mut used, &mut vs);
                proof {
                    let add = vs@.subrange(o1.len() as int, vs@.len() as int);
                    assert(vs@ =~= o1 + add);
                    assert(vs@.subrange(0, o1.len() as int) == o1);
                    assert forall|x: usize| o1.contains(x) implies !add.contains(x) by {
                        let k = choose|k: int| 0 <= k < o1.len() && o1[k] == x;
                        assert(x < n);
                        assert(u1[x as int]);
                    }
                    lemma_concat_no_dup(o1, add);
                    assert forall|k: int| 0 <= k < vs.len() implies #[trigger] vs@[k] < n by {
                        if k < o1.len() {
                            assert(vs@[k] == o1[k]);
                        }
                    }
                    assert forall|x: int| 0 <= x < n implies (#[trigger] used@[x] <==> vs@.contains(x as usize)) by {
                        lemma_concat_contains(o1, add, x as usize);
                        assert(u1[x] <==> o1.contains(x as usize));
                    }
                }
            }
            v = v + 1;
        }
        let mut group: Vec<Vec<usize>> = Vec::new();
        let mut used2: Vec<bool> = Vec::new();
        while used2.len() < n
            invariant
                used2.len() <= n,
                forall|x: int| 0 <= x < used2.len() ==> !used2@[x],
            decreases n - used2.len(),
        {
            used2.push(false);
        }
        let mut i = vs.len();
        proof {
            assert forall|x: usize| x < n implies #[trigger] vs@.contains(x) by {
                assert(used@[x as int]);
            }
            assert(Self::groups_view(group@) =~= Seq::<Seq<usize>>::empty());
        }
        while i > 0
            invariant
                self.wf(),
                n == self.len,
                i <= vs.len(),
                used2@.len() == n,
                forall|k: int| 0 <= k < vs.len() ==> #[trigger] vs@[k] < n,
                forall|x: usize| x < n ==> #[trigger] vs@.contains(x),
                forall|k: int| i <= k < vs.len() ==> used2@[#[trigger] vs@[k] as int],
                concat_all(Self::groups_view(group@)).no_duplicates(),
                forall|k: int|
                    0 <= k < concat_all(Self::groups_view(group@)).len() ==> #[trigger] concat_all(
                        Self::groups_view(group@),
                    )[k] < n,
                forall|x: int|
                    0 <= x < n ==> (#[trigger] used2@[x] <==> concat_all(Self::groups_view(group@)).contains(
                        x as usize,
                    )),
                forall|g: int| 0 <= g < group.len() ==> #[trigger] group@[g]@.len() > 0,
                forall|g: int, k: int|
                    0 <= g < group.len() && 0 <= k < group@[g]@.len() ==> #[trigger] group@[g]@[k] < n,
            decreases i,
        {
            i = i - 1;
            let w = vs[i];
            if !used2[w] {
                let mut cmp: Vec<usize> = Vec::new();
                let ghost u1 = used2@;
                let ghost g1 = group@;
                let ghost c1 = concat_all(Self::groups_view(g1));
                self.search(false, w, &mut used2, &mut cmp);
                group.push(cmp);
                proof {
                    let cv = group@[group.len() - 1]@;
                    assert(cv.subrange(0, 0) =~= Seq::<usize>::empty());
                    assert(cv.subrange(0, cv.len() as int) =~= cv);
                    assert(Self::groups_view(group@).drop_last() =~= Self::groups_view(g1));
                    assert(concat_all(Self::groups_view(group@)) == c1 + cv);
                    assert forall|x: usize| c1.contains(x) implies !cv.contains(x) by {
                        let k = choose|k: int| 0 <= k < c1.len() && c1[k] == x;
                        assert(c1[k] < n);
                        assert(u1[x as int]);
                    }
                    lemma_concat_no_dup(c1, cv);
                    assert forall|k: int| 0 <= k < (c1 + cv).len() implies #[trigger] (c1 + cv)[k] < n by {
                        if k < c1.len() {
                            assert((c1 + cv)[k] == c1[k]);
                        } else {
                            assert((c1 + cv)[k] == cv[k - c1.len()]);
                        }
                    }
                    assert forall|x: int| 0 <= x < n implies (#[trigger] used2@[x] <==> (c1 + cv).contains(
                        x as usize,
                    )) by {
                        lemma_concat_contains(c1, cv, x as usize);
                        assert(u1[x] <==> c1.contains(x as usize));
                    }
                    assert forall|g: int| 0 <= g < group.len() implies #[trigger] group@[g]@.len() > 0 by {
                        if g < g1.len() {
                            assert(group@[g] == g1[g]);
                        } else {
                            assert(cv.contains(w));
                        }
                    }
                    assert forall|g: int, k: int|
                        0 <= g < group.len() && 0 <= k < group@[g]@.len() implies #[trigger] group@[g]@[k] < n by {
                        if g < g1.len() {
                            assert(group@[g] == g1[g]);
                        } else {
                            assert(cv[k] == (c1 + cv)[c1.len() + k]);
                        }
                    }
                }
            }
        }
        proof {
            assert forall|x: usize| x < n implies #[trigger] concat_all(Self::groups_view(group@)).contains(x) by {
                assert(vs@.contains(x));
                let k = choose|k: int| 0 <= k < vs.len() && vs@[k] == x;
                assert(used2@[vs@[k] as int]);
                assert(used2@[x as int]);
            }
        }
        group
    }

    /// Depth-first search from `v` along edges (`forward`) or reversed edges;
    /// appends every vertex it newly visits to `out`, `v` last when going
    /// forward (post-order) and first when going backward.
    fn search(&self, forward: bool, v: usize, used: &mut Vec<bool>, out: &mut Vec<usize>)
        requires
            self.wf(),
            v < self.len,
            old(used)@.len() == self.len,
            !old(used)@[v as int],
        ensures
            final(used)@.len() == self.len,
            final(used)@[v as int],
            forall|x: int| 0 <= x < self.len && old(used)@[x] ==> final(used)@[x],
            final(out)@.len() >= old(out)@.len(),
            final(out)@.subrange(0, old(out)@.len() as int) == old(out)@,
            final(out)@.subrange(old(out)@.len() as int, final(out)@.len() as int).no_duplicates(),
            forall|k: int| old(out)@.len() <= k < final(out)@.len() ==> #[trigger] final(out)@[k] < self.len,
            forall|x: int|
                0 <= x < self.len ==> ((#[trigger] final(used)@[x] && !old(used)@[x]) <==> final(out)@.subrange(
                    old(out)@.len() as int,
                    final(out)@.len() as int,
                ).contains(x as usize)),
        decreases unvisited(old(used)@).len(),
    {
        let ghost u0 = used@;
        let ghost l0 = out@.len();
        used.set(v, true);
        proof {
            lemma_unvisited_shrinks(u0, used@, v as int);
        }
        if !forward {
            out.push(v);
        }
        proof {
            assert(out@.subrange(0, l0 as int) =~= old(out)@);
            if forward {
                assert(out@.subrange(l0 as int, out@.len() as int) =~= Seq::<usize>::empty());
            } else {
                assert(out@.subrange(l0 as int, out@.len() as int) =~= seq![v]);
                assert(seq![v][0] == v);
            }
        }
        let deg = if forward { self.data[v].len() } else { self.rev_data[v].len() };
        let mut idx: usize = 0;
        while idx < deg
            invariant
                self.wf(),
                v < self.len,
                deg == (if forward { self.data@[v as int]@.len() } else { self.rev_data@[v as int]@.len() }),
                idx <= deg,
                used@.len() == self.len,
                u0.len() == self.len,
                used@[v as int],
                !u0[v as int],
                u0 == old(used)@,
                unvisited(used@).len() < unvisited(u0).len(),
                forall|x: int| 0 <= x < self.len && u0[x] ==> used@[x],
                out@.len() >= l0,
                out@.subrange(0, l0 as int) == old(out)@,
                l0 == old(out)@.len(),
                out@.subrange(l0 as int, out@.len() as int).no_duplicates(),
                forall|k: int| l0 <= k < out@.len() ==> #[trigger] out@[k] < self.len,
                !forward ==> out@.len() > l0 && out@[l0 as int] == v,
                forall|x: int|
                    0 <= x < self.len ==> ((#[trigger] used@[x] && !u0[x] && (forward ==> x != v)) <==> out@.subrange(
                        l0 as int,
                        out@.len() as int,
                    ).contains(x as usize)),
            decreases deg - idx,
        {
            let u = if forward { self.data[v][idx] } else { self.rev_data[v][idx] };
            if !used[u] {
                let ghost u1 = used@;
                let ghost o1 = out@;
                let ghost mid = o1.subrange(l0 as int, o1.len() as int);
                assert(forall|x: int|
                    0 <= x < self.len ==> ((#[trigger] u1[x] && !u0[x] && (forward ==> x != v)) <==> mid.contains(
                        x as usize,
                    )));
                self.search(forward, u, used, out);
                proof {
                    lemma_unvisited_finite(u1);
                    assert(unvisited(used@).subset_of(unvisited(u1)));
                    vstd::set_lib::lemma_len_subset(unvisited(used@), unvisited(u1));
                    let add = out@.subrange(o1.len() as int, out@.len() as int);
                    assert(out@.subrange(l0 as int, out@.len() as int) =~= mid + add);
                    assert(out@.subrange(0, l0 as int) =~= o1.subrange(0, l0 as int));
                    assert forall|k: int| l0 <= k < out@.len() implies #[trigger] out@[k] < self.len by {
                        if k < o1.len() {
                            assert(out@[k] == o1[k]);
                        } else {
                            assert(out@[k] == add[k - o1.len()]);
                        }
                    }
                    assert forall|x: int| 0 <= x < self.len implies ((used@[x] && !u1[x]) <==> add.contains(
                        x as usize,
                    )) by {
                    }
                    assert forall|i: int, j: int| 0 <= i < j < (mid + add).len() implies (mid + add)[i] != (mid
                        + add)[j] by {
                        if i < mid.len() && j >= mid.len() {
                            let x = (mid + add)[j];
                            assert(add[j - mid.len()] == x);
                            assert(add.contains(x));
                            assert(x < self.len);
                            assert(!u1[x as int]);
                            let y = mid[i];
                            assert(mid.contains(y));
                            assert(o1[l0 + i] == y);
                            assert(y < self.len);
                            assert(u1[y as int]);
                        } else if i >= mid.len() {
                            assert(add[i - mid.len()] != add[j - mid.len()]);
                        } else {
                            assert(mid[i] != mid[j]);
                        }
                    }
                    assert forall|x: int| 0 <= x < self.len implies ((used@[x] && !u0[x] && (forward ==> x != v))
                        <==> (mid + add).contains(x as usize)) by {
                        assert((used@[x] && !u1[x]) <==> add.contains(x as usize));
                        assert((u1[x] && !u0[x] && (forward ==> x != v)) <==> mid.contains(x as usize));
                        if (mid + add).contains(x as usize) {
                            let k = choose|k: int| 0 <= k < (mid + add).len() && (mid + add)[k] == x as usize;
                            if k < mid.len() {
                                assert(mid.contains(x as usize));
                            } else {
                                assert(add.contains(x as usize));
                            }
                        }
                        if mid.contains(x as usize) {
                            let k = choose|k: int| 0 <= k < mid.len() && mid[k] == x as usize;
                            assert((mid + add)[k] == x as usize);
                        }
                        if add.contains(x as usize) {
                            let k = choose|k: int| 0 <= k < add.len() && add[k] == x as usize;
                            assert((mid + add)[mid.len() + k] == x as usize);
                        }
                    }
                    if !forward {
                        assert(out@[l0 as int] == o1[l0 as int]);
                    }
                }
            }
            idx = idx + 1;
        }
        if forward {
            let ghost o1 = out@;
            let ghost mid = o1.subrange(l0 as int, o1.len() as int);
            assert(forall|x: int|
                0 <= x < self.len ==> ((#[trigger] used@[x] && !u0[x] && x != v) <==> mid.contains(x as usize)));
            out.push(v);
            proof {
                assert(out@.subrange(l0 as int, out@.len() as int) =~= mid.push(v));
                assert(out@.subrange(0, l0 as int) =~= o1.subrange(0, l0 as int));
                assert(!mid.contains(v));
                assert forall|k: int| l0 <= k < out@.len() implies #[trigger] out@[k] < self.len by {
                    if k < o1.len() {
                        assert(out@[k] == o1[k]);
                    }
                }
                assert forall|x: int| 0 <= x < self.len implies ((used@[x] && !u0[x]) <==> mid.push(v).contains(
                    x as usize,
                )) by {
                    assert((used@[x] && !u0[x] && x != v) <==> mid.contains(x as usize));
                    if mid.push(v).contains(x as usize) && x != v {
                        let k = choose|k: int| 0 <= k < mid.push(v).len() && mid.push(v)[k] == x as usize;
                        assert(mid.contains(x as usize));
                    }
                    if mid.contains(x as usize) {
                        let k = choose|k: int| 0 <= k < mid.len() && mid[k] == x as usize;
                        assert(mid.push(v)[k] == x as usize);
                    }
                    if x == v {
                        assert(mid.push(v)[mid.len() as int] == v);
                    }
                }
            }
        }
    }
}

/// The vertex that stands for `x_i == b` among `n` variables: `i` for true,
/// `i + n` for false.
pub open spec fn lit(i: int, b: bool, n: int) -> int {
    if b {
        i
    } else {
        i + n
    }
}

/// 2-SAT over `n` variables through the implication graph on `2n` vertices.
pub struct TwoSat {
    n: usize,
    graph: SccGraph,
}

impl TwoSat {
    pub closed spec fn wf(&self) -> bool {
        &&& self.graph.wf()
        &&& self.graph.num_vertices() == 2 * self.n
    }

    /// The number of variables.
    pub closed spec fn num_vars(&self) -> nat {
        self.n as nat
    }

    /// The implication graph.
    pub closed spec fn implications(&self) -> Seq<Seq<usize>> {
        self.graph.adj()
    }

    /// `n` variables and no clause.
    pub fn new(n: usize) -> (r: Self)
        requires
            n <= usize::MAX / 2,
        ensures
            r.wf(),
            r.num_vars() == n,
            r.implications() == Seq::new(2 * n as nat, |v: int| Seq::<usize>::empty()),
    {
        TwoSat { n, graph: SccGraph::new(2 * n) }
    }

    /// Adds the clause `(x_i == f) || (x_j == g)`, as the implications
    /// `x_i != f -> x_j == g` and `x_j != g -> x_i == f`.
    pub fn add_clause(&mut self, i: usize, f: bool, j: usize, g: bool)
        requires
            old(self).wf(),
            i < old(self).num_vars(),
            j < old(self).num_vars(),
        ensures
            final(self).wf(),
            final(self).num_vars() == old(self).num_vars(),
            ({
                let n = old(self).num_vars() as int;
                let a = lit(i as int, !f, n);
                let b = lit(j as int, g, n);
                let c = lit(j as int, !g, n);
                let d = lit(i as int, f, n);
                let g1 = old(self).implications().update(a, old(self).implications()[a].push(b as usize));
                final(self).implications() == g1.update(c, g1[c].push(d as usize))
            }),
    {
        let i0 = if f { i + self.n } else { i };
        let j0 = if g { j } else { j + self.n };
        self.graph.add_edge(i0, j0);
        let j1 = if g { j + self.n } else { j };
        let i1 = if f { i } else { i + self.n };
        self.graph.add_edge(j1, i1);
    }

    /// Component index of each vertex.
    fn components(&self) -> (cmp: Vec<usize>)
        requires
            self.wf(),
        ensures
            cmp.len() == 2 * self.n,
    {
        let group = self.graph.scc();
        let m = 2 * self.n;
        let mut cmp: Vec<usize> = Vec::new();
        while cmp.len() < m
            invariant
                cmp.len() <= m,
            decreases m - cmp.len(),
        {
            cmp.push(0);
        }
        let mut gi: usize = 0;
        while gi < group.len()
            invariant
                cmp.len() == m,
                m == self.graph.num_vertices(),
                gi <= group.len(),
                forall|g: int, k: int|
                    0 <= g < group.len() && 0 <= k < group@[g]@.len() ==> #[trigger] group@[g]@[k] < m,
            decreases group.len() - gi,
        {
            let nodes = &group[gi];
            let mut k: usize = 0;
            while k < nodes.len()
                invariant
                    cmp.len() == m,
                    gi < group.len(),
                    nodes == &group@[gi as int],
                    forall|g: int, k: int|
                        0 <= g < group.len() && 0 <= k < group@[g]@.len() ==> #[trigger] group@[g]@[k] < m,
                decreases nodes.len() - k,
            {
                cmp.set(nodes[k], gi);
                k = k + 1;
            }
            gi = gi + 1;
        }
        cmp
    }

    /// Whether no variable shares a strongly connected component with its negation.
    pub fn satisfiable(&self) -> (r: bool)
        requires
            self.wf(),
    {
        let cmp = self.components();
        let mut i: usize = 0;
        while i < self.n
            invariant
                cmp.len() == 2 * self.n,
                i <= self.n,
            decreases self.n - i,
        {
            if cmp[i] == cmp[i + self.n] {
                return false;
            }
            i = i + 1;
        }
        true
    }

    /// An assignment: `x_i` is true when its component comes later in the
    /// order of the components than that of its negation.
    pub fn answer(&self) -> (r: Result<Vec<bool>, &'static str>)
        requires
            self.wf(),
        ensures
            r matches Ok(v) ==> v.len() == self.num_vars(),
    {
        let cmp = self.components();
        let mut res: Vec<bool> = Vec::new();
        let mut i: usize = 0;
        while i < self.n
            invariant
                cmp.len() == 2 * self.n,
                i <= self.n,
                res.len() == i,
            decreases self.n - i,
        {
            if cmp[i] == cmp[i + self.n] {
                return Err("No solution");
            }
            res.push(cmp[i] > cmp[i + self.n]);
            i = i + 1;
        }
        Ok(res)
    }
}

} // verus!
