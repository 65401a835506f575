//! Maximum flow by repeated augmenting paths (Ford–Fulkerson).
use vstd::prelude::*;

verus! {

/// A residual edge: remaining capacity, and where its reverse is stored.
#[derive(Debug, PartialEq, Eq, Clone, Copy)]
struct GraphEdge {
    to: usize,
    cap: usize,
    rev: usize,
}

/// An edge as added, with the flow it carries.
#[derive(Debug, PartialEq, Eq, Clone, Copy)]
pub struct Edge {
    pub from: usize,
    pub to: usize,
    pub cap: usize,
    pub flow: usize,
}

/// A flow network on `0..n`, stored as a residual graph.
pub struct Graph {
    n: usize,
    data: Vec<Vec<GraphEdge>>,
    edge_pos: Vec<(usize, usize)>,
    added: Ghost<Seq<(usize, usize, usize)>>,
}

/// The residual capacities of `row`, summed.
pub open spec fn row_cap(row: Seq<usize>) -> int
    decreases row.len(),
{
    if row.len() == 0 {
        0
    } else {
        row_cap(row.drop_last()) + row.last()
    }
}

proof fn lemma_row_cap_update(row: Seq<usize>, i: int, v: usize)
    requires
        0 <= i < row.len(),
    ensures
        row_cap(row.update(i, v)) == row_cap(row) - row[i] + v,
    decreases row.len(),
{
    if i < row.len() - 1 {
        assert(row.update(i, v).drop_last() =~= row.drop_last().update(i, v));
        lemma_row_cap_update(row.drop_last(), i, v);
    } else {
        assert(row.update(i, v).drop_last() =~= row.drop_last());
    }
}

/// The vertices not yet visited.
pub open spec fn unvisited(used: Seq<bool>) -> Set<int> {
    Set::new(|x: int| 0 <= x < used.len() && !used[x])
}

proof fn lemma_unvisited_shrinks(a: Seq<bool>, b: Seq<bool>, v: int)
    requires
        a.len() == b.len(),
        0 <= v < a.len(),
        !a[v],
        b[v],
        forall|x: int| 0 <= x < a.len() && a[x] ==> b[x],
    ensures
        unvisited(b).len() < unvisited(a).len(),
{
    let all = vstd::set_lib::set_int_range(0, a.len() as int);
    assert(unvisited(a).subset_of(all));
    vstd::set_lib::lemma_int_range(0, a.len() as int);
    vstd::set_lib::lemma_len_subset(unvisited(a), all);
    assert(unvisited(b).subset_of(unvisited(a).remove(v)));
    vstd::set_lib::lemma_len_subset(unvisited(b), unvisited(a).remove(v));
}

impl Graph {
    /// The residual capacities of the entries of vertex `u`.
    pub closed spec fn caps(&self, u: int) -> Seq<usize> {
        Seq::new(self.data@[u]@.len(), |i: int| self.data@[u]@[i].cap)
    }

    /// The residual capacity leaving `u`.
    pub closed spec fn out_capacity(&self, u: int) -> int {
        row_cap(self.caps(u))
    }

    /// The edges added, as `(from, to, capacity)`.
    pub closed spec fn added_edges(&self) -> Seq<(usize, usize, usize)> {
        self.added@
    }

    /// The number of vertices.
    pub closed spec fn num_vertices(&self) -> nat {
        self.n as nat
    }

    /// The entry that `data[u][i]` names as its reverse.
    closed spec fn partner(&self, u: int, i: int) -> GraphEdge {
        self.data@[self.data@[u]@[i].to as int]@[self.data@[u]@[i].rev as int]
    }

    /// Entries and their reverses point at each other (a self-loop's entries
    /// excepted), their capacities fit together, and each added edge's pair
    /// of entries keeps its capacity.
    pub closed spec fn wf(&self) -> bool {
        &&& self.data@.len() == self.n
        &&& self.edge_pos@.len() == self.added@.len()
        &&& forall|u: int, i: int| 0 <= u < self.n && 0 <= i < self.data@[u]@.len() ==> {
            let e = #[trigger] self.data@[u]@[i];
            &&& e.to < self.n
            &&& e.rev < self.data@[e.to as int]@.len()
            &&& e.cap + self.partner(u, i).cap <= usize::MAX
            &&& e.to != u ==> self.partner(u, i).to == u && self.partner(u, i).rev == i
            &&& e.to == u ==> self.partner(u, i).to == u
        }
        &&& forall|k: int| 0 <= k < self.edge_pos@.len() ==> {
            let (u, i) = #[trigger] self.edge_pos@[k];
            let (f, t, c) = self.added@[k];
            &&& u == f
            &&& t < self.n
            &&& u < self.n
            &&& i < self.data@[u as int]@.len()
            &&& self.data@[u as int]@[i as int].to == t
            &&& f != t ==> self.data@[u as int]@[i as int].cap + self.partner(u as int, i as int).cap == c
            &&& f == t ==> self.data@[u as int]@[i as int].cap == c && self.data@[u as int]@[i as int].rev == i
        }
    }

    /// `n` vertices, no edge.
    pub fn new(n: usize) -> (r: Self)
        ensures
            r.wf(),
            r.num_vertices() == n,
            r.added_edges() == Seq::<(usize, usize, usize)>::empty(),
    {
        let mut data: Vec<Vec<GraphEdge>> = Vec::new();
        while data.len() < n
            invariant
                data.len() <= n,
                forall|u: int| 0 <= u < data.len() ==> data@[u]@.len() == 0,
            decreases n - data.len(),
        {
            data.push(Vec::new());
        }
        Graph { n, data, edge_pos: Vec::new(), added: Ghost(Seq::empty()) }
    }
}

impl Graph {
    /// Adds an edge `from -> to` of capacity `cap`, with its reverse of capacity `0`.
    pub fn add_edge(&mut self, from: usize, to: usize, cap: usize)
        requires
            old(self).wf(),
            from < old(self).num_vertices(),
            to < old(self).num_vertices(),
            from == to ==> cap <= usize::MAX / 2,
        ensures
            final(self).wf(),
            final(self).num_vertices() == old(self).num_vertices(),
            final(self).added_edges() == old(self).added_edges().push((from, to, cap)),
    {
        let ghost d0 = self.data@;
        let rev = self.data[to].len();
        self.data[from].push(GraphEdge { to, cap, rev });
        let rev = self.data[from].len() - 1;
        self.data[to].push(GraphEdge { to: from, cap: 0, rev });
        self.edge_pos.push((from, rev));
        proof {
            self.added = Ghost(self.added@.push((from, to, cap)));
            let n = self.n as int;
            assert forall|u: int, i: int| 0 <= u < n && 0 <= i < self.data@[u]@.len() implies {
                let e = #[trigger] self.data@[u]@[i];
                &&& e.to < self.n
                &&& e.rev < self.data@[e.to as int]@.len()
                &&& e.cap + self.partner(u, i).cap <= usize::MAX
                &&& e.to != u ==> self.partner(u, i).to == u && self.partner(u, i).rev == i
                &&& e.to == u ==> self.partner(u, i).to == u
            } by {
                if i < d0[u]@.len() {
                    let e = d0[u]@[i];
                    assert(self.data@[u]@[i] == e);
                    assert(e.rev < d0[e.to as int]@.len());
                    assert(self.data@[e.to as int]@[e.rev as int] == d0[e.to as int]@[e.rev as int]);
                }
            }
            assert forall|k: int| 0 <= k < self.edge_pos@.len() implies {
                let (u, i) = #[trigger] self.edge_pos@[k];
                let (f, t, c) = self.added@[k];
                &&& u == f
                &&& t < self.n
                &&& u < self.n
                &&& i < self.data@[u as int]@.len()
                &&& self.data@[u as int]@[i as int].to == t
                &&& f != t ==> self.data@[u as int]@[i as int].cap + self.partner(u as int, i as int).cap == c
                &&& f == t ==> self.data@[u as int]@[i as int].cap == c && self.data@[u as int]@[i as int].rev == i
            } by {
                if k < self.edge_pos@.len() - 1 {
                    assert(self.edge_pos@[k] == old(self).edge_pos@[k]);
                    assert(self.added@[k] == old(self).added@[k]);
                    let (u, i) = self.edge_pos@[k];
                    let e = d0[u as int]@[i as int];
                    assert(self.data@[u as int]@[i as int] == e);
                    assert(e.rev < d0[e.to as int]@.len());
                    assert(self.data@[e.to as int]@[e.rev as int] == d0[e.to as int]@[e.rev as int]);
                }
            }
        }
    }
}

proof fn lemma_row_cap_nonneg(row: Seq<usize>)
    ensures
        row_cap(row) >= 0,
    decreases row.len(),
{
    if row.len() > 0 {
        lemma_row_cap_nonneg(row.drop_last());
    }
}

impl Graph {
    /// Looks for a path from `node` to `target` through unvisited vertices
    /// with residual capacity, and pushes `d <= flow` units along it; `0`
    /// when there is none, and then nothing changes.
    fn dfs(&mut self, used: &mut Vec<bool>, node: usize, target: usize, flow: usize) -> (d: usize)
        requires
            old(self).wf(),
            node < old(self).n,
            target < old(self).n,
            old(used)@.len() == old(self).n,
            !old(used)@[node as int],
        ensures
            final(self).wf(),
            final(self).n == old(self).n,
            final(self).added@ == old(self).added@,
            final(self).edge_pos@ == old(self).edge_pos@,
            final(used)@.len() == old(self).n,
            forall|x: int| 0 <= x < old(self).n && old(used)@[x] ==> final(used)@[x],
            d <= flow,
            d == 0 ==> final(self).data@ == old(self).data@,
            forall|u: int| 0 <= u < old(self).n && old(used)@[u] ==> final(self).data@[u] == old(self).data@[u],
            node != target && d > 0 ==> final(self).out_capacity(node as int) + d == old(self).out_capacity(
                node as int,
            ),
        decreases unvisited(old(used)@).len(),
    {
        if node == target {
            return flow;
        }
        let ghost u0 = used@;
        used.set(node, true);
        proof {
            lemma_unvisited_shrinks(u0, used@, node as int);
        }
        let m = self.data[node].len();
        let mut i: usize = 0;
        while i < m
            invariant
                self.wf(),
                self.n == old(self).n,
                self.data@ == old(self).data@,
                self.added@ == old(self).added@,
                self.edge_pos@ == old(self).edge_pos@,
                node < self.n,
                target < self.n,
                node != target,
                m == self.data@[node as int]@.len(),
                i <= m,
                used@.len() == self.n,
                u0 == old(used)@,
                !u0[node as int],
                used@[node as int],
                forall|x: int| 0 <= x < self.n && u0[x] ==> used@[x],
                unvisited(used@).len() < unvisited(u0).len(),
            decreases m - i,
        {
            let edge = self.data[node][i];
            if used[edge.to] || edge.cap == 0 {
                i = i + 1;
                continue;
            }
            let ghost s1 = *self;
            let ghost used1 = used@;
            let sub = if edge.cap < flow { edge.cap } else { flow };
            let d = self.dfs(used, edge.to, target, sub);
            proof {
                let all = vstd::set_lib::set_int_range(0, self.n as int);
                assert(unvisited(used1).subset_of(all));
                vstd::set_lib::lemma_int_range(0, self.n as int);
                vstd::set_lib::lemma_len_subset(unvisited(used1), all);
                assert(unvisited(used@).subset_of(unvisited(used1)));
                vstd::set_lib::lemma_len_subset(unvisited(used@), unvisited(used1));
            }
            if d == 0 {
                i = i + 1;
                continue;
            }
            proof {
                assert(self.data@[node as int] == s1.data@[node as int]);
                assert(self.data@[node as int]@[i as int] == edge);
            }
            let ghost s2 = *self;
            self.augment(node, i, d);
            proof {
                assert forall|u: int| 0 <= u < self.n && old(used)@[u] implies self.data@[u] == old(self).data@[u] by {
                    assert(used1[u]);
                    assert(u != node as int);
                    assert(!used1[edge.to as int]);
                    assert(u != edge.to as int);
                    assert(s2.data@[u] == s1.data@[u]);
                }
            }
            return d;
        }
        0
    }

    /// Moves `d` units of capacity from entry `(node, i)` to its reverse.
    fn augment(&mut self, node: usize, i: usize, d: usize)
        requires
            old(self).wf(),
            node < old(self).n,
            i < old(self).data@[node as int]@.len(),
            old(self).data@[node as int]@[i as int].to != node,
            d <= old(self).data@[node as int]@[i as int].cap,
        ensures
            final(self).wf(),
            final(self).n == old(self).n,
            final(self).added@ == old(self).added@,
            final(self).edge_pos@ == old(self).edge_pos@,
            forall|u: int|
                0 <= u < old(self).n && u != node && u != old(self).data@[node as int]@[i as int].to
                    ==> final(self).data@[u] == old(self).data@[u],
            final(self).out_capacity(node as int) + d == old(self).out_capacity(node as int),
    {
        let ghost s2 = *self;
        let to = self.data[node][i].to;
        let rev = self.data[node][i].rev;
        proof {
            assert(self.data@[node as int]@[i as int].cap + self.partner(node as int, i as int).cap <= usize::MAX);
        }
        let c1 = self.data[node][i].cap - d;
        self.data[node][i].cap = c1;
        let c2 = self.data[to][rev].cap + d;
        self.data[to][rev].cap = c2;
        proof {
            assert forall|u: int| 0 <= u < self.n implies #[trigger] self.data@[u]@.len() == s2.data@[u]@.len() by {
            }
            assert forall|u: int, j: int|
                0 <= u < self.n && 0 <= j < self.data@[u]@.len() implies (#[trigger] self.data@[u]@[j]).to
                    == s2.data@[u]@[j].to && self.data@[u]@[j].rev == s2.data@[u]@[j].rev
                    && self.data@[u]@[j].cap == (if u == node && j == i {
                    s2.data@[u]@[j].cap - d
                } else if u == s2.data@[node as int]@[i as int].to && j == s2.data@[node as int]@[i as int].rev {
                    s2.data@[u]@[j].cap + d
                } else {
                    s2.data@[u]@[j].cap as int
                }) by {
            }
            self.lemma_augment(s2, node as int, i as int, d as int);
            lemma_row_cap_update(s2.caps(node as int), i as int, c1);
            assert(self.caps(node as int) =~= s2.caps(node as int).update(i as int, c1));
        }
    }

    /// Moving `d` units from entry `(node, i)` to its reverse keeps the invariant.
    proof fn lemma_augment(&self, before: Self, node: int, i: int, d: int)
        requires
            before.wf(),
            0 <= node < before.n,
            0 <= i < before.data@[node]@.len(),
            before.data@[node]@[i].to != node,
            0 <= d <= before.data@[node]@[i].cap,
            self.n == before.n,
            self.added@ == before.added@,
            self.edge_pos@ == before.edge_pos@,
            self.data@.len() == before.data@.len(),
            forall|u: int| 0 <= u < self.n ==> #[trigger] self.data@[u]@.len() == before.data@[u]@.len(),
            forall|u: int, j: int|
                0 <= u < self.n && 0 <= j < self.data@[u]@.len() ==> (#[trigger] self.data@[u]@[j]).to
                    == before.data@[u]@[j].to && self.data@[u]@[j].rev == before.data@[u]@[j].rev
                    && self.data@[u]@[j].cap == (if u == node && j == i {
                    before.data@[u]@[j].cap - d
                } else if u == before.data@[node]@[i].to && j == before.data@[node]@[i].rev {
                    before.data@[u]@[j].cap + d
                } else {
                    before.data@[u]@[j].cap as int
                }),
        ensures
            self.wf(),
    {
        let e = before.data@[node]@[i];
        let to = e.to as int;
        let rv = e.rev as int;
        let n = self.n as int;
        assert(before.partner(node, i).to == node && before.partner(node, i).rev == i);
        assert forall|u: int, j: int| 0 <= u < n && 0 <= j < self.data@[u]@.len() implies {
            let x = #[trigger] self.data@[u]@[j];
            &&& x.to < self.n
            &&& x.rev < self.data@[x.to as int]@.len()
            &&& x.cap + self.partner(u, j).cap <= usize::MAX
            &&& x.to != u ==> self.partner(u, j).to == u && self.partner(u, j).rev == j
            &&& x.to == u ==> self.partner(u, j).to == u
        } by {
            let y = before.data@[u]@[j];
            assert(self.data@[u]@.len() == before.data@[u]@.len());
            assert(self.data@[u]@[j].to == y.to && self.data@[u]@[j].rev == y.rev);
            assert(before.data@[u]@[j] == y);
            let pu = y.to as int;
            let pj = y.rev as int;
            assert(self.data@[pu]@[pj].to == before.data@[pu]@[pj].to);
            assert(self.data@[pu]@[pj].rev == before.data@[pu]@[pj].rev);
            if (u == node && j == i) || (u == to && j == rv) {
            } else if (pu == node && pj == i) {
                assert(u == to && j == rv);
            } else if (pu == to && pj == rv) {
                if y.to != u {
                    assert(u == node && j == i);
                }
            } else {
                assert(self.data@[u]@[j].cap == y.cap);
                assert(self.data@[pu]@[pj].cap == before.data@[pu]@[pj].cap);
            }
        }
        assert forall|k: int| 0 <= k < self.edge_pos@.len() implies {
            let (u, j) = #[trigger] self.edge_pos@[k];
            let (f, t, c) = self.added@[k];
            &&& u == f
            &&& t < self.n
            &&& u < self.n
            &&& j < self.data@[u as int]@.len()
            &&& self.data@[u as int]@[j as int].to == t
            &&& f != t ==> self.data@[u as int]@[j as int].cap + self.partner(u as int, j as int).cap == c
            &&& f == t ==> self.data@[u as int]@[j as int].cap == c && self.data@[u as int]@[j as int].rev == j
        } by {
            let (u, j) = self.edge_pos@[k];
            assert(before.edge_pos@[k] == (u, j));
            let y = before.data@[u as int]@[j as int];
            let pu = y.to as int;
            let pj = y.rev as int;
            assert(self.data@[u as int]@[j as int].to == y.to && self.data@[u as int]@[j as int].rev == y.rev);
            if (u == node && j == i) || (u == to && j == rv) {
            } else if (pu == node && pj == i) {
                assert(u == to && j == rv);
            } else if (pu == to && pj == rv) {
                if y.to != u {
                    assert(u == node && j == i);
                }
            } else {
                assert(self.data@[u as int]@[j as int].cap == y.cap);
                assert(self.data@[pu]@[pj].cap == before.data@[pu]@[pj].cap);
            }
        }
    }
}

impl Graph {
    /// Pushes flow from `start` to `target` along augmenting paths until
    /// none is found; returns the total, which is the residual capacity it
    /// used up out of `start`.
    pub fn ford_fulkerson(&mut self, start: usize, target: usize) -> (r: usize)
        requires
            old(self).wf(),
            start < old(self).num_vertices(),
            target < old(self).num_vertices(),
            start != target,
            old(self).out_capacity(start as int) <= usize::MAX,
        ensures
            final(self).wf(),
            final(self).num_vertices() == old(self).num_vertices(),
            final(self).added_edges() == old(self).added_edges(),
            r == old(self).out_capacity(start as int) - final(self).out_capacity(start as int),
    {
        let mut total_flow: usize = 0;
        let n = self.n;
        loop
            invariant
                self.wf(),
                self.n == n,
                n == old(self).n,
                start < n,
                target < n,
                start != target,
                self.added@ == old(self).added@,
                total_flow + self.out_capacity(start as int) == old(self).out_capacity(start as int),
                old(self).out_capacity(start as int) <= usize::MAX,
            decreases self.out_capacity(start as int),
        {
            let mut used: Vec<bool> = Vec::new();
            while used.len() < n
                invariant
                    used.len() <= n,
                    forall|x: int| 0 <= x < used.len() ==> !used@[x],
                decreases n - used.len(),
            {
                used.push(false);
            }
            proof {
                lemma_row_cap_nonneg(self.caps(start as int));
            }
            let flow = self.dfs(&mut used, start, target, usize::MAX);
            if flow == 0 {
                break;
            }
            proof {
                lemma_row_cap_nonneg(self.caps(start as int));
            }
            total_flow = total_flow + flow;
        }
        total_flow
    }

    /// The `idx`-th added edge with the flow it carries.
    fn edge(&self, idx: usize) -> (e: Edge)
        requires
            self.wf(),
            idx < self.added_edges().len(),
        ensures
            e.from == self.added_edges()[idx as int].0,
            e.to == self.added_edges()[idx as int].1,
            e.from != e.to ==> e.cap == self.added_edges()[idx as int].2 && e.flow <= e.cap,
            e.from == e.to ==> e.cap == 2 * self.added_edges()[idx as int].2 && e.flow
                == self.added_edges()[idx as int].2,
    {
        let (node, node_pos) = self.edge_pos[idx];
        let edge = self.data[node][node_pos];
        proof {
            assert(self.data@[node as int]@[node_pos as int] == edge);
        }
        let rev_edge = self.data[edge.to][edge.rev];
        Edge { from: node, to: edge.to, cap: edge.cap + rev_edge.cap, flow: rev_edge.cap }
    }

    /// All added edges, in order, with the flow each carries.
    pub fn edges(&self) -> (r: Vec<Edge>)
        requires
            self.wf(),
        ensures
            r.len() == self.added_edges().len(),
            forall|k: int|
                0 <= k < r.len() ==> {
                    let (f, t, c) = self.added_edges()[k];
                    &&& (#[trigger] r@[k]).from == f
                    &&& r@[k].to == t
                    &&& f != t ==> r@[k].cap == c && r@[k].flow <= c
                    &&& f == t ==> r@[k].cap == 2 * c && r@[k].flow == c
                },
    {
        let mut edges: Vec<Edge> = Vec::new();
        let mut i: usize = 0;
        while i < self.edge_pos.len()
            invariant
                self.wf(),
                i <= self.edge_pos@.len(),
                self.edge_pos@.len() == self.added@.len(),
                edges.len() == i,
                forall|k: int|
                    0 <= k < i ==> {
                        let (f, t, c) = self.added_edges()[k];
                        &&& (#[trigger] edges@[k]).from == f
                        &&& edges@[k].to == t
                        &&& f != t ==> edges@[k].cap == c && edges@[k].flow <= c
                        &&& f == t ==> edges@[k].cap == 2 * c && edges@[k].flow == c
                    },
            decreases self.edge_pos@.len() - i,
        {
            let e = self.edge(i);
            edges.push(e);
            i = i + 1;
        }
        edges
    }
}

} // verus!
