//! Single-source shortest paths with non-negative costs.
use vstd::prelude::*;

verus! {

/// A search state: a vertex reached at a cost.
#[derive(Copy, Clone, PartialEq, Eq)]
pub struct State {
    cost: usize,
    position: usize,
}

/// An edge to `node` of cost `cost`.
#[derive(Debug, Clone, Copy)]
pub struct Edge {
    node: usize,
    cost: usize,
}

/// A directed graph on `0..n` with costs on the edges.
#[derive(Debug, Clone)]
pub struct Graph {
    n: usize,
    data: Vec<Vec<Edge>>,
}

/// The sum of `s`.
pub open spec fn total(s: Seq<usize>) -> int
    decreases s.len(),
{
    if s.len() == 0 {
        0
    } else {
        total(s.drop_last()) + s.last()
    }
}

proof fn lemma_total_nonneg(s: Seq<usize>)
    ensures
        total(s) >= 0,
    decreases s.len(),
{
    if s.len() > 0 {
        lemma_total_nonneg(s.drop_last());
    }
}

proof fn lemma_total_update(s: Seq<usize>, i: int, v: usize)
    requires
        0 <= i < s.len(),
    ensures
        total(s.update(i, v)) == total(s) - s[i] + v,
    decreases s.len(),
{
    if i < s.len() - 1 {
        assert(s.update(i, v).drop_last() =~= s.drop_last().update(i, v));
        lemma_total_update(s.drop_last(), i, v);
    } else {
        assert(s.update(i, v).drop_last() =~= s.drop_last());
    }
}

/// Every edge out of a reached vertex is relaxed: its target costs at most
/// the source's cost plus the edge's.
pub open spec fn relaxed_at(adj: Seq<Seq<(usize, usize)>>, dist: Seq<usize>, u: int) -> bool {
    forall|k: int|
        0 <= k < adj[u].len() ==> dist[#[trigger] adj[u][k].0 as int] <= dist[u] + adj[u][k].1
}

impl Graph {
    /// Each vertex's outgoing edges as `(target, cost)`.
    pub closed spec fn adj(&self) -> Seq<Seq<(usize, usize)>> {
        Seq::new(self.data@.len(), |u: int| Seq::new(self.data@[u]@.len(), |k: int| (self.data@[u]@[k].node, self.data@[u]@[k].cost)))
    }

    pub closed spec fn wf(&self) -> bool {
        &&& self.data@.len() == self.n
        &&& forall|u: int, k: int| 0 <= u < self.n && 0 <= k < self.data@[u]@.len() ==> #[trigger] self.data@[u]@[k].node < self.n
    }

    /// The number of vertices.
    pub closed spec fn num_vertices(&self) -> nat {
        self.n as nat
    }

    /// `n` vertices, no edge.
    pub fn new(n: usize) -> (r: Self)
        ensures
            r.wf(),
            r.num_vertices() == n,
            r.adj() == Seq::new(n as nat, |u: int| Seq::<(usize, usize)>::empty()),
    {
        let mut data: Vec<Vec<Edge>> = Vec::new();
        while data.len() < n
            invariant
                data.len() <= n,
                forall|u: int| 0 <= u < data.len() ==> data@[u]@.len() == 0,
            decreases n - data.len(),
        {
            data.push(Vec::new());
        }
        let r = Graph { n, data };
        assert forall|u: int| 0 <= u < n implies r.adj()[u] =~= Seq::<(usize, usize)>::empty() by {
        }
        assert(r.adj() =~= Seq::new(n as nat, |u: int| Seq::<(usize, usize)>::empty()));
        r
    }

    /// Adds the edge `from -> to` of cost `cost`.
    pub fn add_edge(&mut self, from: usize, to: usize, cost: usize)
        requires
            old(self).wf(),
            from < old(self).num_vertices(),
            to < old(self).num_vertices(),
        ensures
            final(self).wf(),
            final(self).num_vertices() == old(self).num_vertices(),
            final(self).adj() == old(self).adj().update(
                from as int,
                old(self).adj()[from as int].push((to, cost)),
            ),
    {
        self.data[from].push(Edge { node: to, cost });
        proof {
            assert forall|u: int| 0 <= u < self.n implies #[trigger] self.adj()[u] =~= old(self).adj().update(
                from as int,
                old(self).adj()[from as int].push((to, cost)),
            )[u] by {
            }
            assert(self.adj() =~= old(self).adj().update(from as int, old(self).adj()[from as int].push((to, cost))));
        }
    }
}

/// Takes a state of least cost out of `heap`.
fn pop_min(heap: &mut Vec<State>) -> (r: State)
    requires
        old(heap).len() > 0,
    ensures
        exists|k: int|
            0 <= k < old(heap)@.len() && r == old(heap)@[k] && final(heap)@ == old(heap)@.remove(k),
        forall|k: int| 0 <= k < old(heap)@.len() ==> r.cost <= #[trigger] old(heap)@[k].cost,
{
    let mut best: usize = 0;
    let mut k: usize = 1;
    while k < heap.len()
        invariant
            heap@ == old(heap)@,
            best < heap.len(),
            1 <= k <= heap.len(),
            forall|j: int| 0 <= j < k ==> heap@[best as int].cost <= #[trigger] heap@[j].cost,
        decreases heap.len() - k,
    {
        if heap[k].cost < heap[best].cost {
            best = k;
        }
        k = k + 1;
    }
    heap.remove(best)
}

/// A state other than the one removed stays.
proof fn lemma_remove_keeps(s: Seq<State>, k: int, x: State)
    requires
        0 <= k < s.len(),
        s.contains(x),
        x != s[k],
    ensures
        s.remove(k).contains(x),
{
    let j = choose|j: int| 0 <= j < s.len() && s[j] == x;
    if j < k {
        assert(s.remove(k)[j] == x);
    } else {
        assert(s.remove(k)[j - 1] == x);
    }
}

impl Graph {
    /// Costs of cheapest paths from `start`; `None` for vertices it does not
    /// reach. The answer is relaxed along every edge: a reached vertex's
    /// cost plus an edge's cost bounds the cost of the edge's target. So no
    /// answer exceeds the cost of any path, and `None` means unreachable.
    pub fn dijkstra(&self, start: usize) -> (r: Vec<Option<usize>>)
        requires
            self.wf(),
            start < self.num_vertices(),
        ensures
            r.len() == self.num_vertices(),
            r@[start as int] == Some(0usize),
            forall|u: int, k: int|
                0 <= u < r.len() && 0 <= k < self.adj()[u].len() && r@[u] is Some && r@[u]->0
                    + self.adj()[u][k].1 < usize::MAX ==> {
                    let v = #[trigger] self.adj()[u][k].0 as int;
                    r@[v] is Some && r@[v]->0 <= r@[u]->0 + self.adj()[u][k].1
                },
    {
        let n = self.n;
        let mut dist: Vec<usize> = Vec::new();
        while dist.len() < n
            invariant
                dist.len() <= n,
                forall|v: int| 0 <= v < dist.len() ==> dist@[v] == usize::MAX,
            decreases n - dist.len(),
        {
            dist.push(usize::MAX);
        }
        let mut heap: Vec<State> = Vec::new();
        dist.set(start, 0);
        heap.push(State { cost: 0, position: start });
        proof {
            assert(heap@[0] == State { cost: 0, position: start });
            assert forall|u: int| 0 <= u < n && dist@[u] < usize::MAX implies heap@.contains(
                State { cost: dist@[u], position: u as usize },
            ) by {
                assert(u == start);
            }
        }
        while heap.len() > 0
            invariant
                self.wf(),
                n == self.n,
                start < n,
                dist@.len() == n,
                dist@[start as int] == 0,
                forall|e: int| 0 <= e < heap.len() ==> (#[trigger] heap@[e]).position < n && dist@[heap@[e].position as int] <= heap@[e].cost,
                forall|u: int|
                    0 <= u < n && #[trigger] dist@[u] < usize::MAX ==> heap@.contains(
                        State { cost: dist@[u], position: u as usize },
                    ) || relaxed_at(self.adj(), dist@, u),
            decreases total(dist@), heap@.len(),
        {
            let ghost h0 = heap@;
            let ghost d0 = dist@;
            let State { cost, position } = pop_min(&mut heap);
            let ghost popped = State { cost, position };
            let ghost kk = choose|k: int| 0 <= k < h0.len() && popped == h0[k] && heap@ == h0.remove(k);
            proof {
                assert(h0[kk] == popped);
                assert forall|e: int| 0 <= e < heap.len() implies (#[trigger] heap@[e]).position < n && dist@[heap@[e].position as int] <= heap@[e].cost by {
                    if e < kk {
                        assert(heap@[e] == h0[e]);
                    } else {
                        assert(heap@[e] == h0[e + 1]);
                    }
                }
            }
            if cost > dist[position] {
                proof {
                    assert forall|u: int|
                        0 <= u < n && #[trigger] dist@[u] < usize::MAX implies heap@.contains(
                            State { cost: dist@[u], position: u as usize },
                        ) || relaxed_at(self.adj(), dist@, u) by {
                        let x = State { cost: dist@[u], position: u as usize };
                        if h0.contains(x) && x != popped {
                            lemma_remove_keeps(h0, kk, x);
                        }
                    }
                    lemma_total_nonneg(dist@);
                }
                continue;
            }
            let deg = self.data[position].len();
            let mut idx: usize = 0;
            let ghost t0 = total(dist@);
            let ghost l0 = heap@.len();
            proof {
                lemma_total_nonneg(dist@);
                assert forall|u: int|
                    0 <= u < n && #[trigger] dist@[u] < usize::MAX && u != position implies heap@.contains(
                        State { cost: dist@[u], position: u as usize },
                    ) || relaxed_at(self.adj(), dist@, u) by {
                    let x = State { cost: dist@[u], position: u as usize };
                    if h0.contains(x) {
                        lemma_remove_keeps(h0, kk, x);
                    }
                }
            }
            while idx < deg
                invariant
                    self.wf(),
                    n == self.n,
                    start < n,
                    position < n,
                    deg == self.data@[position as int]@.len(),
                    idx <= deg,
                    dist@.len() == n,
                    dist@[start as int] == 0,
                    dist@[position as int] == cost,
                    heap@.len() >= l0,
                    total(dist@) + (heap@.len() - l0) <= t0,
                    forall|e: int| 0 <= e < heap.len() ==> (#[trigger] heap@[e]).position < n && dist@[heap@[e].position as int] <= heap@[e].cost,
                    forall|k: int|
                        0 <= k < idx ==> dist@[#[trigger] self.adj()[position as int][k].0 as int] <= cost
                            + self.adj()[position as int][k].1,
                    forall|u: int|
                        0 <= u < n && #[trigger] dist@[u] < usize::MAX && u != position ==> heap@.contains(
                            State { cost: dist@[u], position: u as usize },
                        ) || relaxed_at(self.adj(), dist@, u),
                decreases deg - idx,
            {
                let edge = self.data[position][idx];
                let next = cost.saturating_add(edge.cost);
                let v = edge.node;
                proof {
                    assert(self.adj()[position as int][idx as int] == (edge.node, edge.cost));
                }
                if next < dist[v] {
                    let ghost dd = dist@;
                    let ghost hh = heap@;
                    proof {
                        lemma_total_update(dist@, v as int, next);
                    }
                    dist.set(v, next);
                    heap.push(State { cost: next, position: v });
                    proof {
                        assert(heap@[heap.len() - 1] == State { cost: next, position: v });
                        assert forall|x: State| hh.contains(x) implies heap@.contains(x) by {
                            let j = choose|j: int| 0 <= j < hh.len() && hh[j] == x;
                            assert(heap@[j] == x);
                        }
                        assert forall|e: int| 0 <= e < heap.len() implies (#[trigger] heap@[e]).position < n && dist@[heap@[e].position as int] <= heap@[e].cost by {
                            if e < hh.len() {
                                assert(heap@[e] == hh[e]);
                            }
                        }
                        assert forall|k: int|
                            0 <= k < idx + 1 implies dist@[#[trigger] self.adj()[position as int][k].0 as int] <= cost
                                + self.adj()[position as int][k].1 by {
                            assert(dd[self.adj()[position as int][k].0 as int] <= cost + self.adj()[position as int][k].1 || k == idx);
                        }
                        assert forall|u: int|
                            0 <= u < n && #[trigger] dist@[u] < usize::MAX && u != position implies heap@.contains(
                                State { cost: dist@[u], position: u as usize },
                            ) || relaxed_at(self.adj(), dist@, u) by {
                            if u == v {
                                assert(heap@.contains(State { cost: dist@[u], position: u as usize }));
                            } else {
                                let x = State { cost: dist@[u], position: u as usize };
                                if hh.contains(x) {
                                } else {
                                    assert(relaxed_at(self.adj(), dd, u));
                                }
                            }
                        }
                    }
                }
                idx = idx + 1;
            }
            proof {
                assert forall|u: int|
                    0 <= u < n && #[trigger] dist@[u] < usize::MAX implies heap@.contains(
                        State { cost: dist@[u], position: u as usize },
                    ) || relaxed_at(self.adj(), dist@, u) by {
                }
                lemma_total_nonneg(dist@);
                assert(total(dist@) < total(d0) || (total(dist@) == total(d0) && heap@.len() < h0.len()));
            }
        }
        let mut r: Vec<Option<usize>> = Vec::new();
        let mut v: usize = 0;
        while v < n
            invariant
                v <= n,
                r.len() == v,
                dist@.len() == n,
                forall|u: int| 0 <= u < v ==> #[trigger] r@[u] == if dist@[u] == usize::MAX { None } else { Some(dist@[u]) },
            decreases n - v,
        {
            if dist[v] == usize::MAX {
                r.push(None);
            } else {
                r.push(Some(dist[v]));
            }
            v = v + 1;
        }
        proof {
            assert forall|u: int, k: int|
                0 <= u < r.len() && 0 <= k < self.adj()[u].len() && r@[u] is Some && r@[u]->0
                    + self.adj()[u][k].1 < usize::MAX implies {
                    let v = #[trigger] self.adj()[u][k].0 as int;
                    r@[v] is Some && r@[v]->0 <= r@[u]->0 + self.adj()[u][k].1
                } by {
                assert(dist@[u] < usize::MAX);
                assert(relaxed_at(self.adj(), dist@, u));
                let v = self.adj()[u][k].0 as int;
                assert(dist@[v] <= dist@[u] + self.adj()[u][k].1);
                assert(v < n);
            }
        }
        r
    }
}

} // verus!
