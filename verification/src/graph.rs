//! Directed weighted graphs: edges, the read-only `Graph` interface and the
//! adjacency-list graph.
use vstd::prelude::*;
use crate::common::sum_ints;

verus! {

/// Sentinel for "no valid vertex".
pub const NO_VERTEX: usize = usize::MAX;

/// The adjacency of a graph as the algorithms see it: for each vertex, its
/// out-edges in order, each as (target vertex, weight).
pub open spec fn edge_view<M>(e: Edge<M>) -> (usize, i64) {
    (e.to, e.w)
}

/// Every edge of `adj` points at a vertex of `adj`.
pub open spec fn valid_adjacency(adj: Seq<Seq<(usize, i64)>>) -> bool {
    forall|u: int, i: int|
        0 <= u < adj.len() && 0 <= i < adj[u].len() ==> (#[trigger] adj[u][i]).0 < adj.len()
}

/// Every edge of `adj` has a weight of at least zero.
pub open spec fn nonnegative_weights(adj: Seq<Seq<(usize, i64)>>) -> bool {
    forall|u: int, i: int| 0 <= u < adj.len() && 0 <= i < adj[u].len() ==> (#[trigger] adj[u][i]).1 >= 0
}

/// Directed weighted edge. `meta` carries per-edge payload; `()` by default.
#[derive(Clone, Copy, Debug, PartialEq)]
pub struct Edge<M = ()> {
    pub to: usize,
    pub w: i64,
    pub meta: M,
}

impl Edge<()> {
    pub fn new(to: usize, w: i64) -> (r: Self)
        ensures
            r.to == to,
            r.w == w,
    {
        Edge { to, w, meta: () }
    }
}

impl<M> Edge<M> {
    pub fn with_meta(to: usize, w: i64, meta: M) -> (r: Self)
        ensures
            r.to == to,
            r.w == w,
            r.meta == meta,
    {
        Edge { to, w, meta }
    }
}

/// Read-only graph. Out-edges expose a weight and a payload of type `Self::Meta`.
///
/// Vertices are `0..n()`; the out-edges of `u` are numbered `0..out_degree(u)`.
pub trait Graph {
    type Meta;

    /// The out-edges of every vertex, as (target, weight).
    spec fn adjacency(&self) -> Seq<Seq<(usize, i64)>>;

    /// The payload of the `i`-th out-edge of `u`.
    spec fn meta_at(&self, u: int, i: int) -> Self::Meta;

    /// Number of vertices.
    fn n(&self) -> (r: usize)
        ensures
            r == self.adjacency().len(),
    ;

    /// Number of out-edges of `u`.
    fn out_degree(&self, u: usize) -> (r: usize)
        requires
            u < self.adjacency().len(),
        ensures
            r == self.adjacency()[u as int].len(),
    ;

    /// The `i`-th out-edge of `u`: its target, its weight and its payload.
    fn out_edge(&self, u: usize, i: usize) -> (r: (usize, i64, &Self::Meta))
        requires
            u < self.adjacency().len(),
            i < self.adjacency()[u as int].len(),
        ensures
            r.0 == self.adjacency()[u as int][i as int].0,
            r.1 == self.adjacency()[u as int][i as int].1,
            *r.2 == self.meta_at(u as int, i as int),
    ;

    /// Calls `f(target, weight, meta)` on each out-edge of `u`, in order.
    fn for_each_out_edge<F: FnMut(usize, i64, &Self::Meta)>(&self, u: usize, f: F)
        requires
            u < self.adjacency().len(),
            forall|v: usize, w: i64, m: &Self::Meta| call_requires(f, (v, w, m)),
    {
        let mut f = f;
        let deg = self.out_degree(u);
        let mut i: usize = 0;
        while i < deg
            invariant
                u < self.adjacency().len(),
                deg == self.adjacency()[u as int].len(),
                i <= deg,
                forall|v: usize, w: i64, m: &Self::Meta| call_requires(f, (v, w, m)),
            decreases deg - i,
        {
            let (v, w, m) = self.out_edge(u, i);
            f(v, w, m);
            i += 1;
        }
    }
}

/// Graph stored as one list of out-edges per vertex.
#[derive(Clone, Debug)]
pub struct AdjListGraph<M = ()> {
    adj: Vec<Vec<Edge<M>>>,
}

impl<M> AdjListGraph<M> {
    pub fn new(n: usize) -> (r: Self)
        ensures
            r.adjacency() == Seq::new(n as nat, |u: int| Seq::<(usize, i64)>::empty()),
            r.edge_lists() == Seq::new(n as nat, |u: int| Seq::<Edge<M>>::empty()),
    {
        let mut adj: Vec<Vec<Edge<M>>> = Vec::new();
        let mut i: usize = 0;
        while i < n
            invariant
                i <= n,
                adj@.len() == i,
                forall|u: int| 0 <= u < i ==> (#[trigger] adj@[u])@.len() == 0,
            decreases n - i,
        {
            adj.push(Vec::new());
            i += 1;
        }
        let r = AdjListGraph { adj };
        assert(r.edge_lists() =~= Seq::new(n as nat, |u: int| Seq::<Edge<M>>::empty())) by {
            assert forall|u: int| 0 <= u < n implies r.edge_lists()[u] =~= Seq::<Edge<M>>::empty() by {
                assert(adj@[u]@.len() == 0);
            }
        }
        assert(r.adjacency() =~= Seq::new(n as nat, |u: int| Seq::<(usize, i64)>::empty())) by {
            assert forall|u: int| 0 <= u < n implies r.adjacency()[u] =~= Seq::<(usize, i64)>::empty() by {
                assert(adj@[u]@.len() == 0);
            }
        }
        r
    }

    /// Appends the edge `u -> v` with weight `w` and payload `meta`.
    pub fn add_edge_with(&mut self, u: usize, v: usize, w: i64, meta: M)
        requires
            u < old(self).adjacency().len(),
            v < old(self).adjacency().len(),
        ensures
            final(self).adjacency() == old(self).adjacency().update(
                u as int,
                old(self).adjacency()[u as int].push((v, w)),
            ),
            final(self).edge_lists() == old(self).edge_lists().update(
                u as int,
                old(self).edge_lists()[u as int].push((Edge { to: v, w, meta })),
            ),
    {
        let ghost old_adj = self.adjacency();
        let ghost old_lists = self.edge_lists();
        let mut edges: Vec<Edge<M>> = Vec::new();
        std::mem::swap(&mut edges, &mut self.adj[u]);
        let ghost e = Edge { to: v, w, meta };
        edges.push(Edge { to: v, w, meta });
        std::mem::swap(&mut edges, &mut self.adj[u]);
        assert(self.adjacency() =~= old_adj.update(u as int, old_adj[u as int].push((v, w)))) by {
            assert(self.adjacency()[u as int] =~= old_adj[u as int].push((v, w)));
        }
        assert(self.edge_lists() =~= old_lists.update(u as int, old_lists[u as int].push(e))) by {
            assert(self.edge_lists()[u as int] =~= old_lists[u as int].push(e));
        }
    }

    /// The out-edges of `u`.
    pub fn neighbors(&self, u: usize) -> (r: &[Edge<M>])
        requires
            u < self.adjacency().len(),
        ensures
            r@.map_values(|e: Edge<M>| edge_view(e)) == self.adjacency()[u as int],
            r@ == self.edge_lists()[u as int],
    {
        self.adj[u].as_slice()
    }

    /// Total number of edges.
    pub fn m(&self) -> (r: usize)
        requires
            total_edges(self.adjacency(), self.adjacency().len() as int) <= usize::MAX,
        ensures
            r == total_edges(self.adjacency(), self.adjacency().len() as int),
    {
        let mut total: usize = 0;
        let mut u: usize = 0;
        while u < self.adj.len()
            invariant
                self.adj@.len() == self.adjacency().len(),
                u <= self.adj@.len(),
                total == total_edges(self.adjacency(), u as int),
                total_edges(self.adjacency(), self.adjacency().len() as int) <= usize::MAX,
            decreases self.adj@.len() - u,
        {
            proof {
                lemma_total_edges_monotone(self.adjacency(), u as int + 1, self.adjacency().len() as int);
            }
            total = total + self.adj[u].len();
            u += 1;
        }
        total
    }

    /// The contents, as (target, weight) per out-edge of each vertex.
    pub closed spec fn adjacency(&self) -> Seq<Seq<(usize, i64)>> {
        self.adj@.map_values(|es: Vec<Edge<M>>| es@.map_values(|e: Edge<M>| edge_view(e)))
    }

    /// The out-edges of each vertex, payloads included.
    pub closed spec fn edge_lists(&self) -> Seq<Seq<Edge<M>>> {
        self.adj@.map_values(|es: Vec<Edge<M>>| es@)
    }

    /// The edge lists are the adjacency with the payloads: one list per
    /// vertex, each edge seen as its (target, weight).
    pub proof fn lemma_edge_lists(&self)
        ensures
            self.edge_lists().len() == self.adjacency().len(),
            forall|u: int|
                0 <= u < self.adjacency().len() ==> (#[trigger] self.edge_lists()[u]).map_values(|e: Edge<M>| edge_view(e))
                    == self.adjacency()[u],
    {
        assert forall|u: int| 0 <= u < self.adjacency().len() implies (#[trigger] self.edge_lists()[u]).map_values(
            |e: Edge<M>| edge_view(e),
        ) == self.adjacency()[u] by {
            assert(self.edge_lists()[u].map_values(|e: Edge<M>| edge_view(e)) =~= self.adjacency()[u]);
        }
    }
}

/// Number of edges leaving the vertices `0..k`.
pub open spec fn total_edges(adj: Seq<Seq<(usize, i64)>>, k: int) -> int
    decreases k,
{
    if k <= 0 {
        0
    } else {
        total_edges(adj, k - 1) + adj[k - 1].len()
    }
}

/// The out-degrees of the first `k` vertices.
pub open spec fn out_degrees(adj: Seq<Seq<(usize, i64)>>, k: nat) -> Seq<int> {
    Seq::new(k, |u: int| adj[u].len() as int)
}

/// The edge count of the first `k` vertices is the sum of their out-degrees.
pub proof fn lemma_total_edges_is_sum(adj: Seq<Seq<(usize, i64)>>, k: nat)
    ensures
        total_edges(adj, k as int) == sum_ints(out_degrees(adj, k)),
    decreases k,
{
    if k > 0 {
        let j = (k - 1) as nat;
        lemma_total_edges_is_sum(adj, j);
        let s = out_degrees(adj, k);
        assert(s.drop_last() =~= out_degrees(adj, j));
        assert(sum_ints(s) == sum_ints(s.drop_last()) + s.last());
    }
}

/// Appending one out-edge to a vertex raises the edge count by exactly one.
pub proof fn lemma_total_edges_push(adj: Seq<Seq<(usize, i64)>>, u: int, e: (usize, i64), k: int)
    requires
        0 <= u < adj.len(),
        u < k <= adj.len(),
    ensures
        total_edges(adj.update(u, adj[u].push(e)), k) == total_edges(adj, k) + 1,
    decreases k,
{
    let a2 = adj.update(u, adj[u].push(e));
    if k - 1 > u {
        lemma_total_edges_push(adj, u, e, k - 1);
    } else {
        lemma_total_edges_prefix(adj, a2, k - 1);
    }
}

/// Adjacencies that agree on the first `k` vertices count as many edges there.
proof fn lemma_total_edges_prefix(a: Seq<Seq<(usize, i64)>>, b: Seq<Seq<(usize, i64)>>, k: int)
    requires
        k <= a.len(),
        k <= b.len(),
        forall|u: int| 0 <= u < k ==> #[trigger] a[u].len() == b[u].len(),
    ensures
        total_edges(a, k) == total_edges(b, k),
    decreases k,
{
    if k > 0 {
        lemma_total_edges_prefix(a, b, k - 1);
    }
}

pub proof fn lemma_total_edges_monotone(adj: Seq<Seq<(usize, i64)>>, j: int, k: int)
    requires
        0 <= j <= k,
    ensures
        total_edges(adj, j) <= total_edges(adj, k),
    decreases k - j,
{
    if j < k {
        lemma_total_edges_monotone(adj, j, k - 1);
    }
}

/// Shortcut for scalar-only graphs, since no meta to supply.
impl AdjListGraph<()> {
    pub fn add_edge(&mut self, u: usize, v: usize, w: i64)
        requires
            u < old(self).adjacency().len(),
            v < old(self).adjacency().len(),
        ensures
            final(self).adjacency() == old(self).adjacency().update(
                u as int,
                old(self).adjacency()[u as int].push((v, w)),
            ),
            final(self).edge_lists() == old(self).edge_lists().update(
                u as int,
                old(self).edge_lists()[u as int].push((Edge { to: v, w, meta: () })),
            ),
    {
        self.add_edge_with(u, v, w, ());
    }
}

impl<M> Graph for AdjListGraph<M> {
    type Meta = M;

    open spec fn adjacency(&self) -> Seq<Seq<(usize, i64)>> {
        AdjListGraph::<M>::adjacency(self)
    }

    open spec fn meta_at(&self, u: int, i: int) -> M {
        self.edge_lists()[u][i].meta
    }

    fn n(&self) -> (r: usize) {
        self.adj.len()
    }

    fn out_degree(&self, u: usize) -> (r: usize) {
        self.adj[u].len()
    }

    fn out_edge(&self, u: usize, i: usize) -> (r: (usize, i64, &M)) {
        let e = &self.adj[u][i];
        assert(self.edge_lists()[u as int][i as int] == self.adj@[u as int]@[i as int]);
        assert(self.meta_at(u as int, i as int) == self.adj@[u as int]@[i as int].meta);
        assert(e.meta == self.adj@[u as int]@[i as int].meta);
        (e.to, e.w, &e.meta)
    }
}

} // verus!
