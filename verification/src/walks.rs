//! Walks through a graph's adjacency, their lengths, and shortest distances.
//!
//! A walk from `s` is a sequence of edges `(u, i)` (the `i`-th out-edge of
//! `u`); each edge leaves the vertex where the previous one arrived.
use vstd::prelude::*;
use crate::graph::valid_adjacency;

verus! {

/// Distance value that stands for "unreachable".
pub const INF: i128 = i128::MAX;

pub open spec fn edge_ok(adj: Seq<Seq<(usize, i64)>>, e: (int, int)) -> bool {
    0 <= e.0 < adj.len() && 0 <= e.1 < adj[e.0].len()
}

pub open spec fn edge_target(adj: Seq<Seq<(usize, i64)>>, e: (int, int)) -> int {
    adj[e.0][e.1].0 as int
}

pub open spec fn edge_weight(adj: Seq<Seq<(usize, i64)>>, e: (int, int)) -> int {
    adj[e.0][e.1].1 as int
}

/// Vertex where the walk `es` from `s` arrives.
pub open spec fn walk_end(adj: Seq<Seq<(usize, i64)>>, s: int, es: Seq<(int, int)>) -> int {
    if es.len() == 0 {
        s
    } else {
        edge_target(adj, es.last())
    }
}

/// `es` is a walk starting at `s`.
pub open spec fn is_walk(adj: Seq<Seq<(usize, i64)>>, s: int, es: Seq<(int, int)>) -> bool
    decreases es.len(),
{
    if es.len() == 0 {
        true
    } else {
        &&& is_walk(adj, s, es.drop_last())
        &&& edge_ok(adj, es.last())
        &&& es.last().0 == walk_end(adj, s, es.drop_last())
    }
}

/// Sum of the weights of the edges of `es`.
pub open spec fn walk_len(adj: Seq<Seq<(usize, i64)>>, es: Seq<(int, int)>) -> int
    decreases es.len(),
{
    if es.len() == 0 {
        0
    } else {
        walk_len(adj, es.drop_last()) + edge_weight(adj, es.last())
    }
}

/// `es` is a walk from `s` to `v`.
pub open spec fn reaches(adj: Seq<Seq<(usize, i64)>>, s: int, es: Seq<(int, int)>, v: int) -> bool {
    is_walk(adj, s, es) && walk_end(adj, s, es) == v
}

/// `d` is at most the length of every walk from a source to `v`.
pub open spec fn lower_bound(adj: Seq<Seq<(usize, i64)>>, sources: Seq<usize>, v: int, d: int) -> bool {
    forall|s: usize, es: Seq<(int, int)>|
        #[trigger] sources.contains(s) && #[trigger] reaches(adj, s as int, es, v) ==> d <= walk_len(adj, es)
}

/// Some walk from a source to `v` has length exactly `d`.
pub open spec fn achieved(adj: Seq<Seq<(usize, i64)>>, sources: Seq<usize>, v: int, d: int) -> bool {
    exists|s: usize, es: Seq<(int, int)>|
        #[trigger] sources.contains(s) && #[trigger] reaches(adj, s as int, es, v) && walk_len(adj, es) == d
}

/// `d` is the shortest-walk distance from the sources to `v`: no walk is
/// shorter, and unless `d` is `INF` some walk has exactly that length.
/// (`INF` is the number `i128::MAX`, so `d == INF` means that no walk is
/// shorter than `INF`: with integer weights, that `v` is unreachable.)
pub open spec fn is_shortest(adj: Seq<Seq<(usize, i64)>>, sources: Seq<usize>, v: int, d: i128) -> bool {
    &&& lower_bound(adj, sources, v, d as int)
    &&& (d != INF ==> achieved(adj, sources, v, d as int))
}

/// Every finite entry of `dist` is the length of a walk from a source.
pub open spec fn all_achieved(adj: Seq<Seq<(usize, i64)>>, sources: Seq<usize>, dist: Seq<i128>) -> bool {
    forall|v: int| 0 <= v < dist.len() && #[trigger] dist[v] != INF ==> achieved(adj, sources, v, dist[v] as int)
}

/// No out-edge of a vertex with finite distance can shorten its target's distance.
pub open spec fn edge_relaxed(adj: Seq<Seq<(usize, i64)>>, dist: Seq<i128>, u: int, i: int) -> bool {
    dist[u] != INF ==> dist[adj[u][i].0 as int] <= dist[u] + adj[u][i].1
}

pub open spec fn vertex_relaxed(adj: Seq<Seq<(usize, i64)>>, dist: Seq<i128>, u: int) -> bool {
    forall|i: int| 0 <= i < adj[u].len() ==> #[trigger] edge_relaxed(adj, dist, u, i)
}

pub open spec fn all_relaxed(adj: Seq<Seq<(usize, i64)>>, dist: Seq<i128>) -> bool {
    forall|u: int| 0 <= u < adj.len() ==> #[trigger] vertex_relaxed(adj, dist, u)
}

pub open spec fn sources_valid(sources: Seq<usize>, n: int) -> bool {
    forall|i: int| 0 <= i < sources.len() ==> (#[trigger] sources[i]) < n
}

/// Extending a walk by one edge out of its end.
pub proof fn lemma_walk_push(adj: Seq<Seq<(usize, i64)>>, s: int, es: Seq<(int, int)>, e: (int, int))
    requires
        is_walk(adj, s, es),
        edge_ok(adj, e),
        e.0 == walk_end(adj, s, es),
    ensures
        is_walk(adj, s, es.push(e)),
        walk_end(adj, s, es.push(e)) == edge_target(adj, e),
        walk_len(adj, es.push(e)) == walk_len(adj, es) + edge_weight(adj, e),
{
    assert(es.push(e).drop_last() =~= es);
}

/// With no negative edge, a distance vector that is zero (or less) at the
/// sources and relaxed along every edge is a lower bound on every walk.
pub proof fn lemma_relaxed_bounds_walk_nonneg(
    adj: Seq<Seq<(usize, i64)>>,
    dist: Seq<i128>,
    s: int,
    es: Seq<(int, int)>,
)
    requires
        valid_adjacency(adj),
        crate::graph::nonnegative_weights(adj),
        dist.len() == adj.len(),
        0 <= s < adj.len(),
        dist[s] <= 0,
        all_relaxed(adj, dist),
        is_walk(adj, s, es),
    ensures
        0 <= walk_end(adj, s, es) < adj.len(),
        dist[walk_end(adj, s, es)] <= walk_len(adj, es),
    decreases es.len(),
{
    if es.len() > 0 {
        let p = es.drop_last();
        let e = es.last();
        lemma_relaxed_bounds_walk_nonneg(adj, dist, s, p);
        let x = walk_end(adj, s, p);
        assert(vertex_relaxed(adj, dist, x));
        assert(edge_relaxed(adj, dist, x, e.1));
        assert(adj[x][e.1].1 >= 0);
        assert(adj[x][e.1].0 < adj.len());
    }
}

pub proof fn lemma_relaxed_is_lower_bound_nonneg(
    adj: Seq<Seq<(usize, i64)>>,
    sources: Seq<usize>,
    dist: Seq<i128>,
)
    requires
        valid_adjacency(adj),
        crate::graph::nonnegative_weights(adj),
        dist.len() == adj.len(),
        sources_valid(sources, adj.len() as int),
        forall|i: int| 0 <= i < sources.len() ==> dist[#[trigger] sources[i] as int] <= 0,
        all_relaxed(adj, dist),
    ensures
        forall|v: int| 0 <= v < adj.len() ==> lower_bound(adj, sources, v, #[trigger] dist[v] as int),
{
    assert forall|v: int| 0 <= v < adj.len() implies lower_bound(adj, sources, v, #[trigger] dist[v] as int) by {
        assert forall|s: usize, es: Seq<(int, int)>|
            #[trigger] sources.contains(s) && #[trigger] reaches(adj, s as int, es, v) implies dist[v] <= walk_len(adj, es) by {
            let k = choose|k: int| 0 <= k < sources.len() && sources[k] == s;
            assert(dist[sources[k] as int] <= 0);
            lemma_relaxed_bounds_walk_nonneg(adj, dist, s as int, es);
        }
    }
}

/// The largest magnitude of an edge weight (`-i64::MIN`).
pub open spec fn weight_bound() -> int {
    0x8000_0000_0000_0000
}

/// A walk of `k` edges has a length of magnitude at most `k` times the
/// largest weight magnitude.
pub proof fn lemma_walk_len_bound(adj: Seq<Seq<(usize, i64)>>, s: int, es: Seq<(int, int)>)
    requires
        is_walk(adj, s, es),
    ensures
        -(es.len() * weight_bound()) <= walk_len(adj, es) <= es.len() * weight_bound(),
    decreases es.len(),
{
    if es.len() > 0 {
        lemma_walk_len_bound(adj, s, es.drop_last());
        let e = es.last();
        assert(-weight_bound() <= adj[e.0][e.1].1 <= weight_bound());
        assert((es.len() - 1) * weight_bound() + weight_bound() == es.len() * weight_bound()) by (nonlinear_arith);
    }
}

/// `d` is the length of some walk of at most `k` edges from a source to `v`.
pub open spec fn achieved_within(adj: Seq<Seq<(usize, i64)>>, sources: Seq<usize>, v: int, d: int, k: int) -> bool {
    exists|s: usize, es: Seq<(int, int)>|
        #[trigger] sources.contains(s) && #[trigger] reaches(adj, s as int, es, v) && walk_len(adj, es) == d && es.len() <= k
}

/// `d` is at most the length of every walk of at most `k` edges from a source to `v`.
pub open spec fn lower_bound_within(adj: Seq<Seq<(usize, i64)>>, sources: Seq<usize>, v: int, d: int, k: int) -> bool {
    forall|s: usize, es: Seq<(int, int)>|
        #[trigger] sources.contains(s) && #[trigger] reaches(adj, s as int, es, v) && es.len() <= k ==> d <= walk_len(
            adj,
            es,
        )
}

/// A distance vector whose finite entries are bounded well inside the range
/// of `i128`, that is zero (or less) at the sources and relaxed along every
/// edge, is finite on every walk's end and a lower bound on its length.
pub proof fn lemma_relaxed_bounds_walk(
    adj: Seq<Seq<(usize, i64)>>,
    dist: Seq<i128>,
    bound: int,
    s: int,
    es: Seq<(int, int)>,
)
    requires
        valid_adjacency(adj),
        dist.len() == adj.len(),
        0 <= s < adj.len(),
        dist[s] <= 0,
        all_relaxed(adj, dist),
        bound + weight_bound() < INF,
        forall|v: int| 0 <= v < dist.len() && #[trigger] dist[v] != INF ==> dist[v] <= bound,
        is_walk(adj, s, es),
    ensures
        0 <= walk_end(adj, s, es) < adj.len(),
        dist[walk_end(adj, s, es)] != INF,
        dist[walk_end(adj, s, es)] <= walk_len(adj, es),
    decreases es.len(),
{
    if es.len() > 0 {
        let p = es.drop_last();
        let e = es.last();
        lemma_relaxed_bounds_walk(adj, dist, bound, s, p);
        let x = walk_end(adj, s, p);
        assert(vertex_relaxed(adj, dist, x));
        assert(edge_relaxed(adj, dist, x, e.1));
        assert(adj[x][e.1].0 < adj.len());
    }
}

pub proof fn lemma_relaxed_is_shortest(
    adj: Seq<Seq<(usize, i64)>>,
    sources: Seq<usize>,
    dist: Seq<i128>,
    bound: int,
)
    requires
        valid_adjacency(adj),
        dist.len() == adj.len(),
        sources_valid(sources, adj.len() as int),
        forall|i: int| 0 <= i < sources.len() ==> dist[#[trigger] sources[i] as int] <= 0,
        all_relaxed(adj, dist),
        bound + weight_bound() < INF,
        forall|v: int| 0 <= v < dist.len() && #[trigger] dist[v] != INF ==> dist[v] <= bound,
        all_achieved(adj, sources, dist),
    ensures
        forall|v: int| 0 <= v < adj.len() ==> is_shortest(adj, sources, v, #[trigger] dist[v]),
{
    assert forall|v: int| 0 <= v < adj.len() implies is_shortest(adj, sources, v, #[trigger] dist[v]) by {
        assert forall|s: usize, es: Seq<(int, int)>|
            #[trigger] sources.contains(s) && #[trigger] reaches(adj, s as int, es, v) implies dist[v] <= walk_len(adj, es) by {
            let k = choose|k: int| 0 <= k < sources.len() && sources[k] == s;
            assert(dist[sources[k] as int] <= 0);
            lemma_relaxed_bounds_walk(adj, dist, bound, s as int, es);
        }
    }
}

/// With no negative edge, no walk has negative length.
pub proof fn lemma_nonnegative_walk(adj: Seq<Seq<(usize, i64)>>, s: int, es: Seq<(int, int)>)
    requires
        crate::graph::nonnegative_weights(adj),
        is_walk(adj, s, es),
    ensures
        walk_len(adj, es) >= 0,
    decreases es.len(),
{
    if es.len() > 0 {
        lemma_nonnegative_walk(adj, s, es.drop_last());
        let e = es.last();
        assert(adj[e.0][e.1].1 >= 0);
    }
}

} // verus!
