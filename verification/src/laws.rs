//! Properties that relate the algorithms to one another and to the graph.
use vstd::prelude::*;
use crate::astar::{AStarConfig, Heuristic, ZeroHeuristic, admissible, astar_outcome};
use crate::bellman_ford::bellman_ford_outcome;
use crate::buffers::{SsspBuffers, ancestor, chain_length, lemma_chain_length_unique, parent_tree, reaches_root, root_path, tree_edge, tree_path, tree_step};
use crate::apsp::{ApspBuffers, hop, lemma_route_length_unique, route_ends, route_length};
use crate::common::{ApspResult, SsspResult};
use crate::dijkstra::{DijkstraConfig, dijkstra_outcome};
use crate::floyd_warshall::floyd_warshall_outcome;
use crate::fw_routes::{next_hop_tight, routes_ok};
use crate::graph::{NO_VERTEX, nonnegative_weights, valid_adjacency};
use crate::simple_walks::{has_negative_cycle, lemma_decompose, lemma_walk_vertex_range, lemma_repeat_walk, lemma_simple_path_short, lemma_walk_concat, repeat_walk, simple_walk};
use crate::walks::{INF, lemma_nonnegative_walk, achieved, all_relaxed, edge_relaxed, is_shortest, is_walk, lemma_walk_push, lower_bound, lower_bound_within, reaches, sources_valid, vertex_relaxed, walk_end, walk_len};

verus! {

/// Some closed walk of negative length can be reached from a source.
pub open spec fn negative_cycle_reachable(adj: Seq<Seq<(usize, i64)>>, sources: Seq<usize>) -> bool {
    exists|s: usize, pre: Seq<(int, int)>, x: int, c: Seq<(int, int)>|
        #[trigger] sources.contains(s) && #[trigger] reaches(adj, s as int, pre, x) && #[trigger] reaches(adj, x, c, x)
            && walk_len(adj, c) < 0
}

/// The shortest distance is unique: two values that both satisfy
/// `is_shortest` for the same vertex are equal.
pub proof fn lemma_shortest_unique(adj: Seq<Seq<(usize, i64)>>, sources: Seq<usize>, v: int, d1: i128, d2: i128)
    requires
        is_shortest(adj, sources, v, d1),
        is_shortest(adj, sources, v, d2),
    ensures
        d1 == d2,
{
    if d1 != INF {
        let (s, es) = choose|s: usize, es: Seq<(int, int)>|
            #[trigger] sources.contains(s) && #[trigger] reaches(adj, s as int, es, v) && walk_len(adj, es) == d1 as int;
        assert(d2 <= d1);
    }
    if d2 != INF {
        let (s, es) = choose|s: usize, es: Seq<(int, int)>|
            #[trigger] sources.contains(s) && #[trigger] reaches(adj, s as int, es, v) && walk_len(adj, es) == d2 as int;
        assert(d1 <= d2);
    }
}

/// Bellman-Ford reports a negative cycle exactly when a closed walk of
/// negative length can be reached from a source (for a run that did all its
/// rounds, or that stopped early, as every run does).
pub proof fn lemma_bellman_ford_flags_negative_cycles(
    adj: Seq<Seq<(usize, i64)>>,
    sources: Seq<usize>,
    dist: Seq<i128>,
    r: SsspResult,
)
    requires
        valid_adjacency(adj),
        dist.len() == adj.len(),
        sources_valid(sources, adj.len() as int),
        bellman_ford_outcome(adj, sources, dist, r),
        r.iterations + 1 == adj.len() || !r.negative_cycle,
    ensures
        r.negative_cycle <==> negative_cycle_reachable(adj, sources),
{
    reveal(bellman_ford_outcome);
    if r.negative_cycle {
        let u = choose|u: int| 0 <= u < adj.len() && !#[trigger] vertex_relaxed(adj, dist, u);
        let i = choose|i: int| 0 <= i < adj[u].len() && !#[trigger] edge_relaxed(adj, dist, u, i);
        let v = adj[u][i].0 as int;
        assert(dist[u] != INF);
        assert(achieved(adj, sources, u, dist[u] as int));
        let (s, p) = choose|s: usize, p: Seq<(int, int)>|
            #[trigger] sources.contains(s) && #[trigger] reaches(adj, s as int, p, u) && walk_len(adj, p) == dist[u] as int;
        lemma_walk_push(adj, s as int, p, (u, i));
        let p2 = p.push((u, i));
        let k = choose|k: int| 0 <= k < sources.len() && sources[k] == s;
        assert(sources[k] < adj.len());
        lemma_decompose(adj, s as int, p2);
        if exists|q: Seq<(int, int)>|
            #[trigger] reaches(adj, s as int, q, walk_end(adj, s as int, p2)) && simple_walk(adj, s as int, q) && walk_len(adj, q) <= walk_len(adj, p2) {
            let q = choose|q: Seq<(int, int)>|
                #[trigger] reaches(adj, s as int, q, walk_end(adj, s as int, p2)) && simple_walk(adj, s as int, q) && walk_len(adj, q) <= walk_len(adj, p2);
            assert(walk_len(adj, q) < dist[v]);
            if v == s as int {
                assert(lower_bound_within(adj, sources, v, dist[v] as int, r.iterations as int));
                assert(reaches(adj, s as int, Seq::<(int, int)>::empty(), v));
                assert(dist[v] <= 0);
                assert(reaches(adj, s as int, Seq::<(int, int)>::empty(), s as int));
                assert(reaches(adj, s as int, q, s as int));
            } else {
                lemma_simple_path_short(adj, s as int, q);
                assert(lower_bound_within(adj, sources, v, dist[v] as int, r.iterations as int));
                assert(reaches(adj, s as int, q, v));
            }
        } else {
            let (x, pre, c) = choose|x: int, pre: Seq<(int, int)>, c: Seq<(int, int)>|
                0 <= x < adj.len() && #[trigger] reaches(adj, s as int, pre, x) && #[trigger] reaches(adj, x, c, x)
                    && simple_walk(adj, x, c) && walk_len(adj, c) < 0;
            assert(reaches(adj, s as int, pre, x));
        }
    } else {
        if negative_cycle_reachable(adj, sources) {
            let (s, pre, x, c) = choose|s: usize, pre: Seq<(int, int)>, x: int, c: Seq<(int, int)>|
                #[trigger] sources.contains(s) && #[trigger] reaches(adj, s as int, pre, x) && #[trigger] reaches(adj, x, c, x)
                    && walk_len(adj, c) < 0;
            let k = choose|k: int| 0 <= k < sources.len() && sources[k] == s;
            assert(sources[k] < adj.len());
            let x_ok = 0 <= x < adj.len();
            assert(x_ok) by {
                crate::simple_walks::lemma_walk_vertex_range(adj, s as int, pre, pre.len() as int);
                assert(pre.take(pre.len() as int) =~= pre);
            }
            assert(is_shortest(adj, sources, x, dist[x]));
            let m: nat = if walk_len(adj, pre) - dist[x] + 1 > 0 { (walk_len(adj, pre) - dist[x] + 1) as nat } else { 0 };
            lemma_repeat_walk(adj, x, c, m);
            lemma_walk_concat(adj, s as int, pre, repeat_walk(c, m));
            assert(reaches(adj, s as int, pre + repeat_walk(c, m), x));
            assert(dist[x] <= walk_len(adj, pre + repeat_walk(c, m)));
            assert(m * walk_len(adj, c) <= -m) by (nonlinear_arith)
                requires m >= 0, walk_len(adj, c) <= -1;
        }
    }
}

/// On a graph with no negative edge, Dijkstra (run to the end) and
/// Bellman-Ford from the same sources compute the same distances.
pub proof fn lemma_dijkstra_agrees_with_bellman_ford(
    adj: Seq<Seq<(usize, i64)>>,
    sources: Seq<usize>,
    config: DijkstraConfig,
    d_dijkstra: Seq<i128>,
    d_bellman_ford: Seq<i128>,
    r: SsspResult,
)
    requires
        valid_adjacency(adj),
        nonnegative_weights(adj),
        sources_valid(sources, adj.len() as int),
        config.targets@.len() == 0,
        d_dijkstra.len() == adj.len(),
        d_bellman_ford.len() == adj.len(),
        dijkstra_outcome(adj, sources, config, d_dijkstra),
        bellman_ford_outcome(adj, sources, d_bellman_ford, r),
        r.iterations + 1 == adj.len() || !r.negative_cycle,
    ensures
        d_dijkstra == d_bellman_ford,
        !r.negative_cycle,
{
    lemma_bellman_ford_flags_negative_cycles(adj, sources, d_bellman_ford, r);
    if negative_cycle_reachable(adj, sources) {
        let (s, pre, x, c) = choose|s: usize, pre: Seq<(int, int)>, x: int, c: Seq<(int, int)>|
            #[trigger] sources.contains(s) && #[trigger] reaches(adj, s as int, pre, x) && #[trigger] reaches(adj, x, c, x)
                && walk_len(adj, c) < 0;
        lemma_nonnegative_walk(adj, x, c);
    }
    reveal(bellman_ford_outcome);
    assert forall|v: int| 0 <= v < adj.len() implies d_dijkstra[v] == d_bellman_ford[v] by {
        assert(is_shortest(adj, sources, v, d_dijkstra[v]));
        assert(is_shortest(adj, sources, v, d_bellman_ford[v]));
        lemma_shortest_unique(adj, sources, v, d_dijkstra[v], d_bellman_ford[v]);
    }
    assert(d_dijkstra =~= d_bellman_ford);
}

/// On a graph with no negative edge the zero estimate never overestimates, so
/// A* with it finds the shortest distance to its target, as Dijkstra does.
pub proof fn lemma_zero_heuristic_admissible(adj: Seq<Seq<(usize, i64)>>, target: usize)
    requires
        nonnegative_weights(adj),
    ensures
        admissible(adj, ZeroHeuristic, target),
{
    assert forall|v: int, es: Seq<(int, int)>|
        0 <= v < adj.len() && #[trigger] reaches(adj, v, es, target as int) implies 0 <= ZeroHeuristic.guess(v as usize, target)
            <= walk_len(adj, es) by {
        lemma_nonnegative_walk(adj, v, es);
    }
}

/// With an admissible heuristic, A* towards a target and Dijkstra run to the
/// end from the same source agree on the distance of that target.
pub proof fn lemma_astar_agrees_with_dijkstra<H: Heuristic>(
    adj: Seq<Seq<(usize, i64)>>,
    source: usize,
    config: AStarConfig<H>,
    old_buffers: SsspBuffers,
    buffers: SsspBuffers,
    r: SsspResult,
    dijkstra_config: DijkstraConfig,
    d_dijkstra: Seq<i128>,
)
    requires
        source < adj.len(),
        config.target < adj.len(),
        admissible(adj, config.heuristic, config.target),
        astar_outcome(adj, source, config, old_buffers, buffers, r),
        dijkstra_config.targets@.len() == 0,
        d_dijkstra.len() == adj.len(),
        dijkstra_outcome(adj, seq![source], dijkstra_config, d_dijkstra),
    ensures
        buffers.dist@[config.target as int] == d_dijkstra[config.target as int],
{
    let t = config.target as int;
    assert(is_shortest(adj, seq![source], t, d_dijkstra[t]));
    lemma_shortest_unique(adj, seq![source], t, buffers.dist@[t], d_dijkstra[t]);
}

/// On a graph with no negative edge, row `s` of the Floyd-Warshall matrix is
/// what Dijkstra run to the end from `s` computes.
pub proof fn lemma_floyd_warshall_agrees_with_dijkstra(
    adj: Seq<Seq<(usize, i64)>>,
    b: ApspBuffers,
    detect: bool,
    r: ApspResult,
    s: usize,
    config: DijkstraConfig,
    d_dijkstra: Seq<i128>,
)
    requires
        nonnegative_weights(adj),
        floyd_warshall_outcome(adj, b, detect, r),
        s < adj.len(),
        config.targets@.len() == 0,
        d_dijkstra.len() == adj.len(),
        dijkstra_outcome(adj, seq![s], config, d_dijkstra),
    ensures
        forall|j: int| 0 <= j < adj.len() ==> #[trigger] b.at(s as int, j) == d_dijkstra[j],
{
    if has_negative_cycle(adj) {
        let (x, c) = choose|x: int, c: Seq<(int, int)>| 0 <= x < adj.len() && #[trigger] reaches(adj, x, c, x) && walk_len(adj, c) < 0;
        lemma_nonnegative_walk(adj, x, c);
    }
    assert forall|j: int| 0 <= j < adj.len() implies #[trigger] b.at(s as int, j) == d_dijkstra[j] by {
        assert(is_shortest(adj, seq![s], j, b.at(s as int, j)));
        assert(is_shortest(adj, seq![s], j, d_dijkstra[j]));
        lemma_shortest_unique(adj, seq![s], j, b.at(s as int, j), d_dijkstra[j]);
    }
}

/// On a graph without a negative closed walk, row `s` of the Floyd-Warshall
/// matrix is what Bellman-Ford from `s` computes, and Bellman-Ford reports no
/// negative cycle.
pub proof fn lemma_floyd_warshall_agrees_with_bellman_ford(
    adj: Seq<Seq<(usize, i64)>>,
    b: ApspBuffers,
    detect: bool,
    r: ApspResult,
    s: usize,
    d_bellman_ford: Seq<i128>,
    rb: SsspResult,
)
    requires
        valid_adjacency(adj),
        !has_negative_cycle(adj),
        floyd_warshall_outcome(adj, b, detect, r),
        s < adj.len(),
        d_bellman_ford.len() == adj.len(),
        bellman_ford_outcome(adj, seq![s], d_bellman_ford, rb),
        rb.iterations + 1 == adj.len() || !rb.negative_cycle,
    ensures
        !rb.negative_cycle,
        forall|j: int| 0 <= j < adj.len() ==> #[trigger] b.at(s as int, j) == d_bellman_ford[j],
{
    assert(sources_valid(seq![s], adj.len() as int));
    lemma_bellman_ford_flags_negative_cycles(adj, seq![s], d_bellman_ford, rb);
    if negative_cycle_reachable(adj, seq![s]) {
        let (s0, pre, x, c) = choose|s0: usize, pre: Seq<(int, int)>, x: int, c: Seq<(int, int)>|
            #[trigger] seq![s].contains(s0) && #[trigger] reaches(adj, s0 as int, pre, x) && #[trigger] reaches(adj, x, c, x)
                && walk_len(adj, c) < 0;
        assert(s0 == s) by {
            assert(seq![s][0] == s);
        }
        lemma_walk_vertex_range(adj, s0 as int, pre, pre.len() as int);
        assert(pre.take(pre.len() as int) =~= pre);
        assert(0 <= x < adj.len());
        assert(has_negative_cycle(adj));
    }
    reveal(bellman_ford_outcome);
    assert forall|j: int| 0 <= j < adj.len() implies #[trigger] b.at(s as int, j) == d_bellman_ford[j] by {
        assert(is_shortest(adj, seq![s], j, b.at(s as int, j)));
        assert(is_shortest(adj, seq![s], j, d_bellman_ford[j]));
        lemma_shortest_unique(adj, seq![s], j, b.at(s as int, j), d_bellman_ford[j]);
    }
}

/// Every hop `t < k` of the route from `i` towards `j` stands at a vertex
/// with a finite entry towards `j`.
proof fn lemma_route_hops_finite(
    adj: Seq<Seq<(usize, i64)>>,
    b: ApspBuffers,
    i: usize,
    j: usize,
    k: nat,
    t: nat,
)
    requires
        b.wf(),
        routes_ok(adj, b),
        i < b.n,
        j < b.n,
        b.at(i as int, j as int) != INF,
        route_ends(b.next@, b.n as int, i, j, k),
        t <= k,
    ensures
        hop(b.next@, b.n as int, i, j, t) < b.n,
        b.at(hop(b.next@, b.n as int, i, j, t) as int, j as int) != INF,
    decreases t,
{
    if t > 0 {
        lemma_route_hops_finite(adj, b, i, j, k, (t - 1) as nat);
        let c = hop(b.next@, b.n as int, i, j, (t - 1) as nat);
        assert(c != j);
        assert(next_hop_tight(adj, b, c as int, j as int));
        assert(hop(b.next@, b.n as int, i, j, t) == b.next_at(c as int, j as int));
    }
}

/// Without negative closed walks, after Floyd-Warshall `ApspBuffers::path`
/// may be called for every pair, and for a finite entry `(i, j)` the route it
/// follows ends at `j`, each of its steps an edge whose weight is the
/// difference of the entries towards `j` at the step's ends; so the path's
/// length is the entry `(i, j)`, the shortest distance.
pub proof fn lemma_floyd_warshall_paths(
    adj: Seq<Seq<(usize, i64)>>,
    b: ApspBuffers,
    detect: bool,
    r: ApspResult,
    i: usize,
    j: usize,
)
    requires
        floyd_warshall_outcome(adj, b, detect, r),
        !has_negative_cycle(adj),
        i < b.n,
        j < b.n,
        b.at(i as int, j as int) != INF,
    ensures
        exists|k: nat| #[trigger] route_ends(b.next@, b.n as int, i, j, k),
        ({
            let k = route_length(b.next@, b.n as int, i, j);
            &&& hop(b.next@, b.n as int, i, j, k) == j
            &&& forall|t: nat|
                t < k ==> #[trigger] next_hop_tight(adj, b, hop(b.next@, b.n as int, i, j, t) as int, j as int)
        }),
{
    let k0 = choose|k: nat| #[trigger] route_ends(b.next@, b.n as int, i, j, k) && hop(b.next@, b.n as int, i, j, k) == j;
    lemma_route_length_unique(b.next@, b.n as int, i, j, k0);
    assert forall|t: nat| t < k0 implies #[trigger] next_hop_tight(adj, b, hop(b.next@, b.n as int, i, j, t) as int, j as int) by {
        lemma_route_hops_finite(adj, b, i, j, k0, t);
        let c = hop(b.next@, b.n as int, i, j, t);
        assert(c != j);
    }
}

/// Every vertex met on the way up from a reached vertex is reached.
proof fn lemma_ancestors_reached(
    adj: Seq<Seq<(usize, i64)>>,
    sources: Seq<usize>,
    dist: Seq<i128>,
    parent: Seq<usize>,
    v: usize,
    k: nat,
    j: nat,
)
    requires
        parent_tree(adj, sources, dist, parent),
        parent.len() == dist.len(),
        dist.len() <= usize::MAX,
        v < dist.len(),
        dist[v as int] < INF,
        reaches_root(parent, v, k),
        j < k,
    ensures
        ancestor(parent, v, j) < dist.len(),
        dist[ancestor(parent, v, j) as int] < INF,
    decreases j,
{
    if j > 0 {
        lemma_ancestors_reached(adj, sources, dist, parent, v, k, (j - 1) as nat);
        let a = ancestor(parent, v, (j - 1) as nat);
        assert(ancestor(parent, v, j) == parent[a as int]);
        assert(ancestor(parent, v, j) != NO_VERTEX);
        assert(dist[a as int] < INF);
        assert(tree_edge(adj, dist, parent[a as int] as int, a as int));
    }
}

/// From a reached vertex inside a shortest-path tree, the way up is a tree path.
proof fn lemma_parent_tree_path(
    adj: Seq<Seq<(usize, i64)>>,
    sources: Seq<usize>,
    dist: Seq<i128>,
    parent: Seq<usize>,
    v: usize,
)
    requires
        parent_tree(adj, sources, dist, parent),
        parent.len() == dist.len(),
        dist.len() <= usize::MAX,
        v < dist.len(),
        dist[v as int] < INF,
    ensures
        tree_path(adj, sources, dist, parent, v),
{
    assert(dist[v as int] < INF);
    let k = choose|k: nat| #[trigger] reaches_root(parent, v, k);
    assert(k > 0) by {
        if k == 0 {
            assert(ancestor(parent, v, 0) == v);
        }
    }
    assert forall|j: nat| j < k implies #[trigger] tree_step(adj, sources, dist, parent, ancestor(parent, v, j)) by {
        lemma_ancestors_reached(adj, sources, dist, parent, v, k, j);
        let a = ancestor(parent, v, j);
        assert(dist[a as int] < INF);
    }
}

/// The path that `SsspBuffers::path_to` reconstructs along a tree path starts
/// at a source, ends at the vertex, and each step follows a graph edge whose
/// weight is the difference of the distances of its ends, so its length is
/// the distance of the vertex less that of the source.
pub proof fn lemma_tree_path_reconstructed(
    adj: Seq<Seq<(usize, i64)>>,
    sources: Seq<usize>,
    dist: Seq<i128>,
    parent: Seq<usize>,
    v: usize,
)
    requires
        tree_path(adj, sources, dist, parent, v),
        parent.len() == dist.len(),
    ensures
        exists|k: nat| #[trigger] reaches_root(parent, v, k),
        ({
            let path = root_path(parent, v, chain_length(parent, v));
            &&& path.len() >= 1
            &&& sources.contains(path[0])
            &&& path.last() == v
            &&& forall|t: int| 0 <= t < path.len() - 1 ==> #[trigger] tree_edge(adj, dist, path[t] as int, path[t + 1] as int)
        }),
{
    let k = choose|k: nat|
        #[trigger] reaches_root(parent, v, k) && 0 < k && forall|j: nat| j < k ==> #[trigger] tree_step(adj, sources, dist, parent, ancestor(parent, v, j));
    lemma_chain_length_unique(parent, v, k);
    let path = root_path(parent, v, k);
    assert(path[k - 1] == ancestor(parent, v, 0));
    let root = ancestor(parent, v, (k - 1) as nat);
    assert(tree_step(adj, sources, dist, parent, root));
    assert(ancestor(parent, v, k) == parent[root as int]);
    assert(path[0] == root);
    assert forall|t: int| 0 <= t < path.len() - 1 implies #[trigger] tree_edge(adj, dist, path[t] as int, path[t + 1] as int) by {
        let j = (k - 2 - t) as nat;
        let a = ancestor(parent, v, j);
        assert(tree_step(adj, sources, dist, parent, a));
        assert(path[t + 1] == a);
        assert(path[t] == ancestor(parent, v, j + 1));
        assert(ancestor(parent, v, j + 1) == parent[a as int]);
        assert(parent[a as int] != NO_VERTEX);
    }
}

/// After a search that leaves a shortest-path tree (Dijkstra, or Bellman-Ford
/// without a negative cycle), `SsspBuffers::path_to` may be called for every
/// reached vertex, and the path it reconstructs is as
/// `lemma_tree_path_reconstructed` describes.
pub proof fn lemma_reconstructed_path(
    adj: Seq<Seq<(usize, i64)>>,
    sources: Seq<usize>,
    dist: Seq<i128>,
    parent: Seq<usize>,
    v: usize,
)
    requires
        parent_tree(adj, sources, dist, parent),
        parent.len() == dist.len(),
        dist.len() <= usize::MAX,
        v < dist.len(),
        dist[v as int] < INF,
    ensures
        exists|k: nat| #[trigger] reaches_root(parent, v, k),
        ({
            let path = root_path(parent, v, chain_length(parent, v));
            &&& path.len() >= 1
            &&& sources.contains(path[0])
            &&& path.last() == v
            &&& forall|t: int| 0 <= t < path.len() - 1 ==> #[trigger] tree_edge(adj, dist, path[t] as int, path[t + 1] as int)
        }),
{
    lemma_parent_tree_path(adj, sources, dist, parent, v);
    lemma_tree_path_reconstructed(adj, sources, dist, parent, v);
}

/// After A* with an admissible heuristic reaches its target, `path_to` may be
/// called for the target, and the path it reconstructs runs from the source
/// to the target along edges whose weights are the differences of the
/// distances, so its length is the target's shortest distance.
pub proof fn lemma_astar_path_to_target<H: Heuristic>(
    adj: Seq<Seq<(usize, i64)>>,
    source: usize,
    config: AStarConfig<H>,
    old_buffers: SsspBuffers,
    buffers: SsspBuffers,
    r: SsspResult,
)
    requires
        astar_outcome(adj, source, config, old_buffers, buffers, r),
        config.target < adj.len(),
        admissible(adj, config.heuristic, config.target),
        buffers.dist@[config.target as int] < INF,
    ensures
        exists|k: nat| #[trigger] reaches_root(buffers.parent@, config.target, k),
        ({
            let path = root_path(buffers.parent@, config.target, chain_length(buffers.parent@, config.target));
            &&& path.len() >= 1
            &&& path[0] == source
            &&& path.last() == config.target
            &&& forall|t: int| 0 <= t < path.len() - 1 ==> #[trigger] tree_edge(adj, buffers.dist@, path[t] as int, path[t + 1] as int)
        }),
        is_shortest(adj, seq![source], config.target as int, buffers.dist@[config.target as int]),
{
    lemma_tree_path_reconstructed(adj, seq![source], buffers.dist@, buffers.parent@, config.target);
    let path = root_path(buffers.parent@, config.target, chain_length(buffers.parent@, config.target));
    assert(seq![source].contains(path[0]));
}

} // verus!
