//! Dijkstra's single-source shortest paths, for non-negative weights.
use vstd::prelude::*;
use vstd::multiset::Multiset;
use crate::buffers::{SsspBuffers, ancestor, lemma_ancestor_step, parent_tree, reaches_root, tree_edge};
use crate::mst::count_true;
use crate::common::{SsspAlgorithm, SsspResult, Event, SsspAlgorithmInfo, count_finite, finite_total, init_sssp, finalize_sssp};
use crate::graph::{Graph, NO_VERTEX, valid_adjacency, nonnegative_weights};
use crate::heap::{BinaryHeap, entry_le};
use crate::relaxation::{RelaxResult, relax_improves};
use crate::walks::{INF, achieved, all_achieved, edge_relaxed, is_shortest, is_walk, lemma_relaxed_is_lower_bound_nonneg, lemma_walk_push, lower_bound, reaches, sources_valid, vertex_relaxed, walk_end, walk_len};

verus! {

broadcast use vstd::multiset::group_multiset_axioms, vstd::seq_lib::group_to_multiset_ensures;

/// Dijkstra config. `targets` enable multi-target early-stop;
#[derive(Clone, Debug)]
pub struct DijkstraConfig {
    pub targets: Vec<usize>,
    pub lazy_deletion: bool,
}

impl Default for DijkstraConfig {
    fn default() -> (r: Self)
        ensures
            r.targets@.len() == 0,
            r.lazy_deletion,
    {
        DijkstraConfig { targets: Vec::new(), lazy_deletion: true }
    }
}

impl DijkstraConfig {
    pub fn with_target(target: usize) -> (r: Self)
        ensures
            r.targets@ == seq![target],
            r.lazy_deletion,
    {
        Self::with_targets(vec![target])
    }

    pub fn with_targets(targets: Vec<usize>) -> (r: Self)
        ensures
            r.targets@ == targets@,
            r.lazy_deletion,
    {
        DijkstraConfig { targets, lazy_deletion: true }
    }

    pub fn without_lazy_deletion(self) -> (r: Self)
        ensures
            r.targets@ == self.targets@,
            !r.lazy_deletion,
    {
        let mut c = self;
        c.lazy_deletion = false;
        c
    }

    pub fn set_target(&mut self, target: usize)
        ensures
            final(self).targets@ == seq![target],
            final(self).lazy_deletion == old(self).lazy_deletion,
    {
        self.targets.clear();
        self.targets.push(target);
        assert(self.targets@ =~= seq![target]);
    }

    pub fn set_targets(&mut self, targets: Vec<usize>)
        ensures
            final(self).targets@ == targets@,
            final(self).lazy_deletion == old(self).lazy_deletion,
    {
        self.targets = targets;
    }
}

// =============================================================================
// Invariants of a run
// =============================================================================

/// Sum of the entries (the termination measure counts it twice).
pub open spec fn seq_sum(s: Seq<i128>) -> int
    decreases s.len(),
{
    if s.len() == 0 {
        0
    } else {
        seq_sum(s.drop_last()) + s.last()
    }
}

pub proof fn lemma_seq_sum_update(s: Seq<i128>, i: int, x: i128)
    requires
        0 <= i < s.len(),
    ensures
        seq_sum(s.update(i, x)) == seq_sum(s) - s[i] + x,
    decreases s.len(),
{
    let t = s.update(i, x);
    if i < s.len() - 1 {
        assert(t.drop_last() =~= s.drop_last().update(i, x));
        lemma_seq_sum_update(s.drop_last(), i, x);
    } else {
        assert(t.drop_last() =~= s.drop_last());
    }
}

pub proof fn lemma_seq_sum_nonneg(s: Seq<i128>)
    requires
        forall|i: int| 0 <= i < s.len() ==> s[i] >= 0,
    ensures
        seq_sum(s) >= 0,
    decreases s.len(),
{
    if s.len() > 0 {
        lemma_seq_sum_nonneg(s.drop_last());
    }
}

/// Every heap entry names a vertex, holds a finite key no smaller than that
/// vertex's distance, and (for the true weights) is the length of a walk.
spec fn heap_entries_ok(
    adj: Seq<Seq<(usize, i64)>>,
    sources: Seq<usize>,
    dist: Seq<i128>,
    h: Multiset<(i128, usize)>,
    exact: bool,
) -> bool {
    forall|x: (i128, usize)|
        #[trigger] h.contains(x) ==> {
            &&& x.1 < dist.len()
            &&& 0 <= x.0 < INF
            &&& x.0 >= dist[x.1 as int]
            &&& exact ==> achieved(adj, sources, x.1 as int, x.0 as int)
        }
}

/// Finalized vertices have a finite, optimal distance and relaxed out-edges.
spec fn processed_ok(adj: Seq<Seq<(usize, i64)>>, sources: Seq<usize>, dist: Seq<i128>, p: Set<int>) -> bool {
    forall|v: int|
        #[trigger] p.contains(v) ==> {
            &&& 0 <= v < dist.len()
            &&& dist[v] < INF
            &&& lower_bound(adj, sources, v, dist[v] as int)
            &&& vertex_relaxed(adj, dist, v)
        }
}

/// A vertex with a finite distance that is not finalized has exactly one heap
/// entry holding that distance; any other vertex has none.
spec fn pending_ok(dist: Seq<i128>, p: Set<int>, h: Multiset<(i128, usize)>) -> bool {
    forall|v: int|
        0 <= v < dist.len() ==> #[trigger] h.count((dist[v], v as usize)) == (if !p.contains(v) && dist[v]
            < INF {
            1nat
        } else {
            0nat
        })
}

/// A vertex with a finite distance that is not finalized has a heap entry
/// holding that distance.
spec fn pending_some(dist: Seq<i128>, p: Set<int>, h: Multiset<(i128, usize)>) -> bool {
    forall|v: int|
        0 <= v < dist.len() && !p.contains(v) && dist[v] < INF ==> #[trigger] h.count((dist[v], v as usize)) > 0
}

/// The state of the search between two pops.
spec fn search_inv(
    adj: Seq<Seq<(usize, i64)>>,
    src: Seq<usize>,
    dist: Seq<i128>,
    h: Multiset<(i128, usize)>,
    p: Set<int>,
    exact: bool,
    nodup: bool,
) -> bool {
    &&& dist.len() == adj.len()
    &&& adj.len() <= usize::MAX
    &&& valid_adjacency(adj)
    &&& sources_valid(src, adj.len() as int)
    &&& exact ==> nonnegative_weights(adj)
    &&& forall|v: int| 0 <= v < dist.len() ==> #[trigger] dist[v] >= 0
    &&& forall|i: int| 0 <= i < src.len() ==> dist[#[trigger] src[i] as int] == 0
    &&& heap_entries_ok(adj, src, dist, h, exact)
    &&& forall|v: int| #[trigger] p.contains(v) ==> 0 <= v < dist.len() && dist[v] < INF
    &&& exact ==> processed_ok(adj, src, dist, p)
    &&& exact ==> all_achieved(adj, src, dist)
    &&& pending_some(dist, p, h)
    &&& nodup ==> pending_ok(dist, p, h)
}

/// No finalized vertex is farther than any key left in the heap.
spec fn settled_below(dist: Seq<i128>, p: Set<int>, h: Multiset<(i128, usize)>) -> bool {
    forall|v: int, x: (i128, usize)| #[trigger] p.contains(v) && #[trigger] h.contains(x) ==> dist[v] <= x.0
}

/// `search_inv` with the out-edges of finalized vertices left out.
spec fn search_inv_except(
    adj: Seq<Seq<(usize, i64)>>,
    src: Seq<usize>,
    dist: Seq<i128>,
    h: Multiset<(i128, usize)>,
    p: Set<int>,
    exact: bool,
    nodup: bool,
) -> bool {
    &&& dist.len() == adj.len()
    &&& adj.len() <= usize::MAX
    &&& valid_adjacency(adj)
    &&& sources_valid(src, adj.len() as int)
    &&& exact ==> nonnegative_weights(adj)
    &&& forall|v: int| 0 <= v < dist.len() ==> #[trigger] dist[v] >= 0
    &&& forall|i: int| 0 <= i < src.len() ==> dist[#[trigger] src[i] as int] == 0
    &&& heap_entries_ok(adj, src, dist, h, exact)
    &&& forall|v: int| #[trigger] p.contains(v) ==> 0 <= v < dist.len() && dist[v] < INF
    &&& exact ==> all_achieved(adj, src, dist)
    &&& pending_some(dist, p, h)
    &&& nodup ==> pending_ok(dist, p, h)
}

/// One improvement of `v` to `nd`, followed by the push of `(nd, v)`, keeps
/// the search state.
proof fn lemma_improved_step(
    adj: Seq<Seq<(usize, i64)>>,
    src: Seq<usize>,
    dist1: Seq<i128>,
    dist2: Seq<i128>,
    h1: Multiset<(i128, usize)>,
    h2: Multiset<(i128, usize)>,
    p: Set<int>,
    exact: bool,
    nodup: bool,
    v: int,
    nd: i128,
)
    requires
        search_inv_except(adj, src, dist1, h1, p, exact, nodup),
        0 <= v < dist1.len(),
        0 <= nd < dist1[v],
        dist2 == dist1.update(v, nd),
        h2 == h1.insert((nd, v as usize)),
        h1.count((nd, v as usize)) == 0,
        !src.contains(v as usize),
        !p.contains(v),
        exact ==> achieved(adj, src, v, nd as int),
    ensures
        search_inv_except(adj, src, dist2, h2, p, exact, nodup),
{
    assert forall|i: int| 0 <= i < src.len() implies dist2[#[trigger] src[i] as int] == 0 by {
        if src[i] as int == v {
            assert(src.contains(src[i]));
        }
    }
    assert forall|x: (i128, usize)| #[trigger] h2.contains(x) implies {
        &&& x.1 < dist2.len()
        &&& 0 <= x.0 < INF
        &&& x.0 >= dist2[x.1 as int]
        &&& exact ==> achieved(adj, src, x.1 as int, x.0 as int)
    } by {
        if x != (nd, v as usize) {
            assert(h1.contains(x));
        }
    }
    assert forall|x: int| #[trigger] p.contains(x) implies 0 <= x < dist2.len() && dist2[x] < INF by {
    }
    if exact {
        assert forall|x: int| 0 <= x < dist2.len() && #[trigger] dist2[x] != INF implies achieved(adj, src, x, dist2[x] as int) by {
            if x != v {
                assert(dist1[x] != INF);
            }
        }
    }
    assert forall|x: int| 0 <= x < dist2.len() && !p.contains(x) && dist2[x] < INF implies #[trigger] h2.count((dist2[x], x as usize)) > 0 by {
        if x != v {
            assert(h1.count((dist1[x], x as usize)) > 0);
        }
    }
    if nodup {
        assert forall|x: int| 0 <= x < dist2.len() implies #[trigger] h2.count((dist2[x], x as usize)) == (if !p.contains(x) && dist2[x] < INF { 1nat } else { 0nat }) by {
            if x != v {
                assert(h1.count((dist1[x], x as usize)) == (if !p.contains(x) && dist1[x] < INF { 1nat } else { 0nat }));
            }
        }
    }
}

proof fn lemma_count_true_clear(s: Seq<bool>, i: int)
    requires
        0 <= i < s.len(),
        s[i],
    ensures
        count_true(s.update(i, false)) + 1 == count_true(s),
    decreases s.len(),
{
    let t = s.update(i, false);
    if i == s.len() - 1 {
        assert(t.drop_last() =~= s.drop_last());
    } else {
        assert(t.drop_last() =~= s.drop_last().update(i, false));
        lemma_count_true_clear(s.drop_last(), i);
    }
}

proof fn lemma_count_true_pos(s: Seq<bool>, i: int)
    requires
        0 <= i < s.len(),
        s[i],
    ensures
        count_true(s) > 0,
    decreases s.len(),
{
    if i < s.len() - 1 {
        lemma_count_true_pos(s.drop_last(), i);
    }
}

proof fn lemma_count_true_witness(s: Seq<bool>) -> (i: int)
    requires
        count_true(s) > 0,
    ensures
        0 <= i < s.len(),
        s[i],
    decreases s.len(),
{
    if s.last() {
        s.len() - 1
    } else {
        lemma_count_true_witness(s.drop_last())
    }
}

/// The number of `true` entries of `lut`.
fn count_marked(lut: &Vec<bool>) -> (r: usize)
    ensures
        r == count_true(lut@),
{
    let mut c: usize = 0;
    let mut i: usize = 0;
    while i < lut.len()
        invariant
            i <= lut@.len(),
            c <= i,
            c == count_true(lut@.take(i as int)),
        decreases lut@.len() - i,
    {
        assert(lut@.take(i + 1).drop_last() =~= lut@.take(i as int));
        if lut[i] {
            c += 1;
        }
        i += 1;
    }
    assert(lut@.take(i as int) =~= lut@);
    c
}

/// A set of reached vertices is no larger than the number of reached vertices.
proof fn lemma_reached_set_count(d: Seq<i128>, p: Set<int>)
    requires
        p.finite(),
        forall|v: int| #[trigger] p.contains(v) ==> 0 <= v < d.len() && d[v] < INF,
    ensures
        p.len() <= count_finite(d),
    decreases d.len(),
{
    if d.len() == 0 {
        assert(p =~= Set::empty());
    } else {
        let l = d.len() - 1;
        let q = p.remove(l);
        assert forall|v: int| #[trigger] q.contains(v) implies 0 <= v < d.drop_last().len() && d.drop_last()[v] < INF by {
            assert(p.contains(v));
        }
        lemma_reached_set_count(d.drop_last(), q);
        if !p.contains(l) {
            assert(q =~= p);
        }
    }
}

/// The cut argument: a walk from a source either stays inside the finalized
/// set, or it passes a pending vertex, whose heap key bounds the smallest
/// key `d` from above.
proof fn lemma_cut(
    adj: Seq<Seq<(usize, i64)>>,
    sources: Seq<usize>,
    dist: Seq<i128>,
    p: Set<int>,
    h: Multiset<(i128, usize)>,
    d: i128,
    s: usize,
    es: Seq<(int, int)>,
)
    requires
        valid_adjacency(adj),
        nonnegative_weights(adj),
        dist.len() == adj.len(),
        sources.contains(s),
        sources_valid(sources, adj.len() as int),
        forall|i: int| 0 <= i < sources.len() ==> dist[#[trigger] sources[i] as int] == 0,
        forall|v: int| #[trigger] p.contains(v) ==> 0 <= v < dist.len() && dist[v] < INF && lower_bound(adj, sources, v, dist[v] as int) && vertex_relaxed(adj, dist, v),
        pending_some(dist, p, h),
        forall|x: (i128, usize)| #[trigger] h.contains(x) ==> d <= x.0,
        d < INF,
        is_walk(adj, s as int, es),
    ensures
        0 <= walk_end(adj, s as int, es) < adj.len(),
        p.contains(walk_end(adj, s as int, es)) || d <= walk_len(adj, es),
    decreases es.len(),
{
    let k = choose|k: int| 0 <= k < sources.len() && sources[k] == s;
    assert(dist[sources[k] as int] == 0);
    if es.len() == 0 {
        if !p.contains(s as int) {
            assert(h.count((dist[s as int], (s as int) as usize)) > 0);
            assert(h.contains((dist[s as int], s)));
        }
    } else {
        let q = es.drop_last();
        let e = es.last();
        lemma_cut(adj, sources, dist, p, h, d, s, q);
        let x = walk_end(adj, s as int, q);
        let y = walk_end(adj, s as int, es);
        assert(adj[x][e.1].1 >= 0);
        assert(adj[x][e.1].0 < adj.len());
        if !(d <= walk_len(adj, q)) {
            assert(p.contains(x));
            assert(reaches(adj, s as int, q, x));
            assert(dist[x] <= walk_len(adj, q));
            assert(vertex_relaxed(adj, dist, x));
            assert(edge_relaxed(adj, dist, x, e.1));
            if !p.contains(y) && dist[y] < INF {
                assert(h.count((dist[y], y as usize)) > 0);
                assert(h.contains((dist[y], y as usize)));
            }
        }
    }
}

/// Relaxing an edge out of a vertex reached by a walk of length `d` cannot
/// improve a vertex whose distance is a lower bound.
proof fn lemma_bound_survives(
    adj: Seq<Seq<(usize, i64)>>,
    sources: Seq<usize>,
    u: int,
    i: int,
    d: int,
    dv: int,
)
    requires
        0 <= u < adj.len(),
        0 <= i < adj[u].len(),
        achieved(adj, sources, u, d),
        lower_bound(adj, sources, adj[u][i].0 as int, dv),
    ensures
        dv <= d + adj[u][i].1,
{
    let (s, es) = choose|s: usize, es: Seq<(int, int)>|
        #[trigger] sources.contains(s) && #[trigger] reaches(adj, s as int, es, u) && walk_len(adj, es) == d;
    lemma_walk_push(adj, s as int, es, (u, i));
    assert(reaches(adj, s as int, es.push((u, i)), adj[u][i].0 as int));
}

/// Extending a walk of length `d` to `u` by the edge `(u, i)`.
proof fn lemma_achieved_push(adj: Seq<Seq<(usize, i64)>>, sources: Seq<usize>, u: int, i: int, d: int)
    requires
        0 <= u < adj.len(),
        0 <= i < adj[u].len(),
        achieved(adj, sources, u, d),
    ensures
        achieved(adj, sources, adj[u][i].0 as int, d + adj[u][i].1),
{
    let (s, es) = choose|s: usize, es: Seq<(int, int)>|
        #[trigger] sources.contains(s) && #[trigger] reaches(adj, s as int, es, u) && walk_len(adj, es) == d;
    lemma_walk_push(adj, s as int, es, (u, i));
    assert(reaches(adj, s as int, es.push((u, i)), adj[u][i].0 as int));
}

/// `a` and `b` have the same edges (targets), possibly with other weights.
pub open spec fn same_edges(a: Seq<Seq<(usize, i64)>>, b: Seq<Seq<(usize, i64)>>) -> bool {
    &&& a.len() == b.len()
    &&& forall|u: int| 0 <= u < a.len() ==> #[trigger] a[u].len() == b[u].len()
    &&& forall|u: int, i: int| 0 <= u < a.len() && 0 <= i < a[u].len() ==> #[trigger] a[u][i].0 == b[u][i].0
}

/// Every weight that `weight_fn` can return for the stored weight and payload
/// of the `i`-th out-edge of `u` is `wadj[u][i].1`.
pub open spec fn weights_agree<G: Graph, W: Fn(i64, &G::Meta) -> i64>(
    graph: &G,
    weight_fn: W,
    wadj: Seq<Seq<(usize, i64)>>,
) -> bool {
    forall|u: int, i: int, x: i64|
        0 <= u < graph.adjacency().len() && 0 <= i < graph.adjacency()[u].len() && #[trigger] call_ensures(
            weight_fn,
            (graph.adjacency()[u][i].1, &graph.meta_at(u, i)),
            x,
        ) ==> x == wadj[u][i].1
}

/// Every weight that `weight_fn` can return for an edge of the graph, from its
/// stored weight and payload, is non-negative.
pub open spec fn edge_weights_nonneg<G: Graph, W: Fn(i64, &G::Meta) -> i64>(graph: &G, weight_fn: W) -> bool {
    forall|u: int, i: int, x: i64|
        0 <= u < graph.adjacency().len() && 0 <= i < graph.adjacency()[u].len() && #[trigger] call_ensures(
            weight_fn,
            (graph.adjacency()[u][i].1, &graph.meta_at(u, i)),
            x,
        ) ==> x >= 0
}

/// `weight_fn` returns at most one weight for each stored weight and payload.
pub open spec fn deterministic<M, W: Fn(i64, &M) -> i64>(weight_fn: W) -> bool {
    forall|w: i64, m: &M, x: i64, y: i64|
        #[trigger] call_ensures(weight_fn, (w, m), x) && #[trigger] call_ensures(weight_fn, (w, m), y) ==> x == y
}

/// A weight that `weight_fn` returns for the `i`-th out-edge of `u` (zero if
/// it returns none).
pub open spec fn weight_given<G: Graph, W: Fn(i64, &G::Meta) -> i64>(graph: &G, weight_fn: W, u: int, i: int) -> i64 {
    let w = graph.adjacency()[u][i].1;
    let m = graph.meta_at(u, i);
    if exists|x: i64| call_ensures(weight_fn, (w, &m), x) {
        choose|x: i64| call_ensures(weight_fn, (w, &m), x)
    } else {
        0
    }
}

/// The graph's edges with the weights that `weight_fn` gives them.
pub open spec fn weighted_adjacency<G: Graph, W: Fn(i64, &G::Meta) -> i64>(graph: &G, weight_fn: W) -> Seq<Seq<(usize, i64)>> {
    Seq::new(
        graph.adjacency().len(),
        |u: int| Seq::new(graph.adjacency()[u].len(), |i: int| (graph.adjacency()[u][i].0, weight_given(graph, weight_fn, u, i))),
    )
}

/// Graphs with the same edges are valid together.
proof fn lemma_same_edges_valid(a: Seq<Seq<(usize, i64)>>, b: Seq<Seq<(usize, i64)>>)
    requires
        same_edges(a, b),
        valid_adjacency(b),
    ensures
        valid_adjacency(a),
{
    assert forall|u: int, i: int| 0 <= u < a.len() && 0 <= i < a[u].len() implies a[u][i].0 < a.len() by {
        assert(a[u][i].0 == b[u][i].0);
        assert(b[u].len() == a[u].len());
    }
}

// =============================================================================
// The algorithm
// =============================================================================

/// Dijkstra SSSP. +ve weights.
#[derive(Debug)]
pub struct Dijkstra {
    config: DijkstraConfig,
    heap: BinaryHeap,
}

impl Dijkstra {
    /// The configuration in force.
    pub closed spec fn settings(&self) -> DijkstraConfig {
        self.config
    }

    pub fn new() -> (r: Self)
        ensures
            r.settings().targets@.len() == 0,
            r.settings().lazy_deletion,
    {
        Dijkstra { config: DijkstraConfig::default(), heap: BinaryHeap::new() }
    }

    pub fn with_config(config: DijkstraConfig) -> (r: Self)
        ensures
            r.settings() == config,
    {
        Dijkstra { config, heap: BinaryHeap::new() }
    }

    pub fn with_capacity(capacity: usize) -> (r: Self)
        ensures
            r.settings().targets@.len() == 0,
            r.settings().lazy_deletion,
    {
        Dijkstra { config: DijkstraConfig::default(), heap: BinaryHeap::with_capacity(capacity) }
    }

    pub fn config(&self) -> (r: &DijkstraConfig)
        ensures
            *r == self.settings(),
    {
        &self.config
    }

    pub fn config_mut(&mut self) -> (r: &mut DijkstraConfig)
        ensures
            *r == old(self).settings(),
            final(self).settings() == *final(r),
    {
        &mut self.config
    }
}

impl Default for Dijkstra {
    fn default() -> (r: Self)
        ensures
            r.settings().targets@.len() == 0,
            r.settings().lazy_deletion,
    {
        Self::new()
    }
}

impl SsspAlgorithmInfo for Dijkstra {
    fn name(&self) -> (r: &'static str)
        ensures
            r@ == "Dijkstra"@,
    {
        "Dijkstra"
    }

    fn supports_negative_weights(&self) -> (r: bool)
        ensures
            !r,
    {
        false
    }
}

/// What a run with the graph's own weights establishes.
pub open spec fn dijkstra_outcome(
    adj: Seq<Seq<(usize, i64)>>,
    sources: Seq<usize>,
    config: DijkstraConfig,
    dist: Seq<i128>,
) -> bool {
    // Every finite distance is the length of some walk from a source.
    &&& all_achieved(adj, sources, dist)
    // Without targets the search runs to the end: every distance is the shortest one.
    &&& config.targets@.len() == 0 ==> forall|v: int| 0 <= v < dist.len() ==> is_shortest(adj, sources, v, #[trigger] dist[v])
    // Every target's distance is the shortest one.
    &&& forall|j: int|
        0 <= j < config.targets@.len() ==> is_shortest(adj, sources, config.targets@[j] as int, #[trigger] dist[config.targets@[j] as int])
}

/// An unreached vertex has no parent, and neither has a source.
pub open spec fn parents_clean(sources: Seq<usize>, dist: Seq<i128>, parent: Seq<usize>) -> bool {
    &&& forall|v: int| 0 <= v < dist.len() && #[trigger] dist[v] == INF ==> parent[v] == NO_VERTEX
    &&& forall|i: int| 0 <= i < sources.len() ==> parent[#[trigger] sources[i] as int] == NO_VERTEX
}

/// The search stopped when target `t` was finalized: no target is farther
/// than `t`, the out-edges of `t` were never scanned (no vertex has `t` as its
/// parent), and every parent is a vertex no farther than `t`.
pub open spec fn stopped_at(targets: Seq<usize>, dist: Seq<i128>, parent: Seq<usize>, t: usize) -> bool {
    &&& forall|k: int| 0 <= k < targets.len() ==> dist[#[trigger] targets[k] as int] <= dist[t as int]
    &&& forall|v: int|
        0 <= v < parent.len() && #[trigger] parent[v] != NO_VERTEX ==> {
            &&& parent[v] != t
            &&& parent[v] < dist.len()
            &&& dist[parent[v] as int] <= dist[t as int]
        }
}

/// How a run with targets ends, and how much it scans. With a target left
/// unreached the queue runs dry and every distance is the shortest one; with
/// every target reached the search stops at the last target finalized,
/// without scanning its out-edges. With lazy deletion and distinct sources
/// each vertex is scanned at most once.
pub open spec fn dijkstra_stop(
    adj: Seq<Seq<(usize, i64)>>,
    sources: Seq<usize>,
    config: DijkstraConfig,
    dist: Seq<i128>,
    parent: Seq<usize>,
    r: SsspResult,
) -> bool {
    let ts = config.targets@;
    &&& (exists|j: int| 0 <= j < ts.len() && dist[#[trigger] ts[j] as int] == INF) ==> forall|v: int|
        0 <= v < dist.len() ==> is_shortest(adj, sources, v, #[trigger] dist[v])
    &&& (ts.len() > 0 && forall|j: int| 0 <= j < ts.len() ==> dist[#[trigger] ts[j] as int] < INF) ==> exists|j: int|
        0 <= j < ts.len() && stopped_at(ts, dist, parent, #[trigger] ts[j])
    &&& config.lazy_deletion && sources.no_duplicates() ==> r.iterations <= r.vertices_reached
}

/// What every run establishes, whatever the weights.
pub open spec fn run_basics(old_buffers: SsspBuffers, buffers: SsspBuffers, sources: Seq<usize>, r: SsspResult) -> bool {
    &&& buffers.wf()
    &&& buffers.dist@.len() == old_buffers.dist@.len()
    &&& forall|i: int| 0 <= i < sources.len() ==> buffers.dist@[#[trigger] sources[i] as int] == 0
    &&& forall|v: int| 0 <= v < buffers.dist@.len() ==> #[trigger] buffers.dist@[v] >= 0
    &&& !r.negative_cycle
    &&& r.vertices_reached == count_finite(buffers.dist@)
    &&& r.total_distance == finite_total(buffers.dist@)
    &&& parents_clean(sources, buffers.dist@, buffers.parent@)
}

/// Preconditions shared by the runs.
pub open spec fn run_requires(adj: Seq<Seq<(usize, i64)>>, sources: Seq<usize>, config: DijkstraConfig, buffers: SsspBuffers) -> bool {
    &&& valid_adjacency(adj)
    &&& buffers.wf()
    &&& buffers.dist@.len() == adj.len()
    &&& sources.len() > 0
    &&& sources_valid(sources, adj.len() as int)
    &&& sources_valid(config.targets@, adj.len() as int)
}


/// Pushes `(0, s)` for every source `s`.
fn seed_heap(heap: &mut BinaryHeap, sources: &[usize])
    ensures
        forall|x: (i128, usize)| #[trigger] final(heap)@.count(x) == (if x.0 == 0 {
            sources@.to_multiset().count(x.1)
        } else {
            0
        }),
{
    heap.clear();
    let ghost src = sources@;
    let mut k: usize = 0;
    while k < sources.len()
        invariant
            k <= src.len(),
            src == sources@,
            forall|x: (i128, usize)| #[trigger] heap@.count(x) == (if x.0 == 0 {
                src.take(k as int).to_multiset().count(x.1)
            } else {
                0
            }),
        decreases src.len() - k,
    {
        let s = sources[k];
        heap.push(0, s);
        proof {
            assert(src.take(k + 1) =~= src.take(k as int).push(s));
        }
        k += 1;
    }
    assert(src.take(k as int) =~= src);
}

/// Table of length `n` telling which vertices occur in `targets`.
fn target_table(targets: &[usize], n: usize) -> (r: Vec<bool>)
    requires
        sources_valid(targets@, n as int),
    ensures
        r@.len() == n,
        forall|x: int| 0 <= x < n ==> #[trigger] r@[x] == targets@.contains(x as usize),
{
    let ghost ts = targets@;
    let mut lut = vec![false; n];
    let mut j: usize = 0;
    while j < targets.len()
        invariant
            j <= ts.len(),
            ts == targets@,
            lut@.len() == n,
            sources_valid(ts, n as int),
            forall|x: int| 0 <= x < n ==> #[trigger] lut@[x] == ts.take(j as int).contains(x as usize),
        decreases ts.len() - j,
    {
        let t = targets[j];
        lut.set(t, true);
        proof {
            assert(ts.take(j + 1) =~= ts.take(j as int).push(t));
            assert forall|x: int| 0 <= x < n implies #[trigger] lut@[x] == ts.take(j + 1).contains(x as usize) by {
                if x == t as int {
                    assert(ts.take(j + 1)[j as int] == t);
                } else if ts.take(j + 1).contains(x as usize) {
                    let i = choose|i: int| 0 <= i < j + 1 && #[trigger] ts.take(j + 1)[i] == x as usize;
                    assert(ts.take(j as int)[i] == x as usize);
                }
            }
        }
        j += 1;
    }
    assert(ts.take(j as int) =~= ts);
    lut
}

/// Where `v` stands in the order of finalization: its rank once finalized,
/// and past every rank handed out so far before that.
spec fn rank_top(p: Set<int>, rank: Map<int, nat>, v: int) -> nat {
    if p.contains(v) {
        rank[v]
    } else {
        p.len()
    }
}

/// The parent pointer of a reached vertex `v`: none for a source; else a
/// finalized vertex, finalized before `v`, joined to `v` by a tight edge.
spec fn parent_link(
    adj: Seq<Seq<(usize, i64)>>,
    src: Seq<usize>,
    dist: Seq<i128>,
    parent: Seq<usize>,
    p: Set<int>,
    rank: Map<int, nat>,
    v: int,
) -> bool {
    if parent[v] == NO_VERTEX {
        src.contains(v as usize)
    } else {
        &&& p.contains(parent[v] as int)
        &&& rank[parent[v] as int] < rank_top(p, rank, v)
        &&& tree_edge(adj, dist, parent[v] as int, v)
    }
}

/// The parent pointers during the search, with the finalized vertices ranked
/// in the order in which they were finalized.
spec fn tree_inv(
    adj: Seq<Seq<(usize, i64)>>,
    src: Seq<usize>,
    dist: Seq<i128>,
    parent: Seq<usize>,
    p: Set<int>,
    rank: Map<int, nat>,
) -> bool {
    &&& parent.len() == dist.len()
    &&& dist.len() <= usize::MAX
    &&& p.finite()
    &&& forall|v: int|
        #[trigger] p.contains(v) ==> 0 <= v < dist.len() && dist[v] < INF && rank.dom().contains(v) && rank[v] < p.len()
    &&& forall|v: int| 0 <= v < dist.len() && dist[v] < INF ==> #[trigger] parent_link(adj, src, dist, parent, p, rank, v)
}

/// Right after the initialization only the sources are reached, without parents.
proof fn lemma_tree_initial(adj: Seq<Seq<(usize, i64)>>, src: Seq<usize>, dist: Seq<i128>, parent: Seq<usize>)
    requires
        parent.len() == dist.len(),
        dist.len() <= usize::MAX,
        forall|v: int| 0 <= v < dist.len() ==> #[trigger] dist[v] == (if src.contains(v as usize) { 0 } else { INF }),
        parent == Seq::new(dist.len(), |i: int| NO_VERTEX),
    ensures
        tree_inv(adj, src, dist, parent, Set::empty(), Map::empty()),
{
    assert forall|v: int| 0 <= v < dist.len() && dist[v] < INF implies #[trigger] parent_link(
        adj,
        src,
        dist,
        parent,
        Set::empty(),
        Map::empty(),
        v,
    ) by {
        assert(parent[v] == NO_VERTEX);
    }
}

/// Improving `v` through the edge `(u, i)` out of a finalized `u` keeps the tree.
proof fn lemma_tree_improved(
    adj: Seq<Seq<(usize, i64)>>,
    src: Seq<usize>,
    dist1: Seq<i128>,
    par1: Seq<usize>,
    p: Set<int>,
    rank: Map<int, nat>,
    u: int,
    i: int,
    nd: i128,
)
    requires
        tree_inv(adj, src, dist1, par1, p, rank),
        dist1.len() == adj.len(),
        p.contains(u),
        0 <= i < adj[u].len(),
        0 <= adj[u][i].0 < adj.len(),
        !p.contains(adj[u][i].0 as int),
        nd == dist1[u] + adj[u][i].1,
        nd < dist1[adj[u][i].0 as int],
    ensures
        tree_inv(
            adj,
            src,
            dist1.update(adj[u][i].0 as int, nd),
            par1.update(adj[u][i].0 as int, u as usize),
            p,
            rank,
        ),
{
    let v = adj[u][i].0 as int;
    let dist2 = dist1.update(v, nd);
    let par2 = par1.update(v, u as usize);
    assert forall|x: int| #[trigger] p.contains(x) implies 0 <= x < dist2.len() && dist2[x] < INF && rank.dom().contains(x)
        && rank[x] < p.len() by {
        assert(x != v);
    }
    assert forall|x: int| 0 <= x < dist2.len() && dist2[x] < INF implies #[trigger] parent_link(adj, src, dist2, par2, p, rank, x) by {
        if x == v {
            assert(adj[u][i].0 == x);
            assert(tree_edge(adj, dist2, u, x));
        } else {
            assert(parent_link(adj, src, dist1, par1, p, rank, x));
            if par1[x] != NO_VERTEX {
                let w = par1[x] as int;
                assert(p.contains(w));
                assert(w != v);
                let j = choose|j: int| 0 <= j < adj[w].len() && (#[trigger] adj[w][j]).0 == x && dist1[x] == dist1[w] + adj[w][j].1;
                assert(tree_edge(adj, dist2, w, x));
            }
        }
    }
}

/// Finalizing `u` gives it the next rank.
proof fn lemma_tree_insert(
    adj: Seq<Seq<(usize, i64)>>,
    src: Seq<usize>,
    dist: Seq<i128>,
    parent: Seq<usize>,
    p: Set<int>,
    rank: Map<int, nat>,
    u: int,
)
    requires
        tree_inv(adj, src, dist, parent, p, rank),
        0 <= u < dist.len(),
        dist[u] < INF,
        !p.contains(u),
    ensures
        tree_inv(adj, src, dist, parent, p.insert(u), rank.insert(u, p.len())),
{
    let p2 = p.insert(u);
    let rank2 = rank.insert(u, p.len());
    assert(p2.len() == p.len() + 1);
    assert forall|x: int| #[trigger] p2.contains(x) implies 0 <= x < dist.len() && dist[x] < INF && rank2.dom().contains(x)
        && rank2[x] < p2.len() by {
        if x != u {
            assert(p.contains(x));
        }
    }
    assert forall|x: int| 0 <= x < dist.len() && dist[x] < INF implies #[trigger] parent_link(adj, src, dist, parent, p2, rank2, x) by {
        assert(parent_link(adj, src, dist, parent, p, rank, x));
        if parent[x] != NO_VERTEX {
            assert(p.contains(parent[x] as int));
            assert(parent[x] as int != u);
        }
    }
}

/// Following the parent pointers from a reached vertex ends.
proof fn lemma_tree_chain(
    adj: Seq<Seq<(usize, i64)>>,
    src: Seq<usize>,
    dist: Seq<i128>,
    parent: Seq<usize>,
    p: Set<int>,
    rank: Map<int, nat>,
    v: int,
)
    requires
        tree_inv(adj, src, dist, parent, p, rank),
        0 <= v < dist.len(),
        dist[v] < INF,
    ensures
        exists|k: nat| #[trigger] reaches_root(parent, v as usize, k),
    decreases rank_top(p, rank, v),
{
    assert(parent_link(adj, src, dist, parent, p, rank, v));
    if parent[v] == NO_VERTEX {
        assert(ancestor(parent, v as usize, 1) == parent[ancestor(parent, v as usize, 0) as int]);
        assert(reaches_root(parent, v as usize, 1));
    } else {
        let u = parent[v] as int;
        assert(p.contains(u));
        lemma_tree_chain(adj, src, dist, parent, p, rank, u);
        let k = choose|k: nat| #[trigger] reaches_root(parent, u as usize, k);
        assert forall|j: nat| j < k + 1 implies #[trigger] ancestor(parent, v as usize, j) != NO_VERTEX && ancestor(parent, v as usize, j) < parent.len() by {
            if j > 0 {
                lemma_ancestor_step(parent, v as usize, (j - 1) as nat);
                assert(ancestor(parent, u as usize, (j - 1) as nat) != NO_VERTEX);
            }
        }
        lemma_ancestor_step(parent, v as usize, k);
        assert(reaches_root(parent, v as usize, k + 1));
    }
}

/// The tree kept during the search is a shortest-path tree in the sense of
/// `parent_tree`.
proof fn lemma_tree_final(
    adj: Seq<Seq<(usize, i64)>>,
    src: Seq<usize>,
    dist: Seq<i128>,
    parent: Seq<usize>,
    p: Set<int>,
    rank: Map<int, nat>,
)
    requires
        tree_inv(adj, src, dist, parent, p, rank),
    ensures
        parent_tree(adj, src, dist, parent),
{
    assert forall|v: int| 0 <= v < dist.len() && #[trigger] dist[v] < INF implies {
        &&& exists|k: nat| #[trigger] reaches_root(parent, v as usize, k)
        &&& parent[v] == NO_VERTEX ==> src.contains(v as usize)
        &&& parent[v] != NO_VERTEX ==> tree_edge(adj, dist, parent[v] as int, v)
    } by {
        assert(parent_link(adj, src, dist, parent, p, rank, v));
        lemma_tree_chain(adj, src, dist, parent, p, rank, v);
    }
}

/// Finalized vertices other than `u` are as in `processed_ok`; `u` has a
/// finite, optimal distance but its out-edges may still need relaxing.
spec fn processed_ok_except(adj: Seq<Seq<(usize, i64)>>, sources: Seq<usize>, dist: Seq<i128>, p: Set<int>, u: int) -> bool {
    forall|v: int|
        #[trigger] p.contains(v) ==> {
            &&& 0 <= v < dist.len()
            &&& dist[v] < INF
            &&& lower_bound(adj, sources, v, dist[v] as int)
            &&& v != u ==> vertex_relaxed(adj, dist, v)
        }
}

proof fn lemma_processed_except_mono(
    adj: Seq<Seq<(usize, i64)>>,
    src: Seq<usize>,
    d1: Seq<i128>,
    d2: Seq<i128>,
    p: Set<int>,
    u: int,
)
    requires
        valid_adjacency(adj),
        d1.len() == adj.len(),
        d2.len() == adj.len(),
        processed_ok_except(adj, src, d1, p, u),
        forall|v: int| 0 <= v < d1.len() ==> #[trigger] d2[v] <= d1[v],
        forall|v: int| #[trigger] p.contains(v) ==> d2[v] == d1[v],
    ensures
        processed_ok_except(adj, src, d2, p, u),
{
    assert forall|v: int| #[trigger] p.contains(v) && v != u implies vertex_relaxed(adj, d2, v) by {
        assert(vertex_relaxed(adj, d1, v));
        assert forall|j: int| 0 <= j < adj[v].len() implies #[trigger] edge_relaxed(adj, d2, v, j) by {
            assert(edge_relaxed(adj, d1, v, j));
            assert(adj[v][j].0 < adj.len());
        }
    }
}

/// Relaxes every out-edge of `u` from distance `d_u`, pushing each improved
/// vertex with its new distance.
#[verifier::rlimit(60)]
fn relax_out_edges<G: Graph, W: Fn(i64, &G::Meta) -> i64, F: FnMut(Event)>(
    heap: &mut BinaryHeap,
    graph: &G,
    buffers: &mut SsspBuffers,
    u: usize,
    d_u: i128,
    weight_fn: &W,
    observer: &mut F,
    Ghost(src): Ghost<Seq<usize>>,
    Ghost(p): Ghost<Set<int>>,
    Ghost(exact): Ghost<bool>,
    Ghost(nodup): Ghost<bool>,
    Ghost(fresh): Ghost<bool>,
    Ghost(rank): Ghost<Map<int, nat>>,
    Ghost(wadj): Ghost<Seq<Seq<(usize, i64)>>>,
)
    requires
        old(buffers).wf(),
        u < graph.adjacency().len(),
        0 <= d_u < INF,
        d_u >= old(buffers).dist@[u as int],
        forall|w: i64, m: &G::Meta| call_requires(*weight_fn, (w, m)),
        edge_weights_nonneg(graph, *weight_fn),
        forall|v: int| #[trigger] p.contains(v) ==> old(buffers).dist@[v] <= d_u,
        same_edges(wadj, graph.adjacency()),
        exact ==> weights_agree(graph, *weight_fn, wadj),
        forall|e: Event| call_requires(*old(observer), (e,)),
        search_inv_except(wadj, src, old(buffers).dist@, old(heap)@, p, exact, nodup),
        exact ==> processed_ok_except(wadj, src, old(buffers).dist@, p, u as int),
        exact ==> p.contains(u as int),
        exact ==> achieved(wadj, src, u as int, d_u as int),
        exact ==> (fresh ==> d_u == old(buffers).dist@[u as int]),
        exact ==> (!fresh ==> vertex_relaxed(wadj, old(buffers).dist@, u as int)),
        exact ==> tree_inv(wadj, src, old(buffers).dist@, old(buffers).parent@, p, rank),
    ensures
        final(buffers).wf(),
        search_inv(wadj, src, final(buffers).dist@, final(heap)@, p, exact, nodup),
        exact ==> tree_inv(wadj, src, final(buffers).dist@, final(buffers).parent@, p, rank),
        final(buffers).dist@[u as int] == old(buffers).dist@[u as int],
        final(heap)@.len() + 2 * seq_sum(final(buffers).dist@) <= old(heap)@.len() + 2 * seq_sum(old(buffers).dist@),
        forall|e: Event| call_requires(*final(observer), (e,)),
        forall|v: int| 0 <= v < final(buffers).dist@.len() ==> #[trigger] final(buffers).dist@[v] <= old(buffers).dist@[v],
        forall|v: int|
            0 <= v < final(buffers).dist@.len() && #[trigger] final(buffers).dist@[v] == old(buffers).dist@[v]
                ==> final(buffers).parent@[v] == old(buffers).parent@[v],
        forall|x: (i128, usize)| #[trigger] final(heap)@.contains(x) ==> old(heap)@.contains(x) || x.0 >= d_u,
        forall|v: int| #[trigger] p.contains(v) ==> final(buffers).dist@[v] == old(buffers).dist@[v],
{
    let ghost adj = wadj;
    let ghost dist0 = buffers.dist@;
    let ghost par0 = buffers.parent@;
    let ghost h0 = heap@;
    let ghost n = adj.len();
    let deg = graph.out_degree(u);
    let mut i: usize = 0;
    while i < deg
        invariant
            adj == wadj,
            same_edges(adj, graph.adjacency()),
            n == adj.len(),
            deg == adj[u as int].len(),
            u < n,
            i <= deg,
            0 <= d_u < INF,
            d_u >= buffers.dist@[u as int],
            buffers.wf(),
            buffers.dist@[u as int] == dist0[u as int],
            forall|w: i64, m: &G::Meta| call_requires(*weight_fn, (w, m)),
            edge_weights_nonneg(graph, *weight_fn),
            exact ==> weights_agree(graph, *weight_fn, adj),
            forall|e: Event| call_requires(*observer, (e,)),
            search_inv_except(adj, src, buffers.dist@, heap@, p, exact, nodup),
            forall|v: int| 0 <= v < n ==> #[trigger] buffers.dist@[v] <= dist0[v],
            exact ==> processed_ok_except(adj, src, buffers.dist@, p, u as int),
            forall|v: int| #[trigger] p.contains(v) ==> dist0[v] <= d_u,
            forall|v: int| #[trigger] p.contains(v) ==> buffers.dist@[v] == dist0[v],
            exact ==> p.contains(u as int),
            exact ==> achieved(adj, src, u as int, d_u as int),
            exact ==> (fresh ==> d_u == dist0[u as int]),
            exact ==> (!fresh ==> vertex_relaxed(adj, dist0, u as int)),
            exact ==> forall|j: int| 0 <= j < i ==> #[trigger] edge_relaxed(adj, buffers.dist@, u as int, j),
            exact ==> tree_inv(adj, src, buffers.dist@, buffers.parent@, p, rank),
            heap@.len() + 2 * seq_sum(buffers.dist@) <= h0.len() + 2 * seq_sum(dist0),
            par0.len() == n,
            forall|v: int| 0 <= v < n && #[trigger] buffers.dist@[v] == dist0[v] ==> buffers.parent@[v] == par0[v],
            forall|x: (i128, usize)| #[trigger] heap@.contains(x) ==> h0.contains(x) || x.0 >= d_u,
        decreases deg - i,
    {
        let ghost dist1 = buffers.dist@;
        let ghost par1 = buffers.parent@;
        let ghost h1 = heap@;
        let (v, w0, meta) = graph.out_edge(u, i);
        let w = weight_fn(w0, meta);
        proof {
            assert(adj[u as int][i as int].0 < n);
            if exact {
                assert(adj[u as int][i as int].1 >= 0);
            }
            assert(call_ensures(*weight_fn, (graph.adjacency()[u as int][i as int].1, &graph.meta_at(u as int, i as int)), w));
            assert(w >= 0);
        }
        let res = buffers.relax_edge(u, d_u, v, w);
        match res {
            RelaxResult::Improved => {
                let new_dist = buffers.dist.get(v);
                proof {
                    lemma_seq_sum_update(dist1, v as int, new_dist);
                    if p.contains(v as int) {
                        assert(dist1[v as int] == dist0[v as int]);
                        assert(dist0[v as int] <= d_u);
                    }
                    if exact {
                        assert(w == adj[u as int][i as int].1);
                        lemma_achieved_push(adj, src, u as int, i as int, d_u as int);
                        if p.contains(v as int) {
                            lemma_bound_survives(adj, src, u as int, i as int, d_u as int, dist1[v as int] as int);
                        }
                        if !fresh {
                            assert(edge_relaxed(adj, dist0, u as int, i as int));
                        }
                        lemma_tree_improved(adj, src, dist1, par1, p, rank, u as int, i as int, new_dist);
                    }
                }
                heap.push(new_dist, v);
                proof {
                    if h1.count((new_dist, v)) > 0 {
                        assert(h1.contains((new_dist, v)));
                    }
                    assert(w >= 0);
                    assert forall|x: (i128, usize)| #[trigger] heap@.contains(x) implies h0.contains(x) || x.0 >= d_u by {
                        if x != (new_dist, v) {
                            assert(h1.contains(x));
                        }
                    }
                    assert forall|x: int| 0 <= x < n && #[trigger] buffers.dist@[x] == dist0[x] implies buffers.parent@[x] == par0[x] by {
                        if x != v as int {
                            assert(buffers.dist@[x] == dist1[x]);
                        } else {
                            assert(dist1[x] <= dist0[x]);
                        }
                    }
                    lemma_improved_step(adj, src, dist1, buffers.dist@, h1, heap@, p, exact, nodup, v as int, new_dist);
                }
                observer(Event::Improved { vertex: v, dist: new_dist, parent: u });
            },
            RelaxResult::NoChange => {},
        }
        proof {
            if exact {
                lemma_processed_except_mono(adj, src, dist1, buffers.dist@, p, u as int);
                assert(w == adj[u as int][i as int].1);
                assert forall|j: int| 0 <= j < i + 1 implies #[trigger] edge_relaxed(adj, buffers.dist@, u as int, j) by {
                    if j < i {
                        assert(edge_relaxed(adj, dist1, u as int, j));
                    } else if !fresh {
                        assert(edge_relaxed(adj, dist0, u as int, j));
                    }
                }
            }
        }
        i += 1;
    }
    proof {
        if exact {
            assert(vertex_relaxed(adj, buffers.dist@, u as int));
        }
    }
}

/// What popping the smallest entry `(d, u)` tells about `u`.
proof fn lemma_popped(
    adj: Seq<Seq<(usize, i64)>>,
    src: Seq<usize>,
    dist: Seq<i128>,
    h0: Multiset<(i128, usize)>,
    p: Set<int>,
    exact: bool,
    nodup: bool,
    d: i128,
    u: usize,
)
    requires
        search_inv(adj, src, dist, h0, p, exact, nodup),
        h0.contains((d, u)),
        forall|x: (i128, usize)| #[trigger] h0.contains(x) ==> entry_le((d, u), x),
    ensures
        !(d == dist[u as int] && !p.contains(u as int)) ==> p.contains(u as int),
        exact && (d == dist[u as int] && !p.contains(u as int)) ==> lower_bound(adj, src, u as int, d as int),
        nodup && d == dist[u as int] ==> !p.contains(u as int),
{
    if !p.contains(u as int) {
        if d != dist[u as int] {
            assert(dist[u as int] < INF);
            assert(h0.count((dist[u as int], (u as int) as usize)) > 0);
            assert(h0.contains((dist[u as int], u)));
            assert(entry_le((d, u), (dist[u as int], u)));
        } else if exact {
            assert forall|x: (i128, usize)| #[trigger] h0.contains(x) implies d <= x.0 by {
                assert(entry_le((d, u), x));
            }
            assert forall|s: usize, es: Seq<(int, int)>|
                #[trigger] src.contains(s) && #[trigger] reaches(adj, s as int, es, u as int) implies d <= walk_len(adj, es) by {
                lemma_cut(adj, src, dist, p, h0, d, s, es);
            }
        }
    }
    if nodup && d == dist[u as int] && p.contains(u as int) {
        assert(h0.count((dist[u as int], (u as int) as usize)) == 0);
    }
}

/// The state right after the pop of `(d, u)`, with `u` finalized if the
/// entry was current.
proof fn lemma_after_pop(
    adj: Seq<Seq<(usize, i64)>>,
    src: Seq<usize>,
    dist: Seq<i128>,
    h0: Multiset<(i128, usize)>,
    h1: Multiset<(i128, usize)>,
    p: Set<int>,
    p1: Set<int>,
    exact: bool,
    nodup: bool,
    d: i128,
    u: usize,
    fresh: bool,
)
    requires
        search_inv(adj, src, dist, h0, p, exact, nodup),
        h0.contains((d, u)),
        h1 == h0.remove((d, u)),
        d >= dist[u as int],
        fresh == (d == dist[u as int] && !p.contains(u as int)),
        p1 == (if fresh { p.insert(u as int) } else { p }),
        exact ==> !fresh ==> p.contains(u as int),
        exact && fresh ==> lower_bound(adj, src, u as int, d as int),
    ensures
        search_inv_except(adj, src, dist, h1, p1, exact, nodup),
        exact ==> processed_ok_except(adj, src, dist, p1, u as int),
        exact ==> p1.contains(u as int),
        exact ==> achieved(adj, src, u as int, d as int),
        exact ==> (!fresh ==> vertex_relaxed(adj, dist, u as int)),
        !fresh ==> search_inv(adj, src, dist, h1, p1, exact, nodup),
        forall|v: int| #[trigger] p1.contains(v) ==> exact ==> lower_bound(adj, src, v, dist[v] as int),
{
    assert(h0.count((d, u)) > 0);
    assert forall|x: (i128, usize)| #[trigger] h1.contains(x) implies {
        &&& x.1 < dist.len()
        &&& 0 <= x.0 < INF
        &&& x.0 >= dist[x.1 as int]
        &&& exact ==> achieved(adj, src, x.1 as int, x.0 as int)
    } by {
        assert(h0.contains(x));
    }
    assert(d < INF);
    assert(exact ==> achieved(adj, src, u as int, d as int)) by {
        assert(h0.contains((d, u)));
    }
    assert forall|v: int| 0 <= v < dist.len() && !p1.contains(v) && dist[v] < INF implies #[trigger] h1.count((dist[v], v as usize)) > 0 by {
        assert(h0.count((dist[v], v as usize)) > 0);
        if v == u as int {
            assert(!fresh);
        }
    }
    if nodup {
        if d == dist[u as int] && p.contains(u as int) {
            assert(h0.count((dist[u as int], (u as int) as usize)) == 0);
        }
        assert forall|v: int| 0 <= v < dist.len() implies #[trigger] h1.count((dist[v], v as usize)) == (if !p1.contains(v) && dist[v] < INF { 1nat } else { 0nat }) by {
            assert(h0.count((dist[v], v as usize)) == (if !p.contains(v) && dist[v] < INF { 1nat } else { 0nat }));
            if v == u as int && d == dist[v] {
                assert(fresh);
            }
        }
    }
    if exact {
        assert forall|v: int| #[trigger] p1.contains(v) implies {
            &&& 0 <= v < dist.len()
            &&& dist[v] < INF
            &&& lower_bound(adj, src, v, dist[v] as int)
            &&& v != u as int ==> vertex_relaxed(adj, dist, v)
        } by {
            if v != u as int || !fresh {
                assert(p.contains(v));
            }
        }
        if !fresh {
            assert(p.contains(u as int));
        }
    }
}

/// When the heap is empty, every distance is a lower bound on the walks.
proof fn lemma_exhausted(
    adj: Seq<Seq<(usize, i64)>>,
    src: Seq<usize>,
    dist: Seq<i128>,
    h: Multiset<(i128, usize)>,
    p: Set<int>,
    nodup: bool,
)
    requires
        search_inv(adj, src, dist, h, p, true, nodup),
        h.len() == 0,
    ensures
        forall|v: int| 0 <= v < dist.len() ==> lower_bound(adj, src, v, #[trigger] dist[v] as int),
{
    assert forall|u: int| 0 <= u < adj.len() implies #[trigger] vertex_relaxed(adj, dist, u) by {
        if dist[u] < INF && !p.contains(u) {
            assert(h.count((dist[u], u as usize)) > 0);
        }
        if !p.contains(u) {
            assert forall|i: int| 0 <= i < adj[u].len() implies #[trigger] edge_relaxed(adj, dist, u, i) by {
            }
        }
    }
    assert forall|i: int| 0 <= i < src.len() implies dist[#[trigger] src[i] as int] <= 0 by {
    }
    lemma_relaxed_is_lower_bound_nonneg(adj, src, dist);
}

impl Dijkstra {
    /// The search loop shared by every run. `exact` (ghost) says that
    /// `weight_fn` returns the stored weight unchanged.
    fn run_core<G: Graph, W: Fn(i64, &G::Meta) -> i64, F: FnMut(Event)>(
        &mut self,
        graph: &G,
        sources: &[usize],
        buffers: &mut SsspBuffers,
        weight_fn: W,
        observer: F,
        Ghost(exact): Ghost<bool>,
        Ghost(wadj): Ghost<Seq<Seq<(usize, i64)>>>,
    ) -> (r: SsspResult)
        requires
            run_requires(graph.adjacency(), sources@, old(self).settings(), *old(buffers)),
            forall|w: i64, m: &G::Meta| call_requires(weight_fn, (w, m)),
            edge_weights_nonneg(graph, weight_fn),
            same_edges(wadj, graph.adjacency()),
            exact ==> weights_agree(graph, weight_fn, wadj),
            exact ==> nonnegative_weights(wadj),
            forall|e: Event| call_requires(observer, (e,)),
        ensures
            final(self).settings() == old(self).settings(),
            run_basics(*old(buffers), *final(buffers), sources@, r),
            old(self).settings().lazy_deletion && sources@.no_duplicates() ==> r.iterations <= r.vertices_reached,
            exact ==> dijkstra_outcome(wadj, sources@, old(self).settings(), final(buffers).dist@),
            exact ==> parent_tree(wadj, sources@, final(buffers).dist@, final(buffers).parent@),
            exact ==> dijkstra_stop(wadj, sources@, old(self).settings(), final(buffers).dist@, final(buffers).parent@, r),
    {
        let mut observer = observer;
        let ghost adj = wadj;
        let ghost src = sources@;
        let n = graph.n();
        init_sssp(buffers, sources);
        seed_heap(&mut self.heap, sources);
        // Multi-target early-stop: membership table + counter that breaks once
        // every target is finalised.
        let targets = self.config.targets.as_slice();
        let ghost ts = targets@;
        let lazy = self.config.lazy_deletion;
        let mut is_target: Vec<bool> = if targets.len() == 0 {
            Vec::new()
        } else {
            target_table(targets, n)
        };
        // One count per distinct target; a target is struck off when finalized.
        let mut remaining = count_marked(&is_target);
        let ghost mut p: Set<int> = Set::empty();
        let ghost mut rank: Map<int, nat> = Map::empty();
        let ghost nodup = src.no_duplicates();
        let ghost mut exhausted = false;
        let ghost mut last: usize = 0;
        proof {
            lemma_same_edges_valid(adj, graph.adjacency());
            lemma_initial_state(adj, src, buffers.dist@, self.heap@, exact, nodup);
            lemma_tree_initial(adj, src, buffers.dist@, buffers.parent@);
            if ts.len() > 0 {
                assert(ts[0] < n);
                assert(ts.contains(ts[0]));
                lemma_count_true_pos(is_target@, ts[0] as int);
            }
            assert forall|i: int| 0 <= i < src.len() implies buffers.parent@[#[trigger] src[i] as int] == NO_VERTEX by {
                assert(src[i] < n);
            }
        }
        let mut iterations: usize = 0;
        loop
            invariant_except_break
                n == adj.len(),
                adj == wadj,
                same_edges(adj, graph.adjacency()),
                src == sources@,
                ts == self.settings().targets@,
                lazy == self.settings().lazy_deletion,
                self.settings() == old(self).settings(),
                sources_valid(ts, n as int),
                nodup == src.no_duplicates(),
                !exhausted,
                buffers.wf(),
                search_inv(adj, src, buffers.dist@, self.heap@, p, exact, nodup),
                exact ==> tree_inv(adj, src, buffers.dist@, buffers.parent@, p, rank),
                forall|w: i64, m: &G::Meta| call_requires(weight_fn, (w, m)),
                edge_weights_nonneg(graph, weight_fn),
                exact ==> weights_agree(graph, weight_fn, adj),
                forall|e: Event| call_requires(observer, (e,)),
                remaining == count_true(is_target@),
                ts.len() > 0 ==> remaining > 0,
                ts.len() > 0 ==> is_target@.len() == n,
                ts.len() == 0 ==> is_target@.len() == 0,
                exact && ts.len() > 0 ==> forall|x: int| 0 <= x < n ==> #[trigger] is_target@[x] == (ts.contains(x as usize) && !p.contains(x)),
                settled_below(buffers.dist@, p, self.heap@),
                p.finite(),
                parents_clean(src, buffers.dist@, buffers.parent@),
                lazy && nodup ==> iterations <= p.len(),
            ensures
                n == adj.len(),
                adj == wadj,
                same_edges(adj, graph.adjacency()),
                src == sources@,
                ts == self.settings().targets@,
                lazy == self.settings().lazy_deletion,
                nodup == src.no_duplicates(),
                self.settings() == old(self).settings(),
                buffers.wf(),
                buffers.dist@.len() == n,
                forall|v: int| 0 <= v < n ==> #[trigger] buffers.dist@[v] >= 0,
                forall|i: int| 0 <= i < src.len() ==> buffers.dist@[#[trigger] src[i] as int] == 0,
                exact ==> all_achieved(adj, src, buffers.dist@),
                forall|v: int| #[trigger] p.contains(v) ==> 0 <= v < n && buffers.dist@[v] < INF,
                forall|v: int| #[trigger] p.contains(v) ==> exact ==> lower_bound(adj, src, v, buffers.dist@[v] as int),
                exhausted && exact ==> forall|v: int| 0 <= v < n ==> lower_bound(adj, src, v, #[trigger] buffers.dist@[v] as int),
                exact ==> tree_inv(adj, src, buffers.dist@, buffers.parent@, p, rank),
                !exhausted ==> remaining == 0 && ts.len() > 0,
                p.finite(),
                parents_clean(src, buffers.dist@, buffers.parent@),
                lazy && nodup ==> iterations <= p.len(),
                !exhausted && exact ==> forall|j: int| 0 <= j < ts.len() ==> p.contains(#[trigger] ts[j] as int),
                !exhausted && exact ==> ts.contains(last) && stopped_at(ts, buffers.dist@, buffers.parent@, last),
                exhausted && exact && ts.len() > 0 ==> exists|x: int|
                    0 <= x < n && ts.contains(x as usize) && #[trigger] buffers.dist@[x] == INF,
            decreases self.heap@.len() + 2 * seq_sum(buffers.dist@),
        {
            let ghost h0 = self.heap@;
            let ghost dist0 = buffers.dist@;
            let ghost par0 = buffers.parent@;
            let ghost rank0 = rank;
            proof {
                lemma_seq_sum_nonneg(dist0);
            }
            let popped = self.heap.pop();
            let entry = match popped {
                None => {
                    proof {
                        exhausted = true;
                        if exact {
                            lemma_exhausted(adj, src, dist0, h0, p, nodup);
                            if ts.len() > 0 {
                                let x = lemma_count_true_witness(is_target@);
                                assert(is_target@[x]);
                                assert(ts.contains(x as usize) && !p.contains(x));
                                if dist0[x] < INF {
                                    assert(h0.count((dist0[x], x as usize)) > 0);
                                    assert(h0.contains((dist0[x], x as usize)));
                                }
                                assert(dist0[x] == INF);
                            }
                        }
                    }
                    break;
                },
                Some(e) => e,
            };
            let u = entry.vertex;
            let d_u = entry.dist;
            let ghost h_after = self.heap@;
            proof {
                assert(h_after.len() + 1 == h0.len());
                assert(h0.contains((d_u, u)));
                lemma_popped(adj, src, dist0, h0, p, exact, nodup, d_u, u);
            }
            if lazy && d_u > buffers.dist.get(u) {
                proof {
                    lemma_after_pop(adj, src, dist0, h0, self.heap@, p, p, exact, nodup, d_u, u, false);
                    assert forall|v: int, x: (i128, usize)| #[trigger] p.contains(v) && #[trigger] h_after.contains(x) implies dist0[v] <= x.0 by {
                        assert(h0.contains(x));
                    }
                }
                continue;
            }
            let ghost fresh = d_u == dist0[u as int] && !p.contains(u as int);
            let ghost p0 = p;
            proof {
                if fresh {
                    if exact {
                        lemma_tree_insert(adj, src, dist0, buffers.parent@, p0, rank, u as int);
                    }
                    rank = rank.insert(u as int, p0.len());
                    p = p.insert(u as int);
                }
                lemma_after_pop(adj, src, dist0, h0, self.heap@, p0, p, exact, nodup, d_u, u, fresh);
                assert forall|v: int| #[trigger] p.contains(v) implies dist0[v] <= d_u by {
                    if v != u as int {
                        assert(p0.contains(v));
                    }
                }
                assert forall|v: int, x: (i128, usize)| #[trigger] p.contains(v) && #[trigger] h_after.contains(x) implies dist0[v] <= x.0 by {
                    assert(h0.contains(x));
                    assert(entry_le((d_u, u), x));
                    if v != u as int {
                        assert(p0.contains(v));
                    }
                }
                if lazy && nodup {
                    assert(fresh);
                }
            }
            let ghost it0 = is_target@;
            let mut last_target = false;
            if remaining > 0 && is_target[u] {
                proof {
                    if exact {
                        assert(!p0.contains(u as int));
                        assert(fresh);
                    }
                    lemma_count_true_clear(is_target@, u as int);
                }
                is_target.set(u, false);
                remaining -= 1;
                last_target = remaining == 0;
            }
            proof {
                if exact && ts.len() > 0 {
                    assert forall|x: int| 0 <= x < n implies #[trigger] is_target@[x] == (ts.contains(x as usize) && !p.contains(x)) by {
                        assert(it0[x] == (ts.contains(x as usize) && !p0.contains(x)));
                        if x == u as int && ts.contains(u) && !p0.contains(u as int) {
                            assert(fresh);
                        }
                    }
                }
            }
            if !last_target {
                iterations = iterations.saturating_add(1);
                relax_out_edges(
                    &mut self.heap,
                    graph,
                    buffers,
                    u,
                    d_u,
                    &weight_fn,
                    &mut observer,
                    Ghost(src),
                    Ghost(p),
                    Ghost(exact),
                    Ghost(nodup),
                    Ghost(fresh),
                    Ghost(rank),
                    Ghost(wadj),
                );
                proof {
                    let d1 = buffers.dist@;
                    assert forall|v: int, x: (i128, usize)| #[trigger] p.contains(v) && #[trigger] self.heap@.contains(x) implies d1[v] <= x.0 by {
                        assert(d1[v] == dist0[v]);
                        assert(dist0[v] <= d_u);
                        if h_after.contains(x) {
                        }
                    }
                    assert forall|v: int| 0 <= v < d1.len() && #[trigger] d1[v] == INF implies buffers.parent@[v] == NO_VERTEX by {
                        assert(d1[v] <= dist0[v]);
                    }
                    assert forall|i: int| 0 <= i < src.len() implies buffers.parent@[#[trigger] src[i] as int] == NO_VERTEX by {
                        assert(d1[src[i] as int] == 0);
                        assert(dist0[src[i] as int] == 0);
                    }
                }
            }
            let parent_u = buffers.parent_of(u);
            observer(Event::Finalized { vertex: u, dist: d_u, parent: parent_u });
            if last_target {
                proof {
                    last = u;
                    if exact {
                        assert(ts.contains(u));
                        assert forall|k: int| 0 <= k < ts.len() implies p.contains(#[trigger] ts[k] as int) by {
                            assert(ts[k] < n);
                            assert(ts.contains(ts[k]));
                            if !p.contains(ts[k] as int) {
                                lemma_count_true_pos(is_target@, ts[k] as int);
                            }
                        }
                        assert forall|k: int| 0 <= k < ts.len() implies dist0[#[trigger] ts[k] as int] <= dist0[u as int] by {
                            assert(p.contains(ts[k] as int));
                        }
                        assert forall|v: int| 0 <= v < par0.len() && #[trigger] par0[v] != NO_VERTEX implies {
                            &&& par0[v] != u
                            &&& par0[v] < dist0.len()
                            &&& dist0[par0[v] as int] <= dist0[u as int]
                        } by {
                            assert(dist0[v] != INF);
                            assert(parent_link(adj, src, dist0, par0, p0, rank0, v));
                            assert(p0.contains(par0[v] as int));
                            assert(p.contains(par0[v] as int));
                        }
                    }
                }
                break;
            }
            proof {
                lemma_seq_sum_nonneg(buffers.dist@);
            }
        }
        proof {
            if exact {
                lemma_tree_final(adj, src, buffers.dist@, buffers.parent@, p, rank);
                let dist = buffers.dist@;
                if ts.len() == 0 {
                    assert forall|v: int| 0 <= v < dist.len() implies is_shortest(adj, src, v, #[trigger] dist[v]) by {
                    }
                }
                assert forall|j: int| 0 <= j < ts.len() implies is_shortest(adj, src, ts[j] as int, #[trigger] dist[ts[j] as int]) by {
                    assert(ts[j] < n);
                    if !exhausted {
                        assert(p.contains(ts[j] as int));
                    }
                }
                if exists|j: int| 0 <= j < ts.len() && dist[#[trigger] ts[j] as int] == INF {
                    let j = choose|j: int| 0 <= j < ts.len() && dist[#[trigger] ts[j] as int] == INF;
                    if !exhausted {
                        assert(p.contains(ts[j] as int));
                    }
                    assert forall|v: int| 0 <= v < dist.len() implies is_shortest(adj, src, v, #[trigger] dist[v]) by {
                    }
                }
                if ts.len() > 0 && forall|j: int| 0 <= j < ts.len() ==> dist[#[trigger] ts[j] as int] < INF {
                    if exhausted {
                        let x = choose|x: int| 0 <= x < n && ts.contains(x as usize) && #[trigger] buffers.dist@[x] == INF;
                        let j = choose|j: int| 0 <= j < ts.len() && ts[j] == x as usize;
                        assert(dist[ts[j] as int] < INF);
                    }
                    let j = choose|j: int| 0 <= j < ts.len() && ts[j] == last;
                    assert(stopped_at(ts, dist, buffers.parent@, ts[j]));
                }
            }
            if lazy && nodup {
                lemma_reached_set_count(buffers.dist@, p);
            }
        }
        finalize_sssp(buffers, iterations, false)
    }
}

/// The state after the sources are seeded.
proof fn lemma_initial_state(
    adj: Seq<Seq<(usize, i64)>>,
    src: Seq<usize>,
    dist: Seq<i128>,
    h: Multiset<(i128, usize)>,
    exact: bool,
    nodup: bool,
)
    requires
        dist.len() == adj.len(),
        adj.len() <= usize::MAX,
        valid_adjacency(adj),
        sources_valid(src, adj.len() as int),
        exact ==> nonnegative_weights(adj),
        nodup == src.no_duplicates(),
        forall|v: int| 0 <= v < dist.len() ==> #[trigger] dist[v] == (if src.contains(v as usize) { 0 } else { INF }),
        forall|x: (i128, usize)| #[trigger] h.count(x) == (if x.0 == 0 { src.to_multiset().count(x.1) } else { 0 }),
    ensures
        search_inv(adj, src, dist, h, Set::empty(), exact, nodup),
{
    if nodup {
        src.lemma_multiset_has_no_duplicates();
    }
    assert forall|x: (i128, usize)| #[trigger] h.contains(x) implies {
        &&& x.1 < dist.len()
        &&& 0 <= x.0 < INF
        &&& x.0 >= dist[x.1 as int]
        &&& exact ==> achieved(adj, src, x.1 as int, x.0 as int)
    } by {
        assert(h.count(x) > 0);
        assert(src.to_multiset().count(x.1) > 0);
        assert(src.contains(x.1));
        let j = choose|j: int| 0 <= j < src.len() && src[j] == x.1;
        assert(src[j] < adj.len());
        assert(reaches(adj, x.1 as int, Seq::<(int, int)>::empty(), x.1 as int));
        assert(src.contains(x.1));
    }
    assert forall|i: int| 0 <= i < src.len() implies dist[#[trigger] src[i] as int] == 0 by {
        assert(src.contains(src[i]));
    }
    assert forall|v: int| 0 <= v < dist.len() implies #[trigger] dist[v] >= 0 by {
    }
    if exact {
        assert forall|v: int| 0 <= v < dist.len() && #[trigger] dist[v] != INF implies achieved(adj, src, v, dist[v] as int) by {
            assert(src.contains(v as usize));
            assert(reaches(adj, v, Seq::<(int, int)>::empty(), v));
        }
    }
    assert forall|v: int| 0 <= v < dist.len() && !Set::<int>::empty().contains(v) && dist[v] < INF implies #[trigger] h.count((dist[v], v as usize)) > 0 by {
        assert(src.contains(v as usize));
        assert(src.to_multiset().count(v as usize) > 0);
    }
    if nodup {
        assert forall|v: int| 0 <= v < dist.len() implies #[trigger] h.count((dist[v], v as usize)) == (if !Set::<int>::empty().contains(v) && dist[v] < INF { 1nat } else { 0nat }) by {
            if src.contains(v as usize) {
                assert(src.to_multiset().count(v as usize) > 0);
                assert(src.to_multiset().contains(v as usize));
            } else {
                assert(src.to_multiset().count(v as usize) == 0);
            }
        }
    }
}

impl Dijkstra {
    /// Multi-source primitive. `weight_fn` maps (stored weight, meta) -> weight
    /// used for relaxation: identity for plain Dijkstra, congestion inflation
    /// for capacity-aware routing.
    pub fn run_from_weighted_observed<G: Graph, W: Fn(i64, &G::Meta) -> i64, F: FnMut(Event)>(
        &mut self,
        graph: &G,
        sources: &[usize],
        buffers: &mut SsspBuffers,
        weight_fn: W,
        observer: F,
    ) -> (r: SsspResult)
        requires
            run_requires(graph.adjacency(), sources@, old(self).settings(), *old(buffers)),
            forall|w: i64, m: &G::Meta| call_requires(weight_fn, (w, m)),
            edge_weights_nonneg(graph, weight_fn),
            forall|e: Event| call_requires(observer, (e,)),
        ensures
            final(self).settings() == old(self).settings(),
            run_basics(*old(buffers), *final(buffers), sources@, r),
            old(self).settings().lazy_deletion && sources@.no_duplicates() ==> r.iterations <= r.vertices_reached,
            deterministic::<G::Meta, W>(weight_fn) ==> dijkstra_outcome(
                weighted_adjacency(graph, weight_fn),
                sources@,
                old(self).settings(),
                final(buffers).dist@,
            ),
            deterministic::<G::Meta, W>(weight_fn) ==> parent_tree(
                weighted_adjacency(graph, weight_fn),
                sources@,
                final(buffers).dist@,
                final(buffers).parent@,
            ),
            deterministic::<G::Meta, W>(weight_fn) ==> dijkstra_stop(
                weighted_adjacency(graph, weight_fn),
                sources@,
                old(self).settings(),
                final(buffers).dist@,
                final(buffers).parent@,
                r,
            ),
    {
        let ghost wadj = weighted_adjacency(graph, weight_fn);
        let ghost det = deterministic::<G::Meta, W>(weight_fn);
        proof {
            let adj = graph.adjacency();
            assert forall|u: int, i: int| 0 <= u < wadj.len() && 0 <= i < wadj[u].len() implies (#[trigger] wadj[u][i]).1 >= 0 by {
                let w = adj[u][i].1;
                let m = graph.meta_at(u, i);
                if exists|x: i64| call_ensures(weight_fn, (w, &m), x) {
                    let x = choose|x: i64| call_ensures(weight_fn, (w, &m), x);
                    assert(call_ensures(weight_fn, (w, &m), x));
                }
            }
            if det {
                assert forall|u: int, i: int, x: i64|
                    0 <= u < adj.len() && 0 <= i < adj[u].len() && #[trigger] call_ensures(
                        weight_fn,
                        (adj[u][i].1, &graph.meta_at(u, i)),
                        x,
                    ) implies x == wadj[u][i].1 by {
                    let w = adj[u][i].1;
                    let m = graph.meta_at(u, i);
                    assert(call_ensures(weight_fn, (w, &m), x));
                    let y = choose|y: i64| call_ensures(weight_fn, (w, &m), y);
                    assert(call_ensures(weight_fn, (w, &m), y));
                    assert(wadj[u][i].1 == y);
                }
            }
        }
        self.run_core(graph, sources, buffers, weight_fn, observer, Ghost(det), Ghost(wadj))
    }

    /// Multi-source with observer.
    pub fn run_from_observed<G: Graph, F: FnMut(Event)>(
        &mut self,
        graph: &G,
        sources: &[usize],
        buffers: &mut SsspBuffers,
        observer: F,
    ) -> (r: SsspResult)
        requires
            run_requires(graph.adjacency(), sources@, old(self).settings(), *old(buffers)),
            nonnegative_weights(graph.adjacency()),
            forall|e: Event| call_requires(observer, (e,)),
        ensures
            final(self).settings() == old(self).settings(),
            run_basics(*old(buffers), *final(buffers), sources@, r),
            dijkstra_outcome(graph.adjacency(), sources@, old(self).settings(), final(buffers).dist@),
            parent_tree(graph.adjacency(), sources@, final(buffers).dist@, final(buffers).parent@),
            dijkstra_stop(graph.adjacency(), sources@, old(self).settings(), final(buffers).dist@, final(buffers).parent@, r),
    {
        let same = |w: i64, m: &G::Meta| -> (x: i64)
            ensures
                x == w,
            { w };
        self.run_core(graph, sources, buffers, same, observer, Ghost(true), Ghost(graph.adjacency()))
    }

    /// Multi-source with per-edge weight transform (meta-aware weighting).
    pub fn run_from_weighted<G: Graph, W: Fn(i64, &G::Meta) -> i64>(
        &mut self,
        graph: &G,
        sources: &[usize],
        buffers: &mut SsspBuffers,
        weight_fn: W,
    ) -> (r: SsspResult)
        requires
            run_requires(graph.adjacency(), sources@, old(self).settings(), *old(buffers)),
            forall|w: i64, m: &G::Meta| call_requires(weight_fn, (w, m)),
            edge_weights_nonneg(graph, weight_fn),
        ensures
            final(self).settings() == old(self).settings(),
            run_basics(*old(buffers), *final(buffers), sources@, r),
            old(self).settings().lazy_deletion && sources@.no_duplicates() ==> r.iterations <= r.vertices_reached,
            deterministic::<G::Meta, W>(weight_fn) ==> dijkstra_outcome(
                weighted_adjacency(graph, weight_fn),
                sources@,
                old(self).settings(),
                final(buffers).dist@,
            ),
            deterministic::<G::Meta, W>(weight_fn) ==> parent_tree(
                weighted_adjacency(graph, weight_fn),
                sources@,
                final(buffers).dist@,
                final(buffers).parent@,
            ),
            deterministic::<G::Meta, W>(weight_fn) ==> dijkstra_stop(
                weighted_adjacency(graph, weight_fn),
                sources@,
                old(self).settings(),
                final(buffers).dist@,
                final(buffers).parent@,
                r,
            ),
    {
        let ignore = |e: Event| {};
        self.run_from_weighted_observed(graph, sources, buffers, weight_fn, ignore)
    }

    pub fn run_from<G: Graph>(&mut self, graph: &G, sources: &[usize], buffers: &mut SsspBuffers) -> (r: SsspResult)
        requires
            run_requires(graph.adjacency(), sources@, old(self).settings(), *old(buffers)),
            nonnegative_weights(graph.adjacency()),
        ensures
            final(self).settings() == old(self).settings(),
            run_basics(*old(buffers), *final(buffers), sources@, r),
            dijkstra_outcome(graph.adjacency(), sources@, old(self).settings(), final(buffers).dist@),
            parent_tree(graph.adjacency(), sources@, final(buffers).dist@, final(buffers).parent@),
            dijkstra_stop(graph.adjacency(), sources@, old(self).settings(), final(buffers).dist@, final(buffers).parent@, r),
    {
        let ignore = |e: Event| {};
        self.run_from_observed(graph, sources, buffers, ignore)
    }
}

impl<G: Graph> SsspAlgorithm<G> for Dijkstra {
    /// Weights are non-negative and every target is a vertex.
    open spec fn accepts(&self, adj: Seq<Seq<(usize, i64)>>) -> bool {
        nonnegative_weights(adj) && sources_valid(self.settings().targets@, adj.len() as int)
    }

    fn run_observed<F: FnMut(Event)>(&mut self, graph: &G, source: usize, buffers: &mut SsspBuffers, observer: F) -> (r: SsspResult)
        ensures
            final(self).settings() == old(self).settings(),
            run_basics(*old(buffers), *final(buffers), seq![source], r),
            dijkstra_outcome(graph.adjacency(), seq![source], old(self).settings(), final(buffers).dist@),
            parent_tree(graph.adjacency(), seq![source], final(buffers).dist@, final(buffers).parent@),
            dijkstra_stop(graph.adjacency(), seq![source], old(self).settings(), final(buffers).dist@, final(buffers).parent@, r),
    {
        let sources = vec![source];
        assert(sources@ =~= seq![source]);
        self.run_from_observed(graph, sources.as_slice(), buffers, observer)
    }

    /// Single source.
    fn run(&mut self, graph: &G, source: usize, buffers: &mut SsspBuffers) -> (r: SsspResult)
        ensures
            final(self).settings() == old(self).settings(),
            run_basics(*old(buffers), *final(buffers), seq![source], r),
            dijkstra_outcome(graph.adjacency(), seq![source], old(self).settings(), final(buffers).dist@),
            parent_tree(graph.adjacency(), seq![source], final(buffers).dist@, final(buffers).parent@),
            dijkstra_stop(graph.adjacency(), seq![source], old(self).settings(), final(buffers).dist@, final(buffers).parent@, r),
    {
        let sources = vec![source];
        assert(sources@ =~= seq![source]);
        self.run_from(graph, sources.as_slice(), buffers)
    }
}

/// One-shot Dijkstra from one source, run to the end.
pub fn dijkstra<G: Graph>(graph: &G, source: usize, buffers: &mut SsspBuffers) -> (r: SsspResult)
    requires
        valid_adjacency(graph.adjacency()),
        nonnegative_weights(graph.adjacency()),
        old(buffers).wf(),
        old(buffers).dist@.len() == graph.adjacency().len(),
        source < graph.adjacency().len(),
    ensures
        run_basics(*old(buffers), *final(buffers), seq![source], r),
        forall|v: int| 0 <= v < final(buffers).dist@.len() ==> is_shortest(graph.adjacency(), seq![source], v, #[trigger] final(buffers).dist@[v]),
        all_achieved(graph.adjacency(), seq![source], final(buffers).dist@),
        parent_tree(graph.adjacency(), seq![source], final(buffers).dist@, final(buffers).parent@),
        r.iterations <= r.vertices_reached,
{
    let mut d = Dijkstra::new();
    d.run(graph, source, buffers)
}

/// One-shot Dijkstra from many sources; each vertex gets distance to nearest source.
pub fn dijkstra_multi<G: Graph>(graph: &G, sources: &[usize], buffers: &mut SsspBuffers) -> (r: SsspResult)
    requires
        valid_adjacency(graph.adjacency()),
        nonnegative_weights(graph.adjacency()),
        old(buffers).wf(),
        old(buffers).dist@.len() == graph.adjacency().len(),
        sources@.len() > 0,
        sources_valid(sources@, graph.adjacency().len() as int),
    ensures
        run_basics(*old(buffers), *final(buffers), sources@, r),
        forall|v: int| 0 <= v < final(buffers).dist@.len() ==> is_shortest(graph.adjacency(), sources@, v, #[trigger] final(buffers).dist@[v]),
        all_achieved(graph.adjacency(), sources@, final(buffers).dist@),
        parent_tree(graph.adjacency(), sources@, final(buffers).dist@, final(buffers).parent@),
        sources@.no_duplicates() ==> r.iterations <= r.vertices_reached,
{
    let mut d = Dijkstra::new();
    d.run_from(graph, sources, buffers)
}

/// One-shot Dijkstra, no early stop.
pub fn cheeky_dijkstra<G: Graph>(graph: &G, source: usize, buffers: &mut SsspBuffers) -> (r: SsspResult)
    requires
        valid_adjacency(graph.adjacency()),
        nonnegative_weights(graph.adjacency()),
        old(buffers).wf(),
        old(buffers).dist@.len() == graph.adjacency().len(),
        source < graph.adjacency().len(),
    ensures
        run_basics(*old(buffers), *final(buffers), seq![source], r),
        forall|v: int| 0 <= v < final(buffers).dist@.len() ==> is_shortest(graph.adjacency(), seq![source], v, #[trigger] final(buffers).dist@[v]),
        all_achieved(graph.adjacency(), seq![source], final(buffers).dist@),
        parent_tree(graph.adjacency(), seq![source], final(buffers).dist@, final(buffers).parent@),
        r.iterations <= r.vertices_reached,
{
    let mut d = Dijkstra::new();
    d.run(graph, source, buffers)
}

/// One-shot Dijkstra with early-stop at `target`.
pub fn dijkstra_to<G: Graph>(graph: &G, source: usize, target: usize, buffers: &mut SsspBuffers) -> (r: SsspResult)
    requires
        valid_adjacency(graph.adjacency()),
        nonnegative_weights(graph.adjacency()),
        old(buffers).wf(),
        old(buffers).dist@.len() == graph.adjacency().len(),
        source < graph.adjacency().len(),
        target < graph.adjacency().len(),
    ensures
        run_basics(*old(buffers), *final(buffers), seq![source], r),
        is_shortest(graph.adjacency(), seq![source], target as int, final(buffers).dist@[target as int]),
        all_achieved(graph.adjacency(), seq![source], final(buffers).dist@),
        parent_tree(graph.adjacency(), seq![source], final(buffers).dist@, final(buffers).parent@),
        final(buffers).dist@[target as int] == INF ==> forall|v: int|
            0 <= v < final(buffers).dist@.len() ==> is_shortest(graph.adjacency(), seq![source], v, #[trigger] final(buffers).dist@[v]),
        final(buffers).dist@[target as int] < INF ==> stopped_at(seq![target], final(buffers).dist@, final(buffers).parent@, target),
        r.iterations <= r.vertices_reached,
{
    let mut d = Dijkstra::with_config(DijkstraConfig::with_target(target));
    let r = d.run(graph, source, buffers);
    proof {
        assert(seq![source].no_duplicates());
        assert(d.settings().targets@ == seq![target]);
        assert(d.settings().targets@[0] == target);
    }
    r
}

} // verus!
