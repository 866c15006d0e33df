//! Bellman-Ford single-source shortest paths: negative weights allowed,
//! negative cycles detected.
use vstd::prelude::*;
use crate::buffers::{SsspBuffers, ancestor, lemma_ancestor_step, parent_tree, reaches_root, tree_edge};
use crate::graph::NO_VERTEX;
use crate::common::{Event, HasSsspConfig, SsspAlgorithm, SsspAlgorithmInfo, SsspConfig, SsspResult, count_finite, finite_total, finalize_sssp, init_sssp};
use crate::graph::{Graph, valid_adjacency};
use crate::relaxation::add_weight;
use crate::walks::{INF, achieved_within, all_achieved, all_relaxed, edge_relaxed, is_shortest, lemma_relaxed_is_shortest, lemma_walk_len_bound, lemma_walk_push, lower_bound_within, reaches, sources_valid, vertex_relaxed, walk_len, weight_bound};

verus! {

/// Bellman-Ford config. `early_termination` = stop when iter makes no progress.
#[derive(Clone, Debug)]
pub struct BellmanFordConfig {
    base: SsspConfig,
    pub early_termination: bool,
}

impl Default for BellmanFordConfig {
    fn default() -> (r: Self)
        ensures
            r.target_list().len() == 0,
            r.stops_early(),
    {
        BellmanFordConfig { base: SsspConfig::default(), early_termination: true }
    }
}

impl BellmanFordConfig {
    /// Whether a round without improvement ends the search.
    pub closed spec fn stops_early(&self) -> bool {
        self.early_termination
    }

    /// Whether a round without improvement ends the search (the public
    /// field `early_termination`).
    pub fn early_termination_enabled(&self) -> (r: bool)
        ensures
            r == self.stops_early(),
    {
        self.early_termination
    }

    pub fn with_target(target: usize) -> (r: Self)
        ensures
            r.target_list() == seq![target],
            r.stops_early(),
    {
        Self::with_targets(vec![target])
    }

    pub fn with_targets(targets: Vec<usize>) -> (r: Self)
        ensures
            r.target_list() == targets@,
            r.stops_early(),
    {
        BellmanFordConfig { base: SsspConfig::with_targets(targets), early_termination: true }
    }

    pub fn without_early_termination(self) -> (r: Self)
        ensures
            r.target_list() == self.target_list(),
            !r.stops_early(),
    {
        let mut c = self;
        c.early_termination = false;
        c
    }
}

impl HasSsspConfig for BellmanFordConfig {
    closed spec fn target_list(&self) -> Seq<usize> {
        self.base.targets@
    }

    fn sssp_config(&self) -> (r: &SsspConfig) {
        &self.base
    }
}

/// Proposed relaxation: (target, new dist, parent).
#[derive(Clone, Copy, Debug)]
struct Proposal {
    target: usize,
    dist: i128,
    parent: usize,
}

/// Every finite distance has magnitude at most `k` times the largest weight magnitude.
pub open spec fn dist_bounded(dist: Seq<i128>, k: int) -> bool {
    forall|v: int|
        0 <= v < dist.len() && #[trigger] dist[v] != INF ==> -(k * weight_bound()) <= dist[v] <= k * weight_bound()
}

/// `p` is the relaxation of an edge out of a vertex with finite distance
/// that improves its target.
spec fn proposal_ok(adj: Seq<Seq<(usize, i64)>>, dist: Seq<i128>, p: Proposal) -> bool {
    &&& p.parent < adj.len()
    &&& p.target < adj.len()
    &&& dist[p.parent as int] != INF
    &&& exists|i: int|
        0 <= i < adj[p.parent as int].len() && #[trigger] adj[p.parent as int][i].0 == p.target && p.dist == dist[p.parent as int]
            + adj[p.parent as int][i].1
    &&& p.dist < dist[p.target as int]
}

/// Some proposal relaxes edge `(u, i)`.
spec fn edge_proposed(adj: Seq<Seq<(usize, i64)>>, dist: Seq<i128>, ps: Seq<Proposal>, u: int, i: int) -> bool {
    exists|j: int|
        0 <= j < ps.len() && #[trigger] ps[j].target == adj[u][i].0 && ps[j].dist == dist[u] + adj[u][i].1
            && ps[j].parent == u
}

/// The proposals from the first `i` out-edges of `u`, in edge order: those
/// that improve their target from the finite distance of `u`.
spec fn edge_props(adj: Seq<Seq<(usize, i64)>>, dist: Seq<i128>, u: int, i: int) -> Seq<Proposal>
    decreases i,
{
    if i <= 0 {
        Seq::empty()
    } else {
        let prev = edge_props(adj, dist, u, i - 1);
        let e = adj[u][i - 1];
        if dist[u] != INF && dist[u] + e.1 < dist[e.0 as int] {
            prev.push(Proposal { target: e.0, dist: (dist[u] + e.1) as i128, parent: u as usize })
        } else {
            prev
        }
    }
}

/// The proposals of the vertices `0..u`, in vertex order.
spec fn props_upto(adj: Seq<Seq<(usize, i64)>>, dist: Seq<i128>, u: int) -> Seq<Proposal>
    decreases u,
{
    if u <= 0 {
        Seq::empty()
    } else {
        props_upto(adj, dist, u - 1) + edge_props(adj, dist, u - 1, adj[u - 1].len() as int)
    }
}

proof fn lemma_edge_props_unreached(adj: Seq<Seq<(usize, i64)>>, dist: Seq<i128>, u: int, i: int)
    requires
        dist[u] == INF,
    ensures
        edge_props(adj, dist, u, i) == Seq::<Proposal>::empty(),
    decreases i,
{
    if i > 0 {
        lemma_edge_props_unreached(adj, dist, u, i - 1);
    }
}

/// For every vertex with a finite distance, in vertex order, for each
/// out-edge in order: the edges that improve their target, as proposals.
fn collect_proposals<G: Graph>(graph: &G, buffers: &SsspBuffers, Ghost(k): Ghost<int>) -> (r: Vec<Proposal>)
    requires
        valid_adjacency(graph.adjacency()),
        buffers.wf(),
        buffers.dist@.len() == graph.adjacency().len(),
        0 <= k < usize::MAX,
        dist_bounded(buffers.dist@, k),
    ensures
        r@ == props_upto(graph.adjacency(), buffers.dist@, graph.adjacency().len() as int),
        forall|j: int| 0 <= j < r@.len() ==> proposal_ok(graph.adjacency(), buffers.dist@, #[trigger] r@[j]),
        forall|u: int, i: int|
            0 <= u < graph.adjacency().len() && 0 <= i < graph.adjacency()[u].len() && !#[trigger] edge_relaxed(
                graph.adjacency(),
                buffers.dist@,
                u,
                i,
            ) ==> edge_proposed(graph.adjacency(), buffers.dist@, r@, u, i),
{
    let ghost adj = graph.adjacency();
    let ghost dist = buffers.dist@;
    let n = graph.n();
    let mut proposals: Vec<Proposal> = Vec::new();
    let mut u: usize = 0;
    while u < n
        invariant
            adj == graph.adjacency(),
            dist == buffers.dist@,
            n == adj.len(),
            dist.len() == n,
            u <= n,
            valid_adjacency(adj),
            0 <= k < usize::MAX,
            dist_bounded(dist, k),
            forall|j: int| 0 <= j < proposals@.len() ==> proposal_ok(adj, dist, #[trigger] proposals@[j]),
            forall|x: int, i: int|
                0 <= x < u && 0 <= i < adj[x].len() && !#[trigger] edge_relaxed(adj, dist, x, i) ==> edge_proposed(
                    adj,
                    dist,
                    proposals@,
                    x,
                    i,
                ),
            proposals@ == props_upto(adj, dist, u as int),
        decreases n - u,
    {
        let d_u = buffers.dist.get(u);
        let ghost before = proposals@;
        if d_u != INF {
            let deg = graph.out_degree(u);
            let mut i: usize = 0;
            while i < deg
                invariant
                    adj == graph.adjacency(),
                    dist == buffers.dist@,
                    n == adj.len(),
                    dist.len() == n,
                    u < n,
                    d_u == dist[u as int],
                    d_u != INF,
                    deg == adj[u as int].len(),
                    i <= deg,
                    valid_adjacency(adj),
                    0 <= k < usize::MAX,
                    dist_bounded(dist, k),
                    forall|j: int| 0 <= j < proposals@.len() ==> proposal_ok(adj, dist, #[trigger] proposals@[j]),
                    forall|x: int, j: int|
                        0 <= x < u && 0 <= j < adj[x].len() && !#[trigger] edge_relaxed(adj, dist, x, j)
                            ==> edge_proposed(adj, dist, proposals@, x, j),
                    forall|j: int|
                        0 <= j < i && !#[trigger] edge_relaxed(adj, dist, u as int, j) ==> edge_proposed(
                            adj,
                            dist,
                            proposals@,
                            u as int,
                            j,
                        ),
                    before == props_upto(adj, dist, u as int),
                    proposals@ == before + edge_props(adj, dist, u as int, i as int),
                decreases deg - i,
            {
                let (v, w, _meta) = graph.out_edge(u, i);
                proof {
                    assert(adj[u as int][i as int].0 < n);
                    assert(-(k * weight_bound()) <= d_u);
                    assert(k * weight_bound() + weight_bound() == (k + 1) * weight_bound()) by (nonlinear_arith);
                    assert((k + 1) * weight_bound() <= usize::MAX * weight_bound()) by (nonlinear_arith)
                        requires k + 1 <= usize::MAX;
                }
                match add_weight(d_u, w) {
                    Some(new_dist) => {
                        if new_dist < buffers.dist.get(v) {
                            let ghost old_ps = proposals@;
                            proposals.push(Proposal { target: v, dist: new_dist, parent: u });
                            proof {
                                assert(proposals@ =~= before + edge_props(adj, dist, u as int, i + 1));
                                assert forall|j: int| 0 <= j < proposals@.len() implies proposal_ok(adj, dist, #[trigger] proposals@[j]) by {
                                    if j < old_ps.len() {
                                        assert(proposals@[j] == old_ps[j]);
                                    } else {
                                        assert(adj[u as int][i as int].0 == v);
                                    }
                                }
                                assert forall|x: int, j: int|
                                    0 <= x < u && 0 <= j < adj[x].len() && !#[trigger] edge_relaxed(adj, dist, x, j) implies edge_proposed(adj, dist, proposals@, x, j) by {
                                    let t = choose|t: int| 0 <= t < old_ps.len() && #[trigger] old_ps[t].target == adj[x][j].0 && old_ps[t].dist == dist[x] + adj[x][j].1 && old_ps[t].parent == x;
                                    assert(proposals@[t] == old_ps[t]);
                                }
                                assert forall|j: int|
                                    0 <= j < i + 1 && !#[trigger] edge_relaxed(adj, dist, u as int, j) implies edge_proposed(adj, dist, proposals@, u as int, j) by {
                                    if j < i {
                                        let t = choose|t: int| 0 <= t < old_ps.len() && #[trigger] old_ps[t].target == adj[u as int][j].0 && old_ps[t].dist == dist[u as int] + adj[u as int][j].1 && old_ps[t].parent == u;
                                        assert(proposals@[t] == old_ps[t]);
                                    } else {
                                        assert(proposals@[old_ps.len() as int].target == adj[u as int][j].0);
                                    }
                                }
                            }
                        }
                    },
                    None => {},
                }
                proof {
                    assert(proposals@ =~= before + edge_props(adj, dist, u as int, i + 1));
                }
                i += 1;
            }
        } else {
            proof {
                lemma_edge_props_unreached(adj, dist, u as int, adj[u as int].len() as int);
                assert(proposals@ =~= before + edge_props(adj, dist, u as int, adj[u as int].len() as int));
            }
        }
        proof {
            assert(props_upto(adj, dist, u + 1) == props_upto(adj, dist, u as int) + edge_props(adj, dist, u as int, adj[u as int].len() as int));
        }
        u += 1;
    }
    proposals
}

/// After one round: no distance grew, every proposal's target is at most
/// its proposed distance, and each improved vertex took the distance and
/// parent of one of the proposals.
spec fn round_applied(
    dist0: Seq<i128>,
    parent0: Seq<usize>,
    dist1: Seq<i128>,
    parent1: Seq<usize>,
    ps: Seq<Proposal>,
) -> bool {
    &&& dist1.len() == dist0.len()
    &&& parent1.len() == parent0.len()
    &&& forall|v: int| 0 <= v < dist0.len() ==> #[trigger] dist1[v] <= dist0[v]
    &&& forall|j: int| 0 <= j < ps.len() ==> dist1[(#[trigger] ps[j]).target as int] <= ps[j].dist
    &&& forall|v: int|
        0 <= v < dist0.len() && #[trigger] dist1[v] < dist0[v] ==> exists|j: int|
            0 <= j < ps.len() && #[trigger] ps[j].target == v && ps[j].dist == dist1[v] && ps[j].parent == parent1[v]
    &&& forall|v: int| 0 <= v < dist0.len() && dist1[v] == dist0[v] ==> #[trigger] parent1[v] == parent0[v]
}

/// The proposal for `v` that wins among `ps`: the first one of least distance.
spec fn best_of(ps: Seq<Proposal>, v: int) -> Option<Proposal>
    decreases ps.len(),
{
    if ps.len() == 0 {
        None
    } else {
        let prev = best_of(ps.drop_last(), v);
        if ps.last().target == v && (prev is None || ps.last().dist < prev->0.dist) {
            Some(ps.last())
        } else {
            prev
        }
    }
}

/// Whether the winning proposal for `v` lowers its distance `d`.
spec fn wins(ps: Seq<Proposal>, v: int, d: i128) -> bool {
    best_of(ps, v) is Some && best_of(ps, v)->0.dist < d
}

/// Commit the best proposal per target. Returns whether any distance improved.
fn apply_proposals<F: FnMut(Event)>(
    best: &mut Vec<Option<Proposal>>,
    buffers: &mut SsspBuffers,
    proposals: &Vec<Proposal>,
    observer: &mut F,
) -> (r: bool)
    requires
        old(buffers).wf(),
        forall|j: int| 0 <= j < proposals@.len() ==> (#[trigger] proposals@[j]).target < old(buffers).dist@.len(),
        forall|e: Event| call_requires(*old(observer), (e,)),
    ensures
        final(buffers).wf(),
        forall|v: int|
            0 <= v < old(buffers).dist@.len() ==> #[trigger] final(buffers).dist@[v] == (if wins(proposals@, v, old(buffers).dist@[v]) {
                best_of(proposals@, v)->0.dist
            } else {
                old(buffers).dist@[v]
            }),
        forall|v: int|
            0 <= v < old(buffers).dist@.len() ==> #[trigger] final(buffers).parent@[v] == (if wins(proposals@, v, old(buffers).dist@[v]) {
                best_of(proposals@, v)->0.parent
            } else {
                old(buffers).parent@[v]
            }),
        round_applied(old(buffers).dist@, old(buffers).parent@, final(buffers).dist@, final(buffers).parent@, proposals@),
        r == exists|v: int| 0 <= v < old(buffers).dist@.len() && #[trigger] final(buffers).dist@[v] < old(buffers).dist@[v],
        forall|e: Event| call_requires(*final(observer), (e,)),
{
    let ghost ps = proposals@;
    let ghost dist0 = buffers.dist@;
    let ghost parent0 = buffers.parent@;
    let n = buffers.dist.len();
    if proposals.len() == 0 {
        proof {
            assert forall|v: int| 0 <= v < n implies !wins(ps, v, dist0[v]) by {
                assert(best_of(ps, v) is None);
            }
        }
        return false;
    }
    // Fresh table of `None`, one per vertex.
    best.clear();
    while best.len() < n
        invariant
            best@.len() <= n,
            forall|v: int| 0 <= v < best@.len() ==> #[trigger] best@[v] is None,
        decreases n - best@.len(),
    {
        best.push(None);
    }
    let mut j: usize = 0;
    while j < proposals.len()
        invariant
            ps == proposals@,
            n == dist0.len(),
            best@.len() == n,
            j <= ps.len(),
            dist0 == buffers.dist@,
            forall|t: int| 0 <= t < ps.len() ==> (#[trigger] ps[t]).target < n,
            forall|v: int|
                0 <= v < n ==> (#[trigger] best@[v] is None <==> forall|t: int| 0 <= t < j ==> (#[trigger] ps[t]).target != v),
            forall|v: int|
                0 <= v < n && #[trigger] best@[v] is Some ==> {
                    &&& exists|t: int| 0 <= t < j && #[trigger] ps[t] == best@[v]->0
                    &&& best@[v]->0.target == v
                    &&& forall|t: int| 0 <= t < j && (#[trigger] ps[t]).target == v ==> best@[v]->0.dist <= ps[t].dist
                },
            forall|v: int| 0 <= v < n ==> #[trigger] best@[v] == best_of(ps.take(j as int), v),
        decreases ps.len() - j,
    {
        let prop = proposals[j];
        let t = prop.target;
        let ghost old_best = best@;
        match best[t] {
            Some(existing) => {
                if prop.dist < existing.dist {
                    best.set(t, Some(prop));
                }
            },
            None => {
                best.set(t, Some(prop));
            },
        }
        proof {
            assert(ps.take(j + 1).drop_last() =~= ps.take(j as int));
            assert(ps.take(j + 1).last() == ps[j as int]);
            assert forall|v: int| 0 <= v < n implies #[trigger] best@[v] == best_of(ps.take(j + 1), v) by {
                assert(old_best[v] == best_of(ps.take(j as int), v));
            }
            assert forall|v: int|
                0 <= v < n implies (#[trigger] best@[v] is None <==> forall|s: int| 0 <= s < j + 1 ==> (#[trigger] ps[s]).target != v) by {
                if v != t as int {
                    assert(best@[v] == old_best[v]);
                } else {
                    assert(ps[j as int].target == v);
                }
            }
            assert forall|v: int| 0 <= v < n && #[trigger] best@[v] is Some implies {
                &&& exists|s: int| 0 <= s < j + 1 && #[trigger] ps[s] == best@[v]->0
                &&& best@[v]->0.target == v
                &&& forall|s: int| 0 <= s < j + 1 && (#[trigger] ps[s]).target == v ==> best@[v]->0.dist <= ps[s].dist
            } by {
                if v != t as int {
                    assert(best@[v] == old_best[v]);
                    if old_best[v] is Some {
                        let s0 = choose|s: int| 0 <= s < j && #[trigger] ps[s] == old_best[v]->0;
                        assert(ps[s0] == best@[v]->0);
                    }
                } else if best@[v] == Some(prop) {
                    assert(ps[j as int] == best@[v]->0);
                    if old_best[v] is Some {
                        assert forall|s: int| 0 <= s < j + 1 && (#[trigger] ps[s]).target == v implies best@[v]->0.dist <= ps[s].dist by {
                            if s < j {
                                assert(old_best[v]->0.dist <= ps[s].dist);
                            }
                        }
                    } else {
                        assert forall|s: int| 0 <= s < j + 1 && (#[trigger] ps[s]).target == v implies best@[v]->0.dist <= ps[s].dist by {
                            if s < j {
                                assert(ps[s].target != v);
                            }
                        }
                    }
                } else {
                    assert(best@[v] == old_best[v]);
                    let s0 = choose|s: int| 0 <= s < j && #[trigger] ps[s] == old_best[v]->0;
                    assert(ps[s0] == best@[v]->0);
                }
            }
        }
        j += 1;
    }
    proof {
        assert(ps.take(j as int) =~= ps);
    }
    let mut any_improved = false;
    let mut v: usize = 0;
    while v < n
        invariant
            ps == proposals@,
            n == dist0.len(),
            n == parent0.len(),
            best@.len() == n,
            v <= n,
            buffers.wf(),
            buffers.dist@.len() == n,
            forall|t: int| 0 <= t < ps.len() ==> (#[trigger] ps[t]).target < n,
            forall|x: int| 0 <= x < n ==> #[trigger] best@[x] == best_of(ps, x),
            forall|x: int|
                0 <= x < n ==> (#[trigger] best@[x] is None <==> forall|t: int| 0 <= t < ps.len() ==> (#[trigger] ps[t]).target != x),
            forall|x: int|
                0 <= x < n && #[trigger] best@[x] is Some ==> {
                    &&& exists|t: int| 0 <= t < ps.len() && #[trigger] ps[t] == best@[x]->0
                    &&& best@[x]->0.target == x
                    &&& forall|t: int| 0 <= t < ps.len() && (#[trigger] ps[t]).target == x ==> best@[x]->0.dist <= ps[t].dist
                },
            forall|x: int| v <= x < n ==> #[trigger] buffers.dist@[x] == dist0[x],
            forall|x: int| v <= x < n ==> #[trigger] buffers.parent@[x] == parent0[x],
            forall|x: int| 0 <= x < v ==> #[trigger] buffers.dist@[x] == (if wins(ps, x, dist0[x]) { best@[x]->0.dist } else { dist0[x] }),
            forall|x: int| 0 <= x < v ==> #[trigger] buffers.parent@[x] == (if wins(ps, x, dist0[x]) { best@[x]->0.parent } else { parent0[x] }),
            forall|e: Event| call_requires(*observer, (e,)),
            any_improved == exists|x: int| 0 <= x < v && #[trigger] buffers.dist@[x] < dist0[x],
        decreases n - v,
    {
        if let Some(prop) = best[v] {
            proof {
                let t = choose|t: int| 0 <= t < ps.len() && #[trigger] ps[t] == best@[v as int]->0;
            }
            if prop.dist < buffers.dist.get(v) {
                buffers.dist.set(v, prop.dist);
                buffers.parent.set(v, prop.parent);
                observer(Event::Improved { vertex: v, dist: prop.dist, parent: prop.parent });
                any_improved = true;
            }
        }
        proof {
            assert(buffers.dist@[v as int] < dist0[v as int] ==> exists|x: int| 0 <= x < v + 1 && #[trigger] buffers.dist@[x] < dist0[x]);
        }
        v += 1;
    }
    proof {
        let d1 = buffers.dist@;
        let p1 = buffers.parent@;
        assert forall|t: int| 0 <= t < ps.len() implies d1[(#[trigger] ps[t]).target as int] <= ps[t].dist by {
            let x = ps[t].target as int;
            assert(best@[x] is Some);
            assert(best@[x]->0.dist <= ps[t].dist);
        }
        assert forall|x: int| 0 <= x < n && #[trigger] d1[x] < dist0[x] implies exists|t: int|
            0 <= t < ps.len() && #[trigger] ps[t].target == x && ps[t].dist == d1[x] && ps[t].parent == p1[x] by {
            assert(wins(ps, x, dist0[x]));
            let t = choose|t: int| 0 <= t < ps.len() && #[trigger] ps[t] == best@[x]->0;
            assert(ps[t].target == x);
        }
        assert forall|x: int| 0 <= x < n && d1[x] == dist0[x] implies #[trigger] p1[x] == parent0[x] by {
            if wins(ps, x, dist0[x]) {
                assert(best@[x]->0.dist < dist0[x]);
            }
        }
    }
    any_improved
}

/// Whether some edge out of a vertex with finite distance still improves its target.
fn detect_negative_cycle<G: Graph>(graph: &G, buffers: &SsspBuffers, Ghost(k): Ghost<int>) -> (r: bool)
    requires
        valid_adjacency(graph.adjacency()),
        buffers.wf(),
        buffers.dist@.len() == graph.adjacency().len(),
        0 <= k < usize::MAX,
        dist_bounded(buffers.dist@, k),
    ensures
        r == !all_relaxed(graph.adjacency(), buffers.dist@),
{
    let ghost adj = graph.adjacency();
    let ghost dist = buffers.dist@;
    let n = graph.n();
    let mut u: usize = 0;
    while u < n
        invariant
            adj == graph.adjacency(),
            dist == buffers.dist@,
            n == adj.len(),
            dist.len() == n,
            u <= n,
            valid_adjacency(adj),
            0 <= k < usize::MAX,
            dist_bounded(dist, k),
            forall|x: int| 0 <= x < u ==> #[trigger] vertex_relaxed(adj, dist, x),
        decreases n - u,
    {
        let d_u = buffers.dist.get(u);
        if d_u != INF {
            let mut has_cycle = false;
            let deg = graph.out_degree(u);
            let mut i: usize = 0;
            while i < deg
                invariant
                    adj == graph.adjacency(),
                    dist == buffers.dist@,
                    n == adj.len(),
                    dist.len() == n,
                    u < n,
                    d_u == dist[u as int],
                    d_u != INF,
                    deg == adj[u as int].len(),
                    i <= deg,
                    valid_adjacency(adj),
                    0 <= k < usize::MAX,
                    dist_bounded(dist, k),
                    has_cycle == exists|j: int| 0 <= j < i && !#[trigger] edge_relaxed(adj, dist, u as int, j),
                decreases deg - i,
            {
                let (v, w, _meta) = graph.out_edge(u, i);
                proof {
                    assert(adj[u as int][i as int].0 < n);
                    assert(k * weight_bound() + weight_bound() == (k + 1) * weight_bound()) by (nonlinear_arith);
                    assert((k + 1) * weight_bound() <= usize::MAX * weight_bound()) by (nonlinear_arith)
                        requires k + 1 <= usize::MAX;
                }
                match add_weight(d_u, w) {
                    Some(nd) => {
                        if nd < buffers.dist.get(v) {
                            has_cycle = true;
                        }
                    },
                    None => {},
                }
                proof {
                    if !edge_relaxed(adj, dist, u as int, i as int) {
                        assert(has_cycle);
                    }
                    assert(has_cycle == exists|j: int| 0 <= j < i + 1 && !#[trigger] edge_relaxed(adj, dist, u as int, j));
                }
                i += 1;
            }
            if has_cycle {
                proof {
                    let j = choose|j: int| 0 <= j < deg && !#[trigger] edge_relaxed(adj, dist, u as int, j);
                    assert(!vertex_relaxed(adj, dist, u as int));
                }
                return true;
            }
            proof {
                assert forall|j: int| 0 <= j < adj[u as int].len() implies #[trigger] edge_relaxed(adj, dist, u as int, j) by {
                }
            }
        }
        u += 1;
    }
    false
}

/// One round moves the invariants of `k` rounds to `k + 1` rounds.
proof fn lemma_round(
    adj: Seq<Seq<(usize, i64)>>,
    src: Seq<usize>,
    d0: Seq<i128>,
    p0: Seq<usize>,
    d1: Seq<i128>,
    p1: Seq<usize>,
    ps: Seq<Proposal>,
    k: int,
)
    requires
        valid_adjacency(adj),
        d0.len() == adj.len(),
        0 <= k,
        k + 1 < usize::MAX,
        forall|j: int| 0 <= j < ps.len() ==> proposal_ok(adj, d0, #[trigger] ps[j]),
        forall|u: int, i: int|
            0 <= u < adj.len() && 0 <= i < adj[u].len() && !#[trigger] edge_relaxed(adj, d0, u, i) ==> edge_proposed(
                adj,
                d0,
                ps,
                u,
                i,
            ),
        round_applied(d0, p0, d1, p1, ps),
        forall|v: int| 0 <= v < d0.len() && #[trigger] d0[v] != INF ==> achieved_within(adj, src, v, d0[v] as int, k),
        forall|v: int| 0 <= v < d0.len() ==> lower_bound_within(adj, src, v, #[trigger] d0[v] as int, k),
        dist_bounded(d0, k),
    ensures
        forall|v: int| 0 <= v < d1.len() && #[trigger] d1[v] != INF ==> achieved_within(adj, src, v, d1[v] as int, k + 1),
        forall|v: int| 0 <= v < d1.len() ==> lower_bound_within(adj, src, v, #[trigger] d1[v] as int, k + 1),
        dist_bounded(d1, k + 1),
{
    assert forall|v: int| 0 <= v < d1.len() && #[trigger] d1[v] != INF implies achieved_within(adj, src, v, d1[v] as int, k + 1) && -((k + 1) * weight_bound()) <= d1[v] <= (k + 1) * weight_bound() by {
        assert((k + 1) * weight_bound() == k * weight_bound() + weight_bound()) by (nonlinear_arith);
        assert(0 <= k * weight_bound()) by (nonlinear_arith) requires 0 <= k;
        if d1[v] < d0[v] {
            let j = choose|j: int| 0 <= j < ps.len() && #[trigger] ps[j].target == v && ps[j].dist == d1[v] && ps[j].parent == p1[v];
            let p = ps[j];
            assert(proposal_ok(adj, d0, p));
            let u = p.parent as int;
            let i = choose|i: int| 0 <= i < adj[u].len() && #[trigger] adj[u][i].0 == p.target && p.dist == d0[u] + adj[u][i].1;
            assert(achieved_within(adj, src, u, d0[u] as int, k));
            let (s, es) = choose|s: usize, es: Seq<(int, int)>|
                #[trigger] src.contains(s) && #[trigger] reaches(adj, s as int, es, u) && walk_len(adj, es) == d0[u] as int && es.len() <= k;
            lemma_walk_push(adj, s as int, es, (u, i));
            assert(reaches(adj, s as int, es.push((u, i)), v));
        } else {
            assert(d1[v] == d0[v]);
            let (s, es) = choose|s: usize, es: Seq<(int, int)>|
                #[trigger] src.contains(s) && #[trigger] reaches(adj, s as int, es, v) && walk_len(adj, es) == d0[v] as int && es.len() <= k;
            assert(reaches(adj, s as int, es, v));
        }
    }
    assert forall|v: int| 0 <= v < d1.len() implies lower_bound_within(adj, src, v, #[trigger] d1[v] as int, k + 1) by {
        assert forall|s: usize, es: Seq<(int, int)>|
            #[trigger] src.contains(s) && #[trigger] reaches(adj, s as int, es, v) && es.len() <= k + 1 implies d1[v] <= walk_len(adj, es) by {
            assert(lower_bound_within(adj, src, v, d0[v] as int, k));
            if es.len() <= k {
                assert(d0[v] <= walk_len(adj, es));
            } else {
                let q = es.drop_last();
                let e = es.last();
                let x = crate::walks::walk_end(adj, s as int, q);
                assert(reaches(adj, s as int, q, x));
                assert(0 <= x < adj.len()) by {
                    if q.len() > 0 {
                        assert(adj[q.last().0][q.last().1].0 < adj.len());
                    } else {
                        assert(src.contains(s));
                        let t = choose|t: int| 0 <= t < src.len() && src[t] == s;
                    }
                }
                assert(lower_bound_within(adj, src, x, d0[x] as int, k));
                assert(d0[x] <= walk_len(adj, q));
                lemma_walk_len_bound(adj, s as int, q);
                assert(q.len() * weight_bound() <= usize::MAX * weight_bound()) by (nonlinear_arith)
                    requires q.len() <= usize::MAX;
                assert(d0[x] != INF);
                assert(adj[x][e.1].0 as int == v);
                if edge_relaxed(adj, d0, x, e.1) {
                    assert(d0[v] <= d0[x] + adj[x][e.1].1);
                } else {
                    assert(edge_proposed(adj, d0, ps, x, e.1));
                    let j = choose|j: int| 0 <= j < ps.len() && #[trigger] ps[j].target == adj[x][e.1].0 && ps[j].dist == d0[x] + adj[x][e.1].1 && ps[j].parent == x;
                    assert(d1[ps[j].target as int] <= ps[j].dist);
                }
            }
        }
    }
}

/// A round that improved nothing leaves every edge relaxed.
proof fn lemma_no_improvement(
    adj: Seq<Seq<(usize, i64)>>,
    d0: Seq<i128>,
    p0: Seq<usize>,
    d1: Seq<i128>,
    p1: Seq<usize>,
    ps: Seq<Proposal>,
)
    requires
        d0.len() == adj.len(),
        forall|j: int| 0 <= j < ps.len() ==> proposal_ok(adj, d0, #[trigger] ps[j]),
        forall|u: int, i: int|
            0 <= u < adj.len() && 0 <= i < adj[u].len() && !#[trigger] edge_relaxed(adj, d0, u, i) ==> edge_proposed(
                adj,
                d0,
                ps,
                u,
                i,
            ),
        round_applied(d0, p0, d1, p1, ps),
        !exists|v: int| 0 <= v < d0.len() && #[trigger] d1[v] < d0[v],
    ensures
        all_relaxed(adj, d1),
{
    assert(d1 =~= d0) by {
        assert forall|v: int| 0 <= v < d0.len() implies d1[v] == d0[v] by {
            assert(!(d1[v] < d0[v]));
        }
    }
    assert forall|u: int| 0 <= u < adj.len() implies #[trigger] vertex_relaxed(adj, d1, u) by {
        assert forall|i: int| 0 <= i < adj[u].len() implies #[trigger] edge_relaxed(adj, d1, u, i) by {
            if !edge_relaxed(adj, d0, u, i) {
                let j = choose|j: int| 0 <= j < ps.len() && #[trigger] ps[j].target == adj[u][i].0 && ps[j].dist == d0[u] + adj[u][i].1 && ps[j].parent == u;
                assert(proposal_ok(adj, d0, ps[j]));
            }
        }
    }
}

/// Before the first round: distances are zero at the sources and `INF` elsewhere.
proof fn lemma_initial(adj: Seq<Seq<(usize, i64)>>, src: Seq<usize>, dist: Seq<i128>)
    requires
        sources_valid(src, dist.len() as int),
        dist.len() <= usize::MAX,
        forall|v: int| 0 <= v < dist.len() ==> #[trigger] dist[v] == (if src.contains(v as usize) { 0 } else { INF }),
    ensures
        forall|v: int| 0 <= v < dist.len() && #[trigger] dist[v] != INF ==> achieved_within(adj, src, v, dist[v] as int, 0),
        forall|v: int| 0 <= v < dist.len() ==> lower_bound_within(adj, src, v, #[trigger] dist[v] as int, 0),
        dist_bounded(dist, 0),
        forall|i: int| 0 <= i < src.len() ==> dist[#[trigger] src[i] as int] <= 0,
{
    assert forall|v: int| 0 <= v < dist.len() && #[trigger] dist[v] != INF implies achieved_within(adj, src, v, dist[v] as int, 0) by {
        assert(src.contains(v as usize));
        assert(reaches(adj, (v as usize) as int, Seq::<(int, int)>::empty(), v));
    }
    assert forall|v: int| 0 <= v < dist.len() implies lower_bound_within(adj, src, v, #[trigger] dist[v] as int, 0) by {
        assert forall|s: usize, es: Seq<(int, int)>|
            #[trigger] src.contains(s) && #[trigger] reaches(adj, s as int, es, v) && es.len() <= 0 implies dist[v] <= walk_len(adj, es) by {
            assert(es.len() == 0);
        }
    }
    assert forall|i: int| 0 <= i < src.len() implies dist[#[trigger] src[i] as int] <= 0 by {
        assert(src.contains(src[i]));
    }
}

/// The conclusions of a run from the invariants of its last round.
proof fn lemma_final(adj: Seq<Seq<(usize, i64)>>, src: Seq<usize>, dist: Seq<i128>, k: int, negative_cycle: bool)
    requires
        valid_adjacency(adj),
        dist.len() == adj.len(),
        sources_valid(src, adj.len() as int),
        0 <= k < adj.len(),
        adj.len() <= usize::MAX,
        forall|i: int| 0 <= i < src.len() ==> dist[#[trigger] src[i] as int] <= 0,
        forall|v: int| 0 <= v < dist.len() && #[trigger] dist[v] != INF ==> achieved_within(adj, src, v, dist[v] as int, k),
        dist_bounded(dist, k),
        negative_cycle == !all_relaxed(adj, dist),
    ensures
        all_achieved(adj, src, dist),
        !negative_cycle ==> forall|v: int| 0 <= v < dist.len() ==> is_shortest(adj, src, v, #[trigger] dist[v]),
{
    assert forall|v: int| 0 <= v < dist.len() && #[trigger] dist[v] != INF implies crate::walks::achieved(adj, src, v, dist[v] as int) by {
        let (s, es) = choose|s: usize, es: Seq<(int, int)>|
            #[trigger] src.contains(s) && #[trigger] reaches(adj, s as int, es, v) && walk_len(adj, es) == dist[v] as int && es.len() <= k;
        assert(reaches(adj, s as int, es, v));
    }
    if !negative_cycle {
        assert(k * weight_bound() + weight_bound() < INF) by (nonlinear_arith)
            requires k + 1 <= 0xffff_ffff_ffff_ffff, k >= 0;
        assert forall|v: int| 0 <= v < dist.len() && #[trigger] dist[v] != INF implies dist[v] <= k * weight_bound() by {
        }
        lemma_relaxed_is_shortest(adj, src, dist, k * weight_bound());
    }
}

/// The parent pointer of a reached vertex `v` during the rounds: none for a
/// source; else an edge `u -> v` with `dist[v] == pd[v] + weight`, where
/// `pd[v]` was the distance of `u` when the pointer was set. `u` has not
/// grown since, and while it has not shrunk either, `u` was last improved in
/// an earlier round than `v`.
spec fn bf_link(
    adj: Seq<Seq<(usize, i64)>>,
    src: Seq<usize>,
    dist: Seq<i128>,
    parent: Seq<usize>,
    rank: Seq<nat>,
    pd: Seq<int>,
    v: int,
) -> bool {
    if parent[v] == NO_VERTEX {
        src.contains(v as usize)
    } else {
        let u = parent[v] as int;
        &&& u < dist.len()
        &&& pd[v] < INF
        &&& dist[u] <= pd[v]
        &&& exists|e: int| 0 <= e < adj[u].len() && (#[trigger] adj[u][e]).0 == v && dist[v] == pd[v] + adj[u][e].1
        &&& dist[u] == pd[v] ==> rank[u] < rank[v]
    }
}

/// The parent pointers during the rounds, with `rank[v]` the round in which
/// `v` was last improved (at most `round`).
spec fn bf_tree_inv(
    adj: Seq<Seq<(usize, i64)>>,
    src: Seq<usize>,
    dist: Seq<i128>,
    parent: Seq<usize>,
    rank: Seq<nat>,
    pd: Seq<int>,
    round: nat,
) -> bool {
    &&& parent.len() == dist.len()
    &&& rank.len() == dist.len()
    &&& pd.len() == dist.len()
    &&& dist.len() <= usize::MAX
    &&& forall|v: int| 0 <= v < rank.len() ==> #[trigger] rank[v] <= round
    &&& forall|v: int| 0 <= v < dist.len() && dist[v] < INF ==> #[trigger] bf_link(adj, src, dist, parent, rank, pd, v)
}

/// Before the first round only the sources are reached, without parents.
proof fn lemma_bf_tree_initial(adj: Seq<Seq<(usize, i64)>>, src: Seq<usize>, dist: Seq<i128>, parent: Seq<usize>)
    requires
        parent.len() == dist.len(),
        dist.len() <= usize::MAX,
        forall|v: int| 0 <= v < dist.len() ==> #[trigger] dist[v] == (if src.contains(v as usize) { 0 } else { INF }),
        parent == Seq::new(dist.len(), |i: int| NO_VERTEX),
    ensures
        bf_tree_inv(adj, src, dist, parent, Seq::new(dist.len(), |i: int| 0nat), Seq::new(dist.len(), |i: int| 0int), 0),
{
    let rank = Seq::new(dist.len(), |i: int| 0nat);
    let pd = Seq::new(dist.len(), |i: int| 0int);
    assert forall|v: int| 0 <= v < dist.len() && dist[v] < INF implies #[trigger] bf_link(adj, src, dist, parent, rank, pd, v) by {
        assert(parent[v] == NO_VERTEX);
    }
}

/// The ranks after a round: `round` for the improved vertices.
spec fn next_rank(d0: Seq<i128>, d1: Seq<i128>, rank: Seq<nat>, round: nat) -> Seq<nat> {
    Seq::new(d0.len(), |v: int| if d1[v] < d0[v] { round } else { rank[v] })
}

/// The parent distances after a round: that of the new parent, before the
/// round, for the improved vertices.
spec fn next_pd(d0: Seq<i128>, d1: Seq<i128>, p1: Seq<usize>, pd: Seq<int>) -> Seq<int> {
    Seq::new(d0.len(), |v: int| if d1[v] < d0[v] { d0[p1[v] as int] as int } else { pd[v] })
}

/// One round keeps the parent pointers as `bf_tree_inv` describes them.
proof fn lemma_bf_tree_round(
    adj: Seq<Seq<(usize, i64)>>,
    src: Seq<usize>,
    d0: Seq<i128>,
    p0: Seq<usize>,
    d1: Seq<i128>,
    p1: Seq<usize>,
    ps: Seq<Proposal>,
    rank: Seq<nat>,
    pd: Seq<int>,
    round: nat,
)
    requires
        d0.len() == adj.len(),
        bf_tree_inv(adj, src, d0, p0, rank, pd, round),
        forall|j: int| 0 <= j < ps.len() ==> proposal_ok(adj, d0, #[trigger] ps[j]),
        round_applied(d0, p0, d1, p1, ps),
    ensures
        bf_tree_inv(adj, src, d1, p1, next_rank(d0, d1, rank, round + 1), next_pd(d0, d1, p1, pd), round + 1),
{
    let rank1 = next_rank(d0, d1, rank, round + 1);
    let pd1 = next_pd(d0, d1, p1, pd);
    assert forall|v: int| 0 <= v < rank1.len() implies #[trigger] rank1[v] <= round + 1 by {
        assert(rank[v] <= round);
    }
    assert forall|v: int| 0 <= v < d1.len() && d1[v] < INF implies #[trigger] bf_link(adj, src, d1, p1, rank1, pd1, v) by {
        if d1[v] < d0[v] {
            let j = choose|j: int| 0 <= j < ps.len() && #[trigger] ps[j].target == v && ps[j].dist == d1[v] && ps[j].parent == p1[v];
            let p = ps[j];
            assert(proposal_ok(adj, d0, p));
            let u = p.parent as int;
            let e = choose|e: int| 0 <= e < adj[u].len() && #[trigger] adj[u][e].0 == p.target && p.dist == d0[u] + adj[u][e].1;
            assert(p1[v] == p.parent);
            assert(p.parent != NO_VERTEX);
            assert(pd1[v] == d0[u]);
            assert(d1[u] <= d0[u]);
            if d1[u] == pd1[v] {
                assert(rank1[u] == rank[u]);
                assert(rank[u] <= round);
            }
        } else {
            assert(d1[v] <= d0[v]);
            assert(d1[v] == d0[v]);
            assert(p1[v] == p0[v]);
            assert(bf_link(adj, src, d0, p0, rank, pd, v));
            if p0[v] != NO_VERTEX {
                let u = p0[v] as int;
                assert(d1[u] <= d0[u]);
                let e = choose|e: int| 0 <= e < adj[u].len() && (#[trigger] adj[u][e]).0 == v && d0[v] == pd[v] + adj[u][e].1;
                if d1[u] == pd1[v] {
                    assert(d0[u] == pd[v]);
                    assert(rank1[u] == rank[u]);
                }
            }
        }
    }
}

/// Following the parent pointers of a reached vertex ends, once every edge
/// is relaxed.
proof fn lemma_bf_tree_chain(
    adj: Seq<Seq<(usize, i64)>>,
    src: Seq<usize>,
    dist: Seq<i128>,
    parent: Seq<usize>,
    rank: Seq<nat>,
    pd: Seq<int>,
    round: nat,
    v: int,
)
    requires
        bf_tree_inv(adj, src, dist, parent, rank, pd, round),
        all_relaxed(adj, dist),
        dist.len() == adj.len(),
        0 <= v < dist.len(),
        dist[v] < INF,
    ensures
        exists|k: nat| #[trigger] reaches_root(parent, v as usize, k),
        parent[v] == NO_VERTEX ==> src.contains(v as usize),
        parent[v] != NO_VERTEX ==> tree_edge(adj, dist, parent[v] as int, v),
    decreases rank[v],
{
    assert(bf_link(adj, src, dist, parent, rank, pd, v));
    if parent[v] == NO_VERTEX {
        assert(ancestor(parent, v as usize, 1) == parent[ancestor(parent, v as usize, 0) as int]);
        assert(reaches_root(parent, v as usize, 1));
    } else {
        let u = parent[v] as int;
        let e = choose|e: int| 0 <= e < adj[u].len() && (#[trigger] adj[u][e]).0 == v && dist[v] == pd[v] + adj[u][e].1;
        assert(vertex_relaxed(adj, dist, u));
        assert(edge_relaxed(adj, dist, u, e));
        assert(dist[u] == pd[v]);
        assert(tree_edge(adj, dist, u, v));
        lemma_bf_tree_chain(adj, src, dist, parent, rank, pd, round, u);
        let k = choose|k: nat| #[trigger] reaches_root(parent, u as usize, k);
        assert forall|j: nat| j < k + 1 implies #[trigger] ancestor(parent, v as usize, j) != NO_VERTEX && ancestor(parent, v as usize, j) < parent.len() by {
            if j > 0 {
                lemma_ancestor_step(parent, v as usize, (j - 1) as nat);
                assert(ancestor(parent, u as usize, (j - 1) as nat) != NO_VERTEX);
            }
        }
        lemma_ancestor_step(parent, v as usize, k);
        assert(reaches_root(parent, v as usize, k + 1));
    }
}

/// Once every edge is relaxed, the parent pointers form a shortest-path tree.
proof fn lemma_bf_tree_final(
    adj: Seq<Seq<(usize, i64)>>,
    src: Seq<usize>,
    dist: Seq<i128>,
    parent: Seq<usize>,
    rank: Seq<nat>,
    pd: Seq<int>,
    round: nat,
)
    requires
        bf_tree_inv(adj, src, dist, parent, rank, pd, round),
        all_relaxed(adj, dist),
        dist.len() == adj.len(),
    ensures
        parent_tree(adj, src, dist, parent),
{
    assert forall|v: int| 0 <= v < dist.len() && #[trigger] dist[v] < INF implies {
        &&& exists|k: nat| #[trigger] reaches_root(parent, v as usize, k)
        &&& parent[v] == NO_VERTEX ==> src.contains(v as usize)
        &&& parent[v] != NO_VERTEX ==> tree_edge(adj, dist, parent[v] as int, v)
    } by {
        lemma_bf_tree_chain(adj, src, dist, parent, rank, pd, round, v);
    }
}

/// The rounds of relaxation: at most `n - 1`, fewer when `early` and a
/// round improves nothing. Returns the number of rounds run.
#[verifier::rlimit(80)]
fn relax_rounds<G: Graph, F: FnMut(Event)>(
    best: &mut Vec<Option<Proposal>>,
    graph: &G,
    buffers: &mut SsspBuffers,
    early: bool,
    observer: &mut F,
    Ghost(src): Ghost<Seq<usize>>,
) -> (iterations: usize)
    requires
        valid_adjacency(graph.adjacency()),
        old(buffers).wf(),
        old(buffers).dist@.len() == graph.adjacency().len(),
        sources_valid(src, graph.adjacency().len() as int),
        forall|i: int| 0 <= i < src.len() ==> old(buffers).dist@[#[trigger] src[i] as int] <= 0,
        forall|v: int| 0 <= v < old(buffers).dist@.len() && #[trigger] old(buffers).dist@[v] != INF ==> achieved_within(graph.adjacency(), src, v, old(buffers).dist@[v] as int, 0),
        forall|v: int| 0 <= v < old(buffers).dist@.len() ==> lower_bound_within(graph.adjacency(), src, v, #[trigger] old(buffers).dist@[v] as int, 0),
        dist_bounded(old(buffers).dist@, 0),
        bf_tree_inv(
            graph.adjacency(),
            src,
            old(buffers).dist@,
            old(buffers).parent@,
            Seq::new(old(buffers).dist@.len(), |i: int| 0nat),
            Seq::new(old(buffers).dist@.len(), |i: int| 0int),
            0,
        ),
        forall|e: Event| call_requires(*old(observer), (e,)),
        forall|v: int| 0 <= v < old(buffers).dist@.len() ==> #[trigger] old(buffers).parent@[v] == NO_VERTEX,
        forall|v: int|
            0 <= v < old(buffers).dist@.len() ==> #[trigger] old(buffers).dist@[v] == (if src.contains(v as usize) { 0 } else { INF }),
    ensures
        final(buffers).wf(),
        final(buffers).dist@.len() == old(buffers).dist@.len(),
        iterations + 1 == graph.adjacency().len() || graph.adjacency().len() == 0 || (early && iterations + 1 < graph.adjacency().len() && all_relaxed(graph.adjacency(), final(buffers).dist@)
            && last_round_idle(graph.adjacency(), src, final(buffers).dist@, iterations as int)),
        early ==> forall|j: int| 1 <= j < iterations ==> #[trigger] round_progress(graph.adjacency(), src, j),
        bf_parents(src, final(buffers).dist@, final(buffers).parent@),
        iterations < graph.adjacency().len() || iterations == 0,
        forall|i: int| 0 <= i < src.len() ==> final(buffers).dist@[#[trigger] src[i] as int] <= 0,
        forall|v: int| 0 <= v < final(buffers).dist@.len() && #[trigger] final(buffers).dist@[v] != INF ==> achieved_within(graph.adjacency(), src, v, final(buffers).dist@[v] as int, iterations as int),
        forall|v: int| 0 <= v < final(buffers).dist@.len() ==> lower_bound_within(graph.adjacency(), src, v, #[trigger] final(buffers).dist@[v] as int, iterations as int),
        dist_bounded(final(buffers).dist@, iterations as int),
        all_relaxed(graph.adjacency(), final(buffers).dist@) ==> parent_tree(graph.adjacency(), src, final(buffers).dist@, final(buffers).parent@),
        forall|e: Event| call_requires(*final(observer), (e,)),
{
    let ghost adj = graph.adjacency();
    let n = graph.n();
        let rounds = n.saturating_sub(1);
        let mut iterations: usize = 0;
        let mut round: usize = 0;
        let mut stopped = false;
        let ghost mut rank: Seq<nat> = Seq::new(n as nat, |i: int| 0nat);
        let ghost mut pd: Seq<int> = Seq::new(n as nat, |i: int| 0int);
        while round < rounds
            invariant_except_break
                round == iterations,
                round <= rounds,
                !stopped,
                early ==> forall|j: int| 1 <= j <= iterations ==> #[trigger] round_progress(adj, src, j),
            invariant
                adj == graph.adjacency(),
                n == adj.len(),
                rounds == (if n >= 1 { n - 1 } else { 0 }),
                valid_adjacency(adj),
                sources_valid(src, n as int),
                buffers.wf(),
                buffers.dist@.len() == n,
                iterations <= rounds,
                stopped ==> early && iterations <= rounds && all_relaxed(adj, buffers.dist@),
                forall|i: int| 0 <= i < src.len() ==> buffers.dist@[#[trigger] src[i] as int] <= 0,
                forall|v: int| 0 <= v < n && #[trigger] buffers.dist@[v] != INF ==> achieved_within(adj, src, v, buffers.dist@[v] as int, iterations as int),
                forall|v: int| 0 <= v < n ==> lower_bound_within(adj, src, v, #[trigger] buffers.dist@[v] as int, iterations as int),
                dist_bounded(buffers.dist@, iterations as int),
                bf_tree_inv(adj, src, buffers.dist@, buffers.parent@, rank, pd, iterations as nat),
                forall|e: Event| call_requires(*observer, (e,)),
                forall|v: int| 0 <= v < n && #[trigger] buffers.dist@[v] == INF ==> buffers.parent@[v] == NO_VERTEX,
                forall|v: int|
                    0 <= v < n && #[trigger] buffers.parent@[v] == NO_VERTEX ==> buffers.dist@[v] == (if src.contains(v as usize) { 0 } else { INF }),
            ensures
                stopped || iterations == rounds,
                stopped ==> last_round_idle(adj, src, buffers.dist@, iterations as int),
                early ==> forall|j: int| 1 <= j < iterations ==> #[trigger] round_progress(adj, src, j),
            decreases rounds - round,
        {
            iterations += 1;
            let ghost d0 = buffers.dist@;
            let ghost p0 = buffers.parent@;
            let proposals = collect_proposals(graph, buffers, Ghost((iterations - 1) as int));
            proof {
                assert forall|j: int| 0 <= j < proposals@.len() implies (#[trigger] proposals@[j]).target < d0.len() && proposals@[j].dist < d0[proposals@[j].target as int] by {
                    assert(proposal_ok(adj, d0, proposals@[j]));
                }
            }
            let any_improved = apply_proposals(best, buffers, &proposals, observer);
            proof {
                lemma_round_parents(adj, src, d0, p0, buffers.dist@, buffers.parent@, proposals@);
                lemma_round(adj, src, d0, p0, buffers.dist@, buffers.parent@, proposals@, (iterations - 1) as int);
                if any_improved {
                    lemma_round_progress(adj, src, d0, buffers.dist@, iterations as int);
                }
                if early && any_improved {
                    assert forall|j: int| 1 <= j <= iterations implies #[trigger] round_progress(adj, src, j) by {
                        if j < iterations {
                            assert(round_progress(adj, src, j));
                        }
                    }
                }
                lemma_bf_tree_round(adj, src, d0, p0, buffers.dist@, buffers.parent@, proposals@, rank, pd, (iterations - 1) as nat);
                rank = next_rank(d0, buffers.dist@, rank, iterations as nat);
                pd = next_pd(d0, buffers.dist@, buffers.parent@, pd);
                assert forall|i: int| 0 <= i < src.len() implies buffers.dist@[#[trigger] src[i] as int] <= 0 by {
                    assert(d0[src[i] as int] <= 0);
                }
            }
            observer(Event::Iteration(round));
            if early && !any_improved {
                proof {
                    lemma_no_improvement(adj, d0, p0, buffers.dist@, buffers.parent@, proposals@);
                    assert forall|v: int| 0 <= v < n && #[trigger] buffers.dist@[v] != INF implies achieved_within(
                        adj,
                        src,
                        v,
                        buffers.dist@[v] as int,
                        iterations - 1,
                    ) by {
                        assert(buffers.dist@[v] <= d0[v]);
                        assert(!(buffers.dist@[v] < d0[v]));
                    }
                }
                stopped = true;
                break;
            }
            round += 1;
        }
    proof {
        if all_relaxed(adj, buffers.dist@) {
            lemma_bf_tree_final(adj, src, buffers.dist@, buffers.parent@, rank, pd, iterations as nat);
        }
    }
    iterations
}

/// Bellman-Ford in synchronous rounds: every round proposes from the distances
/// at its start, then applies the best proposal per vertex. Handles -ve
/// weights, detects -ve cycles.
#[derive(Debug)]
pub struct BellmanFord {
    config: BellmanFordConfig,
    best: Vec<Option<Proposal>>,
}

impl BellmanFord {
    /// The configuration in force.
    pub closed spec fn settings(&self) -> BellmanFordConfig {
        self.config
    }

    pub fn new() -> (r: Self)
        ensures
            r.settings().target_list().len() == 0,
            r.settings().stops_early(),
    {
        BellmanFord { config: BellmanFordConfig::default(), best: Vec::new() }
    }

    pub fn with_config(config: BellmanFordConfig) -> (r: Self)
        ensures
            r.settings() == config,
    {
        BellmanFord { config, best: Vec::new() }
    }

    pub fn config(&self) -> (r: &BellmanFordConfig)
        ensures
            *r == self.settings(),
    {
        &self.config
    }

    pub fn config_mut(&mut self) -> (r: &mut BellmanFordConfig)
        ensures
            *r == old(self).settings(),
            final(self).settings() == *final(r),
    {
        &mut self.config
    }
}

impl Default for BellmanFord {
    fn default() -> (r: Self)
        ensures
            r.settings().target_list().len() == 0,
            r.settings().stops_early(),
    {
        Self::new()
    }
}

impl SsspAlgorithmInfo for BellmanFord {
    fn name(&self) -> (r: &'static str)
        ensures
            r@ == "Bellman-Ford"@,
    {
        "Bellman-Ford"
    }

    fn supports_negative_weights(&self) -> (r: bool)
        ensures
            r,
    {
        true
    }
}

/// A round keeps unreached vertices without parents, and a vertex without a
/// parent at its starting distance.
proof fn lemma_round_parents(
    adj: Seq<Seq<(usize, i64)>>,
    src: Seq<usize>,
    d0: Seq<i128>,
    p0: Seq<usize>,
    d1: Seq<i128>,
    p1: Seq<usize>,
    ps: Seq<Proposal>,
)
    requires
        d0.len() == adj.len(),
        p0.len() == adj.len(),
        adj.len() <= usize::MAX,
        round_applied(d0, p0, d1, p1, ps),
        forall|j: int| 0 <= j < ps.len() ==> proposal_ok(adj, d0, #[trigger] ps[j]),
        forall|v: int| 0 <= v < adj.len() && #[trigger] d0[v] == INF ==> p0[v] == NO_VERTEX,
        forall|v: int|
            0 <= v < adj.len() && #[trigger] p0[v] == NO_VERTEX ==> d0[v] == (if src.contains(v as usize) { 0 } else { INF }),
    ensures
        forall|v: int| 0 <= v < adj.len() && #[trigger] d1[v] == INF ==> p1[v] == NO_VERTEX,
        forall|v: int|
            0 <= v < adj.len() && #[trigger] p1[v] == NO_VERTEX ==> d1[v] == (if src.contains(v as usize) { 0 } else { INF }),
{
    assert forall|v: int| 0 <= v < adj.len() && #[trigger] d1[v] == INF implies p1[v] == NO_VERTEX by {
        assert(d1[v] <= d0[v]);
    }
    assert forall|v: int|
        0 <= v < adj.len() && #[trigger] p1[v] == NO_VERTEX implies d1[v] == (if src.contains(v as usize) { 0 } else { INF }) by {
        assert(d1[v] <= d0[v]);
        if d1[v] < d0[v] {
            let j = choose|j: int| 0 <= j < ps.len() && #[trigger] ps[j].target == v && ps[j].dist == d1[v] && ps[j].parent == p1[v];
            assert(proposal_ok(adj, d0, ps[j]));
        }
    }
}

/// A round that lowered some distance made progress.
proof fn lemma_round_progress(adj: Seq<Seq<(usize, i64)>>, src: Seq<usize>, d0: Seq<i128>, d1: Seq<i128>, k: int)
    requires
        d0.len() == adj.len(),
        d1.len() == adj.len(),
        exists|v: int| 0 <= v < d0.len() && #[trigger] d1[v] < d0[v],
        forall|v: int| 0 <= v < adj.len() ==> lower_bound_within(adj, src, v, #[trigger] d0[v] as int, k - 1),
        forall|v: int| 0 <= v < adj.len() && #[trigger] d1[v] != INF ==> achieved_within(adj, src, v, d1[v] as int, k),
    ensures
        round_progress(adj, src, k),
{
    let v = choose|v: int| 0 <= v < d0.len() && #[trigger] d1[v] < d0[v];
    assert(lower_bound_within(adj, src, v, d0[v] as int, k - 1));
    assert(achieved_within(adj, src, v, d1[v] as int, k));
    assert(lower_bound_within(adj, src, v, d1[v] + 1, k - 1));
}

/// Round `j` improved some distance: some vertex has a walk of at most `j`
/// edges shorter than every walk of at most `j - 1` edges.
pub open spec fn round_progress(adj: Seq<Seq<(usize, i64)>>, sources: Seq<usize>, j: int) -> bool {
    exists|v: int, d: int|
        0 <= v < adj.len() && #[trigger] achieved_within(adj, sources, v, d, j) && lower_bound_within(adj, sources, v, d + 1, j - 1)
}

/// The last of `k` rounds changed nothing: every finite distance was already
/// reached by a walk of at most `k - 1` edges.
pub open spec fn last_round_idle(adj: Seq<Seq<(usize, i64)>>, sources: Seq<usize>, dist: Seq<i128>, k: int) -> bool {
    &&& k >= 1
    &&& forall|v: int| 0 <= v < dist.len() && #[trigger] dist[v] != INF ==> achieved_within(adj, sources, v, dist[v] as int, k - 1)
}

/// An unreached vertex has no parent; a reached vertex without a parent is a
/// source at distance zero.
pub open spec fn bf_parents(sources: Seq<usize>, dist: Seq<i128>, parent: Seq<usize>) -> bool {
    &&& forall|v: int| 0 <= v < dist.len() && #[trigger] dist[v] == INF ==> parent[v] == NO_VERTEX
    &&& forall|v: int|
        0 <= v < dist.len() && #[trigger] parent[v] == NO_VERTEX && dist[v] != INF ==> sources.contains(v as usize) && dist[v] == 0
}

/// What a Bellman-Ford run establishes: every finite distance is the length
/// of a walk from a source, no walk of at most `iterations` edges is
/// shorter, the flag says whether some edge can still be relaxed, and
/// without such an edge every distance is the shortest one.
#[verifier::opaque]
pub open spec fn bellman_ford_outcome(
    adj: Seq<Seq<(usize, i64)>>,
    sources: Seq<usize>,
    dist: Seq<i128>,
    r: SsspResult,
) -> bool {
    &&& all_achieved(adj, sources, dist)
    &&& forall|v: int| 0 <= v < dist.len() ==> lower_bound_within(adj, sources, v, #[trigger] dist[v] as int, r.iterations as int)
    &&& forall|v: int| 0 <= v < dist.len() && #[trigger] dist[v] != INF ==> achieved_within(adj, sources, v, dist[v] as int, r.iterations as int)
    &&& r.negative_cycle == !all_relaxed(adj, dist)
    &&& !r.negative_cycle ==> forall|v: int| 0 <= v < dist.len() ==> is_shortest(adj, sources, v, #[trigger] dist[v])
    &&& r.iterations < adj.len() || r.iterations == 0
    &&& r.vertices_reached == count_finite(dist)
    &&& r.total_distance == finite_total(dist)
}

proof fn lemma_outcome(adj: Seq<Seq<(usize, i64)>>, src: Seq<usize>, dist: Seq<i128>, r: SsspResult)
    requires
        all_achieved(adj, src, dist),
        forall|v: int| 0 <= v < dist.len() ==> lower_bound_within(adj, src, v, #[trigger] dist[v] as int, r.iterations as int),
        forall|v: int| 0 <= v < dist.len() && #[trigger] dist[v] != INF ==> achieved_within(adj, src, v, dist[v] as int, r.iterations as int),
        r.negative_cycle == !all_relaxed(adj, dist),
        !r.negative_cycle ==> forall|v: int| 0 <= v < dist.len() ==> is_shortest(adj, src, v, #[trigger] dist[v]),
        r.iterations < adj.len() || r.iterations == 0,
        r.vertices_reached == count_finite(dist),
        r.total_distance == finite_total(dist),
    ensures
        bellman_ford_outcome(adj, src, dist, r),
{
    reveal(bellman_ford_outcome);
}

/// Negative-cycle detection and the summary of a run after its rounds.
fn finish_run<G: Graph>(graph: &G, buffers: &SsspBuffers, iterations: usize, Ghost(src): Ghost<Seq<usize>>) -> (r: SsspResult)
    requires
        valid_adjacency(graph.adjacency()),
        buffers.wf(),
        buffers.dist@.len() == graph.adjacency().len(),
        sources_valid(src, graph.adjacency().len() as int),
        iterations < graph.adjacency().len(),
        forall|i: int| 0 <= i < src.len() ==> buffers.dist@[#[trigger] src[i] as int] <= 0,
        forall|v: int| 0 <= v < buffers.dist@.len() && #[trigger] buffers.dist@[v] != INF ==> achieved_within(graph.adjacency(), src, v, buffers.dist@[v] as int, iterations as int),
        forall|v: int| 0 <= v < buffers.dist@.len() ==> lower_bound_within(graph.adjacency(), src, v, #[trigger] buffers.dist@[v] as int, iterations as int),
        dist_bounded(buffers.dist@, iterations as int),
    ensures
        bellman_ford_outcome(graph.adjacency(), src, buffers.dist@, r),
        r.iterations == iterations,
        r.negative_cycle == !all_relaxed(graph.adjacency(), buffers.dist@),
{
    let ghost adj = graph.adjacency();
    let _n = graph.n();
    let negative_cycle = detect_negative_cycle(graph, buffers, Ghost(iterations as int));
    proof {
        lemma_final(adj, src, buffers.dist@, iterations as int, negative_cycle);
    }
    let r = finalize_sssp(buffers, iterations, negative_cycle);
    proof {
        lemma_outcome(adj, src, buffers.dist@, r);
    }
    r
}

impl BellmanFord {
    /// Multi-source with observer.
    pub fn run_from_observed<G: Graph, F: FnMut(Event)>(
        &mut self,
        graph: &G,
        sources: &[usize],
        buffers: &mut SsspBuffers,
        observer: F,
    ) -> (r: SsspResult)
        requires
            valid_adjacency(graph.adjacency()),
            old(buffers).wf(),
            old(buffers).dist@.len() == graph.adjacency().len(),
            sources@.len() > 0,
            sources_valid(sources@, graph.adjacency().len() as int),
            forall|e: Event| call_requires(observer, (e,)),
        ensures
            final(self).settings() == old(self).settings(),
            final(buffers).wf(),
            final(buffers).dist@.len() == old(buffers).dist@.len(),
            bellman_ford_outcome(graph.adjacency(), sources@, final(buffers).dist@, r),
            !r.negative_cycle ==> parent_tree(graph.adjacency(), sources@, final(buffers).dist@, final(buffers).parent@),
            bf_parents(sources@, final(buffers).dist@, final(buffers).parent@),
            r.iterations + 1 == graph.adjacency().len() || (old(self).settings().stops_early() && r.iterations + 1 < graph.adjacency().len() && !r.negative_cycle
                && last_round_idle(graph.adjacency(), sources@, final(buffers).dist@, r.iterations as int)),
            old(self).settings().stops_early() ==> forall|j: int| 1 <= j < r.iterations ==> #[trigger] round_progress(graph.adjacency(), sources@, j),
    {
        let mut observer = observer;
        let ghost adj = graph.adjacency();
        let ghost src = sources@;
        init_sssp(buffers, sources);
        let n = graph.n();
        let early = self.config.early_termination;
        proof {
            lemma_initial(adj, src, buffers.dist@);
            lemma_bf_tree_initial(adj, src, buffers.dist@, buffers.parent@);
        }
        let iterations = relax_rounds(&mut self.best, graph, buffers, early, &mut observer, Ghost(src));
        proof {
            assert(src[0] < n);
        }
        finish_run(graph, buffers, iterations, Ghost(src))
    }

    pub fn run_from<G: Graph>(&mut self, graph: &G, sources: &[usize], buffers: &mut SsspBuffers) -> (r: SsspResult)
        requires
            valid_adjacency(graph.adjacency()),
            old(buffers).wf(),
            old(buffers).dist@.len() == graph.adjacency().len(),
            sources@.len() > 0,
            sources_valid(sources@, graph.adjacency().len() as int),
        ensures
            final(self).settings() == old(self).settings(),
            final(buffers).wf(),
            final(buffers).dist@.len() == old(buffers).dist@.len(),
            bellman_ford_outcome(graph.adjacency(), sources@, final(buffers).dist@, r),
            !r.negative_cycle ==> parent_tree(graph.adjacency(), sources@, final(buffers).dist@, final(buffers).parent@),
            bf_parents(sources@, final(buffers).dist@, final(buffers).parent@),
            r.iterations + 1 == graph.adjacency().len() || (old(self).settings().stops_early() && r.iterations + 1 < graph.adjacency().len() && !r.negative_cycle
                && last_round_idle(graph.adjacency(), sources@, final(buffers).dist@, r.iterations as int)),
            old(self).settings().stops_early() ==> forall|j: int| 1 <= j < r.iterations ==> #[trigger] round_progress(graph.adjacency(), sources@, j),
    {
        let ignore = |e: Event| {};
        self.run_from_observed(graph, sources, buffers, ignore)
    }
}

impl<G: Graph> SsspAlgorithm<G> for BellmanFord {
    /// Any valid graph, negative weights included.
    open spec fn accepts(&self, adj: Seq<Seq<(usize, i64)>>) -> bool {
        true
    }

    fn run_observed<F: FnMut(Event)>(&mut self, graph: &G, source: usize, buffers: &mut SsspBuffers, observer: F) -> (r: SsspResult)
        ensures
            final(self).settings() == old(self).settings(),
            bellman_ford_outcome(graph.adjacency(), seq![source], final(buffers).dist@, r),
            !r.negative_cycle ==> parent_tree(graph.adjacency(), seq![source], final(buffers).dist@, final(buffers).parent@),
            bf_parents(seq![source], final(buffers).dist@, final(buffers).parent@),
            r.iterations + 1 == graph.adjacency().len() || (old(self).settings().stops_early() && r.iterations + 1 < graph.adjacency().len() && !r.negative_cycle
                && last_round_idle(graph.adjacency(), seq![source], final(buffers).dist@, r.iterations as int)),
            old(self).settings().stops_early() ==> forall|j: int| 1 <= j < r.iterations ==> #[trigger] round_progress(graph.adjacency(), seq![source], j),
    {
        let sources = vec![source];
        assert(sources@ =~= seq![source]);
        let r = self.run_from_observed(graph, sources.as_slice(), buffers, observer);
        proof {
            reveal(bellman_ford_outcome);
        }
        r
    }

    fn run(&mut self, graph: &G, source: usize, buffers: &mut SsspBuffers) -> (r: SsspResult)
        ensures
            final(self).settings() == old(self).settings(),
            bellman_ford_outcome(graph.adjacency(), seq![source], final(buffers).dist@, r),
            !r.negative_cycle ==> parent_tree(graph.adjacency(), seq![source], final(buffers).dist@, final(buffers).parent@),
            bf_parents(seq![source], final(buffers).dist@, final(buffers).parent@),
            r.iterations + 1 == graph.adjacency().len() || (old(self).settings().stops_early() && r.iterations + 1 < graph.adjacency().len() && !r.negative_cycle
                && last_round_idle(graph.adjacency(), seq![source], final(buffers).dist@, r.iterations as int)),
            old(self).settings().stops_early() ==> forall|j: int| 1 <= j < r.iterations ==> #[trigger] round_progress(graph.adjacency(), seq![source], j),
    {
        let sources = vec![source];
        assert(sources@ =~= seq![source]);
        let r = self.run_from(graph, sources.as_slice(), buffers);
        proof {
            reveal(bellman_ford_outcome);
        }
        r
    }
}

/// One-shot Bellman-Ford, no early stop.
pub fn bellman_ford<G: Graph>(graph: &G, source: usize, buffers: &mut SsspBuffers) -> (r: SsspResult)
    requires
        valid_adjacency(graph.adjacency()),
        old(buffers).wf(),
        old(buffers).dist@.len() == graph.adjacency().len(),
        source < graph.adjacency().len(),
    ensures
        final(buffers).wf(),
        final(buffers).dist@.len() == old(buffers).dist@.len(),
        bellman_ford_outcome(graph.adjacency(), seq![source], final(buffers).dist@, r),
        !r.negative_cycle ==> parent_tree(graph.adjacency(), seq![source], final(buffers).dist@, final(buffers).parent@),
        bf_parents(seq![source], final(buffers).dist@, final(buffers).parent@),
        r.iterations + 1 == graph.adjacency().len() || (r.iterations + 1 < graph.adjacency().len() && !r.negative_cycle
            && last_round_idle(graph.adjacency(), seq![source], final(buffers).dist@, r.iterations as int)),
        forall|j: int| 1 <= j < r.iterations ==> #[trigger] round_progress(graph.adjacency(), seq![source], j),
{
    let mut bf = BellmanFord::new();
    bf.run(graph, source, buffers)
}

/// One-shot Bellman-Ford from many sources; each vertex gets distance to nearest source.
pub fn bellman_ford_multi<G: Graph>(graph: &G, sources: &[usize], buffers: &mut SsspBuffers) -> (r: SsspResult)
    requires
        valid_adjacency(graph.adjacency()),
        old(buffers).wf(),
        old(buffers).dist@.len() == graph.adjacency().len(),
        sources@.len() > 0,
        sources_valid(sources@, graph.adjacency().len() as int),
    ensures
        final(buffers).wf(),
        final(buffers).dist@.len() == old(buffers).dist@.len(),
        bellman_ford_outcome(graph.adjacency(), sources@, final(buffers).dist@, r),
        !r.negative_cycle ==> parent_tree(graph.adjacency(), sources@, final(buffers).dist@, final(buffers).parent@),
        bf_parents(sources@, final(buffers).dist@, final(buffers).parent@),
        r.iterations + 1 == graph.adjacency().len() || (r.iterations + 1 < graph.adjacency().len() && !r.negative_cycle
            && last_round_idle(graph.adjacency(), sources@, final(buffers).dist@, r.iterations as int)),
        forall|j: int| 1 <= j < r.iterations ==> #[trigger] round_progress(graph.adjacency(), sources@, j),
{
    let mut bf = BellmanFord::new();
    bf.run_from(graph, sources, buffers)
}

} // verus!
