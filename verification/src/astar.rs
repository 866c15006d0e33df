//! A* search towards one target, for non-negative weights.
use vstd::prelude::*;
use vstd::multiset::Multiset;
use crate::buffers::{SsspBuffers, ancestor, lemma_ancestor_step, reaches_root, tree_edge, tree_path, tree_step};
use crate::graph::NO_VERTEX;
use crate::common::{Event, SsspAlgorithm, SsspAlgorithmInfo, SsspResult, count_finite, finalize_sssp, finite_total, init_sssp, saturating_add_i128, clamp_i128};
use crate::dijkstra::{lemma_seq_sum_nonneg, lemma_seq_sum_update, parents_clean, seq_sum};
use crate::graph::{Graph, nonnegative_weights, valid_adjacency};
use crate::heap::BinaryHeap;
use crate::relaxation::RelaxResult;
use crate::heap::entry_le;
use crate::simple_walks::lemma_walk_concat;
use crate::walks::{INF, achieved, all_achieved, edge_relaxed, is_shortest, is_walk, lemma_nonnegative_walk, lemma_relaxed_is_lower_bound_nonneg, lemma_walk_push, reaches, sources_valid, vertex_relaxed, walk_end, walk_len};

verus! {

broadcast use vstd::multiset::group_multiset_axioms;

/// A* heuristic. Must be admissible (never overestimates) for optimal paths.
pub trait Heuristic: Clone {
    /// The estimate of the distance from `vertex` to `target`.
    spec fn guess(&self, vertex: usize, target: usize) -> i64;

    fn estimate(&self, vertex: usize, target: usize) -> (r: i64)
        ensures
            r == self.guess(vertex, target),
    ;
}

/// Zero heuristic (reduces A* to Dijkstra).
#[derive(Clone, Debug, Default)]
pub struct ZeroHeuristic;

impl Heuristic for ZeroHeuristic {
    open spec fn guess(&self, vertex: usize, target: usize) -> i64 {
        0
    }

    fn estimate(&self, vertex: usize, target: usize) -> (r: i64) {
        0
    }
}

/// A* config. `lazy_deletion` skips stale heap entries.
#[derive(Clone, Debug)]
pub struct AStarConfig<H> {
    pub target: usize,
    pub heuristic: H,
    pub lazy_deletion: bool,
}

impl<H> AStarConfig<H> {
    pub fn new(target: usize, heuristic: H) -> (r: Self)
        ensures
            r.target == target,
            r.heuristic == heuristic,
            r.lazy_deletion,
    {
        AStarConfig { target, heuristic, lazy_deletion: true }
    }

    pub fn without_lazy_deletion(self) -> (r: Self)
        ensures
            r.target == self.target,
            r.heuristic == self.heuristic,
            !r.lazy_deletion,
    {
        let mut c = self;
        c.lazy_deletion = false;
        c
    }
}

/// A* search. Admissible heuristic required for optimal paths.
#[derive(Debug)]
pub struct AStar<Heur: Heuristic> {
    config: AStarConfig<Heur>,
    heap: BinaryHeap,
}

impl<Heur: Heuristic> AStar<Heur> {
    /// The configuration in force.
    pub closed spec fn settings(&self) -> AStarConfig<Heur> {
        self.config
    }

    pub fn new(target: usize, heuristic: Heur) -> (r: Self)
        ensures
            r.settings().target == target,
            r.settings().heuristic == heuristic,
            r.settings().lazy_deletion,
    {
        AStar { config: AStarConfig::new(target, heuristic), heap: BinaryHeap::new() }
    }

    pub fn with_config(config: AStarConfig<Heur>) -> (r: Self)
        ensures
            r.settings() == config,
    {
        AStar { config, heap: BinaryHeap::new() }
    }

    pub fn with_capacity(target: usize, heuristic: Heur, capacity: usize) -> (r: Self)
        ensures
            r.settings().target == target,
            r.settings().heuristic == heuristic,
            r.settings().lazy_deletion,
    {
        AStar { config: AStarConfig::new(target, heuristic), heap: BinaryHeap::with_capacity(capacity) }
    }

    pub fn config(&self) -> (r: &AStarConfig<Heur>)
        ensures
            *r == self.settings(),
    {
        &self.config
    }

    pub fn config_mut(&mut self) -> (r: &mut AStarConfig<Heur>)
        ensures
            *r == old(self).settings(),
            final(self).settings() == *final(r),
    {
        &mut self.config
    }
}

impl<Heur: Heuristic> SsspAlgorithmInfo for AStar<Heur> {
    fn name(&self) -> (r: &'static str)
        ensures
            r@ == "A*"@,
    {
        "A*"
    }

    fn supports_negative_weights(&self) -> (r: bool)
        ensures
            !r,
    {
        false
    }
}

/// The state of an A* search between two pops.
spec fn astar_inv(adj: Seq<Seq<(usize, i64)>>, source: usize, dist: Seq<i128>, h: Multiset<(i128, usize)>) -> bool {
    &&& dist.len() == adj.len()
    &&& adj.len() <= usize::MAX
    &&& valid_adjacency(adj)
    &&& nonnegative_weights(adj)
    &&& source < adj.len()
    &&& dist[source as int] == 0
    &&& forall|v: int| 0 <= v < dist.len() ==> #[trigger] dist[v] >= 0
    &&& all_achieved(adj, seq![source], dist)
    &&& forall|x: (i128, usize)| #[trigger] h.contains(x) ==> x.1 < dist.len() && dist[x.1 as int] < INF
}

/// The key under which A* files `v` at distance `d`: `d` plus the estimate
/// of `v`, saturating at the bounds of `i128`.
pub open spec fn astar_key<H: Heuristic>(heuristic: H, target: usize, v: usize, d: i128) -> i128 {
    clamp_i128(d + heuristic.guess(v, target))
}

/// The heuristic never overestimates: for every vertex `v` with a walk to
/// `target`, its estimate is non-negative and at most the length of that walk.
pub open spec fn admissible<H: Heuristic>(adj: Seq<Seq<(usize, i64)>>, heuristic: H, target: usize) -> bool {
    forall|v: int, es: Seq<(int, int)>|
        0 <= v < adj.len() && #[trigger] reaches(adj, v, es, target as int) ==> 0 <= heuristic.guess(v as usize, target)
            <= walk_len(adj, es)
}

/// The open and closed vertices of a search: a closed vertex was expanded at
/// its present distance, so its out-edges are relaxed; every other vertex with
/// a finite distance waits in the heap under its present key; and no heap
/// entry is filed under less than the present key of its vertex.
spec fn frontier_ok<H: Heuristic>(
    adj: Seq<Seq<(usize, i64)>>,
    heuristic: H,
    target: usize,
    dist: Seq<i128>,
    h: Multiset<(i128, usize)>,
    closed: Set<int>,
) -> bool {
    &&& forall|v: int| #[trigger] closed.contains(v) ==> 0 <= v < dist.len() && dist[v] < INF && vertex_relaxed(adj, dist, v)
    &&& forall|v: int|
        0 <= v < dist.len() && dist[v] < INF && !closed.contains(v) ==> #[trigger] h.count(
            (astar_key(heuristic, target, v as usize, dist[v]), v as usize),
        ) > 0
    &&& forall|x: (i128, usize)| #[trigger] h.contains(x) ==> x.0 >= astar_key(heuristic, target, x.1, dist[x.1 as int])
}

/// Lowering distances elsewhere keeps the out-edges of a vertex relaxed.
proof fn lemma_relaxed_mono(adj: Seq<Seq<(usize, i64)>>, d0: Seq<i128>, d1: Seq<i128>, v: int)
    requires
        valid_adjacency(adj),
        d0.len() == adj.len(),
        d1.len() == adj.len(),
        0 <= v < adj.len(),
        forall|x: int| 0 <= x < d1.len() ==> #[trigger] d1[x] <= d0[x],
        d1[v] == d0[v],
        vertex_relaxed(adj, d0, v),
    ensures
        vertex_relaxed(adj, d1, v),
{
    assert forall|i: int| 0 <= i < adj[v].len() implies #[trigger] edge_relaxed(adj, d1, v, i) by {
        assert(edge_relaxed(adj, d0, v, i));
        assert(adj[v][i].0 < adj.len());
    }
}

/// Along any walk `q` from the source, either its end `y` is closed with a
/// distance no larger than the walk, or every way of going on from `y` to the
/// target is, in total, no shorter than the smallest key in the heap.
proof fn lemma_astar_cut<H: Heuristic>(
    adj: Seq<Seq<(usize, i64)>>,
    heuristic: H,
    target: usize,
    source: usize,
    dist: Seq<i128>,
    h: Multiset<(i128, usize)>,
    closed: Set<int>,
    fmin: i128,
    q: Seq<(int, int)>,
)
    requires
        valid_adjacency(adj),
        nonnegative_weights(adj),
        dist.len() == adj.len(),
        source < adj.len(),
        dist[source as int] == 0,
        forall|v: int| 0 <= v < dist.len() ==> #[trigger] dist[v] >= 0,
        frontier_ok(adj, heuristic, target, dist, h, closed),
        forall|x: (i128, usize)| #[trigger] h.contains(x) ==> fmin <= x.0,
        admissible(adj, heuristic, target),
        is_walk(adj, source as int, q),
    ensures
        0 <= walk_end(adj, source as int, q) < adj.len(),
        ({
            let y = walk_end(adj, source as int, q);
            ||| closed.contains(y) && dist[y] <= walk_len(adj, q)
            ||| forall|r: Seq<(int, int)>|
                #[trigger] reaches(adj, y, r, target as int) && walk_len(adj, q) + walk_len(adj, r) < INF ==> fmin
                    <= walk_len(adj, q) + walk_len(adj, r)
        }),
    decreases q.len(),
{
    let y = walk_end(adj, source as int, q);
    if q.len() > 0 {
        let q0 = q.drop_last();
        let e = q.last();
        lemma_astar_cut(adj, heuristic, target, source, dist, h, closed, fmin, q0);
        let x = walk_end(adj, source as int, q0);
        assert(adj[x][e.1].0 < adj.len());
        assert(adj[x][e.1].1 >= 0);
        assert(y == adj[x][e.1].0);
        if closed.contains(x) && dist[x] <= walk_len(adj, q0) {
            assert(vertex_relaxed(adj, dist, x));
            assert(edge_relaxed(adj, dist, x, e.1));
        } else {
            assert forall|r: Seq<(int, int)>|
                #[trigger] reaches(adj, y, r, target as int) && walk_len(adj, q) + walk_len(adj, r) < INF implies fmin
                    <= walk_len(adj, q) + walk_len(adj, r) by {
                let one = seq![e];
                assert(one.drop_last() =~= Seq::<(int, int)>::empty());
                assert(one.last() == e);
                assert(is_walk(adj, x, Seq::<(int, int)>::empty()));
                assert(walk_len(adj, Seq::<(int, int)>::empty()) == 0);
                assert(is_walk(adj, x, one));
                assert(walk_len(adj, one) == adj[x][e.1].1);
                lemma_walk_concat(adj, x, one, r);
                assert(reaches(adj, x, one + r, target as int));
            }
            return;
        }
    }
    if !(closed.contains(y) && dist[y] <= walk_len(adj, q)) {
        assert forall|r: Seq<(int, int)>|
            #[trigger] reaches(adj, y, r, target as int) && walk_len(adj, q) + walk_len(adj, r) < INF implies fmin
                <= walk_len(adj, q) + walk_len(adj, r) by {
            lemma_nonnegative_walk(adj, y, r);
            assert(dist[y] < INF);
            assert(!closed.contains(y));
            let k = astar_key(heuristic, target, y as usize, dist[y]);
            assert(h.count((k, (y as usize))) > 0);
            assert(h.contains((k, y as usize)));
            assert(0 <= heuristic.guess(y as usize, target) <= walk_len(adj, r));
        }
    }
}

/// When the target leaves the heap as its smallest entry, its distance is
/// shortest (for an admissible heuristic).
proof fn lemma_astar_target<H: Heuristic>(
    adj: Seq<Seq<(usize, i64)>>,
    heuristic: H,
    target: usize,
    source: usize,
    dist: Seq<i128>,
    h: Multiset<(i128, usize)>,
    closed: Set<int>,
    f: i128,
)
    requires
        astar_inv(adj, source, dist, h),
        frontier_ok(adj, heuristic, target, dist, h, closed),
        h.contains((f, target)),
        forall|x: (i128, usize)| #[trigger] h.contains(x) ==> entry_le((f, target), x),
        admissible(adj, heuristic, target),
    ensures
        is_shortest(adj, seq![source], target as int, dist[target as int]),
{
    let t = target as int;
    assert(t < dist.len() && dist[t] < INF);
    assert(reaches(adj, t, Seq::<(int, int)>::empty(), t));
    assert(0 <= heuristic.guess(target, target) <= 0);
    assert(f >= astar_key(heuristic, target, target, dist[t]));
    assert forall|x: (i128, usize)| #[trigger] h.contains(x) implies f <= x.0 by {
        assert(entry_le((f, target), x));
    }
    assert forall|s: usize, es: Seq<(int, int)>|
        #[trigger] seq![source].contains(s) && #[trigger] reaches(adj, s as int, es, t) implies dist[t] <= walk_len(adj, es) by {
        assert(s == source) by {
            assert(seq![source][0] == source);
        }
        lemma_astar_cut(adj, heuristic, target, source, dist, h, closed, f, es);
        let r = Seq::<(int, int)>::empty();
        assert(reaches(adj, t, r, t));
        assert(walk_len(adj, r) == 0);
        assert(es + r =~= es);
    }
}

/// When the heap runs empty, every vertex holds its shortest distance.
proof fn lemma_astar_exhausted<H: Heuristic>(
    adj: Seq<Seq<(usize, i64)>>,
    heuristic: H,
    target: usize,
    source: usize,
    dist: Seq<i128>,
    h: Multiset<(i128, usize)>,
    closed: Set<int>,
)
    requires
        astar_inv(adj, source, dist, h),
        frontier_ok(adj, heuristic, target, dist, h, closed),
        h.len() == 0,
    ensures
        forall|v: int| 0 <= v < adj.len() ==> is_shortest(adj, seq![source], v, #[trigger] dist[v]),
{
    assert forall|u: int| 0 <= u < adj.len() implies #[trigger] vertex_relaxed(adj, dist, u) by {
        if dist[u] < INF && !closed.contains(u) {
            assert(h.count((astar_key(heuristic, target, u as usize, dist[u]), u as usize)) > 0);
        }
        if !closed.contains(u) {
            assert forall|i: int| 0 <= i < adj[u].len() implies #[trigger] edge_relaxed(adj, dist, u, i) by {
            }
        }
    }
    let src = seq![source];
    assert forall|i: int| 0 <= i < src.len() implies dist[#[trigger] src[i] as int] <= 0 by {
    }
    assert(sources_valid(src, adj.len() as int));
    lemma_relaxed_is_lower_bound_nonneg(adj, src, dist);
}

/// How one expansion of `u` from distance `g_u` leaves vertex `v`: improved
/// through an edge out of `u` (and `u` is its parent), or untouched.
pub open spec fn improved_from(
    adj: Seq<Seq<(usize, i64)>>,
    d0: Seq<i128>,
    p0: Seq<usize>,
    d1: Seq<i128>,
    p1: Seq<usize>,
    u: int,
    g_u: i128,
    v: int,
) -> bool {
    if d1[v] < d0[v] {
        &&& p1[v] == u as usize
        &&& exists|e: int| 0 <= e < adj[u].len() && (#[trigger] adj[u][e]).0 == v && d1[v] == g_u + adj[u][e].1
    } else {
        &&& d1[v] == d0[v]
        &&& p1[v] == p0[v]
    }
}

/// The parent pointer of a reached vertex `v`: none for the source; else an
/// edge `u -> v` with `dist[v] == pd[v] + weight`, where `pd[v]` was the
/// distance of `u` when the pointer was set; `u` has not grown since, and
/// while it has not shrunk either, `u` was last improved before `v`.
spec fn astar_link(
    adj: Seq<Seq<(usize, i64)>>,
    source: usize,
    dist: Seq<i128>,
    parent: Seq<usize>,
    rank: Seq<nat>,
    pd: Seq<int>,
    v: int,
) -> bool {
    if parent[v] == NO_VERTEX {
        v == source as int
    } else {
        let u = parent[v] as int;
        &&& u < dist.len()
        &&& pd[v] < INF
        &&& dist[u] <= pd[v]
        &&& exists|e: int| 0 <= e < adj[u].len() && (#[trigger] adj[u][e]).0 == v && dist[v] == pd[v] + adj[u][e].1
        &&& dist[u] == pd[v] ==> rank[u] < rank[v]
    }
}

/// The parent pointers during the search; `rank[v]` counts the improvements
/// made up to the last one of `v` (at most `time`).
spec fn astar_tree_inv(
    adj: Seq<Seq<(usize, i64)>>,
    source: usize,
    dist: Seq<i128>,
    parent: Seq<usize>,
    rank: Seq<nat>,
    pd: Seq<int>,
    time: nat,
) -> bool {
    &&& parent.len() == dist.len()
    &&& rank.len() == dist.len()
    &&& pd.len() == dist.len()
    &&& dist.len() <= usize::MAX
    &&& forall|v: int| 0 <= v < rank.len() ==> #[trigger] rank[v] <= time
    &&& forall|v: int| 0 <= v < dist.len() && dist[v] < INF ==> #[trigger] astar_link(adj, source, dist, parent, rank, pd, v)
}

proof fn lemma_astar_tree_initial(adj: Seq<Seq<(usize, i64)>>, source: usize, dist: Seq<i128>, parent: Seq<usize>)
    requires
        parent.len() == dist.len(),
        dist.len() <= usize::MAX,
        forall|v: int| 0 <= v < dist.len() ==> #[trigger] dist[v] == (if seq![source].contains(v as usize) { 0 } else { INF }),
        parent == Seq::new(dist.len(), |i: int| NO_VERTEX),
    ensures
        astar_tree_inv(adj, source, dist, parent, Seq::new(dist.len(), |i: int| 0nat), Seq::new(dist.len(), |i: int| 0int), 0),
{
    let rank = Seq::new(dist.len(), |i: int| 0nat);
    let pd = Seq::new(dist.len(), |i: int| 0int);
    assert forall|v: int| 0 <= v < dist.len() && dist[v] < INF implies #[trigger] astar_link(adj, source, dist, parent, rank, pd, v) by {
        assert(seq![source].contains(v as usize));
        assert(seq![source][0] == source);
    }
}

/// One expansion of `u` from `g_u` keeps the parent pointers.
proof fn lemma_astar_tree_step(
    adj: Seq<Seq<(usize, i64)>>,
    source: usize,
    d0: Seq<i128>,
    p0: Seq<usize>,
    d1: Seq<i128>,
    p1: Seq<usize>,
    u: int,
    g_u: i128,
    rank: Seq<nat>,
    pd: Seq<int>,
    time: nat,
)
    requires
        astar_tree_inv(adj, source, d0, p0, rank, pd, time),
        d1.len() == d0.len(),
        p1.len() == p0.len(),
        0 <= u < d0.len(),
        d0[u] == g_u,
        d1[u] == g_u,
        g_u < INF,
        forall|v: int| 0 <= v < d0.len() ==> #[trigger] improved_from(adj, d0, p0, d1, p1, u, g_u, v),
    ensures
        astar_tree_inv(
            adj,
            source,
            d1,
            p1,
            Seq::new(d0.len(), |v: int| if d1[v] < d0[v] { (time + 1) as nat } else { rank[v] }),
            Seq::new(d0.len(), |v: int| if d1[v] < d0[v] { g_u as int } else { pd[v] }),
            time + 1,
        ),
{
    let rank1 = Seq::new(d0.len(), |v: int| if d1[v] < d0[v] { (time + 1) as nat } else { rank[v] });
    let pd1 = Seq::new(d0.len(), |v: int| if d1[v] < d0[v] { g_u as int } else { pd[v] });
    assert forall|v: int| 0 <= v < rank1.len() implies #[trigger] rank1[v] <= time + 1 by {
        assert(rank[v] <= time);
    }
    assert forall|v: int| 0 <= v < d1.len() && d1[v] < INF implies #[trigger] astar_link(adj, source, d1, p1, rank1, pd1, v) by {
        assert(improved_from(adj, d0, p0, d1, p1, u, g_u, v));
        assert(improved_from(adj, d0, p0, d1, p1, u, g_u, u));
        if d1[v] < d0[v] {
            assert(p1[v] == u as usize);
            assert(u as usize != NO_VERTEX);
            assert(rank1[u] == rank[u]);
        } else {
            assert(astar_link(adj, source, d0, p0, rank, pd, v));
            if p0[v] != NO_VERTEX {
                let w = p0[v] as int;
                assert(improved_from(adj, d0, p0, d1, p1, u, g_u, w));
                assert(d1[w] <= d0[w]);
                if d1[w] == pd1[v] {
                    assert(d0[w] == pd[v]);
                    assert(rank1[w] == rank[w]);
                }
            }
        }
    }
}

/// From a vertex with its shortest distance, the parent pointers lead back
/// to the source along edges of matching weights.
proof fn lemma_astar_tree_path(
    adj: Seq<Seq<(usize, i64)>>,
    source: usize,
    dist: Seq<i128>,
    parent: Seq<usize>,
    rank: Seq<nat>,
    pd: Seq<int>,
    time: nat,
    v: usize,
)
    requires
        astar_tree_inv(adj, source, dist, parent, rank, pd, time),
        dist.len() == adj.len(),
        all_achieved(adj, seq![source], dist),
        v < dist.len(),
        dist[v as int] < INF,
        is_shortest(adj, seq![source], v as int, dist[v as int]),
    ensures
        tree_path(adj, seq![source], dist, parent, v),
    decreases rank[v as int],
{
    assert(astar_link(adj, source, dist, parent, rank, pd, v as int));
    let src = seq![source];
    assert(src[0] == source);
    if parent[v as int] == NO_VERTEX {
        assert(ancestor(parent, v, 1) == parent[ancestor(parent, v, 0) as int]);
        assert(reaches_root(parent, v, 1));
        assert(tree_step(adj, src, dist, parent, ancestor(parent, v, 0)));
        assert forall|j: nat| j < 1 implies #[trigger] tree_step(adj, src, dist, parent, ancestor(parent, v, j)) by {
        }
    } else {
        let u = parent[v as int] as int;
        let e = choose|e: int| 0 <= e < adj[u].len() && (#[trigger] adj[u][e]).0 == v && dist[v as int] == pd[v as int] + adj[u][e].1;
        assert(dist[u] < INF);
        // The walk to `u` and the edge reach `v`.
        let (s0, wu) = choose|s0: usize, wu: Seq<(int, int)>|
            #[trigger] src.contains(s0) && #[trigger] reaches(adj, s0 as int, wu, u) && walk_len(adj, wu) == dist[u] as int;
        assert(adj[u][e].0 < adj.len()) by {
            assert(v < dist.len());
        }
        lemma_walk_push(adj, s0 as int, wu, (u, e));
        assert(reaches(adj, s0 as int, wu.push((u, e)), v as int));
        assert(dist[v as int] <= dist[u] + adj[u][e].1);
        assert(dist[u] == pd[v as int]);
        assert(rank[u] < rank[v as int]);
        assert(tree_edge(adj, dist, u, v as int));
        // `u` holds its shortest distance too.
        assert forall|s: usize, q: Seq<(int, int)>| #[trigger] src.contains(s) && #[trigger] reaches(adj, s as int, q, u) implies dist[u] <= walk_len(adj, q) by {
            lemma_walk_push(adj, s as int, q, (u, e));
            assert(reaches(adj, s as int, q.push((u, e)), v as int));
        }
        assert(is_shortest(adj, src, u, dist[u]));
        lemma_astar_tree_path(adj, source, dist, parent, rank, pd, time, u as usize);
        let k = choose|k: nat|
            #[trigger] reaches_root(parent, u as usize, k) && 0 < k && forall|j: nat| j < k ==> #[trigger] tree_step(adj, src, dist, parent, ancestor(parent, u as usize, j));
        assert forall|j: nat| j < k + 1 implies #[trigger] ancestor(parent, v, j) != NO_VERTEX && ancestor(parent, v, j) < parent.len() by {
            if j > 0 {
                lemma_ancestor_step(parent, v, (j - 1) as nat);
                assert(ancestor(parent, u as usize, (j - 1) as nat) != NO_VERTEX);
            }
        }
        lemma_ancestor_step(parent, v, k);
        assert(reaches_root(parent, v, k + 1));
        assert forall|j: nat| j < k + 1 implies #[trigger] tree_step(adj, src, dist, parent, ancestor(parent, v, j)) by {
            if j > 0 {
                lemma_ancestor_step(parent, v, (j - 1) as nat);
                assert(tree_step(adj, src, dist, parent, ancestor(parent, u as usize, (j - 1) as nat)));
            } else {
                assert(ancestor(parent, v, 0) == v);
            }
        }
    }
}

/// Relaxes every out-edge of `u` from its current distance `g_u`, pushing
/// each improved vertex under its new key.
fn astar_relax_out_edges<G: Graph, Heur: Heuristic, F: FnMut(Event)>(
    heap: &mut BinaryHeap,
    graph: &G,
    buffers: &mut SsspBuffers,
    heuristic: &Heur,
    target: usize,
    u: usize,
    g_u: i128,
    observer: &mut F,
    Ghost(source): Ghost<usize>,
)
    requires
        old(buffers).wf(),
        u < graph.adjacency().len(),
        g_u == old(buffers).dist@[u as int],
        g_u < INF,
        astar_inv(graph.adjacency(), source, old(buffers).dist@, old(heap)@),
        forall|x: (i128, usize)| #[trigger] old(heap)@.contains(x) ==> x.0 >= astar_key(*heuristic, target, x.1, old(buffers).dist@[x.1 as int]),
        forall|e: Event| call_requires(*old(observer), (e,)),
    ensures
        final(buffers).wf(),
        astar_inv(graph.adjacency(), source, final(buffers).dist@, final(heap)@),
        final(heap)@.len() + 2 * seq_sum(final(buffers).dist@) <= old(heap)@.len() + 2 * seq_sum(old(buffers).dist@),
        forall|e: Event| call_requires(*final(observer), (e,)),
        forall|v: int| 0 <= v < final(buffers).dist@.len() ==> #[trigger] final(buffers).dist@[v] <= old(buffers).dist@[v],
        final(buffers).dist@[u as int] == g_u,
        vertex_relaxed(graph.adjacency(), final(buffers).dist@, u as int),
        forall|v: int|
            0 <= v < final(buffers).dist@.len() && #[trigger] final(buffers).dist@[v] < old(buffers).dist@[v] ==> final(heap)@.count(
                (astar_key(*heuristic, target, v as usize, final(buffers).dist@[v]), v as usize),
            ) > 0,
        old(heap)@.subset_of(final(heap)@),
        forall|x: (i128, usize)| #[trigger] final(heap)@.contains(x) ==> x.0 >= astar_key(*heuristic, target, x.1, final(buffers).dist@[x.1 as int]),
        forall|v: int| 0 <= v < final(buffers).dist@.len() ==> #[trigger] improved_from(
            graph.adjacency(),
            old(buffers).dist@,
            old(buffers).parent@,
            final(buffers).dist@,
            final(buffers).parent@,
            u as int,
            g_u,
            v,
        ),
{
    let ghost adj = graph.adjacency();
    let ghost dist0 = buffers.dist@;
    let ghost h0 = heap@;
    let ghost n = adj.len();
    let ghost heur = *heuristic;
    let ghost par0 = buffers.parent@;
    let deg = graph.out_degree(u);
    let mut i: usize = 0;
    while i < deg
        invariant
            adj == graph.adjacency(),
            n == adj.len(),
            heur == *heuristic,
            deg == adj[u as int].len(),
            u < n,
            i <= deg,
            buffers.wf(),
            g_u < INF,
            g_u >= 0,
            buffers.dist@[u as int] == g_u,
            dist0.len() == n,
            achieved(adj, seq![source], u as int, g_u as int),
            astar_inv(adj, source, buffers.dist@, heap@),
            forall|e: Event| call_requires(*observer, (e,)),
            heap@.len() + 2 * seq_sum(buffers.dist@) <= h0.len() + 2 * seq_sum(dist0),
            forall|v: int| 0 <= v < n ==> #[trigger] buffers.dist@[v] <= dist0[v],
            forall|j: int| 0 <= j < i ==> #[trigger] edge_relaxed(adj, buffers.dist@, u as int, j),
            forall|v: int|
                0 <= v < n && #[trigger] buffers.dist@[v] < dist0[v] ==> heap@.count(
                    (astar_key(heur, target, v as usize, buffers.dist@[v]), v as usize),
                ) > 0,
            h0.subset_of(heap@),
            forall|x: (i128, usize)| #[trigger] heap@.contains(x) ==> x.0 >= astar_key(heur, target, x.1, buffers.dist@[x.1 as int]),
            par0.len() == n,
            forall|v: int| 0 <= v < n ==> #[trigger] improved_from(adj, dist0, par0, buffers.dist@, buffers.parent@, u as int, g_u, v),
        decreases deg - i,
    {
        let ghost dist1 = buffers.dist@;
        let ghost par1 = buffers.parent@;
        let ghost hp1 = heap@;
        let (v, w, _meta) = graph.out_edge(u, i);
        proof {
            assert(adj[u as int][i as int].0 < n);
            assert(adj[u as int][i as int].1 >= 0);
        }
        let res = buffers.relax_edge(u, g_u, v, w);
        match res {
            RelaxResult::Improved => {
                let new_g = buffers.dist.get(v);
                let h_v = heuristic.estimate(v, target);
                let key = saturating_add_i128(new_g, h_v as i128);
                heap.push(key, v);
                proof {
                    lemma_seq_sum_update(dist1, v as int, new_g);
                    let (s, es) = choose|s: usize, es: Seq<(int, int)>|
                        #[trigger] seq![source].contains(s) && #[trigger] reaches(adj, s as int, es, u as int) && crate::walks::walk_len(adj, es) == g_u as int;
                    lemma_walk_push(adj, s as int, es, (u as int, i as int));
                    assert(reaches(adj, s as int, es.push((u as int, i as int)), v as int));
                    let d = buffers.dist@;
                    assert(v != u);
                    assert forall|x: int| 0 <= x < d.len() && #[trigger] d[x] != INF implies achieved(adj, seq![source], x, d[x] as int) by {
                        if x != v as int {
                            assert(dist1[x] != INF);
                        }
                    }
                    assert forall|x: (i128, usize)| #[trigger] heap@.contains(x) implies x.1 < d.len() && d[x.1 as int] < INF by {
                        if x != (key, v) {
                            assert(hp1.contains(x));
                        }
                    }
                    if v == source {
                        assert(false);
                    }
                    assert forall|x: int| 0 <= x < n implies #[trigger] d[x] <= dist0[x] by {
                        assert(dist1[x] <= dist0[x]);
                    }
                    assert forall|j: int| 0 <= j <= i implies #[trigger] edge_relaxed(adj, d, u as int, j) by {
                        if j < i {
                            assert(edge_relaxed(adj, dist1, u as int, j));
                        }
                    }
                    assert forall|x: int|
                        0 <= x < n && #[trigger] d[x] < dist0[x] implies heap@.count(
                            (astar_key(heur, target, x as usize, d[x]), x as usize),
                        ) > 0 by {
                        if x != v as int {
                            assert(dist1[x] < dist0[x]);
                            assert(hp1.count((astar_key(heur, target, x as usize, dist1[x]), x as usize)) > 0);
                        } else {
                            assert(heap@.count((key, v)) > 0);
                        }
                    }
                    assert forall|x: (i128, usize)| #[trigger] heap@.contains(x) implies x.0 >= astar_key(heur, target, x.1, d[x.1 as int]) by {
                        if x != (key, v) {
                            assert(hp1.contains(x));
                            assert(d[x.1 as int] <= dist1[x.1 as int]);
                        }
                    }
                    assert forall|x: int| 0 <= x < n implies #[trigger] improved_from(adj, dist0, par0, d, buffers.parent@, u as int, g_u, x) by {
                        assert(improved_from(adj, dist0, par0, dist1, par1, u as int, g_u, x));
                        if x == v as int {
                            assert(adj[u as int][i as int].0 == v);
                        }
                    }
                }
                observer(Event::Improved { vertex: v, dist: new_g, parent: u });
            },
            RelaxResult::NoChange => {
                proof {
                    assert(edge_relaxed(adj, buffers.dist@, u as int, i as int));
                }
            },
        }
        i += 1;
    }
}

/// What every A* run establishes: every finite distance is the length of a
/// walk from the source, the source is at zero, and no distance is negative;
/// and, for an admissible heuristic, the target holds its shortest distance.
pub open spec fn astar_outcome<H: Heuristic>(
    adj: Seq<Seq<(usize, i64)>>,
    source: usize,
    config: AStarConfig<H>,
    old_buffers: SsspBuffers,
    buffers: SsspBuffers,
    r: SsspResult,
) -> bool {
    &&& buffers.wf()
    &&& buffers.dist@.len() == old_buffers.dist@.len()
    &&& all_achieved(adj, seq![source], buffers.dist@)
    &&& buffers.dist@[source as int] == 0
    &&& forall|v: int| 0 <= v < buffers.dist@.len() ==> #[trigger] buffers.dist@[v] >= 0
    &&& (config.target < adj.len() && admissible(adj, config.heuristic, config.target) ==> is_shortest(
        adj,
        seq![source],
        config.target as int,
        buffers.dist@[config.target as int],
    ))
    &&& (config.target < adj.len() && admissible(adj, config.heuristic, config.target)
        && buffers.dist@[config.target as int] < INF ==> tree_path(
        adj,
        seq![source],
        buffers.dist@,
        buffers.parent@,
        config.target,
    ))
    &&& !r.negative_cycle
    &&& r.vertices_reached == count_finite(buffers.dist@)
    &&& r.total_distance == finite_total(buffers.dist@)
    &&& parents_clean(seq![source], buffers.dist@, buffers.parent@)
    // A reached vertex other than the source has a parent with an edge into it.
    &&& forall|v: int|
        0 <= v < buffers.dist@.len() && #[trigger] buffers.dist@[v] < INF && v != source ==> {
            let u = buffers.parent@[v];
            &&& u != NO_VERTEX
            &&& u < adj.len()
            &&& exists|e: int| 0 <= e < adj[u as int].len() && #[trigger] adj[u as int][e].0 == v
        }
    // The target is never expanded: no vertex has it as its parent.
    &&& forall|v: int| 0 <= v < buffers.parent@.len() && #[trigger] buffers.parent@[v] != NO_VERTEX ==> buffers.parent@[v] != config.target
    // A target outside the graph, or unreached, leaves the queue exhausted:
    // every distance is the shortest one.
    &&& ((config.target >= adj.len() || buffers.dist@[config.target as int] == INF) ==> forall|v: int|
        0 <= v < buffers.dist@.len() ==> is_shortest(adj, seq![source], v, #[trigger] buffers.dist@[v]))
}

impl<G: Graph, Heur: Heuristic> SsspAlgorithm<G> for AStar<Heur> {
    /// Weights are non-negative.
    open spec fn accepts(&self, adj: Seq<Seq<(usize, i64)>>) -> bool {
        nonnegative_weights(adj)
    }

    fn run_observed<F: FnMut(Event)>(&mut self, graph: &G, source: usize, buffers: &mut SsspBuffers, observer: F) -> (r: SsspResult)
        ensures
            final(self).settings() == old(self).settings(),
            astar_outcome(graph.adjacency(), source, old(self).settings(), *old(buffers), *final(buffers), r),
    {
        let mut observer = observer;
        let ghost adj = graph.adjacency();
        let n = graph.n();
        let target = self.config.target;
        let lazy = self.config.lazy_deletion;
        let ghost heur = self.config.heuristic;
        let sources = vec![source];
        init_sssp(buffers, sources.as_slice());
        self.heap.clear();
        let h_source = self.config.heuristic.estimate(source, target);
        self.heap.push(saturating_add_i128(0, h_source as i128), source);
        let ghost mut closed: Set<int> = Set::empty();
        let ghost mut rank: Seq<nat> = Seq::new(buffers.dist@.len(), |i: int| 0nat);
        let ghost mut pd: Seq<int> = Seq::new(buffers.dist@.len(), |i: int| 0int);
        let ghost mut time: nat = 0;
        proof {
            assert(sources@ =~= seq![source]);
            lemma_astar_tree_initial(adj, source, buffers.dist@, buffers.parent@);
            assert(seq![source][0] == source);
            let d = buffers.dist@;
            assert(seq![source].contains(source)) by {
                assert(seq![source][0] == source);
            }
            assert(d[source as int] == 0);
            assert forall|v: int| 0 <= v < d.len() implies #[trigger] d[v] >= 0 by {
            }
            assert forall|v: int| 0 <= v < d.len() && #[trigger] d[v] != INF implies achieved(adj, seq![source], v, d[v] as int) by {
                assert(seq![source].contains(v as usize));
                assert(v as usize == source);
                assert(reaches(adj, source as int, Seq::<(int, int)>::empty(), v));
            }
            let k0 = astar_key(heur, target, source, 0);
            assert forall|x: (i128, usize)| #[trigger] self.heap@.contains(x) implies x.1 < d.len() && d[x.1 as int] < INF by {
                assert(x == (k0, source));
            }
            assert forall|v: int|
                0 <= v < d.len() && d[v] < INF && !closed.contains(v) implies #[trigger] self.heap@.count(
                    (astar_key(heur, target, v as usize, d[v]), v as usize),
                ) > 0 by {
                assert(v as usize == source);
            }
            assert forall|x: (i128, usize)| #[trigger] self.heap@.contains(x) implies x.0 >= astar_key(heur, target, x.1, d[x.1 as int]) by {
                assert(x == (k0, source));
            }
            lemma_seq_sum_nonneg(d);
        }
        let mut iterations: usize = 0;
        loop
            invariant_except_break
                frontier_ok(adj, heur, target, buffers.dist@, self.heap@, closed),
            invariant
                adj == graph.adjacency(),
                n == adj.len(),
                self.settings() == old(self).settings(),
                heur == self.settings().heuristic,
                target == self.settings().target,
                lazy == self.settings().lazy_deletion,
                buffers.wf(),
                astar_inv(adj, source, buffers.dist@, self.heap@),
                astar_tree_inv(adj, source, buffers.dist@, buffers.parent@, rank, pd, time),
                forall|e: Event| call_requires(observer, (e,)),
                parents_clean(seq![source], buffers.dist@, buffers.parent@),
                forall|v: int| 0 <= v < n && #[trigger] buffers.parent@[v] != NO_VERTEX ==> buffers.parent@[v] != target,
            ensures
                (target >= n || buffers.dist@[target as int] == INF) ==> forall|v: int|
                    0 <= v < n ==> is_shortest(adj, seq![source], v, #[trigger] buffers.dist@[v]),
                target < n && admissible(adj, heur, target) ==> is_shortest(
                    adj,
                    seq![source],
                    target as int,
                    buffers.dist@[target as int],
                ),
                target < n && admissible(adj, heur, target) && buffers.dist@[target as int] < INF ==> tree_path(
                    adj,
                    seq![source],
                    buffers.dist@,
                    buffers.parent@,
                    target,
                ),
            decreases self.heap@.len() + 2 * seq_sum(buffers.dist@),
        {
            let ghost h0 = self.heap@;
            let ghost dist0 = buffers.dist@;
            let ghost par0 = buffers.parent@;
            proof {
                lemma_seq_sum_nonneg(dist0);
            }
            let entry = match self.heap.pop() {
                None => {
                    proof {
                        lemma_astar_exhausted(adj, heur, target, source, dist0, h0, closed);
                        if target < n && admissible(adj, heur, target) && dist0[target as int] < INF {
                            lemma_astar_tree_path(adj, source, dist0, par0, rank, pd, time, target);
                        }
                    }
                    break;
                },
                Some(e) => e,
            };
            let u = entry.vertex;
            let f_u = entry.dist;
            let ghost h1 = self.heap@;
            proof {
                assert(h0.contains((f_u, u)));
                assert forall|x: (i128, usize)| #[trigger] h1.contains(x) implies x.1 < dist0.len() && dist0[x.1 as int] < INF
                    && x.0 >= astar_key(heur, target, x.1, dist0[x.1 as int]) by {
                    assert(h0.contains(x));
                }
            }
            let g_u = buffers.dist.get(u);
            let h_u = self.config.heuristic.estimate(u, target);
            if lazy && f_u > saturating_add_i128(g_u, h_u as i128) {
                proof {
                    assert forall|v: int|
                        0 <= v < dist0.len() && dist0[v] < INF && !closed.contains(v) implies #[trigger] h1.count(
                            (astar_key(heur, target, v as usize, dist0[v]), v as usize),
                        ) > 0 by {
                        assert(h0.count((astar_key(heur, target, v as usize, dist0[v]), v as usize)) > 0);
                    }
                }
                continue;
            }
            if u != target {
                iterations = iterations.saturating_add(1);
                astar_relax_out_edges(
                    &mut self.heap,
                    graph,
                    buffers,
                    &self.config.heuristic,
                    target,
                    u,
                    g_u,
                    &mut observer,
                    Ghost(source),
                );
                proof {
                    let d1 = buffers.dist@;
                    let p1 = buffers.parent@;
                    lemma_astar_tree_step(adj, source, dist0, par0, d1, p1, u as int, g_u, rank, pd, time);
                    assert forall|v: int| 0 <= v < n && #[trigger] p1[v] != NO_VERTEX implies p1[v] != target by {
                        assert(improved_from(adj, dist0, par0, d1, p1, u as int, g_u, v));
                    }
                    assert forall|v: int| 0 <= v < d1.len() && #[trigger] d1[v] == INF implies p1[v] == NO_VERTEX by {
                        assert(improved_from(adj, dist0, par0, d1, p1, u as int, g_u, v));
                    }
                    assert forall|i: int| 0 <= i < seq![source].len() implies p1[#[trigger] seq![source][i] as int] == NO_VERTEX by {
                        assert(seq![source][i] == source);
                        assert(improved_from(adj, dist0, par0, d1, p1, u as int, g_u, source as int));
                        assert(par0[seq![source][0] as int] == NO_VERTEX);
                    }
                    rank = Seq::new(dist0.len(), |v: int| if d1[v] < dist0[v] { (time + 1) as nat } else { rank[v] });
                    pd = Seq::new(dist0.len(), |v: int| if d1[v] < dist0[v] { g_u as int } else { pd[v] });
                    time = time + 1;
                    let h2 = self.heap@;
                    let c1 = Set::new(|v: int| (closed.contains(v) && d1[v] == dist0[v]) || v == u as int);
                    assert forall|v: int| #[trigger] c1.contains(v) implies 0 <= v < d1.len() && d1[v] < INF && vertex_relaxed(adj, d1, v) by {
                        if v != u as int {
                            assert(closed.contains(v));
                            lemma_relaxed_mono(adj, dist0, d1, v);
                        }
                    }
                    assert forall|v: int|
                        0 <= v < d1.len() && d1[v] < INF && !c1.contains(v) implies #[trigger] h2.count(
                            (astar_key(heur, target, v as usize, d1[v]), v as usize),
                        ) > 0 by {
                        if d1[v] == dist0[v] {
                            assert(!closed.contains(v));
                            assert(h0.count((astar_key(heur, target, v as usize, dist0[v]), v as usize)) > 0);
                            assert(h1.count((astar_key(heur, target, v as usize, dist0[v]), v as usize)) > 0);
                        } else {
                            assert(d1[v] <= dist0[v]);
                        }
                    }
                    closed = c1;
                }
            }
            let parent_u = buffers.parent_of(u);
            observer(Event::Finalized { vertex: u, dist: g_u, parent: parent_u });
            if u == target {
                proof {
                    assert(dist0[target as int] < INF);
                    if admissible(adj, heur, target) {
                        lemma_astar_target(adj, heur, target, source, dist0, h0, closed, f_u);
                        if dist0[target as int] < INF {
                            lemma_astar_tree_path(adj, source, dist0, par0, rank, pd, time, target);
                        }
                    }
                }
                break;
            }
            proof {
                lemma_seq_sum_nonneg(buffers.dist@);
            }
        }
        proof {
            assert forall|v: int|
                0 <= v < buffers.dist@.len() && #[trigger] buffers.dist@[v] < INF && v != source implies {
                    let u = buffers.parent@[v];
                    &&& u != NO_VERTEX
                    &&& u < adj.len()
                    &&& exists|e: int| 0 <= e < adj[u as int].len() && #[trigger] adj[u as int][e].0 == v
                } by {
                assert(astar_link(adj, source, buffers.dist@, buffers.parent@, rank, pd, v));
            }
        }
        finalize_sssp(buffers, iterations, false)
    }

    fn run(&mut self, graph: &G, source: usize, buffers: &mut SsspBuffers) -> (r: SsspResult)
        ensures
            final(self).settings() == old(self).settings(),
            astar_outcome(graph.adjacency(), source, old(self).settings(), *old(buffers), *final(buffers), r),
    {
        let ignore = |e: Event| {};
        self.run_observed(graph, source, buffers, ignore)
    }
}

} // verus!
