//! Shared configuration, results, events and helpers of the algorithms.
use vstd::prelude::*;
use crate::apsp::ApspBuffers;
use crate::buffers::SsspBuffers;
use crate::graph::{Graph, valid_adjacency};
use crate::walks::all_achieved;
use crate::mst::{MstBuffers, count_true, tree_weight};
use crate::graph::NO_VERTEX;
use crate::walks::INF;

verus! {

// =============================================================================
// Config
// =============================================================================

/// Shared SSSP knobs.
#[derive(Clone, Debug)]
pub struct SsspConfig {
    /// Target vertices for Dijkstra multi-target early-stop; empty = no stop.
    pub targets: Vec<usize>,
}

impl Default for SsspConfig {
    fn default() -> (r: Self)
        ensures
            r.targets@.len() == 0,
    {
        SsspConfig { targets: Vec::new() }
    }
}

/// Whether `vertex` occurs in `targets`.
pub(crate) fn contains_vertex(targets: &[usize], vertex: usize) -> (r: bool)
    ensures
        r == targets@.contains(vertex),
{
    let mut i: usize = 0;
    while i < targets.len()
        invariant
            i <= targets@.len(),
            forall|j: int| 0 <= j < i ==> targets@[j] != vertex,
        decreases targets@.len() - i,
    {
        if targets[i] == vertex {
            return true;
        }
        i += 1;
    }
    false
}

impl SsspConfig {
    pub fn with_target(target: usize) -> (r: Self)
        ensures
            r.targets@ == seq![target],
    {
        Self::with_targets(vec![target])
    }

    pub fn with_targets(targets: Vec<usize>) -> (r: Self)
        ensures
            r.targets@ == targets@,
    {
        Self { targets }
    }

    pub fn is_target(&self, vertex: usize) -> (r: bool)
        ensures
            r == self.targets@.contains(vertex),
    {
        contains_vertex(self.targets.as_slice(), vertex)
    }
}

/// Exposes core SSSP knobs through any algorithm's config.
pub trait HasSsspConfig {
    /// The targets that the config holds.
    spec fn target_list(&self) -> Seq<usize>;

    fn sssp_config(&self) -> (r: &SsspConfig)
        ensures
            r.targets@ == self.target_list(),
    ;

    fn targets(&self) -> (r: &[usize])
        ensures
            r@ == self.target_list(),
    {
        self.sssp_config().targets.as_slice()
    }

    fn is_target(&self, vertex: usize) -> (r: bool)
        ensures
            r == self.target_list().contains(vertex),
    {
        self.sssp_config().is_target(vertex)
    }
}

impl HasSsspConfig for SsspConfig {
    open spec fn target_list(&self) -> Seq<usize> {
        self.targets@
    }

    fn sssp_config(&self) -> (r: &SsspConfig) {
        self
    }
}

// =============================================================================
// Results
// =============================================================================

#[derive(Clone, Copy, Debug)]
pub struct SsspResult {
    pub iterations: usize,
    pub negative_cycle: bool,
    pub vertices_reached: usize,
    pub total_distance: i128,
}

#[derive(Clone, Copy, Debug)]
pub struct MstResult {
    pub iterations: usize,
    pub vertices_in_mst: usize,
    pub total_weight: i128,
    pub is_connected: bool,
}

/// APSP summary. Distances live in caller's [`crate::apsp::ApspBuffers`].
#[derive(Clone, Copy, Debug)]
pub struct ApspResult {
    pub iterations: usize,
    pub negative_cycle: bool,
    pub pairs_reached: usize,
}

impl ApspResult {
    pub fn new(iterations: usize, negative_cycle: bool, pairs_reached: usize) -> (r: Self)
        ensures
            r.iterations == iterations,
            r.negative_cycle == negative_cycle,
            r.pairs_reached == pairs_reached,
    {
        ApspResult { iterations, negative_cycle, pairs_reached }
    }
}

// =============================================================================
// Events for observer
// =============================================================================

/// Different algorithms emit different subsets:
///
/// - Dijkstra, A*, Prim: `Improved` + `Finalized`
/// - Bellman-Ford:       `Improved` + `Iteration`
/// - Floyd-Warshall:     `Iteration`
#[derive(Clone, Copy, Debug, PartialEq, Eq, Structural)]
pub enum Event {
    /// Vertex distance/key just improved during edge relaxation.
    Improved { vertex: usize, dist: i128, parent: usize },
    /// Vertex just finalized (popped from queue / added to MST); distance final.
    Finalized { vertex: usize, dist: i128, parent: Option<usize> },
    /// Outer iter complete (BF: one pass; FW: one intermediate `k`).
    Iteration(usize),
}

// =============================================================================
// Traits
// =============================================================================

pub trait SsspAlgorithmInfo {
    fn name(&self) -> &'static str;

    fn supports_negative_weights(&self) -> bool;
}

/// A single-source algorithm, run from one source into caller-owned buffers.
pub trait SsspAlgorithm<G: Graph>: SsspAlgorithmInfo {
    /// The graphs (under the algorithm's settings) on which a run is defined.
    spec fn accepts(&self, adj: Seq<Seq<(usize, i64)>>) -> bool;

    /// Every finite distance of the run is the length of a walk from the
    /// source, and the summary counts and sums the finite distances.
    fn run_observed<F: FnMut(Event)>(&mut self, graph: &G, source: usize, buffers: &mut SsspBuffers, observer: F) -> (r: SsspResult)
        requires
            old(self).accepts(graph.adjacency()),
            valid_adjacency(graph.adjacency()),
            old(buffers).wf(),
            old(buffers).dist@.len() == graph.adjacency().len(),
            source < graph.adjacency().len(),
            forall|e: Event| call_requires(observer, (e,)),
        ensures
            final(buffers).wf(),
            final(buffers).dist@.len() == old(buffers).dist@.len(),
            all_achieved(graph.adjacency(), seq![source], final(buffers).dist@),
            r.vertices_reached == count_finite(final(buffers).dist@),
            r.total_distance == finite_total(final(buffers).dist@),
    ;

    fn run(&mut self, graph: &G, source: usize, buffers: &mut SsspBuffers) -> (r: SsspResult)
        requires
            old(self).accepts(graph.adjacency()),
            valid_adjacency(graph.adjacency()),
            old(buffers).wf(),
            old(buffers).dist@.len() == graph.adjacency().len(),
            source < graph.adjacency().len(),
        ensures
            final(buffers).wf(),
            final(buffers).dist@.len() == old(buffers).dist@.len(),
            all_achieved(graph.adjacency(), seq![source], final(buffers).dist@),
            r.vertices_reached == count_finite(final(buffers).dist@),
            r.total_distance == finite_total(final(buffers).dist@),
    {
        let ignore = |e: Event| {};
        self.run_observed(graph, source, buffers, ignore)
    }
}

pub trait MstAlgorithmInfo {
    fn name(&self) -> &'static str;
}

/// What a spanning-tree run reports: the buffers keep their length, and the
/// result counts the vertices in the tree, sums the keys of the tree's edges,
/// and says whether the tree spans all `n` vertices.
pub open spec fn mst_summary(n: nat, old_buffers: MstBuffers, buffers: MstBuffers, r: MstResult) -> bool {
    &&& buffers.wf()
    &&& buffers.key@.len() == old_buffers.key@.len()
    &&& r.vertices_in_mst == count_true(buffers.in_mst@)
    &&& r.total_weight == tree_weight(buffers.key@, buffers.parent@, buffers.in_mst@, buffers.key@.len())
    &&& r.is_connected == (count_true(buffers.in_mst@) == n)
}

/// A spanning-tree algorithm, grown from one source into caller-owned buffers
/// and summarised as `finalize_mst` does.
pub trait MstAlgorithm<G: Graph>: MstAlgorithmInfo {
    fn run_observed<F: FnMut(Event)>(&mut self, graph: &G, source: usize, buffers: &mut MstBuffers, observer: F) -> (r: MstResult)
        requires
            valid_adjacency(graph.adjacency()),
            old(buffers).wf(),
            old(buffers).key@.len() == graph.adjacency().len(),
            source < graph.adjacency().len(),
            forall|e: Event| call_requires(observer, (e,)),
        ensures
            mst_summary(graph.adjacency().len(), *old(buffers), *final(buffers), r),
    ;

    /// `run_observed` with an observer that ignores every event.
    fn run(&mut self, graph: &G, source: usize, buffers: &mut MstBuffers) -> (r: MstResult)
        requires
            valid_adjacency(graph.adjacency()),
            old(buffers).wf(),
            old(buffers).key@.len() == graph.adjacency().len(),
            source < graph.adjacency().len(),
        ensures
            mst_summary(graph.adjacency().len(), *old(buffers), *final(buffers), r),
    {
        let ignore = |e: Event| {};
        self.run_observed(graph, source, buffers, ignore)
    }
}

pub trait ApspAlgorithmInfo {
    fn name(&self) -> &'static str;

    fn supports_negative_weights(&self) -> bool;
}

/// An all-pairs algorithm, run into a caller-owned distance matrix.
pub trait ApspAlgorithm<G: Graph>: ApspAlgorithmInfo {
    /// The matrix holds one row and one column per vertex, and the summary
    /// counts its finite entries.
    fn run_observed<F: FnMut(Event)>(&mut self, graph: &G, buffers: &mut ApspBuffers, observer: F) -> (r: ApspResult)
        requires
            valid_adjacency(graph.adjacency()),
            old(buffers).wf(),
            old(buffers).n == graph.adjacency().len(),
            forall|e: Event| call_requires(observer, (e,)),
        ensures
            final(buffers).wf(),
            final(buffers).n == graph.adjacency().len(),
            r.pairs_reached == count_finite(final(buffers).dist@),
    ;

    fn run(&mut self, graph: &G, buffers: &mut ApspBuffers) -> (r: ApspResult)
        requires
            valid_adjacency(graph.adjacency()),
            old(buffers).wf(),
            old(buffers).n == graph.adjacency().len(),
        ensures
            final(buffers).wf(),
            final(buffers).n == graph.adjacency().len(),
            r.pairs_reached == count_finite(final(buffers).dist@),
    {
        let ignore = |e: Event| {};
        self.run_observed(graph, buffers, ignore)
    }
}

// =============================================================================
// Runner helpers
// =============================================================================

/// Number of finite entries of `d`.
pub open spec fn count_finite(d: Seq<i128>) -> nat
    decreases d.len(),
{
    if d.len() == 0 {
        0
    } else {
        count_finite(d.drop_last()) + if d.last() != INF {
            1nat
        } else {
            0nat
        }
    }
}

/// `x` clamped to the range of `i128`.
pub open spec fn clamp_i128(x: int) -> i128 {
    if x > i128::MAX {
        i128::MAX
    } else if x < i128::MIN {
        i128::MIN
    } else {
        x as i128
    }
}

/// Running sum of the finite entries of `d`, first to last, each addition
/// saturating at the bounds of `i128`.
pub open spec fn finite_total(d: Seq<i128>) -> i128
    decreases d.len(),
{
    if d.len() == 0 {
        0
    } else if d.last() == INF {
        finite_total(d.drop_last())
    } else {
        clamp_i128(finite_total(d.drop_last()) + d.last())
    }
}

/// The sum of a sequence of integers, first to last.
pub open spec fn sum_ints(s: Seq<int>) -> int {
    s.fold_left(0int, |a: int, b: int| a + b)
}

/// Each entry of `d` as an integer, with `INF` counted as zero.
pub open spec fn finite_values(d: Seq<i128>) -> Seq<int> {
    d.map_values(|x: i128| if x == INF { 0int } else { x as int })
}

/// The total of a run is the sum of every finite distance, negative ones
/// included, as long as no partial sum leaves the range of `i128`.
pub proof fn lemma_finite_total_is_sum(d: Seq<i128>)
    requires
        forall|k: int| 0 <= k <= d.len() ==> i128::MIN <= #[trigger] sum_ints(finite_values(d.take(k))) <= i128::MAX,
    ensures
        finite_total(d) == sum_ints(finite_values(d)),
    decreases d.len(),
{
    if d.len() > 0 {
        let t = d.drop_last();
        assert forall|k: int| 0 <= k <= t.len() implies i128::MIN <= #[trigger] sum_ints(finite_values(t.take(k))) <= i128::MAX by {
            assert(t.take(k) =~= d.take(k));
        }
        lemma_finite_total_is_sum(t);
        assert(finite_values(d).drop_last() =~= finite_values(t));
        assert(d.take(d.len() as int) =~= d);
        assert(sum_ints(finite_values(d)) == sum_ints(finite_values(t)) + finite_values(d).last());
    }
}

pub proof fn lemma_count_finite_bound(d: Seq<i128>)
    ensures
        count_finite(d) <= d.len(),
    decreases d.len(),
{
    if d.len() > 0 {
        lemma_count_finite_bound(d.drop_last());
    }
}

/// `a + b`, saturating at the bounds of `i128`.
pub(crate) fn saturating_add_i128(a: i128, b: i128) -> (r: i128)
    ensures
        r == clamp_i128(a + b),
{
    if b >= 0 {
        if a > i128::MAX - b {
            i128::MAX
        } else {
            a + b
        }
    } else {
        if a < i128::MIN - b {
            i128::MIN
        } else {
            a + b
        }
    }
}

/// Reset buffers, mark every source with distance zero.
pub fn init_sssp(buffers: &mut SsspBuffers, sources: &[usize])
    requires
        old(buffers).wf(),
        forall|i: int| 0 <= i < sources@.len() ==> sources@[i] < old(buffers).dist@.len(),
    ensures
        final(buffers).wf(),
        final(buffers).dist@.len() == old(buffers).dist@.len(),
        forall|v: int|
            0 <= v < final(buffers).dist@.len() ==> #[trigger] final(buffers).dist@[v] == (if sources@.contains(
                v as usize,
            ) {
                0
            } else {
                INF
            }),
        final(buffers).parent@ == Seq::new(old(buffers).parent@.len(), |i: int| NO_VERTEX),
{
    buffers.reset_inf();
    let n = buffers.dist.len();
    let mut i: usize = 0;
    while i < sources.len()
        invariant
            i <= sources@.len(),
            n == buffers.dist@.len(),
            forall|j: int| 0 <= j < sources@.len() ==> sources@[j] < n,
            forall|v: int|
                0 <= v < n ==> #[trigger] buffers.dist@[v] == (if sources@.take(i as int).contains(v as usize) {
                    0
                } else {
                    INF
                }),
            buffers.parent@ == Seq::new(n as nat, |i: int| NO_VERTEX),
        decreases sources@.len() - i,
    {
        let s = sources[i];
        buffers.dist.set(s, 0);
        i += 1;
        assert forall|v: int| 0 <= v < n implies #[trigger] buffers.dist@[v] == (if sources@.take(
            i as int,
        ).contains(v as usize) {
            0
        } else {
            INF
        }) by {
            assert(sources@.take(i as int) =~= sources@.take(i - 1).push(s));
            if sources@.take(i - 1).contains(v as usize) {
                assert(sources@.take(i as int).contains(v as usize));
            }
            if v == s as int {
                assert(sources@.take(i as int)[i - 1] == s);
            }
        }
    }
    assert(sources@.take(i as int) =~= sources@);
}

pub fn finalize_sssp(buffers: &SsspBuffers, iterations: usize, negative_cycle: bool) -> (r: SsspResult)
    ensures
        r.iterations == iterations,
        r.negative_cycle == negative_cycle,
        r.vertices_reached == count_finite(buffers.dist@),
        r.total_distance == finite_total(buffers.dist@),
{
    let n = buffers.dist.len();
    let mut vertices_reached: usize = 0;
    let mut total_distance: i128 = 0;
    let mut i: usize = 0;
    while i < n
        invariant
            n == buffers.dist@.len(),
            i <= n,
            vertices_reached == count_finite(buffers.dist@.take(i as int)),
            total_distance == finite_total(buffers.dist@.take(i as int)),
        decreases n - i,
    {
        let d = buffers.dist.get(i);
        proof {
            assert(buffers.dist@.take(i + 1).drop_last() =~= buffers.dist@.take(i as int));
            lemma_count_finite_bound(buffers.dist@.take(i as int));
        }
        if d != INF {
            vertices_reached += 1;
            total_distance = saturating_add_i128(total_distance, d);
        }
        i += 1;
    }
    assert(buffers.dist@.take(n as int) =~= buffers.dist@);
    SsspResult { iterations, negative_cycle, vertices_reached, total_distance }
}

/// Reset the spanning-tree buffers and make `source` the root, with key zero.
pub fn init_mst(buffers: &mut MstBuffers, source: usize)
    requires
        old(buffers).wf(),
        source < old(buffers).key@.len(),
    ensures
        final(buffers).wf(),
        final(buffers).key@ == Seq::new(old(buffers).key@.len(), |i: int| INF).update(source as int, 0),
        final(buffers).parent@ == Seq::new(old(buffers).parent@.len(), |i: int| NO_VERTEX),
        final(buffers).in_mst@ == Seq::new(old(buffers).in_mst@.len(), |i: int| false),
{
    buffers.reset_inf();
    buffers.set_source(source);
    assert(buffers.parent@ =~= Seq::new(old(buffers).parent@.len(), |i: int| NO_VERTEX));
}

pub fn finalize_mst(buffers: &MstBuffers, iterations: usize, n: usize) -> (r: MstResult)
    requires
        buffers.wf(),
    ensures
        r.iterations == iterations,
        r.vertices_in_mst == count_true(buffers.in_mst@),
        r.total_weight == tree_weight(buffers.key@, buffers.parent@, buffers.in_mst@, buffers.key@.len()),
        r.is_connected == (count_true(buffers.in_mst@) == n),
{
    let vertices_in_mst = buffers.vertices_in_mst();
    MstResult {
        iterations,
        vertices_in_mst,
        total_weight: buffers.total_weight(),
        is_connected: vertices_in_mst == n,
    }
}

} // verus!
