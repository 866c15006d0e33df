//! Per-vertex buffers of the single-source algorithms: distance and tree parent.
use vstd::prelude::*;
use crate::graph::NO_VERTEX;
use crate::vector::DynVector;
use crate::relaxation::{RelaxResult, add_weight, relax_improves};
use crate::walks::INF;

verus! {

/// The vertex reached from `v` after `j` steps along parent pointers.
pub open spec fn ancestor(parent: Seq<usize>, v: usize, j: nat) -> usize
    decreases j,
{
    if j == 0 {
        v
    } else {
        parent[ancestor(parent, v, (j - 1) as nat) as int]
    }
}

/// Following parent pointers from `v` visits `k` vertices, all in range, and
/// then arrives at `NO_VERTEX`.
pub open spec fn reaches_root(parent: Seq<usize>, v: usize, k: nat) -> bool {
    &&& ancestor(parent, v, k) == NO_VERTEX
    &&& forall|j: nat| j < k ==> #[trigger] ancestor(parent, v, j) != NO_VERTEX && ancestor(parent, v, j) < parent.len()
}

/// The vertices visited from `v` along parent pointers, root first, `v` last.
pub open spec fn root_path(parent: Seq<usize>, v: usize, k: nat) -> Seq<usize> {
    Seq::new(k, |j: int| ancestor(parent, v, (k - 1 - j) as nat))
}

/// The number of vertices on the parent chain from `v` (when it ends).
pub open spec fn chain_length(parent: Seq<usize>, v: usize) -> nat {
    choose|k: nat| reaches_root(parent, v, k)
}

pub proof fn lemma_chain_length_unique(parent: Seq<usize>, v: usize, k: nat)
    requires
        reaches_root(parent, v, k),
    ensures
        chain_length(parent, v) == k,
{
    let c = chain_length(parent, v);
    assert(reaches_root(parent, v, c));
    if c < k {
        assert(ancestor(parent, v, c) != NO_VERTEX);
    } else if k < c {
        assert(ancestor(parent, v, k) != NO_VERTEX);
    }
}

/// The edge out of `u` into `v` whose weight is the difference of their
/// distances: `u` is reached, and one of its out-edges arrives at `v` with
/// `dist[v] == dist[u] + weight`.
pub open spec fn tree_edge(adj: Seq<Seq<(usize, i64)>>, dist: Seq<i128>, u: int, v: int) -> bool {
    &&& 0 <= u < dist.len()
    &&& dist[u] < INF
    &&& exists|i: int| 0 <= i < adj[u].len() && (#[trigger] adj[u][i]).0 == v && dist[v] == dist[u] + adj[u][i].1
}

/// The parent pointers form a shortest-path tree over the reached vertices:
/// following them from any reached vertex ends after finitely many steps; a
/// reached vertex without a parent is a source; and each parent pointer names
/// an edge into the vertex whose weight is the difference of the distances.
pub open spec fn parent_tree(adj: Seq<Seq<(usize, i64)>>, sources: Seq<usize>, dist: Seq<i128>, parent: Seq<usize>) -> bool {
    forall|v: int|
        0 <= v < dist.len() && #[trigger] dist[v] < INF ==> {
            &&& exists|k: nat| #[trigger] reaches_root(parent, v as usize, k)
            &&& parent[v] == NO_VERTEX ==> sources.contains(v as usize)
            &&& parent[v] != NO_VERTEX ==> tree_edge(adj, dist, parent[v] as int, v)
        }
}

/// Vertex `a` is reached, and is either a source without a parent or joined
/// to its parent by an edge whose weight is the difference of the distances.
pub open spec fn tree_step(adj: Seq<Seq<(usize, i64)>>, sources: Seq<usize>, dist: Seq<i128>, parent: Seq<usize>, a: usize) -> bool {
    &&& a < dist.len()
    &&& dist[a as int] < INF
    &&& parent[a as int] == NO_VERTEX ==> sources.contains(a)
    &&& parent[a as int] != NO_VERTEX ==> tree_edge(adj, dist, parent[a as int] as int, a as int)
}

/// Following the parent pointers from `v` ends after at least one vertex, and
/// every vertex met on the way is a `tree_step`: the reconstructed path is a shortest path when the
/// distances are shortest.
pub open spec fn tree_path(adj: Seq<Seq<(usize, i64)>>, sources: Seq<usize>, dist: Seq<i128>, parent: Seq<usize>, v: usize) -> bool {
    exists|k: nat|
        #[trigger] reaches_root(parent, v, k) && 0 < k && forall|j: nat| j < k ==> #[trigger] tree_step(adj, sources, dist, parent, ancestor(parent, v, j))
}

/// One step along the parent pointers: the vertex `j + 1` steps up from `v` is
/// the one `j` steps up from `v`'s parent.
pub proof fn lemma_ancestor_step(parent: Seq<usize>, v: usize, j: nat)
    ensures
        ancestor(parent, v, j + 1) == ancestor(parent, parent[v as int], j),
    decreases j,
{
    if j > 0 {
        lemma_ancestor_step(parent, v, (j - 1) as nat);
        assert(ancestor(parent, v, j + 1) == parent[ancestor(parent, v, j) as int]);
        assert(ancestor(parent, parent[v as int], j) == parent[ancestor(parent, parent[v as int], (j - 1) as nat) as int]);
    } else {
        assert(ancestor(parent, v, 1) == parent[ancestor(parent, v, 0) as int]);
    }
}

/// SSSP buffers: distances + tree parents. Reuse via `reset_inf`.
pub struct SsspBuffers {
    pub dist: DynVector<i128>,
    pub parent: DynVector<usize>,
}

impl SsspBuffers {
    /// Both vectors have the same length, the number of vertices.
    pub open spec fn wf(&self) -> bool {
        self.dist@.len() == self.parent@.len()
    }

    pub fn new_inf(n: usize) -> (r: Self)
        ensures
            r.dist@ == Seq::new(n as nat, |i: int| INF),
            r.parent@ == Seq::new(n as nat, |i: int| NO_VERTEX),
    {
        SsspBuffers { dist: DynVector::<i128>::from_element(n, INF), parent: DynVector::<usize>::from_element(n, NO_VERTEX) }
    }

    pub fn reset_inf(&mut self)
        ensures
            final(self).dist@ == Seq::new(old(self).dist@.len(), |i: int| INF),
            final(self).parent@ == Seq::new(old(self).parent@.len(), |i: int| NO_VERTEX),
    {
        self.dist.fill(INF);
        self.parent.fill(NO_VERTEX);
    }

    pub fn set_source(&mut self, s: usize)
        requires
            s < old(self).dist@.len(),
            s < old(self).parent@.len(),
        ensures
            final(self).dist@ == old(self).dist@.update(s as int, 0),
            final(self).parent@ == old(self).parent@.update(s as int, NO_VERTEX),
    {
        self.dist.set(s, 0);
        self.parent.set(s, NO_VERTEX);
    }

    /// Number of vertices the buffers hold.
    pub fn len(&self) -> (r: usize)
        ensures
            r == self.dist@.len(),
    {
        self.dist.len()
    }

    /// Distance of `v` (`INF` when unreached).
    pub fn dist_at(&self, v: usize) -> (r: i128)
        requires
            v < self.dist@.len(),
        ensures
            r == self.dist@[v as int],
    {
        self.dist.get(v)
    }

    /// Raw parent entry of `v` (`NO_VERTEX` when none).
    pub fn parent_at(&self, v: usize) -> (r: usize)
        requires
            v < self.parent@.len(),
        ensures
            r == self.parent@[v as int],
    {
        self.parent.get(v)
    }

    pub fn parent_of(&self, v: usize) -> (r: Option<usize>)
        requires
            v < self.parent@.len(),
        ensures
            r == (if self.parent@[v as int] != NO_VERTEX {
                Some(self.parent@[v as int])
            } else {
                None::<usize>
            }),
    {
        let p = self.parent.get(v);
        if p != NO_VERTEX {
            Some(p)
        } else {
            None
        }
    }

    /// Relax edge `u -> v` of weight `w` from distance `d_u`, as
    /// [`crate::relaxation::relax_with`] does on slices.
    pub(crate) fn relax_edge(&mut self, u: usize, d_u: i128, v: usize, w: i64) -> (r: RelaxResult)
        requires
            v < old(self).dist@.len(),
            v < old(self).parent@.len(),
            d_u == INF || d_u + w >= i128::MIN,
        ensures
            relax_improves(d_u, w, old(self).dist@[v as int]) ==> {
                &&& r == RelaxResult::Improved
                &&& final(self).dist@ == old(self).dist@.update(v as int, (d_u + w) as i128)
                &&& final(self).parent@ == old(self).parent@.update(v as int, u)
            },
            !relax_improves(d_u, w, old(self).dist@[v as int]) ==> {
                &&& r == RelaxResult::NoChange
                &&& final(self).dist@ == old(self).dist@
                &&& final(self).parent@ == old(self).parent@
            },
    {
        if d_u == INF {
            return RelaxResult::NoChange;
        }
        match add_weight(d_u, w) {
            Some(new_dist) => {
                if new_dist < self.dist.get(v) {
                    self.dist.set(v, new_dist);
                    self.parent.set(v, u);
                    RelaxResult::Improved
                } else {
                    RelaxResult::NoChange
                }
            },
            None => RelaxResult::NoChange,
        }
    }

    /// Path source -> v, or None if unreachable.
    ///
    /// The path follows parent pointers from `v` back to a vertex without a
    /// parent, and lists them root first.
    pub fn path_to(&self, v: usize) -> (r: Option<Vec<usize>>)
        requires
            v < self.dist@.len(),
            self.dist@[v as int] != INF ==> exists|k: nat| reaches_root(self.parent@, v, k),
        ensures
            self.dist@[v as int] == INF ==> r is None,
            self.dist@[v as int] != INF ==> (r matches Some(p) && p@ == root_path(
                self.parent@,
                v,
                chain_length(self.parent@, v),
            )),
    {
        if self.dist.get(v) == INF {
            return None;
        }
        let ghost parent = self.parent@;
        let ghost k = chain_length(parent, v);
        assert(reaches_root(parent, v, k));
        let mut down: Vec<usize> = Vec::new();
        let mut curr = v;
        let mut j: usize = 0;
        while curr != NO_VERTEX
            invariant
                parent == self.parent@,
                reaches_root(parent, v, k),
                j <= k,
                curr == ancestor(parent, v, j as nat),
                down@ == Seq::new(j as nat, |t: int| ancestor(parent, v, t as nat)),
            decreases k - j,
        {
            assert(j < k) by {
                if j == k {
                    assert(ancestor(parent, v, k) == NO_VERTEX);
                }
            }
            assert(ancestor(parent, v, j as nat) < parent.len());
            down.push(curr);
            curr = self.parent.get(curr);
            j = down.len();
            assert(down@ =~= Seq::new(j as nat, |t: int| ancestor(parent, v, t as nat)));
        }
        assert(j == k) by {
            if j < k {
                assert(ancestor(parent, v, j as nat) != NO_VERTEX);
            }
        }
        let mut path: Vec<usize> = Vec::new();
        let mut i: usize = j;
        while i > 0
            invariant
                i <= j,
                j == k,
                down@ == Seq::new(j as nat, |t: int| ancestor(parent, v, t as nat)),
                path@ == Seq::new((j - i) as nat, |t: int| ancestor(parent, v, (k - 1 - t) as nat)),
            decreases i,
        {
            i -= 1;
            path.push(down[i]);
            assert(path@ =~= Seq::new((j - i) as nat, |t: int| ancestor(parent, v, (k - 1 - t) as nat)));
        }
        assert(path@ =~= root_path(parent, v, k));
        Some(path)
    }
}

} // verus!
