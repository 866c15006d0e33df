//! Per-vertex buffers of a spanning-tree algorithm (Prim): the cheapest known
//! edge into each vertex, its tree parent, and whether it joined the tree.
use vstd::prelude::*;
use crate::common::{clamp_i128, sum_ints};
use crate::graph::NO_VERTEX;
use crate::vector::DynVector;
use crate::walks::INF;

verus! {

/// One edge of a spanning tree: `from` is the parent of `to`.
#[derive(Clone, Copy, Debug, PartialEq, Eq, Structural)]
pub struct MstEdge {
    pub from: usize,
    pub to: usize,
    pub weight: i128,
}

impl MstEdge {
    pub fn new(from: usize, to: usize, weight: i128) -> (r: Self)
        ensures
            r == (MstEdge { from, to, weight }),
    {
        MstEdge { from, to, weight }
    }
}

/// Vertex `v` is in the tree and was attached to it by an edge.
pub open spec fn attached(parent: Seq<usize>, in_mst: Seq<bool>, v: int) -> bool {
    in_mst[v] && parent[v] != NO_VERTEX
}

/// The edges that attach the first `k` vertices to the tree, in vertex order.
pub open spec fn tree_edges(key: Seq<i128>, parent: Seq<usize>, in_mst: Seq<bool>, k: nat) -> Seq<MstEdge>
    decreases k,
{
    if k == 0 {
        Seq::empty()
    } else {
        let rest = tree_edges(key, parent, in_mst, (k - 1) as nat);
        let v = k - 1;
        if attached(parent, in_mst, v) {
            rest.push(MstEdge { from: parent[v], to: v as usize, weight: key[v] })
        } else {
            rest
        }
    }
}

/// The sum of the keys of the first `k` attached vertices, in vertex order,
/// each addition saturating at the bounds of `i128`.
pub open spec fn tree_weight(key: Seq<i128>, parent: Seq<usize>, in_mst: Seq<bool>, k: nat) -> i128
    decreases k,
{
    if k == 0 {
        0
    } else {
        let rest = tree_weight(key, parent, in_mst, (k - 1) as nat);
        if attached(parent, in_mst, k - 1) {
            clamp_i128(rest + key[k - 1])
        } else {
            rest
        }
    }
}

/// The key of each of the first `k` vertices if it is attached to the tree,
/// zero otherwise.
pub open spec fn attached_keys(key: Seq<i128>, parent: Seq<usize>, in_mst: Seq<bool>, k: nat) -> Seq<int> {
    Seq::new(k, |v: int| if in_mst[v] && parent[v] != NO_VERTEX { key[v] as int } else { 0int })
}

/// The tree weight is the sum of the keys of the vertices that are in the
/// tree and have a parent, as long as no partial sum leaves the range of
/// `i128`.
pub proof fn lemma_tree_weight_is_sum(key: Seq<i128>, parent: Seq<usize>, in_mst: Seq<bool>, k: nat)
    requires
        k <= key.len(),
        k <= parent.len(),
        k <= in_mst.len(),
        forall|j: nat| j <= k ==> i128::MIN <= #[trigger] sum_ints(attached_keys(key, parent, in_mst, j)) <= i128::MAX,
    ensures
        tree_weight(key, parent, in_mst, k) == sum_ints(attached_keys(key, parent, in_mst, k)),
    decreases k,
{
    if k > 0 {
        let j = (k - 1) as nat;
        lemma_tree_weight_is_sum(key, parent, in_mst, j);
        let s = attached_keys(key, parent, in_mst, k);
        assert(s.drop_last() =~= attached_keys(key, parent, in_mst, j));
        assert(sum_ints(s) == sum_ints(s.drop_last()) + s.last());
    }
}

/// The edges of the tree are exactly the attachments of its vertices: each
/// joins a vertex in the tree to its parent, which is a vertex (never
/// `NO_VERTEX`), with the vertex's key as weight; they come in increasing
/// order of their lower end, so each vertex has at most one; and every vertex
/// in the tree with a parent has one.
pub proof fn lemma_tree_edges_shape(key: Seq<i128>, parent: Seq<usize>, in_mst: Seq<bool>, k: nat)
    requires
        k <= key.len(),
        k <= parent.len(),
        k <= in_mst.len(),
        k <= usize::MAX,
    ensures
        forall|j: int|
            0 <= j < tree_edges(key, parent, in_mst, k).len() ==> {
                let e = #[trigger] tree_edges(key, parent, in_mst, k)[j];
                &&& e.to < k
                &&& in_mst[e.to as int]
                &&& e.from != NO_VERTEX
                &&& e.from == parent[e.to as int]
                &&& e.weight == key[e.to as int]
            },
        forall|i: int, j: int|
            0 <= i < j < tree_edges(key, parent, in_mst, k).len() ==> #[trigger] tree_edges(key, parent, in_mst, k)[i].to
                < #[trigger] tree_edges(key, parent, in_mst, k)[j].to,
        forall|v: int|
            0 <= v < k && in_mst[v] && #[trigger] parent[v] != NO_VERTEX ==> exists|j: int|
                0 <= j < tree_edges(key, parent, in_mst, k).len() && #[trigger] tree_edges(key, parent, in_mst, k)[j].to == v,
    decreases k,
{
    if k > 0 {
        let j0 = (k - 1) as nat;
        lemma_tree_edges_shape(key, parent, in_mst, j0);
        let rest = tree_edges(key, parent, in_mst, j0);
        let te = tree_edges(key, parent, in_mst, k);
        let v = k - 1;
        assert forall|j: int| 0 <= j < rest.len() implies #[trigger] te[j] == rest[j] by {
        }
        assert forall|v2: int|
            0 <= v2 < k && in_mst[v2] && #[trigger] parent[v2] != NO_VERTEX implies exists|j: int|
                0 <= j < te.len() && #[trigger] te[j].to == v2 by {
            if v2 < v {
                let j = choose|j: int| 0 <= j < rest.len() && #[trigger] rest[j].to == v2;
                assert(te[j] == rest[j]);
            } else {
                assert(attached(parent, in_mst, v));
                assert(te == rest.push(MstEdge { from: parent[v], to: v as usize, weight: key[v] }));
                assert(te[rest.len() as int].to == v2);
            }
        }
        assert forall|i: int, j: int| 0 <= i < j < te.len() implies #[trigger] te[i].to < #[trigger] te[j].to by {
            assert(te[i] == rest[i]);
            if j < rest.len() {
                assert(te[j] == rest[j]);
            }
        }
    }
}

/// The number of `true` entries of `s`.
pub open spec fn count_true(s: Seq<bool>) -> nat
    decreases s.len(),
{
    if s.len() == 0 {
        0
    } else {
        count_true(s.drop_last()) + if s.last() {
            1nat
        } else {
            0nat
        }
    }
}

pub proof fn lemma_count_true_bound(s: Seq<bool>)
    ensures
        count_true(s) <= s.len(),
    decreases s.len(),
{
    if s.len() > 0 {
        lemma_count_true_bound(s.drop_last());
    }
}

/// Prim buffers: cheapest incoming edge weight, tree parent, membership flag.
pub struct MstBuffers {
    pub key: DynVector<i128>,
    pub parent: DynVector<usize>,
    pub in_mst: DynVector<bool>,
}

impl MstBuffers {
    /// The three vectors have the same length, the number of vertices.
    pub open spec fn wf(&self) -> bool {
        &&& self.key@.len() == self.parent@.len()
        &&& self.key@.len() == self.in_mst@.len()
    }

    pub fn new_inf(n: usize) -> (r: Self)
        ensures
            r.wf(),
            r.key@ == Seq::new(n as nat, |i: int| INF),
            r.parent@ == Seq::new(n as nat, |i: int| NO_VERTEX),
            r.in_mst@ == Seq::new(n as nat, |i: int| false),
    {
        MstBuffers {
            key: DynVector::<i128>::from_element(n, INF),
            parent: DynVector::<usize>::from_element(n, NO_VERTEX),
            in_mst: DynVector::<bool>::from_element(n, false),
        }
    }

    pub fn reset_inf(&mut self)
        ensures
            final(self).key@ == Seq::new(old(self).key@.len(), |i: int| INF),
            final(self).parent@ == Seq::new(old(self).parent@.len(), |i: int| NO_VERTEX),
            final(self).in_mst@ == Seq::new(old(self).in_mst@.len(), |i: int| false),
    {
        self.key.fill(INF);
        self.parent.fill(NO_VERTEX);
        self.in_mst.fill(false);
    }

    pub fn set_source(&mut self, s: usize)
        requires
            s < old(self).key@.len(),
            s < old(self).parent@.len(),
        ensures
            final(self).key@ == old(self).key@.update(s as int, 0),
            final(self).parent@ == old(self).parent@.update(s as int, NO_VERTEX),
            final(self).in_mst@ == old(self).in_mst@,
    {
        self.key.set(s, 0);
        self.parent.set(s, NO_VERTEX);
    }

    /// The key of `v`: the weight of the cheapest known edge into the tree.
    pub fn key_at(&self, v: usize) -> (r: i128)
        requires
            v < self.key@.len(),
        ensures
            r == self.key@[v as int],
    {
        self.key.get(v)
    }

    /// Whether `v` is in the tree.
    pub fn is_in_mst(&self, v: usize) -> (r: bool)
        requires
            v < self.in_mst@.len(),
        ensures
            r == self.in_mst@[v as int],
    {
        self.in_mst.get(v)
    }

    /// Records `k` as the key of `v`.
    pub fn set_key(&mut self, v: usize, k: i128)
        requires
            v < old(self).key@.len(),
        ensures
            final(self).key@ == old(self).key@.update(v as int, k),
            final(self).parent@ == old(self).parent@,
            final(self).in_mst@ == old(self).in_mst@,
    {
        self.key.set(v, k);
    }

    /// Records `p` as the tree parent of `v`.
    pub fn set_parent(&mut self, v: usize, p: usize)
        requires
            v < old(self).parent@.len(),
        ensures
            final(self).parent@ == old(self).parent@.update(v as int, p),
            final(self).key@ == old(self).key@,
            final(self).in_mst@ == old(self).in_mst@,
    {
        self.parent.set(v, p);
    }

    /// Marks whether `v` is in the tree.
    pub fn set_in_mst(&mut self, v: usize, b: bool)
        requires
            v < old(self).in_mst@.len(),
        ensures
            final(self).in_mst@ == old(self).in_mst@.update(v as int, b),
            final(self).key@ == old(self).key@,
            final(self).parent@ == old(self).parent@,
    {
        self.in_mst.set(v, b);
    }

    pub fn parent_of(&self, v: usize) -> (r: Option<usize>)
        requires
            v < self.parent@.len(),
        ensures
            r == (if self.parent@[v as int] != NO_VERTEX {
                Some(self.parent@[v as int])
            } else {
                None::<usize>
            }),
    {
        let p = self.parent.get(v);
        if p != NO_VERTEX {
            Some(p)
        } else {
            None
        }
    }

    /// MST edges (one per non-root vertex in tree).
    pub fn collect_edges(&self) -> (r: Vec<MstEdge>)
        requires
            self.wf(),
        ensures
            r@ == tree_edges(self.key@, self.parent@, self.in_mst@, self.key@.len()),
    {
        let n = self.parent.len();
        let mut edges: Vec<MstEdge> = Vec::new();
        let mut v: usize = 0;
        while v < n
            invariant
                self.wf(),
                n == self.key@.len(),
                v <= n,
                edges@ == tree_edges(self.key@, self.parent@, self.in_mst@, v as nat),
            decreases n - v,
        {
            if self.in_mst.get(v) && self.parent.get(v) != NO_VERTEX {
                edges.push(MstEdge::new(self.parent.get(v), v, self.key.get(v)));
            }
            v += 1;
        }
        edges
    }

    /// Sum of the keys of the attached vertices (saturating at the bounds of `i128`).
    pub fn total_weight(&self) -> (r: i128)
        requires
            self.wf(),
        ensures
            r == tree_weight(self.key@, self.parent@, self.in_mst@, self.key@.len()),
    {
        let n = self.key.len();
        let mut total: i128 = 0;
        let mut v: usize = 0;
        while v < n
            invariant
                self.wf(),
                n == self.key@.len(),
                v <= n,
                total == tree_weight(self.key@, self.parent@, self.in_mst@, v as nat),
            decreases n - v,
        {
            if self.in_mst.get(v) && self.parent.get(v) != NO_VERTEX {
                total = crate::common::saturating_add_i128(total, self.key.get(v));
            }
            v += 1;
        }
        total
    }

    /// Number of vertices marked as in the tree.
    pub fn vertices_in_mst(&self) -> (r: usize)
        ensures
            r == count_true(self.in_mst@),
    {
        let n = self.in_mst.len();
        let mut count: usize = 0;
        let mut v: usize = 0;
        while v < n
            invariant
                n == self.in_mst@.len(),
                v <= n,
                count == count_true(self.in_mst@.take(v as int)),
            decreases n - v,
        {
            proof {
                assert(self.in_mst@.take(v + 1).drop_last() =~= self.in_mst@.take(v as int));
                lemma_count_true_bound(self.in_mst@.take(v as int));
            }
            if self.in_mst.get(v) {
                count += 1;
            }
            v += 1;
        }
        assert(self.in_mst@.take(n as int) =~= self.in_mst@);
        count
    }
}

} // verus!
