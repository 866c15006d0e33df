//! All-pairs buffers: a V×V distance matrix and a next-hop matrix, both
//! row-major flattened.
use vstd::prelude::*;
use crate::walks::INF;

verus! {

/// Sentinel for "no next vertex on path".
pub const APSP_NO_PATH: usize = usize::MAX;

/// Row-major index of entry `(i, j)` in a matrix of `n` columns.
pub proof fn lemma_index(n: int, i: int, j: int)
    requires
        0 <= i < n,
        0 <= j < n,
    ensures
        0 <= i * n + j < n * n,
{
    assert(0 <= i * n) by (nonlinear_arith)
        requires 0 <= i, 0 <= n;
    assert(i * n + j < n * n) by (nonlinear_arith)
        requires 0 <= i < n, 0 <= j < n;
}

/// Distinct entries have distinct row-major indices.
pub proof fn lemma_index_injective(n: int, i: int, j: int, a: int, b: int)
    requires
        0 <= i < n,
        0 <= j < n,
        0 <= a < n,
        0 <= b < n,
        i * n + j == a * n + b,
    ensures
        i == a,
        j == b,
{
    if i < a {
        assert(i * n + j < a * n + b) by (nonlinear_arith)
            requires i < a, 0 <= j < n, 0 <= b;
    } else if a < i {
        assert(a * n + b < i * n + j) by (nonlinear_arith)
            requires a < i, 0 <= b < n, 0 <= j;
    }
}

/// APSP buffers. V×V distance matrix + next-hop matrix, both row-major flattened.
#[derive(Clone, Debug)]
pub struct ApspBuffers {
    pub n: usize,
    pub dist: Vec<i128>,
    pub next: Vec<usize>,
}

/// The vertex reached after `t` next-hops from `c` towards `j`.
pub open spec fn hop(next: Seq<usize>, n: int, c: usize, j: usize, t: nat) -> usize
    decreases t,
{
    if t == 0 {
        c
    } else {
        next[hop(next, n, c, j, (t - 1) as nat) * n + j]
    }
}

/// Following next-hops from `i` towards `j` stays on vertices for `k` steps
/// and then stands at `j` or at `APSP_NO_PATH`.
pub open spec fn route_ends(next: Seq<usize>, n: int, i: usize, j: usize, k: nat) -> bool {
    &&& hop(next, n, i, j, k) == j || hop(next, n, i, j, k) == APSP_NO_PATH
    &&& forall|t: nat| t < k ==> #[trigger] hop(next, n, i, j, t) != j && hop(next, n, i, j, t) != APSP_NO_PATH
        && hop(next, n, i, j, t) < n
}

/// The number of hops of the route from `i` towards `j` (when it ends).
pub open spec fn route_length(next: Seq<usize>, n: int, i: usize, j: usize) -> nat {
    choose|k: nat| route_ends(next, n, i, j, k)
}

pub proof fn lemma_route_length_unique(next: Seq<usize>, n: int, i: usize, j: usize, k: nat)
    requires
        route_ends(next, n, i, j, k),
    ensures
        route_length(next, n, i, j) == k,
{
    let c = route_length(next, n, i, j);
    assert(route_ends(next, n, i, j, c));
    if c < k {
        assert(hop(next, n, i, j, c) != j && hop(next, n, i, j, c) != APSP_NO_PATH);
    } else if k < c {
        assert(hop(next, n, i, j, k) != j && hop(next, n, i, j, k) != APSP_NO_PATH);
    }
}

impl ApspBuffers {
    /// Both matrices hold `n * n` entries.
    pub open spec fn wf(&self) -> bool {
        &&& self.n * self.n <= usize::MAX
        &&& self.dist@.len() == self.n * self.n
        &&& self.next@.len() == self.n * self.n
    }

    /// Distance entry `(i, j)`.
    pub open spec fn at(&self, i: int, j: int) -> i128 {
        self.dist@[i * self.n + j]
    }

    /// Next-hop entry `(i, j)`.
    pub open spec fn next_at(&self, i: int, j: int) -> usize {
        self.next@[i * self.n + j]
    }

    /// Zero on the diagonal, `INF` elsewhere; no next-hops.
    pub open spec fn is_reset(&self) -> bool {
        &&& self.wf()
        &&& forall|i: int, j: int| 0 <= i < self.n && 0 <= j < self.n ==> #[trigger] self.at(i, j) == (if i == j { 0 } else { INF })
        &&& forall|x: int| 0 <= x < self.next@.len() ==> #[trigger] self.next@[x] == APSP_NO_PATH
    }

    fn fill_diagonal(&mut self)
        requires
            old(self).wf(),
            forall|x: int| 0 <= x < old(self).dist@.len() ==> #[trigger] old(self).dist@[x] == INF,
            forall|x: int| 0 <= x < old(self).next@.len() ==> #[trigger] old(self).next@[x] == APSP_NO_PATH,
        ensures
            final(self).is_reset(),
            final(self).n == old(self).n,
    {
        let n = self.n;
        proof {
            assert forall|a: int, b: int| 0 <= a < n && 0 <= b < n implies #[trigger] self.dist@[a * n + b] == (if a == b && a < 0 { 0 } else { INF }) by {
                lemma_index(n as int, a, b);
            }
        }
        let mut i: usize = 0;
        while i < n
            invariant
                n == self.n,
                self.wf(),
                i <= n,
                forall|a: int, b: int| 0 <= a < n && 0 <= b < n ==> #[trigger] self.dist@[a * n + b] == (if a == b && a < i { 0 } else { INF }),
                forall|x: int| 0 <= x < self.next@.len() ==> #[trigger] self.next@[x] == APSP_NO_PATH,
            decreases n - i,
        {
            proof {
                lemma_index(n as int, i as int, i as int);
            }
            let ghost old_dist = self.dist@;
            self.dist.set(i * n + i, 0);
            proof {
                assert forall|a: int, b: int| 0 <= a < n && 0 <= b < n implies #[trigger] self.dist@[a * n + b] == (if a == b && a < i + 1 { 0 } else { INF }) by {
                    lemma_index(n as int, a, b);
                    if a * n + b == i * n + i {
                        lemma_index_injective(n as int, a, b, i as int, i as int);
                    } else {
                        assert(self.dist@[a * n + b] == old_dist[a * n + b]);
                    }
                }
            }
            i += 1;
        }
        assert forall|a: int, b: int| 0 <= a < self.n && 0 <= b < self.n implies #[trigger] self.at(a, b) == (if a == b { 0 } else { INF }) by {
            assert(self.dist@[a * n + b] == (if a == b && a < n { 0 } else { INF }));
        }
    }

    pub fn new(n: usize) -> (r: Self)
        requires
            n * n <= usize::MAX,
        ensures
            r.n == n,
            r.is_reset(),
    {
        let size = n * n;
        let dist = vec![INF; size];
        let next = vec![APSP_NO_PATH; size];
        let mut b = ApspBuffers { n, dist, next };
        b.fill_diagonal();
        b
    }

    pub fn reset(&mut self)
        requires
            old(self).wf(),
        ensures
            final(self).n == old(self).n,
            final(self).is_reset(),
    {
        let len = self.dist.len();
        let mut x: usize = 0;
        while x < len
            invariant
                self.wf(),
                self.n == old(self).n,
                len == self.dist@.len(),
                x <= len,
                forall|y: int| 0 <= y < x ==> #[trigger] self.dist@[y] == INF,
                forall|y: int| 0 <= y < x ==> #[trigger] self.next@[y] == APSP_NO_PATH,
            decreases len - x,
        {
            self.dist.set(x, INF);
            self.next.set(x, APSP_NO_PATH);
            x += 1;
        }
        self.fill_diagonal();
    }

    pub fn get(&self, i: usize, j: usize) -> (r: i128)
        requires
            self.wf(),
            i < self.n,
            j < self.n,
        ensures
            r == self.at(i as int, j as int),
    {
        proof {
            lemma_index(self.n as int, i as int, j as int);
        }
        self.dist[i * self.n + j]
    }

    pub fn set(&mut self, i: usize, j: usize, d: i128)
        requires
            old(self).wf(),
            i < old(self).n,
            j < old(self).n,
        ensures
            final(self).n == old(self).n,
            final(self).wf(),
            final(self).next@ == old(self).next@,
            final(self).dist@ == old(self).dist@.update(i * old(self).n + j, d),
    {
        proof {
            lemma_index(self.n as int, i as int, j as int);
        }
        let n = self.n;
        self.dist.set(i * n + j, d);
    }

    pub fn get_next(&self, i: usize, j: usize) -> (r: usize)
        requires
            self.wf(),
            i < self.n,
            j < self.n,
        ensures
            r == self.next_at(i as int, j as int),
    {
        proof {
            lemma_index(self.n as int, i as int, j as int);
        }
        self.next[i * self.n + j]
    }

    pub fn set_next(&mut self, i: usize, j: usize, v: usize)
        requires
            old(self).wf(),
            i < old(self).n,
            j < old(self).n,
        ensures
            final(self).n == old(self).n,
            final(self).wf(),
            final(self).dist@ == old(self).dist@,
            final(self).next@ == old(self).next@.update(i * old(self).n + j, v),
    {
        proof {
            lemma_index(self.n as int, i as int, j as int);
        }
        let n = self.n;
        self.next.set(i * n + j, v);
    }

    /// Path i -> j, or None if unreachable.
    ///
    /// Follows next-hops from `i` until `j`; a missing hop gives `None`.
    pub fn path(&self, i: usize, j: usize) -> (r: Option<Vec<usize>>)
        requires
            self.wf(),
            i < self.n,
            j < self.n,
            self.at(i as int, j as int) != INF && i != j ==> exists|k: nat| route_ends(self.next@, self.n as int, i, j, k),
        ensures
            self.at(i as int, j as int) == INF ==> r is None,
            self.at(i as int, j as int) != INF && i == j ==> (r matches Some(p) && p@ == seq![i]),
            self.at(i as int, j as int) != INF && i != j ==> ({
                let k = route_length(self.next@, self.n as int, i, j);
                if hop(self.next@, self.n as int, i, j, k) == APSP_NO_PATH {
                    r is None
                } else {
                    r matches Some(p) && p@ == Seq::new(k + 1, |t: int| hop(self.next@, self.n as int, i, j, t as nat))
                }
            }),
    {
        if self.get(i, j) == INF {
            return None;
        }
        if i == j {
            return Some(vec![i]);
        }
        let ghost next = self.next@;
        let ghost n = self.n as int;
        let ghost k = route_length(next, n, i, j);
        proof {
            let kk = choose|kk: nat| route_ends(next, n, i, j, kk);
            lemma_route_length_unique(next, n, i, j, kk);
        }
        let mut path = vec![i];
        let mut curr = i;
        let mut t: usize = 0;
        while curr != j
            invariant
                next == self.next@,
                n == self.n,
                self.wf(),
                j < n,
                i != j,
                route_ends(next, n, i, j, k),
                t <= k,
                curr == hop(next, n, i, j, t as nat),
                curr != APSP_NO_PATH,
                path@ == Seq::new(t as nat + 1, |x: int| hop(next, n, i, j, x as nat)),
            decreases k - t,
        {
            assert(t < k) by {
                if t == k {
                    assert(hop(next, n, i, j, k) == j || hop(next, n, i, j, k) == APSP_NO_PATH);
                }
            }
            assert(hop(next, n, i, j, t as nat) < n);
            curr = self.get_next(curr, j);
            proof {
                lemma_index(n, hop(next, n, i, j, t as nat) as int, j as int);
            }
            if curr == APSP_NO_PATH {
                proof {
                    assert(hop(next, n, i, j, (t + 1) as nat) == APSP_NO_PATH);
                    if t + 1 < k {
                        assert(hop(next, n, i, j, (t + 1) as nat) != APSP_NO_PATH);
                    }
                }
                return None;
            }
            path.push(curr);
            t = path.len() - 1;
            assert(path@ =~= Seq::new(t as nat + 1, |x: int| hop(next, n, i, j, x as nat)));
        }
        proof {
            if t < k {
                assert(hop(next, n, i, j, t as nat) != j);
            }
        }
        Some(path)
    }

    /// Negative cycle iff any diagonal entry < 0.
    pub fn has_negative_cycle(&self) -> (r: bool)
        requires
            self.wf(),
        ensures
            r == exists|i: int| 0 <= i < self.n && #[trigger] self.at(i, i) < 0,
    {
        let n = self.n;
        let mut i: usize = 0;
        while i < n
            invariant
                n == self.n,
                self.wf(),
                i <= n,
                forall|a: int| 0 <= a < i ==> #[trigger] self.at(a, a) >= 0,
            decreases n - i,
        {
            if self.get(i, i) < 0 {
                return true;
            }
            i += 1;
        }
        false
    }
}

} // verus!
