//! The next-hop routes of the all-pairs matrix: without a negative closed
//! walk, the route of next-hops from `i` towards `j` ends at `j`, along edges
//! whose weights add up to the entry `(i, j)`.
use vstd::prelude::*;
use crate::apsp::{APSP_NO_PATH, ApspBuffers, hop, route_ends};
use crate::common::clamp_i128;
use crate::floyd_warshall::{lemma_n_small, lowered, matrix_bounded, matrix_sound, next_through, relaxed_through};
use crate::graph::valid_adjacency;
use crate::simple_walks::{
    has_negative_cycle, interior_below, lemma_decompose, lemma_shortcut, lemma_simple_walk_short, lemma_walk_concat,
    lemma_walk_vertex_concat, simple_walk,
};
use crate::walks::{INF, is_shortest, is_walk, reaches, walk_end, walk_len, weight_bound};

verus! {

/// Every finite entry `(i, j)` has a walk from `i` to `j` whose inner
/// vertices are below `k`.
pub open spec fn matrix_witnessed(adj: Seq<Seq<(usize, i64)>>, b: ApspBuffers, k: int) -> bool {
    forall|i: int, j: int|
        0 <= i < b.n && 0 <= j < b.n && #[trigger] b.at(i, j) != INF ==> exists|es: Seq<(int, int)>|
            #[trigger] reaches(adj, i, es, j) && interior_below(adj, i, es, k)
}

/// The largest magnitude of a finite entry without negative closed walks.
pub open spec fn entry_bound(n: int) -> int {
    n * weight_bound()
}

/// A relaxing step keeps a walk behind each finite entry, now with inner
/// vertices below `k + 1`.
pub proof fn lemma_witnessed_step(adj: Seq<Seq<(usize, i64)>>, b0: ApspBuffers, b1: ApspBuffers, k: int)
    requires
        b0.n == adj.len(),
        b1.n == b0.n,
        0 <= k < b0.n,
        matrix_witnessed(adj, b0, k),
        forall|i: int, j: int| 0 <= i < b0.n && 0 <= j < b0.n ==> #[trigger] b1.at(i, j) == relaxed_through(b0, i, j, k),
    ensures
        matrix_witnessed(adj, b1, k + 1),
{
    assert forall|i: int, j: int| 0 <= i < b1.n && 0 <= j < b1.n && #[trigger] b1.at(i, j) != INF implies exists|es: Seq<(int, int)>|
        #[trigger] reaches(adj, i, es, j) && interior_below(adj, i, es, k + 1) by {
        assert(b1.at(i, j) == relaxed_through(b0, i, j, k));
        if lowered(b0, i, j, k) {
            let p1 = choose|es: Seq<(int, int)>| #[trigger] reaches(adj, i, es, k) && interior_below(adj, i, es, k);
            let p2 = choose|es: Seq<(int, int)>| #[trigger] reaches(adj, k, es, j) && interior_below(adj, k, es, k);
            lemma_walk_concat(adj, i, p1, p2);
            let es = p1 + p2;
            assert forall|t: int| 0 < t < es.len() implies #[trigger] crate::simple_walks::walk_vertex(adj, i, es, t) < k + 1 by {
                lemma_walk_vertex_concat(adj, i, p1, p2, t);
                if t < p1.len() {
                    assert(crate::simple_walks::walk_vertex(adj, i, p1, t) < k);
                } else if t == p1.len() {
                    assert(p1.take(t) =~= p1);
                } else {
                    assert(crate::simple_walks::walk_vertex(adj, k, p2, t - p1.len()) < k);
                }
            }
            assert(reaches(adj, i, es, j));
        } else {
            assert(b0.at(i, j) != INF);
            let es = choose|es: Seq<(int, int)>| #[trigger] reaches(adj, i, es, j) && interior_below(adj, i, es, k);
            assert(interior_below(adj, i, es, k + 1));
        }
    }
}

/// Without negative closed walks, a finite entry lies within `entry_bound`.
pub proof fn lemma_entry_bounds(adj: Seq<Seq<(usize, i64)>>, b: ApspBuffers, k: int, i: int, j: int)
    requires
        valid_adjacency(adj),
        b.wf(),
        b.n == adj.len(),
        !has_negative_cycle(adj),
        matrix_sound(adj, b),
        matrix_bounded(adj, b, k),
        matrix_witnessed(adj, b, k),
        0 <= i < b.n,
        0 <= j < b.n,
        b.at(i, j) != INF,
    ensures
        -entry_bound(b.n as int) <= b.at(i, j) <= entry_bound(b.n as int),
{
    let es = choose|es: Seq<(int, int)>| #[trigger] reaches(adj, i, es, j) && interior_below(adj, i, es, k);
    lemma_shortcut(adj, i, es, k);
    let q = choose|q: Seq<(int, int)>| #[trigger] reaches(adj, i, q, walk_end(adj, i, es)) && simple_walk(adj, i, q) && interior_below(adj, i, q, k);
    assert(reaches(adj, i, q, j));
    lemma_simple_walk_short(adj, i, q);
    let ws = choose|ws: Seq<(int, int)>| #[trigger] reaches(adj, i, ws, j) && walk_len(adj, ws) <= b.at(i, j);
    lemma_decompose(adj, i, ws);
    if exists|q2: Seq<(int, int)>|
        #[trigger] reaches(adj, i, q2, walk_end(adj, i, ws)) && simple_walk(adj, i, q2) && walk_len(adj, q2) <= walk_len(adj, ws) {
        let q2 = choose|q2: Seq<(int, int)>|
            #[trigger] reaches(adj, i, q2, walk_end(adj, i, ws)) && simple_walk(adj, i, q2) && walk_len(adj, q2) <= walk_len(adj, ws);
        lemma_simple_walk_short(adj, i, q2);
    } else {
        let (x, pre, c) = choose|x: int, pre: Seq<(int, int)>, c: Seq<(int, int)>|
            0 <= x < adj.len() && #[trigger] reaches(adj, i, pre, x) && #[trigger] reaches(adj, x, c, x)
                && simple_walk(adj, x, c) && walk_len(adj, c) < 0;
        assert(reaches(adj, x, c, x));
        assert(has_negative_cycle(adj));
    }
}

/// Without negative closed walks, the diagonal is zero and no closed pair of
/// entries is negative.
pub proof fn lemma_closed_entries(adj: Seq<Seq<(usize, i64)>>, b: ApspBuffers, k: int, i: int, j: int)
    requires
        valid_adjacency(adj),
        b.wf(),
        b.n == adj.len(),
        !has_negative_cycle(adj),
        matrix_sound(adj, b),
        matrix_bounded(adj, b, k),
        0 <= i < b.n,
        0 <= j < b.n,
    ensures
        b.at(i, i) == 0,
        b.at(i, j) != INF && b.at(j, i) != INF ==> b.at(i, j) + b.at(j, i) >= 0,
{
    let e = Seq::<(int, int)>::empty();
    assert(reaches(adj, i, e, i));
    assert(simple_walk(adj, i, e));
    assert(interior_below(adj, i, e, k));
    assert(b.at(i, i) <= 0);
    if b.at(i, i) != INF {
        let c = choose|es: Seq<(int, int)>| #[trigger] reaches(adj, i, es, i) && walk_len(adj, es) <= b.at(i, i);
        if walk_len(adj, c) < 0 {
            assert(reaches(adj, i, c, i));
            assert(has_negative_cycle(adj));
        }
    }
    if b.at(i, j) != INF && b.at(j, i) != INF {
        let p1 = choose|es: Seq<(int, int)>| #[trigger] reaches(adj, i, es, j) && walk_len(adj, es) <= b.at(i, j);
        let p2 = choose|es: Seq<(int, int)>| #[trigger] reaches(adj, j, es, i) && walk_len(adj, es) <= b.at(j, i);
        lemma_walk_concat(adj, i, p1, p2);
        assert(reaches(adj, i, p1 + p2, i));
        if walk_len(adj, p1 + p2) < 0 {
            assert(has_negative_cycle(adj));
        }
    }
}

/// The next-hop of entry `(i, j)` while the matrix is built: an edge
/// `i -> x` with `(i, j) == weight + pd(i, j)`, where `pd(i, j)` bounds the
/// entry `(x, j)` from above; while that bound is met, `(x, j)` was last set
/// before `(i, j)` (it has a smaller rank).
pub open spec fn hop_link(
    adj: Seq<Seq<(usize, i64)>>,
    b: ApspBuffers,
    pd: spec_fn(int, int) -> int,
    rank: spec_fn(int, int) -> nat,
    i: int,
    j: int,
) -> bool {
    let x = b.next_at(i, j) as int;
    &&& 0 <= x < b.n
    &&& b.at(x, j) <= pd(i, j)
    &&& exists|e: int| 0 <= e < adj[i].len() && (#[trigger] adj[i][e]).0 == x && b.at(i, j) == adj[i][e].1 + pd(i, j)
    &&& b.at(x, j) == pd(i, j) ==> rank(x, j) < rank(i, j)
}

/// The next-hops of all finite entries off the diagonal, with ranks below
/// `bound` and zero on the diagonal.
pub open spec fn routes_inv(
    adj: Seq<Seq<(usize, i64)>>,
    b: ApspBuffers,
    pd: spec_fn(int, int) -> int,
    rank: spec_fn(int, int) -> nat,
    bound: nat,
) -> bool {
    &&& forall|x: int| 0 <= x < b.n ==> #[trigger] rank(x, x) == 0
    &&& forall|i: int, j: int| 0 <= i < b.n && 0 <= j < b.n ==> #[trigger] rank(i, j) < bound
    &&& forall|i: int, j: int|
        0 <= i < b.n && 0 <= j < b.n && i != j && b.at(i, j) != INF ==> #[trigger] hop_link(adj, b, pd, rank, i, j)
}

/// The bounds `pd` after relaxing through `k`.
pub open spec fn next_pd(b0: ApspBuffers, k: int, pd: spec_fn(int, int) -> int) -> spec_fn(int, int) -> int {
    |i: int, j: int| if lowered(b0, i, j, k) { pd(i, k) + b0.at(k, j) } else { pd(i, j) }
}

/// The ranks after relaxing through `k`: entries set in this step rank after
/// every earlier one.
pub open spec fn next_rank(b0: ApspBuffers, k: int, rank: spec_fn(int, int) -> nat, bound: nat) -> spec_fn(int, int) -> nat {
    |i: int, j: int| if lowered(b0, i, j, k) { (bound + rank(i, k)) as nat } else { rank(i, j) }
}

/// The starting matrix: every finite entry off the diagonal is an edge to
/// its column, named by its next-hop.
pub proof fn lemma_routes_initial(adj: Seq<Seq<(usize, i64)>>, b: ApspBuffers)
    requires
        b.n == adj.len(),
        forall|a: int| 0 <= a < b.n ==> #[trigger] b.at(a, a) <= 0,
        forall|a: int, c: int| 0 <= a < b.n && 0 <= c < b.n && a != c && #[trigger] b.at(a, c) != INF ==> b.next_at(a, c) == c as usize,
        forall|a: int, c: int|
            0 <= a < b.n && 0 <= c < b.n && #[trigger] b.at(a, c) != INF ==> (a == c && b.at(a, c) == 0) || exists|x: int|
                0 <= x < adj[a].len() && #[trigger] adj[a][x].0 == c as usize && adj[a][x].1 as int == b.at(a, c) as int,
    ensures
        routes_inv(adj, b, |i: int, j: int| 0int, |i: int, j: int| if i == j { 0nat } else { 1nat }, 2),
{
    let pd = |i: int, j: int| 0int;
    let rank = |i: int, j: int| if i == j { 0nat } else { 1nat };
    assert forall|i: int, j: int| 0 <= i < b.n && 0 <= j < b.n && i != j && b.at(i, j) != INF implies #[trigger] hop_link(adj, b, pd, rank, i, j) by {
        assert(b.next_at(i, j) == j as usize);
        let x = choose|x: int| 0 <= x < adj[i].len() && #[trigger] adj[i][x].0 == j as usize && adj[i][x].1 as int == b.at(i, j) as int;
        assert(b.at(j, j) <= 0);
    }
}

/// One relaxing step through `k` keeps the next-hops as `routes_inv`
/// describes them (without negative closed walks).
pub proof fn lemma_routes_step(
    adj: Seq<Seq<(usize, i64)>>,
    b0: ApspBuffers,
    b1: ApspBuffers,
    k: int,
    pd: spec_fn(int, int) -> int,
    rank: spec_fn(int, int) -> nat,
    bound: nat,
)
    requires
        valid_adjacency(adj),
        b0.wf(),
        b0.n == adj.len(),
        b1.n == b0.n,
        0 <= k < b0.n,
        !has_negative_cycle(adj),
        matrix_sound(adj, b0),
        matrix_bounded(adj, b0, k),
        matrix_witnessed(adj, b0, k),
        routes_inv(adj, b0, pd, rank, bound),
        forall|i: int, j: int| 0 <= i < b0.n && 0 <= j < b0.n ==> #[trigger] b1.at(i, j) == relaxed_through(b0, i, j, k),
        forall|i: int, j: int| 0 <= i < b0.n && 0 <= j < b0.n ==> #[trigger] b1.next_at(i, j) == next_through(b0, i, j, k),
    ensures
        routes_inv(adj, b1, next_pd(b0, k, pd), next_rank(b0, k, rank, bound), 2 * bound),
{
    let n = b0.n as int;
    let pd1 = next_pd(b0, k, pd);
    let rank1 = next_rank(b0, k, rank, bound);
    lemma_n_small(n);
    assert(entry_bound(n) < 0x1_0000_0000 * weight_bound()) by (nonlinear_arith)
        requires n < 0x1_0000_0000, weight_bound() > 0;
    lemma_closed_entries(adj, b0, k, k, k);
    assert forall|x: int| 0 <= x < n implies #[trigger] rank1(x, x) == 0 by {
        lemma_closed_entries(adj, b0, k, x, k);
        assert(!lowered(b0, x, x, k));
    }
    assert forall|i: int, j: int| 0 <= i < n && 0 <= j < n implies #[trigger] rank1(i, j) < 2 * bound by {
        assert(rank(i, j) < bound);
        assert(rank(i, k) < bound);
    }
    assert forall|i: int, j: int| 0 <= i < n && 0 <= j < n && i != j && b1.at(i, j) != INF implies #[trigger] hop_link(adj, b1, pd1, rank1, i, j) by {
        lemma_routes_step_entry(adj, b0, b1, k, pd, rank, bound, i, j);
    }
}

/// `lemma_routes_step` for one entry.
proof fn lemma_routes_step_entry(
    adj: Seq<Seq<(usize, i64)>>,
    b0: ApspBuffers,
    b1: ApspBuffers,
    k: int,
    pd: spec_fn(int, int) -> int,
    rank: spec_fn(int, int) -> nat,
    bound: nat,
    i: int,
    j: int,
)
    requires
        valid_adjacency(adj),
        b0.wf(),
        b0.n == adj.len(),
        b1.n == b0.n,
        0 <= k < b0.n,
        !has_negative_cycle(adj),
        matrix_sound(adj, b0),
        matrix_bounded(adj, b0, k),
        matrix_witnessed(adj, b0, k),
        routes_inv(adj, b0, pd, rank, bound),
        entry_bound(b0.n as int) < 0x1_0000_0000 * weight_bound(),
        forall|i: int, j: int| 0 <= i < b0.n && 0 <= j < b0.n ==> #[trigger] b1.at(i, j) == relaxed_through(b0, i, j, k),
        forall|i: int, j: int| 0 <= i < b0.n && 0 <= j < b0.n ==> #[trigger] b1.next_at(i, j) == next_through(b0, i, j, k),
        0 <= i < b0.n,
        0 <= j < b0.n,
        i != j,
        b1.at(i, j) != INF,
    ensures
        hop_link(adj, b1, next_pd(b0, k, pd), next_rank(b0, k, rank, bound), i, j),
{
    let n = b0.n as int;
    let pd1 = next_pd(b0, k, pd);
    let rank1 = next_rank(b0, k, rank, bound);
    lemma_closed_entries(adj, b0, k, k, k);
    assert(b1.at(i, j) == relaxed_through(b0, i, j, k));
    assert(b1.next_at(i, j) == next_through(b0, i, j, k));
    if lowered(b0, i, j, k) {
        let a = b0.at(i, k);
        let c = b0.at(k, j);
        lemma_entry_bounds(adj, b0, k, i, k);
        lemma_entry_bounds(adj, b0, k, k, j);
        assert(b1.at(i, j) == a + c);
        assert(i != k);
        assert(j != k);
        assert(hop_link(adj, b0, pd, rank, i, k));
        let x = b0.next_at(i, k) as int;
        let e = choose|e: int| 0 <= e < adj[i].len() && (#[trigger] adj[i][e]).0 == x && b0.at(i, k) == adj[i][e].1 + pd(i, k);
        assert(b1.next_at(i, j) == x as usize);
        assert(pd1(i, j) == pd(i, k) + c);
        assert(b1.at(i, j) == adj[i][e].1 + pd1(i, j));
        assert(b0.at(x, k) != INF);
        lemma_entry_bounds(adj, b0, k, x, k);
        assert(b1.at(x, j) == relaxed_through(b0, x, j, k));
        assert(b1.at(x, j) <= b0.at(x, k) + c);
        assert(b1.at(x, j) <= pd1(i, j));
        if b1.at(x, j) == pd1(i, j) {
            if lowered(b0, x, j, k) {
                assert(b1.at(x, j) == b0.at(x, k) + c);
                assert(b0.at(x, k) == pd(i, k));
                assert(rank(x, k) < rank(i, k));
            } else {
                assert(rank(x, j) < bound);
            }
        }
    } else {
        assert(b1.at(i, j) == b0.at(i, j));
        assert(hop_link(adj, b0, pd, rank, i, j));
        let x = b0.next_at(i, j) as int;
        assert(b1.next_at(i, j) == x as usize);
        let e = choose|e: int| 0 <= e < adj[i].len() && (#[trigger] adj[i][e]).0 == x && b0.at(i, j) == adj[i][e].1 + pd(i, j);
        assert(b1.at(x, j) == relaxed_through(b0, x, j, k));
        assert(b1.at(x, j) <= b0.at(x, j));
        if b1.at(x, j) == pd1(i, j) {
            assert(b0.at(x, j) == pd(i, j));
            assert(!lowered(b0, x, j, k));
        }
    }
}

/// The next-hop of a finite entry `(i, j)` off the diagonal is a vertex `x`
/// with a finite entry `(x, j)`, joined to `i` by an edge whose weight is
/// `(i, j) - (x, j)`.
pub open spec fn next_hop_tight(adj: Seq<Seq<(usize, i64)>>, b: ApspBuffers, i: int, j: int) -> bool {
    let x = b.next_at(i, j) as int;
    &&& 0 <= x < b.n
    &&& b.at(x, j) != INF
    &&& exists|e: int| 0 <= e < adj[i].len() && (#[trigger] adj[i][e]).0 == x && b.at(i, j) == adj[i][e].1 + b.at(x, j)
}

/// Every finite entry's next-hop is tight, and the route of next-hops from
/// `i` towards `j` ends at `j`.
pub open spec fn routes_ok(adj: Seq<Seq<(usize, i64)>>, b: ApspBuffers) -> bool {
    &&& forall|i: int, j: int|
        0 <= i < b.n && 0 <= j < b.n && i != j && b.at(i, j) != INF ==> #[trigger] next_hop_tight(adj, b, i, j)
    &&& forall|i: int, j: int|
        0 <= i < b.n && 0 <= j < b.n && #[trigger] b.at(i, j) != INF ==> exists|k: nat|
            #[trigger] route_ends(b.next@, b.n as int, i as usize, j as usize, k) && hop(b.next@, b.n as int, i as usize, j as usize, k)
                == j as usize
}

/// One hop along the route: `t + 1` hops from `c` are `t` hops from `c`'s next-hop.
pub proof fn lemma_hop_step(next: Seq<usize>, n: int, c: usize, j: usize, t: nat)
    ensures
        hop(next, n, c, j, t + 1) == hop(next, n, next[c * n + j], j, t),
    decreases t,
{
    if t > 0 {
        lemma_hop_step(next, n, c, j, (t - 1) as nat);
        assert(hop(next, n, c, j, t + 1) == next[hop(next, n, c, j, t) * n + j]);
        assert(hop(next, n, next[c * n + j], j, t) == next[hop(next, n, next[c * n + j], j, (t - 1) as nat) * n + j]);
    } else {
        assert(hop(next, n, c, j, 1) == next[hop(next, n, c, j, 0) * n + j]);
    }
}

/// With shortest entries, the bounds `pd` are met and every next-hop is tight.
proof fn lemma_hop_tight(
    adj: Seq<Seq<(usize, i64)>>,
    b: ApspBuffers,
    pd: spec_fn(int, int) -> int,
    rank: spec_fn(int, int) -> nat,
    bound: nat,
    i: int,
    j: int,
)
    requires
        valid_adjacency(adj),
        b.wf(),
        b.n == adj.len(),
        !has_negative_cycle(adj),
        forall|a: int, c: int| 0 <= a < b.n && 0 <= c < b.n ==> is_shortest(adj, seq![a as usize], c, #[trigger] b.at(a, c)),
        routes_inv(adj, b, pd, rank, bound),
        0 <= i < b.n,
        0 <= j < b.n,
        i != j,
        b.at(i, j) != INF,
    ensures
        next_hop_tight(adj, b, i, j),
        b.next_at(i, j) != j as usize ==> rank(b.next_at(i, j) as int, j) < rank(i, j),
{
    let n = b.n as int;
    lemma_n_small(n);
    assert(entry_bound(n) < 0x1_0000_0000 * weight_bound()) by (nonlinear_arith)
        requires n < 0x1_0000_0000, weight_bound() > 0;
    assert(hop_link(adj, b, pd, rank, i, j));
    let x = b.next_at(i, j) as int;
    let e = choose|e: int| 0 <= e < adj[i].len() && (#[trigger] adj[i][e]).0 == x && b.at(i, j) == adj[i][e].1 + pd(i, j);
    let src = seq![i as usize];
    assert(src.contains(i as usize)) by {
        assert(src[0] == i as usize);
    }
    // The entry is at most the length of some simple walk.
    assert(is_shortest(adj, src, j, b.at(i, j)));
    let (s0, ws) = choose|s0: usize, ws: Seq<(int, int)>|
        #[trigger] src.contains(s0) && #[trigger] reaches(adj, s0 as int, ws, j) && walk_len(adj, ws) == b.at(i, j) as int;
    assert(s0 == i as usize);
    lemma_decompose(adj, i, ws);
    if exists|q: Seq<(int, int)>|
        #[trigger] reaches(adj, i, q, walk_end(adj, i, ws)) && simple_walk(adj, i, q) && walk_len(adj, q) <= walk_len(adj, ws) {
        let q = choose|q: Seq<(int, int)>|
            #[trigger] reaches(adj, i, q, walk_end(adj, i, ws)) && simple_walk(adj, i, q) && walk_len(adj, q) <= walk_len(adj, ws);
        lemma_simple_walk_short(adj, i, q);
        assert(reaches(adj, (i as usize) as int, q, j));
        assert(b.at(i, j) <= walk_len(adj, q));
    } else {
        let (y, pre, c) = choose|y: int, pre: Seq<(int, int)>, c: Seq<(int, int)>|
            0 <= y < adj.len() && #[trigger] reaches(adj, i, pre, y) && #[trigger] reaches(adj, y, c, y)
                && simple_walk(adj, y, c) && walk_len(adj, c) < 0;
        assert(reaches(adj, y, c, y));
        assert(has_negative_cycle(adj));
    }
    assert(b.at(i, j) <= entry_bound(n));
    // So the next-hop's entry is finite.
    assert(b.at(x, j) != INF);
    // And the entry is at most the edge plus the next-hop's entry.
    assert(is_shortest(adj, seq![x as usize], j, b.at(x, j)));
    let (s1, wx) = choose|s1: usize, wx: Seq<(int, int)>|
        #[trigger] seq![x as usize].contains(s1) && #[trigger] reaches(adj, s1 as int, wx, j) && walk_len(adj, wx) == b.at(x, j) as int;
    assert(s1 == x as usize) by {
        assert(seq![x as usize][0] == x as usize);
    }
    let one = seq![(i, e)];
    assert(one.drop_last() =~= Seq::<(int, int)>::empty());
    assert(one.last() == (i, e));
    assert(is_walk(adj, i, Seq::<(int, int)>::empty()));
    assert(walk_len(adj, Seq::<(int, int)>::empty()) == 0);
    assert(is_walk(adj, i, one));
    assert(walk_end(adj, i, one) == x);
    lemma_walk_concat(adj, i, one, wx);
    assert(reaches(adj, (i as usize) as int, one + wx, j));
    assert(b.at(i, j) <= walk_len(adj, one + wx));
    assert(pd(i, j) == b.at(x, j));
}

/// The route of next-hops from `i` ends at `j`.
proof fn lemma_route_from(
    adj: Seq<Seq<(usize, i64)>>,
    b: ApspBuffers,
    pd: spec_fn(int, int) -> int,
    rank: spec_fn(int, int) -> nat,
    bound: nat,
    i: int,
    j: int,
)
    requires
        valid_adjacency(adj),
        b.wf(),
        b.n == adj.len(),
        !has_negative_cycle(adj),
        forall|a: int, c: int| 0 <= a < b.n && 0 <= c < b.n ==> is_shortest(adj, seq![a as usize], c, #[trigger] b.at(a, c)),
        routes_inv(adj, b, pd, rank, bound),
        0 <= i < b.n,
        0 <= j < b.n,
        i != j,
        b.at(i, j) != INF,
    ensures
        exists|k: nat|
            #[trigger] route_ends(b.next@, b.n as int, i as usize, j as usize, k) && hop(b.next@, b.n as int, i as usize, j as usize, k)
                == j as usize,
    decreases rank(i, j),
{
    let n = b.n as int;
    let next = b.next@;
    lemma_n_small(n);
    lemma_hop_tight(adj, b, pd, rank, bound, i, j);
    let x = b.next_at(i, j);
    lemma_hop_step(next, n, i as usize, j as usize, 0);
    assert(hop(next, n, i as usize, j as usize, 0) == i as usize);
    assert(hop(next, n, x, j as usize, 0) == x);
    if x == j as usize {
        assert(route_ends(next, n, i as usize, j as usize, 1));
    } else {
        lemma_route_from(adj, b, pd, rank, bound, x as int, j);
        let k = choose|k: nat|
            #[trigger] route_ends(next, n, x, j as usize, k) && hop(next, n, x, j as usize, k) == j as usize;
        assert forall|t: nat| t < k + 1 implies #[trigger] hop(next, n, i as usize, j as usize, t) != j as usize
            && hop(next, n, i as usize, j as usize, t) != APSP_NO_PATH && hop(next, n, i as usize, j as usize, t) < n by {
            if t > 0 {
                lemma_hop_step(next, n, i as usize, j as usize, (t - 1) as nat);
                assert(hop(next, n, x, j as usize, (t - 1) as nat) != j as usize);
            }
        }
        lemma_hop_step(next, n, i as usize, j as usize, k);
        assert(route_ends(next, n, i as usize, j as usize, k + 1));
    }
}

/// After the last step, with shortest entries, the routes are as
/// `routes_ok` says.
pub proof fn lemma_routes_final(
    adj: Seq<Seq<(usize, i64)>>,
    b: ApspBuffers,
    pd: spec_fn(int, int) -> int,
    rank: spec_fn(int, int) -> nat,
    bound: nat,
)
    requires
        valid_adjacency(adj),
        b.wf(),
        b.n == adj.len(),
        !has_negative_cycle(adj),
        forall|a: int, c: int| 0 <= a < b.n && 0 <= c < b.n ==> is_shortest(adj, seq![a as usize], c, #[trigger] b.at(a, c)),
        routes_inv(adj, b, pd, rank, bound),
    ensures
        routes_ok(adj, b),
{
    let n = b.n as int;
    assert forall|i: int, j: int| 0 <= i < n && 0 <= j < n && i != j && b.at(i, j) != INF implies #[trigger] next_hop_tight(adj, b, i, j) by {
        lemma_hop_tight(adj, b, pd, rank, bound, i, j);
    }
    assert forall|i: int, j: int| 0 <= i < n && 0 <= j < n && #[trigger] b.at(i, j) != INF implies exists|k: nat|
        #[trigger] route_ends(b.next@, n, i as usize, j as usize, k) && hop(b.next@, n, i as usize, j as usize, k) == j as usize by {
        if i == j {
            assert(route_ends(b.next@, n, i as usize, j as usize, 0));
        } else {
            lemma_route_from(adj, b, pd, rank, bound, i, j);
        }
    }
}

} // verus!
