//! Floyd-Warshall all-pairs shortest paths: negative weights allowed,
//! negative cycles detected on the diagonal.
use vstd::prelude::*;
use crate::apsp::{APSP_NO_PATH, ApspBuffers, lemma_index, lemma_index_injective};
use crate::fw_routes::{lemma_routes_final, lemma_routes_initial, lemma_routes_step, lemma_witnessed_step, matrix_witnessed, next_pd, next_rank, routes_inv, routes_ok};
use crate::common::{ApspAlgorithm, ApspAlgorithmInfo, ApspResult, Event, clamp_i128, count_finite, lemma_count_finite_bound, saturating_add_i128};
use crate::graph::{Graph, valid_adjacency};
use crate::simple_walks::{has_negative_cycle, interior_below, lemma_decompose, lemma_simple_walk_short, lemma_walk_concat, lemma_walk_split, lemma_walk_vertex_range, lemma_walk_vertex_skip, simple_walk, walk_vertex};
use crate::walks::{INF, edge_ok, is_shortest, is_walk, lemma_walk_push, lower_bound, reaches, walk_end, walk_len, weight_bound};

verus! {

/// Floyd-Warshall config. `detect_negative_cycle` costs one diagonal scan.
#[derive(Clone, Debug)]
pub struct FloydWarshallConfig {
    pub detect_negative_cycle: bool,
}

impl Default for FloydWarshallConfig {
    fn default() -> (r: Self)
        ensures
            r.detect_negative_cycle,
    {
        FloydWarshallConfig { detect_negative_cycle: true }
    }
}

impl FloydWarshallConfig {
    pub fn without_negative_cycle_detection(self) -> (r: Self)
        ensures
            !r.detect_negative_cycle,
    {
        let mut c = self;
        c.detect_negative_cycle = false;
        c
    }
}

/// Each finite entry `(i, j)` bounds the length of some walk from `i` to `j` from above.
pub open spec fn matrix_sound(adj: Seq<Seq<(usize, i64)>>, b: ApspBuffers) -> bool {
    forall|i: int, j: int|
        0 <= i < b.n && 0 <= j < b.n && #[trigger] b.at(i, j) != INF ==> exists|es: Seq<(int, int)>|
            #[trigger] reaches(adj, i, es, j) && walk_len(adj, es) <= b.at(i, j)
}

/// Entry `(i, j)` is at most the length of every simple walk from `i` to `j`
/// whose inner vertices are all below `k`.
pub open spec fn matrix_bounded(adj: Seq<Seq<(usize, i64)>>, b: ApspBuffers, k: int) -> bool {
    forall|i: int, j: int, es: Seq<(int, int)>|
        0 <= i < b.n && 0 <= j < b.n && #[trigger] reaches(adj, i, es, j) && simple_walk(adj, i, es)
            && interior_below(adj, i, es, k) ==> b.at(i, j) <= walk_len(adj, es)
}

/// Every next-hop entry is a vertex or `APSP_NO_PATH`.
pub open spec fn hops_valid(b: ApspBuffers) -> bool {
    forall|x: int| 0 <= x < b.next@.len() ==> #[trigger] b.next@[x] == APSP_NO_PATH || b.next@[x] < b.n
}

/// Relaxing through `k` lowers entry `(i, j)`.
pub open spec fn lowered(b: ApspBuffers, i: int, j: int, k: int) -> bool {
    b.at(i, k) != INF && b.at(k, j) != INF && clamp_i128(b.at(i, k) + b.at(k, j)) < b.at(i, j)
}

/// Next-hop entry `(i, j)` after relaxing through `k`: that of `(i, k)` when
/// the entry is lowered.
pub open spec fn next_through(b: ApspBuffers, i: int, j: int, k: int) -> usize {
    if lowered(b, i, j, k) {
        b.next_at(i, k)
    } else {
        b.next_at(i, j)
    }
}

/// Entry `(i, j)` after relaxing through `k`.
pub open spec fn relaxed_through(b: ApspBuffers, i: int, j: int, k: int) -> i128 {
    let a = b.at(i, k);
    let c = b.at(k, j);
    if a != INF && c != INF && clamp_i128(a + c) < b.at(i, j) {
        clamp_i128(a + c)
    } else {
        b.at(i, j)
    }
}

/// The number of vertices is below 2^32 when the matrix fits in memory.
pub(crate) proof fn lemma_n_small(n: int)
    requires
        0 <= n,
        n * n <= 0xffff_ffff_ffff_ffff,
    ensures
        n < 0x1_0000_0000,
{
    if n >= 0x1_0000_0000 {
        assert(n * n >= 0x1_0000_0000 * 0x1_0000_0000) by (nonlinear_arith)
            requires n >= 0x1_0000_0000;
    }
}

/// Start from edges: `(u, v)` is the lightest edge `u -> v`, or zero on the
/// diagonal when no self-loop is lighter; next-hops name the edge's target.
fn init_from_graph<G: Graph>(graph: &G, buffers: &mut ApspBuffers)
    requires
        valid_adjacency(graph.adjacency()),
        old(buffers).wf(),
        old(buffers).n == graph.adjacency().len(),
    ensures
        final(buffers).wf(),
        final(buffers).n == old(buffers).n,
        matrix_sound(graph.adjacency(), *final(buffers)),
        matrix_bounded(graph.adjacency(), *final(buffers), 0),
        hops_valid(*final(buffers)),
        forall|a: int, b: int|
            0 <= a < final(buffers).n && 0 <= b < final(buffers).n && a != b && #[trigger] final(buffers).at(a, b) != INF
                ==> final(buffers).next_at(a, b) == b as usize,
        forall|a: int, b: int|
            0 <= a < final(buffers).n && 0 <= b < final(buffers).n && a != b && #[trigger] final(buffers).at(a, b) == INF
                ==> final(buffers).next_at(a, b) == APSP_NO_PATH,
        forall|a: int| 0 <= a < final(buffers).n ==> #[trigger] final(buffers).next_at(a, a) == a as usize,
        forall|a: int, b: int|
            0 <= a < final(buffers).n && 0 <= b < final(buffers).n && #[trigger] final(buffers).at(a, b) != INF ==> (a == b
                && final(buffers).at(a, b) == 0) || exists|x: int|
                0 <= x < graph.adjacency()[a].len() && #[trigger] graph.adjacency()[a][x].0 == b as usize
                    && graph.adjacency()[a][x].1 as int == final(buffers).at(a, b) as int,
{
    let ghost adj = graph.adjacency();
    let n = graph.n();
    buffers.reset();
    proof {
        assert forall|a: int, b: int| 0 <= a < n && 0 <= b < n && a != b && #[trigger] buffers.at(a, b) == INF implies buffers.next_at(a, b) == APSP_NO_PATH by {
            lemma_index(n as int, a, b);
            assert(buffers.next@[a * n + b] == APSP_NO_PATH);
        }
    }
    let mut u: usize = 0;
    while u < n
        invariant
            adj == graph.adjacency(),
            n == adj.len(),
            buffers.wf(),
            buffers.n == n,
            u <= n,
            valid_adjacency(adj),
            hops_valid(*buffers),
            forall|a: int, b: int| 0 <= a < n && 0 <= b < n && a != b && #[trigger] buffers.at(a, b) != INF ==> buffers.next_at(a, b) == b as usize,
            forall|a: int, b: int| 0 <= a < n && 0 <= b < n && a != b && #[trigger] buffers.at(a, b) == INF ==> buffers.next_at(a, b) == APSP_NO_PATH,
            forall|a: int, b: int| 0 <= a < n && 0 <= b < n ==> #[trigger] buffers.at(a, b) <= (if a == b { 0 } else { INF }),
            forall|a: int, b: int|
                0 <= a < n && 0 <= b < n && #[trigger] buffers.at(a, b) != INF ==> (a == b && buffers.at(a, b) == 0) || exists|x: int|
                    0 <= x < adj[a].len() && #[trigger] adj[a][x].0 == b as usize && adj[a][x].1 as int == buffers.at(a, b) as int,
            forall|a: int, x: int| 0 <= a < u && 0 <= x < adj[a].len() ==> buffers.at(a, #[trigger] adj[a][x].0 as int) <= adj[a][x].1,
        decreases n - u,
    {
        let deg = graph.out_degree(u);
        let mut i: usize = 0;
        while i < deg
            invariant
                adj == graph.adjacency(),
                n == adj.len(),
                buffers.wf(),
                buffers.n == n,
                u < n,
                deg == adj[u as int].len(),
                i <= deg,
                valid_adjacency(adj),
                hops_valid(*buffers),
                forall|a: int, b: int| 0 <= a < n && 0 <= b < n && a != b && #[trigger] buffers.at(a, b) != INF ==> buffers.next_at(a, b) == b as usize,
            forall|a: int, b: int| 0 <= a < n && 0 <= b < n && a != b && #[trigger] buffers.at(a, b) == INF ==> buffers.next_at(a, b) == APSP_NO_PATH,
            forall|a: int, b: int| 0 <= a < n && 0 <= b < n && a != b && #[trigger] buffers.at(a, b) != INF ==> buffers.next_at(a, b) == b as usize,
            forall|a: int, b: int| 0 <= a < n && 0 <= b < n && a != b && #[trigger] buffers.at(a, b) == INF ==> buffers.next_at(a, b) == APSP_NO_PATH,
                forall|a: int, b: int| 0 <= a < n && 0 <= b < n ==> #[trigger] buffers.at(a, b) <= (if a == b { 0 } else { INF }),
                forall|a: int, b: int|
                    0 <= a < n && 0 <= b < n && #[trigger] buffers.at(a, b) != INF ==> (a == b && buffers.at(a, b) == 0) || exists|x: int|
                        0 <= x < adj[a].len() && #[trigger] adj[a][x].0 == b as usize && adj[a][x].1 as int == buffers.at(a, b) as int,
                forall|a: int, x: int| 0 <= a < u && 0 <= x < adj[a].len() ==> buffers.at(a, #[trigger] adj[a][x].0 as int) <= adj[a][x].1,
                forall|x: int| 0 <= x < i ==> buffers.at(u as int, #[trigger] adj[u as int][x].0 as int) <= adj[u as int][x].1,
            decreases deg - i,
        {
            let (v, w, _meta) = graph.out_edge(u, i);
            proof {
                assert(adj[u as int][i as int].0 < n);
            }
            let ghost old_b = *buffers;
            if (w as i128) < buffers.get(u, v) {
                buffers.set(u, v, w as i128);
                buffers.set_next(u, v, v);
                proof {
                    lemma_index(n as int, u as int, v as int);
                    assert forall|a: int, b: int| 0 <= a < n && 0 <= b < n implies #[trigger] buffers.at(a, b) == (if a == u as int && b == v as int { w as i128 } else { old_b.at(a, b) }) by {
                        lemma_index(n as int, a, b);
                        if a * n + b == u * n + v {
                            lemma_index_injective(n as int, a, b, u as int, v as int);
                        }
                    }
                    assert forall|a: int, b: int|
                        0 <= a < n && 0 <= b < n && #[trigger] buffers.at(a, b) != INF implies (a == b && buffers.at(a, b) == 0) || exists|x: int|
                            0 <= x < adj[a].len() && #[trigger] adj[a][x].0 == b as usize && adj[a][x].1 as int == buffers.at(a, b) as int by {
                        if a == u as int && b == v as int {
                            assert(adj[a][i as int].0 == b as usize && adj[a][i as int].1 as int == buffers.at(a, b) as int);
                        } else {
                            assert(old_b.at(a, b) != INF);
                        }
                    }
                    assert forall|x: int| 0 <= x < buffers.next@.len() implies #[trigger] buffers.next@[x] == APSP_NO_PATH || buffers.next@[x] < buffers.n by {
                        if x != u * n + v {
                            assert(old_b.next@[x] == APSP_NO_PATH || old_b.next@[x] < n);
                        }
                    }
                    assert forall|a: int, b: int| 0 <= a < n && 0 <= b < n && a != b && #[trigger] buffers.at(a, b) == INF implies buffers.next_at(a, b) == APSP_NO_PATH by {
                        lemma_index(n as int, a, b);
                        if a * n + b == u * n + v {
                            lemma_index_injective(n as int, a, b, u as int, v as int);
                        }
                        assert(old_b.at(a, b) == INF);
                    }
                    assert forall|a: int, b: int| 0 <= a < n && 0 <= b < n && a != b && #[trigger] buffers.at(a, b) != INF implies buffers.next_at(a, b) == b as usize by {
                        lemma_index(n as int, a, b);
                        if a * n + b == u * n + v {
                            lemma_index_injective(n as int, a, b, u as int, v as int);
                        } else {
                            assert(old_b.at(a, b) != INF);
                        }
                    }
                }
            }
            proof {
                assert forall|x: int| 0 <= x < i + 1 implies buffers.at(u as int, #[trigger] adj[u as int][x].0 as int) <= adj[u as int][x].1 by {
                    assert(adj[u as int][x].0 < n);
                    if x < i {
                        assert(old_b.at(u as int, adj[u as int][x].0 as int) <= adj[u as int][x].1);
                    }
                }
                assert forall|a: int, x: int| 0 <= a < u && 0 <= x < adj[a].len() implies buffers.at(a, #[trigger] adj[a][x].0 as int) <= adj[a][x].1 by {
                    assert(adj[a][x].0 < n);
                    assert(old_b.at(a, adj[a][x].0 as int) <= adj[a][x].1);
                }
            }
            i += 1;
        }
        u += 1;
    }
    let mut i: usize = 0;
    while i < n
        invariant
            adj == graph.adjacency(),
            n == adj.len(),
            buffers.wf(),
            buffers.n == n,
            i <= n,
            valid_adjacency(adj),
            hops_valid(*buffers),
            forall|a: int, b: int| 0 <= a < n && 0 <= b < n && a != b && #[trigger] buffers.at(a, b) != INF ==> buffers.next_at(a, b) == b as usize,
            forall|a: int, b: int| 0 <= a < n && 0 <= b < n && a != b && #[trigger] buffers.at(a, b) == INF ==> buffers.next_at(a, b) == APSP_NO_PATH,
            forall|a: int, b: int| 0 <= a < n && 0 <= b < n ==> #[trigger] buffers.at(a, b) <= (if a == b { 0 } else { INF }),
            forall|a: int, b: int|
                0 <= a < n && 0 <= b < n && #[trigger] buffers.at(a, b) != INF ==> (a == b && buffers.at(a, b) == 0) || exists|x: int|
                    0 <= x < adj[a].len() && #[trigger] adj[a][x].0 == b as usize && adj[a][x].1 as int == buffers.at(a, b) as int,
            forall|a: int, x: int| 0 <= a < n && 0 <= x < adj[a].len() ==> buffers.at(a, #[trigger] adj[a][x].0 as int) <= adj[a][x].1,
            forall|a: int| 0 <= a < i ==> #[trigger] buffers.next_at(a, a) == a as usize,
        decreases n - i,
    {
        let ghost old_b = *buffers;
        buffers.set_next(i, i, i);
        proof {
            lemma_index(n as int, i as int, i as int);
            assert forall|x: int| 0 <= x < buffers.next@.len() implies #[trigger] buffers.next@[x] == APSP_NO_PATH || buffers.next@[x] < buffers.n by {
                if x != i * n + i {
                    assert(old_b.next@[x] == APSP_NO_PATH || old_b.next@[x] < n);
                }
            }
            assert forall|a: int, b: int| 0 <= a < n && 0 <= b < n implies #[trigger] buffers.at(a, b) == old_b.at(a, b) by {
            }
            assert forall|a: int, b: int| 0 <= a < n && 0 <= b < n && a != b && #[trigger] buffers.at(a, b) != INF implies buffers.next_at(a, b) == b as usize by {
                lemma_index(n as int, a, b);
                if a * n + b == i * n + i {
                    lemma_index_injective(n as int, a, b, i as int, i as int);
                }
                assert(old_b.at(a, b) != INF);
            }
            assert forall|a: int, b: int| 0 <= a < n && 0 <= b < n && a != b && #[trigger] buffers.at(a, b) == INF implies buffers.next_at(a, b) == APSP_NO_PATH by {
                lemma_index(n as int, a, b);
                if a * n + b == i * n + i {
                    lemma_index_injective(n as int, a, b, i as int, i as int);
                }
                assert(old_b.at(a, b) == INF);
            }
            assert forall|a: int| 0 <= a < i + 1 implies #[trigger] buffers.next_at(a, a) == a as usize by {
                lemma_index(n as int, a, a);
                if a < i {
                    if a * n + a == i * n + i {
                        lemma_index_injective(n as int, a, a, i as int, i as int);
                    }
                    assert(old_b.next_at(a, a) == a as usize);
                }
            }
        }
        i += 1;
    }
    proof {
        lemma_initial_matrix(adj, *buffers);
    }
}

/// The facts about the starting matrix give soundness and the bound for
/// walks without inner vertices.
proof fn lemma_initial_matrix(adj: Seq<Seq<(usize, i64)>>, b: ApspBuffers)
    requires
        valid_adjacency(adj),
        b.n == adj.len(),
        forall|a: int, c: int| 0 <= a < b.n && 0 <= c < b.n ==> #[trigger] b.at(a, c) <= (if a == c { 0 } else { INF }),
        forall|a: int, c: int|
            0 <= a < b.n && 0 <= c < b.n && #[trigger] b.at(a, c) != INF ==> (a == c && b.at(a, c) == 0) || exists|x: int|
                0 <= x < adj[a].len() && #[trigger] adj[a][x].0 == c as usize && adj[a][x].1 as int == b.at(a, c) as int,
        forall|a: int, x: int| 0 <= a < b.n && 0 <= x < adj[a].len() ==> b.at(a, #[trigger] adj[a][x].0 as int) <= adj[a][x].1,
    ensures
        matrix_sound(adj, b),
        matrix_bounded(adj, b, 0),
{
    assert forall|i: int, j: int| 0 <= i < b.n && 0 <= j < b.n && #[trigger] b.at(i, j) != INF implies exists|es: Seq<(int, int)>|
        #[trigger] reaches(adj, i, es, j) && walk_len(adj, es) <= b.at(i, j) by {
        if i == j && b.at(i, j) == 0 {
            assert(reaches(adj, i, Seq::<(int, int)>::empty(), j));
        } else {
            let x = choose|x: int| 0 <= x < adj[i].len() && #[trigger] adj[i][x].0 == j as usize && adj[i][x].1 as int == b.at(i, j) as int;
            lemma_walk_push(adj, i, Seq::<(int, int)>::empty(), (i, x));
            assert(Seq::<(int, int)>::empty().push((i, x)) =~= seq![(i, x)]);
            assert(reaches(adj, i, seq![(i, x)], j));
        }
    }
    assert forall|i: int, j: int, es: Seq<(int, int)>|
        0 <= i < b.n && 0 <= j < b.n && #[trigger] reaches(adj, i, es, j) && simple_walk(adj, i, es) && interior_below(adj, i, es, 0) implies b.at(i, j) <= walk_len(adj, es) by {
        if es.len() >= 2 {
            lemma_walk_vertex_range(adj, i, es, 1);
            assert(walk_vertex(adj, i, es, 1) < 0);
        } else if es.len() == 1 {
            let e = es[0];
            assert(es.drop_last() =~= Seq::<(int, int)>::empty());
            assert(es.last() == e);
            assert(e.0 == i);
            assert(walk_len(adj, es.drop_last()) == 0);
            assert(walk_len(adj, es) == adj[i][e.1].1);
            assert(j == adj[i][e.1].0);
            assert(b.at(i, adj[i][e.1].0 as int) <= adj[i][e.1].1);
        } else {
            assert(walk_end(adj, i, es) == i);
        }
    }
}

/// The starting matrix has a walk behind each finite entry, and its
/// next-hops are as `routes_inv` describes them.
proof fn lemma_start_routes(adj: Seq<Seq<(usize, i64)>>, b: ApspBuffers)
    requires
        valid_adjacency(adj),
        b.wf(),
        b.n == adj.len(),
        matrix_bounded(adj, b, 0),
        forall|a: int, c: int|
            0 <= a < b.n && 0 <= c < b.n && a != c && #[trigger] b.at(a, c) != INF ==> b.next_at(a, c) == c as usize,
        forall|a: int, c: int|
            0 <= a < b.n && 0 <= c < b.n && #[trigger] b.at(a, c) != INF ==> (a == c && b.at(a, c) == 0) || exists|x: int|
                0 <= x < adj[a].len() && #[trigger] adj[a][x].0 == c as usize && adj[a][x].1 as int == b.at(a, c) as int,
    ensures
        matrix_witnessed(adj, b, 0),
        routes_inv(adj, b, |i: int, j: int| 0int, |i: int, j: int| if i == j { 0nat } else { 1nat }, 2),
{
    assert forall|a: int| 0 <= a < b.n implies #[trigger] b.at(a, a) <= 0 by {
        let e = Seq::<(int, int)>::empty();
        assert(reaches(adj, a, e, a));
        assert(simple_walk(adj, a, e));
        assert(interior_below(adj, a, e, 0));
    }
    lemma_routes_initial(adj, b);
    assert forall|i: int, j: int| 0 <= i < b.n && 0 <= j < b.n && #[trigger] b.at(i, j) != INF implies exists|es: Seq<(int, int)>|
        #[trigger] reaches(adj, i, es, j) && interior_below(adj, i, es, 0) by {
        if i == j && b.at(i, j) == 0 {
            assert(reaches(adj, i, Seq::<(int, int)>::empty(), j));
            assert(interior_below(adj, i, Seq::<(int, int)>::empty(), 0));
        } else {
            let x = choose|x: int| 0 <= x < adj[i].len() && #[trigger] adj[i][x].0 == j as usize && adj[i][x].1 as int == b.at(i, j) as int;
            lemma_walk_push(adj, i, Seq::<(int, int)>::empty(), (i, x));
            assert(Seq::<(int, int)>::empty().push((i, x)) =~= seq![(i, x)]);
            assert(reaches(adj, i, seq![(i, x)], j));
            assert(interior_below(adj, i, seq![(i, x)], 0));
        }
    }
}

/// Relaxing every pair through `k`, from the matrix as it was before this
/// step (row and column `k`, and the next-hop of each row towards `k`, are
/// read before they can change).
fn update_for_k(buffers: &mut ApspBuffers, k: usize)
    requires
        old(buffers).wf(),
        k < old(buffers).n,
    ensures
        final(buffers).wf(),
        final(buffers).n == old(buffers).n,
        hops_valid(*old(buffers)) ==> hops_valid(*final(buffers)),
        forall|i: int, j: int|
            0 <= i < old(buffers).n && 0 <= j < old(buffers).n ==> #[trigger] final(buffers).at(i, j) == relaxed_through(
                *old(buffers),
                i,
                j,
                k as int,
            ),
        forall|i: int, j: int|
            0 <= i < old(buffers).n && 0 <= j < old(buffers).n ==> #[trigger] final(buffers).next_at(i, j) == next_through(
                *old(buffers),
                i,
                j,
                k as int,
            ),
{
    let ghost b0 = *buffers;
    let n = buffers.n;
    let mut row_k: Vec<i128> = Vec::new();
    let mut col_k: Vec<i128> = Vec::new();
    let mut t: usize = 0;
    while t < n
        invariant
            *buffers == b0,
            n == b0.n,
            b0.wf(),
            k < n,
            t <= n,
            row_k@.len() == t,
            col_k@.len() == t,
            forall|x: int| 0 <= x < t ==> #[trigger] row_k@[x] == b0.at(k as int, x),
            forall|x: int| 0 <= x < t ==> #[trigger] col_k@[x] == b0.at(x, k as int),
        decreases n - t,
    {
        row_k.push(buffers.get(k, t));
        col_k.push(buffers.get(t, k));
        t += 1;
    }
    let mut i: usize = 0;
    while i < n
        invariant
            n == b0.n,
            buffers.n == n,
            buffers.wf(),
            k < n,
            i <= n,
            row_k@.len() == n,
            col_k@.len() == n,
            forall|x: int| 0 <= x < n ==> #[trigger] row_k@[x] == b0.at(k as int, x),
            forall|x: int| 0 <= x < n ==> #[trigger] col_k@[x] == b0.at(x, k as int),
            hops_valid(b0) ==> hops_valid(*buffers),
            forall|a: int, c: int| 0 <= a < n && 0 <= c < n ==> #[trigger] buffers.at(a, c) == (if a < i { relaxed_through(b0, a, c, k as int) } else { b0.at(a, c) }),
            forall|a: int, c: int| 0 <= a < n && 0 <= c < n ==> #[trigger] buffers.next_at(a, c) == (if a < i { next_through(b0, a, c, k as int) } else { b0.next_at(a, c) }),
        decreases n - i,
    {
        let d_ik = col_k[i];
        if d_ik != INF {
            let next_ik = buffers.get_next(i, k);
            proof {
                lemma_index(n as int, i as int, k as int);
            }
            let mut j: usize = 0;
            while j < n
                invariant
                    n == b0.n,
                    buffers.n == n,
                    buffers.wf(),
                    k < n,
                    i < n,
                    j <= n,
                    d_ik == b0.at(i as int, k as int),
                    d_ik != INF,
                    hops_valid(b0) ==> next_ik == APSP_NO_PATH || next_ik < n,
                    row_k@.len() == n,
                    forall|x: int| 0 <= x < n ==> #[trigger] row_k@[x] == b0.at(k as int, x),
                    hops_valid(b0) ==> hops_valid(*buffers),
                    forall|a: int, c: int| 0 <= a < n && 0 <= c < n ==> #[trigger] buffers.at(a, c) == (if a < i || (a == i && c < j) { relaxed_through(b0, a, c, k as int) } else { b0.at(a, c) }),
                    forall|a: int, c: int| 0 <= a < n && 0 <= c < n ==> #[trigger] buffers.next_at(a, c) == (if a < i || (a == i && c < j) { next_through(b0, a, c, k as int) } else { b0.next_at(a, c) }),
                    next_ik == b0.next_at(i as int, k as int),
                decreases n - j,
            {
                let d_kj = row_k[j];
                let ghost b_before = *buffers;
                proof {
                    assert(b_before.at(i as int, j as int) == b0.at(i as int, j as int));
                    assert(b_before.next_at(i as int, j as int) == b0.next_at(i as int, j as int));
                }
                if d_kj != INF {
                    let new_dist = saturating_add_i128(d_ik, d_kj);
                    if new_dist < buffers.get(i, j) {
                        let ghost old_b = *buffers;
                        buffers.set(i, j, new_dist);
                        buffers.set_next(i, j, next_ik);
                        proof {
                            lemma_update_entry(old_b, *buffers, i as int, j as int, new_dist, next_ik);
                            lemma_index(n as int, i as int, j as int);
                            assert(buffers.next_at(i as int, j as int) == next_ik);
                            assert(lowered(b0, i as int, j as int, k as int));
                        }
                    } else {
                        assert(!lowered(b0, i as int, j as int, k as int));
                    }
                } else {
                    assert(!lowered(b0, i as int, j as int, k as int));
                }
                proof {
                    assert forall|a: int, c: int| 0 <= a < n && 0 <= c < n implies #[trigger] buffers.at(a, c) == (if a < i || (a == i && c < j + 1) { relaxed_through(b0, a, c, k as int) } else { b0.at(a, c) }) by {
                    }
                    assert forall|a: int, c: int| 0 <= a < n && 0 <= c < n implies #[trigger] buffers.next_at(a, c) == (if a < i || (a == i && c < j + 1) { next_through(b0, a, c, k as int) } else { b0.next_at(a, c) }) by {
                        if !(a == i as int && c == j as int) {
                            assert(buffers.next_at(a, c) == b_before.next_at(a, c));
                        } else if !lowered(b0, a, c, k as int) {
                            assert(buffers.next_at(a, c) == b_before.next_at(a, c));
                        }
                    }
                }
                j += 1;
            }
        }
        proof {
            assert forall|a: int, c: int| 0 <= a < n && 0 <= c < n implies #[trigger] buffers.at(a, c) == (if a < i + 1 { relaxed_through(b0, a, c, k as int) } else { b0.at(a, c) }) by {
            }
            assert forall|a: int, c: int| 0 <= a < n && 0 <= c < n implies #[trigger] buffers.next_at(a, c) == (if a < i + 1 { next_through(b0, a, c, k as int) } else { b0.next_at(a, c) }) by {
            }
        }
        i += 1;
    }
}

/// Setting entry `(i, j)` of both matrices changes that entry only.
proof fn lemma_update_entry(b0: ApspBuffers, b1: ApspBuffers, i: int, j: int, d: i128, nv: usize)
    requires
        b0.wf(),
        0 <= i < b0.n,
        0 <= j < b0.n,
        b1.n == b0.n,
        b1.dist@ == b0.dist@.update(i * b0.n + j, d),
        b1.next@ == b0.next@.update(i * b0.n + j, nv),
    ensures
        b1.wf(),
        hops_valid(b0) && (nv == APSP_NO_PATH || nv < b0.n) ==> hops_valid(b1),
        forall|a: int, c: int| 0 <= a < b0.n && 0 <= c < b0.n ==> #[trigger] b1.at(a, c) == (if a == i && c == j { d } else { b0.at(a, c) }),
        forall|a: int, c: int| 0 <= a < b0.n && 0 <= c < b0.n && !(a == i && c == j) ==> #[trigger] b1.next_at(a, c) == b0.next_at(a, c),
{
    let n = b0.n as int;
    lemma_index(n, i, j);
    assert forall|a: int, c: int| 0 <= a < n && 0 <= c < n implies #[trigger] b1.at(a, c) == (if a == i && c == j { d } else { b0.at(a, c) }) by {
        lemma_index(n, a, c);
        if a * n + c == i * n + j {
            lemma_index_injective(n, a, c, i, j);
        }
    }
    assert forall|a: int, c: int| 0 <= a < n && 0 <= c < n && !(a == i && c == j) implies #[trigger] b1.next_at(a, c) == b0.next_at(a, c) by {
        lemma_index(n, a, c);
        if a * n + c == i * n + j {
            lemma_index_injective(n, a, c, i, j);
        }
    }
    if hops_valid(b0) && (nv == APSP_NO_PATH || nv < b0.n) {
        assert forall|x: int| 0 <= x < b1.next@.len() implies #[trigger] b1.next@[x] == APSP_NO_PATH || b1.next@[x] < b1.n by {
            if x != i * n + j {
                assert(b0.next@[x] == APSP_NO_PATH || b0.next@[x] < b0.n);
            }
        }
    }
}

/// One step through `k` keeps soundness and extends the bound to walks
/// whose inner vertices are below `k + 1`.
proof fn lemma_fw_step(adj: Seq<Seq<(usize, i64)>>, b0: ApspBuffers, b1: ApspBuffers, k: int)
    requires
        valid_adjacency(adj),
        b0.wf(),
        b0.n == adj.len(),
        b1.n == b0.n,
        0 <= k < b0.n,
        matrix_sound(adj, b0),
        matrix_bounded(adj, b0, k),
        forall|i: int, j: int| 0 <= i < b0.n && 0 <= j < b0.n ==> #[trigger] b1.at(i, j) == relaxed_through(b0, i, j, k),
    ensures
        matrix_sound(adj, b1),
        matrix_bounded(adj, b1, k + 1),
{
    let n = b0.n as int;
    lemma_n_small(n);
    assert(n * weight_bound() < 0x1_0000_0000 * weight_bound()) by (nonlinear_arith)
        requires n < 0x1_0000_0000;
    assert forall|i: int, j: int| 0 <= i < n && 0 <= j < n && #[trigger] b1.at(i, j) != INF implies exists|es: Seq<(int, int)>|
        #[trigger] reaches(adj, i, es, j) && walk_len(adj, es) <= b1.at(i, j) by {
        assert(b1.at(i, j) == relaxed_through(b0, i, j, k));
        let a = b0.at(i, k);
        let c = b0.at(k, j);
        if a != INF && c != INF && clamp_i128(a + c) < b0.at(i, j) {
            let w1 = choose|es: Seq<(int, int)>| #[trigger] reaches(adj, i, es, k) && walk_len(adj, es) <= b0.at(i, k);
            let w2 = choose|es: Seq<(int, int)>| #[trigger] reaches(adj, k, es, j) && walk_len(adj, es) <= b0.at(k, j);
            lemma_walk_concat(adj, i, w1, w2);
            assert(reaches(adj, i, w1 + w2, j));
        } else {
            assert(b0.at(i, j) != INF);
        }
    }
    assert forall|i: int, j: int, es: Seq<(int, int)>|
        0 <= i < n && 0 <= j < n && #[trigger] reaches(adj, i, es, j) && simple_walk(adj, i, es) && interior_below(adj, i, es, k + 1) implies b1.at(i, j) <= walk_len(adj, es) by {
        lemma_fw_step_walk(adj, b0, b1, k, i, j, es);
    }
}

proof fn lemma_fw_step_walk(
    adj: Seq<Seq<(usize, i64)>>,
    b0: ApspBuffers,
    b1: ApspBuffers,
    k: int,
    i: int,
    j: int,
    es: Seq<(int, int)>,
)
    requires
        valid_adjacency(adj),
        b0.wf(),
        b0.n == adj.len(),
        b1.n == b0.n,
        0 <= k < b0.n,
        0 <= i < b0.n,
        0 <= j < b0.n,
        b0.n * weight_bound() < 0x1_0000_0000 * weight_bound(),
        matrix_bounded(adj, b0, k),
        forall|i: int, j: int| 0 <= i < b0.n && 0 <= j < b0.n ==> #[trigger] b1.at(i, j) == relaxed_through(b0, i, j, k),
        reaches(adj, i, es, j),
        simple_walk(adj, i, es),
        interior_below(adj, i, es, k + 1),
    ensures
        b1.at(i, j) <= walk_len(adj, es),
{
    let m = es.len() as int;
    assert(b1.at(i, j) == relaxed_through(b0, i, j, k));
    lemma_simple_walk_short(adj, i, es);
    if exists|t: int| 0 < t < m && #[trigger] walk_vertex(adj, i, es, t) == k {
        let t = choose|t: int| 0 < t < m && #[trigger] walk_vertex(adj, i, es, t) == k;
        let p1 = es.take(t);
        let p2 = es.skip(t);
        lemma_walk_split(adj, i, es, t);
        assert(walk_end(adj, i, p1) == k);
        // The first part is simple, with inner vertices below k.
        assert forall|u: int| 0 <= u <= t implies #[trigger] walk_vertex(adj, i, p1, u) == walk_vertex(adj, i, es, u) by {
            assert(p1.take(u) =~= es.take(u));
        }
        assert forall|t1: int, t2: int| 0 < t1 < p1.len() && 0 <= t2 <= p1.len() && t1 != t2 implies #[trigger] walk_vertex(adj, i, p1, t1)
            != #[trigger] walk_vertex(adj, i, p1, t2) by {
            assert(walk_vertex(adj, i, es, t1) != walk_vertex(adj, i, es, t2));
        }
        assert forall|u: int| 0 < u < p1.len() implies #[trigger] walk_vertex(adj, i, p1, u) < k by {
            assert(walk_vertex(adj, i, es, u) != walk_vertex(adj, i, es, t));
            assert(walk_vertex(adj, i, es, u) < k + 1);
        }
        // The second part too.
        assert forall|u: int| 0 <= u <= m - t implies #[trigger] walk_vertex(adj, k, p2, u) == walk_vertex(adj, i, es, t + u) by {
            lemma_walk_vertex_skip(adj, i, es, t, u);
        }
        assert forall|t1: int, t2: int| 0 < t1 < p2.len() && 0 <= t2 <= p2.len() && t1 != t2 implies #[trigger] walk_vertex(adj, k, p2, t1)
            != #[trigger] walk_vertex(adj, k, p2, t2) by {
            assert(walk_vertex(adj, i, es, t + t1) != walk_vertex(adj, i, es, t + t2));
        }
        assert forall|u: int| 0 < u < p2.len() implies #[trigger] walk_vertex(adj, k, p2, u) < k by {
            assert(walk_vertex(adj, i, es, t + u) != walk_vertex(adj, i, es, t));
            assert(walk_vertex(adj, i, es, t + u) < k + 1);
        }
        assert(simple_walk(adj, i, p1));
        assert(simple_walk(adj, k, p2));
        assert(reaches(adj, i, p1, k));
        assert(reaches(adj, k, p2, j));
        assert(b0.at(i, k) <= walk_len(adj, p1));
        assert(b0.at(k, j) <= walk_len(adj, p2));
        lemma_simple_walk_short(adj, i, p1);
        lemma_simple_walk_short(adj, k, p2);
    } else {
        assert forall|u: int| 0 < u < m implies #[trigger] walk_vertex(adj, i, es, u) < k by {
            assert(walk_vertex(adj, i, es, u) < k + 1);
        }
        assert(b0.at(i, j) <= walk_len(adj, es));
    }
}

/// Once every vertex may stand inside a walk, the matrix holds the shortest
/// distances (when no closed walk is negative), and its diagonal shows a
/// negative entry exactly when some closed walk is negative.
proof fn lemma_fw_conclusions(adj: Seq<Seq<(usize, i64)>>, b: ApspBuffers)
    requires
        valid_adjacency(adj),
        b.wf(),
        b.n == adj.len(),
        matrix_sound(adj, b),
        matrix_bounded(adj, b, b.n as int),
    ensures
        (exists|i: int| 0 <= i < b.n && #[trigger] b.at(i, i) < 0) <==> has_negative_cycle(adj),
        !has_negative_cycle(adj) ==> forall|i: int, j: int|
            0 <= i < b.n && 0 <= j < b.n ==> is_shortest(adj, seq![i as usize], j, #[trigger] b.at(i, j)),
{
    let n = b.n as int;
    // Any simple walk lies inside the graph's vertices.
    assert forall|x: int, q: Seq<(int, int)>| 0 <= x < n && is_walk(adj, x, q) implies #[trigger] interior_below(adj, x, q, n) by {
        assert forall|t: int| 0 < t < q.len() implies #[trigger] walk_vertex(adj, x, q, t) < n by {
            lemma_walk_vertex_range(adj, x, q, t);
        }
    }
    if exists|i: int| 0 <= i < n && #[trigger] b.at(i, i) < 0 {
        let i = choose|i: int| 0 <= i < n && #[trigger] b.at(i, i) < 0;
        let c = choose|es: Seq<(int, int)>| #[trigger] reaches(adj, i, es, i) && walk_len(adj, es) <= b.at(i, i);
        assert(reaches(adj, i, c, i));
    }
    if has_negative_cycle(adj) {
        let (x, c) = choose|x: int, c: Seq<(int, int)>| 0 <= x < adj.len() && #[trigger] reaches(adj, x, c, x) && walk_len(adj, c) < 0;
        lemma_decompose(adj, x, c);
        if exists|q: Seq<(int, int)>|
            #[trigger] reaches(adj, x, q, walk_end(adj, x, c)) && simple_walk(adj, x, q) && walk_len(adj, q) <= walk_len(adj, c) {
            let q = choose|q: Seq<(int, int)>|
                #[trigger] reaches(adj, x, q, walk_end(adj, x, c)) && simple_walk(adj, x, q) && walk_len(adj, q) <= walk_len(adj, c);
            assert(interior_below(adj, x, q, n));
            assert(b.at(x, x) <= walk_len(adj, q));
        } else {
            let (y, pre, cy) = choose|y: int, pre: Seq<(int, int)>, cy: Seq<(int, int)>|
                0 <= y < adj.len() && #[trigger] reaches(adj, x, pre, y) && #[trigger] reaches(adj, y, cy, y)
                    && simple_walk(adj, y, cy) && walk_len(adj, cy) < 0;
            assert(interior_below(adj, y, cy, n));
            assert(b.at(y, y) <= walk_len(adj, cy));
        }
    }
    if !has_negative_cycle(adj) {
        assert forall|i: int, j: int| 0 <= i < n && 0 <= j < n implies is_shortest(adj, seq![i as usize], j, #[trigger] b.at(i, j)) by {
            let src = seq![i as usize];
            assert forall|s: usize, es: Seq<(int, int)>| #[trigger] src.contains(s) && #[trigger] reaches(adj, s as int, es, j) implies b.at(i, j) <= walk_len(adj, es) by {
                assert(s == i as usize);
                lemma_decompose(adj, i, es);
                if exists|q: Seq<(int, int)>|
                    #[trigger] reaches(adj, i, q, walk_end(adj, i, es)) && simple_walk(adj, i, q) && walk_len(adj, q) <= walk_len(adj, es) {
                    let q = choose|q: Seq<(int, int)>|
                        #[trigger] reaches(adj, i, q, walk_end(adj, i, es)) && simple_walk(adj, i, q) && walk_len(adj, q) <= walk_len(adj, es);
                    assert(interior_below(adj, i, q, n));
                } else {
                    let (y, pre, cy) = choose|y: int, pre: Seq<(int, int)>, cy: Seq<(int, int)>|
                        0 <= y < adj.len() && #[trigger] reaches(adj, i, pre, y) && #[trigger] reaches(adj, y, cy, y)
                            && simple_walk(adj, y, cy) && walk_len(adj, cy) < 0;
                    assert(reaches(adj, y, cy, y));
                }
            }
            if b.at(i, j) != INF {
                let w = choose|es: Seq<(int, int)>| #[trigger] reaches(adj, i, es, j) && walk_len(adj, es) <= b.at(i, j);
                assert(src[0] == i as usize);
                assert(src.contains(i as usize));
                assert(reaches(adj, (i as usize) as int, w, j));
                assert(b.at(i, j) <= walk_len(adj, w));
            }
        }
    }
}

/// Number of finite entries, as `count_finite` counts them.
fn count_finite_entries(d: &Vec<i128>) -> (r: usize)
    ensures
        r == count_finite(d@),
{
    let mut c: usize = 0;
    let mut i: usize = 0;
    while i < d.len()
        invariant
            i <= d@.len(),
            c == count_finite(d@.take(i as int)),
        decreases d@.len() - i,
    {
        proof {
            assert(d@.take(i + 1).drop_last() =~= d@.take(i as int));
            lemma_count_finite_bound(d@.take(i as int));
        }
        if d[i] != INF {
            c += 1;
        }
        i += 1;
    }
    assert(d@.take(i as int) =~= d@);
    c
}

fn finalize_apsp(buffers: &ApspBuffers, n: usize, negative_cycle: bool) -> (r: ApspResult)
    ensures
        r.iterations == n,
        r.negative_cycle == negative_cycle,
        r.pairs_reached == count_finite(buffers.dist@),
{
    let pairs_reached = count_finite_entries(&buffers.dist);
    ApspResult::new(n, negative_cycle, pairs_reached)
}

/// What a Floyd-Warshall run establishes.
pub open spec fn floyd_warshall_outcome(adj: Seq<Seq<(usize, i64)>>, b: ApspBuffers, detect: bool, r: ApspResult) -> bool {
    &&& b.wf()
    &&& b.n == adj.len()
    &&& r.iterations == adj.len()
    &&& r.pairs_reached == count_finite(b.dist@)
    // Every finite entry bounds the length of some walk from above.
    &&& matrix_sound(adj, b)
    // No simple walk is shorter than its entry.
    &&& matrix_bounded(adj, b, b.n as int)
    &&& hops_valid(b)
    &&& r.negative_cycle == (detect && exists|i: int| 0 <= i < b.n && #[trigger] b.at(i, i) < 0)
    // A negative diagonal entry shows exactly the negative closed walks.
    &&& (exists|i: int| 0 <= i < b.n && #[trigger] b.at(i, i) < 0) <==> has_negative_cycle(adj)
    // Without them every entry is the shortest distance.
    &&& !has_negative_cycle(adj) ==> forall|i: int, j: int|
        0 <= i < b.n && 0 <= j < b.n ==> is_shortest(adj, seq![i as usize], j, #[trigger] b.at(i, j))
    // And the next-hop routes lead along edges of matching weights to their ends.
    &&& !has_negative_cycle(adj) ==> routes_ok(adj, b)
}

/// Floyd-Warshall APSP. O(n^3) time, O(n^2) space, -ve weights OK; cycle detection optional.
#[derive(Debug)]
pub struct FloydWarshall {
    config: FloydWarshallConfig,
}

impl FloydWarshall {
    /// The configuration in force.
    pub closed spec fn settings(&self) -> FloydWarshallConfig {
        self.config
    }

    pub fn new() -> (r: Self)
        ensures
            r.settings().detect_negative_cycle,
    {
        FloydWarshall { config: FloydWarshallConfig::default() }
    }

    pub fn with_config(config: FloydWarshallConfig) -> (r: Self)
        ensures
            r.settings() == config,
    {
        FloydWarshall { config }
    }

    pub fn config(&self) -> (r: &FloydWarshallConfig)
        ensures
            *r == self.settings(),
    {
        &self.config
    }

    pub fn config_mut(&mut self) -> (r: &mut FloydWarshallConfig)
        ensures
            *r == old(self).settings(),
            final(self).settings() == *final(r),
    {
        &mut self.config
    }
}

impl<G: Graph> ApspAlgorithm<G> for FloydWarshall {
    fn run_observed<F: FnMut(Event)>(&mut self, graph: &G, buffers: &mut ApspBuffers, observer: F) -> (r: ApspResult)
        ensures
            final(self).settings() == old(self).settings(),
            floyd_warshall_outcome(graph.adjacency(), *final(buffers), old(self).settings().detect_negative_cycle, r),
    {
        let mut observer = observer;
        let ghost adj = graph.adjacency();
        let n = graph.n();
        init_from_graph(graph, buffers);
        let ghost no_negative = !has_negative_cycle(adj);
        let ghost mut pd: spec_fn(int, int) -> int = |i: int, j: int| 0int;
        let ghost mut rank: spec_fn(int, int) -> nat = |i: int, j: int| if i == j { 0nat } else { 1nat };
        let ghost mut bound: nat = 2;
        proof {
            lemma_start_routes(adj, *buffers);
        }
        let mut k: usize = 0;
        while k < n
            invariant
                adj == graph.adjacency(),
                n == adj.len(),
                valid_adjacency(adj),
                buffers.wf(),
                buffers.n == n,
                k <= n,
                hops_valid(*buffers),
                matrix_sound(adj, *buffers),
                matrix_bounded(adj, *buffers, k as int),
                matrix_witnessed(adj, *buffers, k as int),
                no_negative == !has_negative_cycle(adj),
                no_negative ==> routes_inv(adj, *buffers, pd, rank, bound),
                forall|e: Event| call_requires(observer, (e,)),
            decreases n - k,
        {
            let ghost b0 = *buffers;
            update_for_k(buffers, k);
            proof {
                lemma_fw_step(adj, b0, *buffers, k as int);
                lemma_witnessed_step(adj, b0, *buffers, k as int);
                if no_negative {
                    lemma_routes_step(adj, b0, *buffers, k as int, pd, rank, bound);
                }
                pd = next_pd(b0, k as int, pd);
                rank = next_rank(b0, k as int, rank, bound);
                bound = 2 * bound;
            }
            observer(Event::Iteration(k));
            k += 1;
        }
        let negative_cycle = if self.config.detect_negative_cycle {
            buffers.has_negative_cycle()
        } else {
            false
        };
        proof {
            lemma_fw_conclusions(adj, *buffers);
            if no_negative {
                lemma_routes_final(adj, *buffers, pd, rank, bound);
            }
        }
        finalize_apsp(buffers, n, negative_cycle)
    }

    fn run(&mut self, graph: &G, buffers: &mut ApspBuffers) -> (r: ApspResult)
        ensures
            final(self).settings() == old(self).settings(),
            floyd_warshall_outcome(graph.adjacency(), *final(buffers), old(self).settings().detect_negative_cycle, r),
    {
        let ignore = |e: Event| {};
        self.run_observed(graph, buffers, ignore)
    }
}

impl Default for FloydWarshall {
    fn default() -> (r: Self)
        ensures
            r.settings().detect_negative_cycle,
    {
        Self::new()
    }
}

impl ApspAlgorithmInfo for FloydWarshall {
    fn name(&self) -> (r: &'static str)
        ensures
            r@ == "Floyd-Warshall"@,
    {
        "Floyd-Warshall"
    }

    fn supports_negative_weights(&self) -> (r: bool)
        ensures
            r,
    {
        true
    }
}

/// One-shot Floyd-Warshall APSP.
pub fn floyd_warshall<G: Graph>(graph: &G, buffers: &mut ApspBuffers) -> (r: ApspResult)
    requires
        valid_adjacency(graph.adjacency()),
        old(buffers).wf(),
        old(buffers).n == graph.adjacency().len(),
    ensures
        floyd_warshall_outcome(graph.adjacency(), *final(buffers), true, r),
{
    let mut fw = FloydWarshall::new();
    fw.run(graph, buffers)
}

} // verus!
