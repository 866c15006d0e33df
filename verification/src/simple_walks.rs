//! Splitting and joining walks, simple walks, and the decomposition of a walk
//! into a simple walk and closed sub-walks.
use vstd::prelude::*;
use crate::graph::valid_adjacency;
use crate::walks::{INF, edge_ok, is_walk, lemma_walk_len_bound, reaches, walk_end, walk_len, weight_bound};

verus! {

/// The vertex where the walk `es` from `s` stands after `t` edges.
pub open spec fn walk_vertex(adj: Seq<Seq<(usize, i64)>>, s: int, es: Seq<(int, int)>, t: int) -> int {
    walk_end(adj, s, es.take(t))
}

/// No vertex strictly inside the walk occurs at any other position; the two
/// ends may coincide (a simple cycle).
pub open spec fn simple_walk(adj: Seq<Seq<(usize, i64)>>, s: int, es: Seq<(int, int)>) -> bool {
    forall|t1: int, t2: int|
        0 < t1 < es.len() && 0 <= t2 <= es.len() && t1 != t2 ==> #[trigger] walk_vertex(adj, s, es, t1)
            != #[trigger] walk_vertex(adj, s, es, t2)
}

/// A closed walk of negative length exists in the graph.
pub open spec fn has_negative_cycle(adj: Seq<Seq<(usize, i64)>>) -> bool {
    exists|x: int, c: Seq<(int, int)>| 0 <= x < adj.len() && #[trigger] reaches(adj, x, c, x) && walk_len(adj, c) < 0
}

pub proof fn lemma_walk_concat(adj: Seq<Seq<(usize, i64)>>, s: int, a: Seq<(int, int)>, b: Seq<(int, int)>)
    requires
        is_walk(adj, s, a),
        is_walk(adj, walk_end(adj, s, a), b),
    ensures
        is_walk(adj, s, a + b),
        walk_end(adj, s, a + b) == walk_end(adj, walk_end(adj, s, a), b),
        walk_len(adj, a + b) == walk_len(adj, a) + walk_len(adj, b),
    decreases b.len(),
{
    if b.len() == 0 {
        assert(a + b =~= a);
    } else {
        lemma_walk_concat(adj, s, a, b.drop_last());
        assert((a + b).drop_last() =~= a + b.drop_last());
        assert((a + b).last() == b.last());
    }
}

pub proof fn lemma_walk_split(adj: Seq<Seq<(usize, i64)>>, s: int, es: Seq<(int, int)>, t: int)
    requires
        is_walk(adj, s, es),
        0 <= t <= es.len(),
    ensures
        is_walk(adj, s, es.take(t)),
        is_walk(adj, walk_end(adj, s, es.take(t)), es.skip(t)),
        walk_end(adj, s, es) == walk_end(adj, walk_end(adj, s, es.take(t)), es.skip(t)),
        walk_len(adj, es) == walk_len(adj, es.take(t)) + walk_len(adj, es.skip(t)),
    decreases es.len(),
{
    if t == es.len() {
        assert(es.take(t) =~= es);
        assert(es.skip(t) =~= Seq::<(int, int)>::empty());
    } else {
        let p = es.drop_last();
        lemma_walk_split(adj, s, p, t);
        assert(p.take(t) =~= es.take(t));
        assert(es.skip(t) =~= p.skip(t).push(es.last()));
        assert(es.skip(t).drop_last() =~= p.skip(t));
    }
}

/// The walk's vertices, positions `0..=es.len()`, lie in the graph.
pub proof fn lemma_walk_vertex_range(adj: Seq<Seq<(usize, i64)>>, s: int, es: Seq<(int, int)>, t: int)
    requires
        valid_adjacency(adj),
        is_walk(adj, s, es),
        0 <= s < adj.len(),
        0 <= t <= es.len(),
    ensures
        0 <= walk_vertex(adj, s, es, t) < adj.len(),
{
    lemma_walk_split(adj, s, es, t);
    if t > 0 {
        let e = es.take(t).last();
        assert(adj[e.0][e.1].0 < adj.len());
    }
}

/// Positions of the walk after its first `t` edges are positions of the rest.
pub proof fn lemma_walk_vertex_skip(adj: Seq<Seq<(usize, i64)>>, s: int, es: Seq<(int, int)>, t: int, u: int)
    requires
        is_walk(adj, s, es),
        0 <= t <= es.len(),
        0 <= u <= es.len() - t,
    ensures
        walk_vertex(adj, walk_vertex(adj, s, es, t), es.skip(t), u) == walk_vertex(adj, s, es, t + u),
        walk_vertex(adj, s, es.take(t), u) == walk_vertex(adj, s, es, u) || u > t,
{
    let q = es.take(t + u);
    lemma_walk_split(adj, s, es, t + u);
    lemma_walk_split(adj, s, q, t);
    assert(q.take(t) =~= es.take(t));
    assert(q.skip(t) =~= es.skip(t).take(u));
    if u <= t {
        assert(es.take(t).take(u) =~= es.take(u));
    }
}

/// Positions of a concatenation are those of its first part, then those of
/// its second part.
pub proof fn lemma_walk_vertex_concat(adj: Seq<Seq<(usize, i64)>>, s: int, a: Seq<(int, int)>, b: Seq<(int, int)>, t: int)
    requires
        is_walk(adj, s, a),
        is_walk(adj, walk_end(adj, s, a), b),
        0 <= t <= a.len() + b.len(),
    ensures
        t <= a.len() ==> walk_vertex(adj, s, a + b, t) == walk_vertex(adj, s, a, t),
        t >= a.len() ==> walk_vertex(adj, s, a + b, t) == walk_vertex(adj, walk_end(adj, s, a), b, t - a.len()),
{
    if t <= a.len() {
        assert((a + b).take(t) =~= a.take(t));
    }
    if t >= a.len() {
        let bt = b.take(t - a.len());
        assert((a + b).take(t) =~= a + bt);
        lemma_walk_split(adj, walk_end(adj, s, a), b, t - a.len());
        lemma_walk_concat(adj, s, a, bt);
    }
}

/// Every vertex strictly inside the walk is below `k`.
pub open spec fn interior_below(adj: Seq<Seq<(usize, i64)>>, s: int, es: Seq<(int, int)>, k: int) -> bool {
    forall|t: int| 0 < t < es.len() ==> #[trigger] walk_vertex(adj, s, es, t) < k
}

/// Cutting the closed parts out of a walk leaves a simple walk between the
/// same ends, whose inner vertices were inner vertices of the walk.
pub proof fn lemma_shortcut(adj: Seq<Seq<(usize, i64)>>, s: int, es: Seq<(int, int)>, k: int)
    requires
        is_walk(adj, s, es),
        interior_below(adj, s, es, k),
    ensures
        exists|q: Seq<(int, int)>|
            #[trigger] reaches(adj, s, q, walk_end(adj, s, es)) && simple_walk(adj, s, q) && interior_below(adj, s, q, k),
    decreases es.len(),
{
    let m = es.len() as int;
    if simple_walk(adj, s, es) {
        assert(reaches(adj, s, es, walk_end(adj, s, es)));
    } else {
        let (t1, t2) = choose|t1: int, t2: int|
            0 < t1 < m && 0 <= t2 <= m && t1 != t2 && #[trigger] walk_vertex(adj, s, es, t1) == #[trigger] walk_vertex(
                adj,
                s,
                es,
                t2,
            );
        let a = if t1 < t2 { t1 } else { t2 };
        let b = if t1 < t2 { t2 } else { t1 };
        assert(0 <= a < b <= m);
        let x = walk_vertex(adj, s, es, a);
        assert(walk_vertex(adj, s, es, b) == x);
        let pa = es.take(a);
        let pb = es.skip(b);
        lemma_walk_split(adj, s, es, a);
        lemma_walk_split(adj, s, es, b);
        assert(walk_end(adj, s, pa) == x);
        let short = pa + pb;
        lemma_walk_concat(adj, s, pa, pb);
        assert forall|t: int| 0 < t < short.len() implies #[trigger] walk_vertex(adj, s, short, t) < k by {
            lemma_walk_vertex_concat(adj, s, pa, pb, t);
            if t <= a {
                lemma_walk_vertex_skip(adj, s, es, a, 0);
                assert(pa.take(t) =~= es.take(t));
                assert(walk_vertex(adj, s, es, t) < k);
            } else {
                lemma_walk_vertex_skip(adj, s, es, b, t - a);
                assert(walk_vertex(adj, s, es, b + (t - a)) < k);
            }
        }
        lemma_shortcut(adj, s, short, k);
    }
}

/// Distinct values in `0..n` are at most `n` in number.
pub proof fn lemma_pigeonhole(s: Seq<int>, n: int)
    requires
        s.no_duplicates(),
        forall|i: int| 0 <= i < s.len() ==> 0 <= #[trigger] s[i] < n,
        0 <= n,
    ensures
        s.len() <= n,
{
    s.unique_seq_to_set();
    let r = vstd::set_lib::set_int_range(0, n);
    vstd::set_lib::lemma_int_range(0, n);
    assert(s.to_set().subset_of(r)) by {
        assert forall|x: int| s.to_set().contains(x) implies r.contains(x) by {
            assert(s.contains(x));
        }
    }
    vstd::set_lib::lemma_len_subset(s.to_set(), r);
}

/// A simple walk has at most as many edges as the graph has vertices.
pub proof fn lemma_simple_walk_short(adj: Seq<Seq<(usize, i64)>>, s: int, es: Seq<(int, int)>)
    requires
        valid_adjacency(adj),
        is_walk(adj, s, es),
        0 <= s < adj.len(),
        simple_walk(adj, s, es),
    ensures
        es.len() <= adj.len(),
        -(adj.len() * weight_bound()) <= walk_len(adj, es) <= adj.len() * weight_bound(),
{
    if es.len() > 0 {
        let vs = Seq::new(es.len(), |t: int| walk_vertex(adj, s, es, t));
        assert forall|i: int| 0 <= i < vs.len() implies 0 <= #[trigger] vs[i] < adj.len() by {
            lemma_walk_vertex_range(adj, s, es, i);
        }
        assert forall|i: int, j: int| 0 <= i < vs.len() && 0 <= j < vs.len() && i != j implies vs[i] != vs[j] by {
            if i > 0 {
                assert(walk_vertex(adj, s, es, i) != walk_vertex(adj, s, es, j));
            } else {
                assert(walk_vertex(adj, s, es, j) != walk_vertex(adj, s, es, i));
            }
        }
        lemma_pigeonhole(vs, adj.len() as int);
    }
    lemma_walk_len_bound(adj, s, es);
    assert(es.len() * weight_bound() <= adj.len() * weight_bound()) by (nonlinear_arith)
        requires es.len() <= adj.len();
}

/// Either the walk can be replaced by a simple walk between the same ends
/// that is no longer, or a simple closed walk of negative length can be
/// reached from the walk's start.
pub proof fn lemma_decompose(adj: Seq<Seq<(usize, i64)>>, s: int, es: Seq<(int, int)>)
    requires
        valid_adjacency(adj),
        0 <= s < adj.len(),
        is_walk(adj, s, es),
    ensures
        (exists|q: Seq<(int, int)>|
            #[trigger] reaches(adj, s, q, walk_end(adj, s, es)) && simple_walk(adj, s, q) && walk_len(adj, q)
                <= walk_len(adj, es)) || (exists|x: int, pre: Seq<(int, int)>, c: Seq<(int, int)>|
            0 <= x < adj.len() && #[trigger] reaches(adj, s, pre, x) && #[trigger] reaches(adj, x, c, x)
                && simple_walk(adj, x, c) && walk_len(adj, c) < 0),
    decreases es.len(),
{
    let m = es.len() as int;
    if simple_walk(adj, s, es) {
        assert(reaches(adj, s, es, walk_end(adj, s, es)));
    } else {
        let (t1, t2) = choose|t1: int, t2: int|
            0 < t1 < m && 0 <= t2 <= m && t1 != t2 && #[trigger] walk_vertex(adj, s, es, t1) == #[trigger] walk_vertex(
                adj,
                s,
                es,
                t2,
            );
        let a = if t1 < t2 { t1 } else { t2 };
        let b = if t1 < t2 { t2 } else { t1 };
        assert(0 <= a < b <= m && b - a < m);
        let x = walk_vertex(adj, s, es, a);
        assert(walk_vertex(adj, s, es, b) == x);
        // es = A + C + B with C closed at x.
        let pa = es.take(a);
        let rest = es.skip(a);
        let c = rest.take(b - a);
        let pb = rest.skip(b - a);
        lemma_walk_split(adj, s, es, a);
        lemma_walk_split(adj, x, rest, b - a);
        lemma_walk_vertex_skip(adj, s, es, a, b - a);
        assert(walk_end(adj, x, c) == x) by {
            assert(walk_vertex(adj, x, rest, b - a) == walk_end(adj, x, c));
        }
        lemma_walk_vertex_range(adj, s, es, a);
        if walk_len(adj, c) >= 0 {
            let short = pa + pb;
            lemma_walk_concat(adj, s, pa, pb);
            lemma_decompose(adj, s, short);
            assert(walk_end(adj, s, short) == walk_end(adj, s, es));
        } else {
            lemma_decompose(adj, x, c);
            assert(reaches(adj, s, pa, x));
            if exists|q: Seq<(int, int)>|
                #[trigger] reaches(adj, x, q, walk_end(adj, x, c)) && simple_walk(adj, x, q) && walk_len(adj, q) <= walk_len(adj, c) {
                let q = choose|q: Seq<(int, int)>|
                    #[trigger] reaches(adj, x, q, walk_end(adj, x, c)) && simple_walk(adj, x, q) && walk_len(adj, q) <= walk_len(adj, c);
                assert(reaches(adj, x, q, x));
            } else {
                let (y, pre, cy) = choose|y: int, pre: Seq<(int, int)>, cy: Seq<(int, int)>|
                    0 <= y < adj.len() && #[trigger] reaches(adj, x, pre, y) && #[trigger] reaches(adj, y, cy, y)
                        && simple_walk(adj, y, cy) && walk_len(adj, cy) < 0;
                lemma_walk_concat(adj, s, pa, pre);
                assert(reaches(adj, s, pa + pre, y));
            }
        }
    }
}

/// `c` repeated `m` times.
pub open spec fn repeat_walk(c: Seq<(int, int)>, m: nat) -> Seq<(int, int)>
    decreases m,
{
    if m == 0 {
        Seq::empty()
    } else {
        repeat_walk(c, (m - 1) as nat) + c
    }
}

pub proof fn lemma_repeat_walk(adj: Seq<Seq<(usize, i64)>>, x: int, c: Seq<(int, int)>, m: nat)
    requires
        reaches(adj, x, c, x),
    ensures
        reaches(adj, x, repeat_walk(c, m), x),
        walk_len(adj, repeat_walk(c, m)) == m * walk_len(adj, c),
    decreases m,
{
    if m > 0 {
        lemma_repeat_walk(adj, x, c, (m - 1) as nat);
        lemma_walk_concat(adj, x, repeat_walk(c, (m - 1) as nat), c);
        assert((m - 1) * walk_len(adj, c) + walk_len(adj, c) == m * walk_len(adj, c)) by (nonlinear_arith);
    } else {
        assert(m * walk_len(adj, c) == 0) by (nonlinear_arith)
            requires m == 0;
    }
}

/// A simple walk between distinct ends visits each vertex once, so it has
/// fewer edges than the graph has vertices.
pub proof fn lemma_simple_path_short(adj: Seq<Seq<(usize, i64)>>, s: int, es: Seq<(int, int)>)
    requires
        valid_adjacency(adj),
        is_walk(adj, s, es),
        0 <= s < adj.len(),
        simple_walk(adj, s, es),
        walk_end(adj, s, es) != s,
    ensures
        es.len() < adj.len(),
{
    let vs = Seq::new(es.len() + 1, |t: int| walk_vertex(adj, s, es, t));
    assert(es.take(es.len() as int) =~= es);
    assert(es.take(0) =~= Seq::<(int, int)>::empty());
    assert forall|i: int| 0 <= i < vs.len() implies 0 <= #[trigger] vs[i] < adj.len() by {
        lemma_walk_vertex_range(adj, s, es, i);
    }
    assert forall|i: int, j: int| 0 <= i < vs.len() && 0 <= j < vs.len() && i != j implies vs[i] != vs[j] by {
        if 0 < i < es.len() {
            assert(walk_vertex(adj, s, es, i) != walk_vertex(adj, s, es, j));
        } else if 0 < j < es.len() {
            assert(walk_vertex(adj, s, es, j) != walk_vertex(adj, s, es, i));
        } else {
            assert(walk_vertex(adj, s, es, 0) == s);
            assert(walk_vertex(adj, s, es, es.len() as int) == walk_end(adj, s, es));
        }
    }
    lemma_pigeonhole(vs, adj.len() as int);
}

} // verus!
