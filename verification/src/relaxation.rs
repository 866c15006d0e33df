//! Edge relaxation.
use vstd::prelude::*;
use crate::walks::INF;

verus! {

#[derive(Clone, Copy, Debug, PartialEq, Eq, Structural)]
pub enum RelaxResult {
    Improved,
    NoChange,
}

/// Relaxing an edge of weight `w` out of a vertex at distance `d_u` improves
/// a target at distance `d_v`: `d_u` is finite and `d_u + w < d_v`.
pub open spec fn relax_improves(d_u: i128, w: i64, d_v: i128) -> bool {
    d_u != INF && d_u + w < d_v
}

/// Sum of a finite distance and a weight, computed exactly; `None` when it
/// exceeds `i128::MAX` (it then improves nothing).
pub(crate) fn add_weight(d_u: i128, w: i64) -> (r: Option<i128>)
    requires
        d_u + w >= i128::MIN,
    ensures
        r matches Some(x) ==> x == d_u + w,
        r is None ==> d_u + w > i128::MAX,
{
    d_u.checked_add(w as i128)
}

/// Relax edge `u -> v` with weight `w` using `dist[u]`.
pub fn relax(dist: &mut [i128], parent: &mut [usize], u: usize, v: usize, w: i64) -> (r: RelaxResult)
    requires
        u < old(dist)@.len(),
        v < old(dist)@.len(),
        v < old(parent)@.len(),
        old(dist)@[u as int] == INF || old(dist)@[u as int] + w >= i128::MIN,
    ensures
        relax_improves(old(dist)@[u as int], w, old(dist)@[v as int]) ==> {
            &&& r == RelaxResult::Improved
            &&& final(dist)@ == old(dist)@.update(v as int, (old(dist)@[u as int] + w) as i128)
            &&& final(parent)@ == old(parent)@.update(v as int, u)
        },
        !relax_improves(old(dist)@[u as int], w, old(dist)@[v as int]) ==> {
            &&& r == RelaxResult::NoChange
            &&& final(dist)@ == old(dist)@
            &&& final(parent)@ == old(parent)@
        },
{
    let d_u = dist[u];
    relax_with(dist, parent, u, d_u, v, w)
}

/// Relax with caller-supplied `d_u` — saves one load of `dist[u]`.
pub fn relax_with(dist: &mut [i128], parent: &mut [usize], u: usize, d_u: i128, v: usize, w: i64) -> (r:
    RelaxResult)
    requires
        v < old(dist)@.len(),
        v < old(parent)@.len(),
        d_u == INF || d_u + w >= i128::MIN,
    ensures
        relax_improves(d_u, w, old(dist)@[v as int]) ==> {
            &&& r == RelaxResult::Improved
            &&& final(dist)@ == old(dist)@.update(v as int, (d_u + w) as i128)
            &&& final(parent)@ == old(parent)@.update(v as int, u)
        },
        !relax_improves(d_u, w, old(dist)@[v as int]) ==> {
            &&& r == RelaxResult::NoChange
            &&& final(dist)@ == old(dist)@
            &&& final(parent)@ == old(parent)@
        },
{
    if d_u == INF {
        return RelaxResult::NoChange;
    }
    match add_weight(d_u, w) {
        Some(new_dist) => {
            if new_dist < dist[v] {
                dist[v] = new_dist;
                parent[v] = u;
                RelaxResult::Improved
            } else {
                RelaxResult::NoChange
            }
        },
        None => RelaxResult::NoChange,
    }
}

/// Relax edge `u -> v` from `d_u` when `gate` returns true; `gate` is called
/// only when the edge would improve `v`.
pub fn relax_cond<F: FnOnce() -> bool>(
    dist: &mut [i128],
    parent: &mut [usize],
    u: usize,
    d_u: i128,
    v: usize,
    w: i64,
    gate: F,
) -> (r: RelaxResult)
    requires
        v < old(dist)@.len(),
        v < old(parent)@.len(),
        d_u == INF || d_u + w >= i128::MIN,
        call_requires(gate, ()),
    ensures
        r == RelaxResult::Improved ==> {
            &&& relax_improves(d_u, w, old(dist)@[v as int])
            &&& call_ensures(gate, (), true)
            &&& final(dist)@ == old(dist)@.update(v as int, (d_u + w) as i128)
            &&& final(parent)@ == old(parent)@.update(v as int, u)
        },
        r == RelaxResult::NoChange ==> {
            &&& final(dist)@ == old(dist)@
            &&& final(parent)@ == old(parent)@
            &&& relax_improves(d_u, w, old(dist)@[v as int]) ==> call_ensures(gate, (), false)
        },
{
    if d_u == INF {
        return RelaxResult::NoChange;
    }
    match add_weight(d_u, w) {
        Some(new_dist) => {
            if new_dist < dist[v] {
                if gate() {
                    dist[v] = new_dist;
                    parent[v] = u;
                    RelaxResult::Improved
                } else {
                    RelaxResult::NoChange
                }
            } else {
                RelaxResult::NoChange
            }
        },
        None => RelaxResult::NoChange,
    }
}

} // verus!
