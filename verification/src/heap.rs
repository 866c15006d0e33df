//! Min-heap of (distance, vertex) entries, stored as a complete binary tree in
//! an array: the parent of index `i` is `(i - 1) / 2`, its children are
//! `2i + 1` and `2i + 2`, and no entry is smaller than its parent.
//! Entries are ordered by distance, then by vertex.
use vstd::prelude::*;
use vstd::multiset::Multiset;

verus! {

broadcast use vstd::seq_lib::group_to_multiset_ensures, vstd::multiset::group_multiset_axioms;

/// An entry popped from a heap.
#[derive(Clone, Copy, Debug, PartialEq, Eq, Structural)]
pub struct HeapEntry {
    pub dist: i128,
    pub vertex: usize,
}

impl HeapEntry {
    pub fn new(dist: i128, vertex: usize) -> (r: Self)
        ensures
            r.dist == dist,
            r.vertex == vertex,
    {
        HeapEntry { dist, vertex }
    }
}

/// `a` comes no later than `b`: smaller distance, or equal distance and no larger vertex.
pub open spec fn entry_le(a: (i128, usize), b: (i128, usize)) -> bool {
    a.0 < b.0 || (a.0 == b.0 && a.1 <= b.1)
}

spec fn heap_ordered(s: Seq<(i128, usize)>) -> bool {
    forall|i: int| 0 < i < s.len() ==> #[trigger] entry_le(s[(i - 1) / 2], s[i])
}

fn entry_lt(a: (i128, usize), b: (i128, usize)) -> (r: bool)
    ensures
        r == !entry_le(b, a),
{
    a.0 < b.0 || (a.0 == b.0 && a.1 < b.1)
}

proof fn lemma_root_is_min(s: Seq<(i128, usize)>, k: int)
    requires
        heap_ordered(s),
        0 <= k < s.len(),
    ensures
        entry_le(s[0], s[k]),
    decreases k,
{
    if k > 0 {
        lemma_root_is_min(s, (k - 1) / 2);
        assert(entry_le(s[(k - 1) / 2], s[k]));
    }
}

proof fn lemma_swap_multiset(s: Seq<(i128, usize)>, i: int, j: int)
    requires
        0 <= i < s.len(),
        0 <= j < s.len(),
    ensures
        s.update(i, s[j]).update(j, s[i]).to_multiset() =~= s.to_multiset(),
{
    let s1 = s.update(i, s[j]);
    vstd::seq_lib::to_multiset_update(s, i, s[j]);
    vstd::seq_lib::to_multiset_update(s1, j, s[i]);
    if i == j {
        assert(s1 =~= s);
        assert(s.update(i, s[j]).update(j, s[i]) =~= s);
    } else {
        assert(s1[j] == s[j]);
    }
}

/// Min-heap of (distance, vertex) pairs.
#[derive(Debug)]
pub struct BinaryHeap {
    heap: Vec<(i128, usize)>,
}

impl View for BinaryHeap {
    type V = Multiset<(i128, usize)>;

    closed spec fn view(&self) -> Multiset<(i128, usize)> {
        self.heap@.to_multiset()
    }
}

impl BinaryHeap {
    #[verifier::type_invariant]
    spec fn inv(self) -> bool {
        heap_ordered(self.heap@)
    }

    pub fn new() -> (r: Self)
        ensures
            r@ =~= Multiset::<(i128, usize)>::empty(),
    {
        BinaryHeap { heap: Vec::new() }
    }

    pub fn with_capacity(capacity: usize) -> (r: Self)
        ensures
            r@ =~= Multiset::<(i128, usize)>::empty(),
    {
        BinaryHeap { heap: Vec::with_capacity(capacity) }
    }

    pub fn is_empty(&self) -> (r: bool)
        ensures
            r == (self@.len() == 0),
    {
        self.heap.len() == 0
    }

    pub fn len(&self) -> (r: usize)
        ensures
            r == self@.len(),
    {
        self.heap.len()
    }

    pub fn clear(&mut self)
        ensures
            final(self)@ =~= Multiset::<(i128, usize)>::empty(),
    {
        self.heap = Vec::new();
    }

    /// Inserts the entry `(dist, vertex)`.
    pub fn push(&mut self, dist: i128, vertex: usize)
        ensures
            final(self)@ =~= old(self)@.insert((dist, vertex)),
    {
        proof {
            use_type_invariant(&*self);
        }
        let mut v: Vec<(i128, usize)> = Vec::new();
        std::mem::swap(&mut v, &mut self.heap);
        let ghost m0 = v@.to_multiset();
        v.push((dist, vertex));
        let n = v.len();
        let mut i = n - 1;
        loop
            invariant_except_break
                v@.len() == n,
                i < n,
                v@.to_multiset() =~= m0.insert((dist, vertex)),
                forall|j: int| 0 < j < n && j != i ==> #[trigger] entry_le(v@[(j - 1) / 2], v@[j]),
                i > 0 ==> forall|c: int|
                    0 < c < n && (c - 1) / 2 == i ==> #[trigger] entry_le(v@[(i - 1) / 2], v@[c]),
            ensures
                v@.to_multiset() =~= m0.insert((dist, vertex)),
                heap_ordered(v@),
            decreases i,
        {
            if i == 0 {
                break;
            }
            let p = (i - 1) / 2;
            if entry_lt(v[i], v[p]) {
                let a = v[i];
                let b = v[p];
                proof {
                    lemma_swap_multiset(v@, i as int, p as int);
                }
                let ghost old_v = v@;
                v.set(i, b);
                v.set(p, a);
                assert forall|j: int| 0 < j < n && j != p implies #[trigger] entry_le(v@[(j - 1) / 2], v@[j]) by {
                    if j == i {
                    } else if (j - 1) / 2 == p {
                        assert(entry_le(old_v[(j - 1) / 2], old_v[j]));
                    } else if (j - 1) / 2 == i {
                        assert(entry_le(old_v[(i - 1) / 2], old_v[j]));
                    } else if j == p {
                    } else {
                        assert(entry_le(old_v[(j - 1) / 2], old_v[j]));
                    }
                }
                assert(p > 0 ==> forall|c: int|
                    0 < c < n && (c - 1) / 2 == p ==> #[trigger] entry_le(v@[(p - 1) / 2], v@[c])) by {
                    if p > 0 {
                        assert(entry_le(old_v[(p - 1) / 2], old_v[p as int]));
                        assert forall|c: int| 0 < c < n && (c - 1) / 2 == p implies #[trigger] entry_le(
                            v@[(p - 1) / 2],
                            v@[c],
                        ) by {
                            if c != i {
                                assert(entry_le(old_v[(c - 1) / 2], old_v[c]));
                            }
                        }
                    }
                }
                i = p;
            } else {
                break;
            }
        }
        self.heap = v;
    }

    /// Removes and returns the smallest entry, if any.
    pub fn pop(&mut self) -> (r: Option<HeapEntry>)
        ensures
            old(self)@.len() == 0 <==> r is None,
            r is None ==> final(self)@ =~= old(self)@,
            r matches Some(e) ==> {
                &&& old(self)@.contains((e.dist, e.vertex))
                &&& final(self)@ =~= old(self)@.remove((e.dist, e.vertex))
                &&& final(self)@.len() + 1 == old(self)@.len()
                &&& forall|x: (i128, usize)| #[trigger] old(self)@.contains(x) ==> entry_le((e.dist, e.vertex), x)
            },
    {
        proof {
            use_type_invariant(&*self);
        }
        let mut v: Vec<(i128, usize)> = Vec::new();
        std::mem::swap(&mut v, &mut self.heap);
        let ghost s0 = v@;
        if v.len() == 0 {
            self.heap = v;
            return None;
        }
        proof {
            assert forall|x: (i128, usize)| #[trigger] s0.to_multiset().contains(x) implies entry_le(s0[0], x) by {
                assert(s0.contains(x));
                let k = choose|k: int| 0 <= k < s0.len() && s0[k] == x;
                lemma_root_is_min(s0, k);
            }
            assert(s0.to_multiset().contains(s0[0])) by {
                assert(s0.contains(s0[0]));
            }
        }
        let top = v[0];
        let last = v.pop().unwrap();
        let ghost t = v@;
        assert(s0 =~= t.push(last));
        if v.len() == 0 {
            assert(t.to_multiset() =~= Multiset::<(i128, usize)>::empty());
            self.heap = v;
            return Some(HeapEntry { dist: top.0, vertex: top.1 });
        }
        v.set(0, last);
        proof {
            vstd::seq_lib::to_multiset_update(t, 0, last);
            assert(t[0] == top);
        }
        let n = v.len();
        let mut i: usize = 0;
        loop
            invariant_except_break
                v@.len() == n,
                n > 0,
                i < n,
                v@.to_multiset() =~= s0.to_multiset().remove(top),
                forall|j: int| 0 < j < n && (j - 1) / 2 != i ==> #[trigger] entry_le(v@[(j - 1) / 2], v@[j]),
                i > 0 ==> forall|c: int|
                    0 < c < n && (c - 1) / 2 == i ==> #[trigger] entry_le(v@[(i - 1) / 2], v@[c]),
            ensures
                v@.to_multiset() =~= s0.to_multiset().remove(top),
                heap_ordered(v@),
            decreases n - i,
        {
            if n < 2 || i > (n - 2) / 2 {
                assert forall|j: int| 0 < j < n implies #[trigger] entry_le(v@[(j - 1) / 2], v@[j]) by {
                    assert((j - 1) / 2 != i);
                }
                break;
            }
            let l = 2 * i + 1;
            let mut m = l;
            if l + 1 < n && entry_lt(v[l + 1], v[l]) {
                m = l + 1;
            }
            assert(forall|c: int| 0 < c < n && (c - 1) / 2 == i ==> entry_le(v@[m as int], v@[c]));
            if entry_lt(v[m], v[i]) {
                let a = v[i];
                let b = v[m];
                proof {
                    lemma_swap_multiset(v@, i as int, m as int);
                }
                let ghost old_v = v@;
                v.set(i, b);
                v.set(m, a);
                assert forall|j: int| 0 < j < n && (j - 1) / 2 != m implies #[trigger] entry_le(
                    v@[(j - 1) / 2],
                    v@[j],
                ) by {
                    if j == m {
                    } else if (j - 1) / 2 == i {
                    } else if j == i {
                        assert(entry_le(old_v[(i - 1) / 2], old_v[m as int]));
                    } else {
                        assert(entry_le(old_v[(j - 1) / 2], old_v[j]));
                    }
                }
                assert forall|c: int| 0 < c < n && (c - 1) / 2 == m implies #[trigger] entry_le(
                    v@[(m - 1) / 2],
                    v@[c],
                ) by {
                    assert(entry_le(old_v[(c - 1) / 2], old_v[c]));
                }
                i = m;
            } else {
                assert forall|j: int| 0 < j < n implies #[trigger] entry_le(v@[(j - 1) / 2], v@[j]) by {
                    if (j - 1) / 2 == i {
                        assert(entry_le(v@[m as int], v@[j]));
                    }
                }
                break;
            }
        }
        self.heap = v;
        Some(HeapEntry { dist: top.0, vertex: top.1 })
    }
}

impl Default for BinaryHeap {
    fn default() -> (r: Self)
        ensures
            r@ =~= Multiset::<(i128, usize)>::empty(),
    {
        Self::new()
    }
}

} // verus!
