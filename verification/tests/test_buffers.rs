use sssp_fast::{
    finalize_mst, finalize_sssp, init_mst, init_sssp, relax, relax_with, AdjListGraph, ApspBuffers, ApspResult,
    BellmanFordConfig, BinaryHeap, DijkstraConfig, Edge, HasSsspConfig, HeapEntry, MstBuffers, MstEdge,
    RelaxResult, SsspBuffers, SsspConfig, APSP_NO_PATH, INF, NO_VERTEX,
};

#[test]
fn test_heap_pops_in_order() {
    let mut h = BinaryHeap::new();
    assert!(h.is_empty());
    for (d, v) in [(5, 1), (3, 2), (9, 3), (3, 0), (1, 4)] {
        h.push(d, v);
    }
    assert_eq!(h.len(), 5);
    let mut out = Vec::new();
    while let Some(HeapEntry { dist, vertex }) = h.pop() {
        out.push((dist, vertex));
    }
    assert_eq!(out, vec![(1, 4), (3, 0), (3, 2), (5, 1), (9, 3)]);
    assert!(h.is_empty());
    assert!(h.pop().is_none());
}

#[test]
fn test_heap_clear_and_capacity() {
    let mut h = BinaryHeap::with_capacity(8);
    h.push(2, 2);
    h.push(1, 1);
    h.clear();
    assert_eq!(h.len(), 0);
    h.push(7, 0);
    let e = h.pop().unwrap();
    assert_eq!((e.dist, e.vertex), (7, 0));
    let n = HeapEntry::new(4, 9);
    assert_eq!((n.dist, n.vertex), (4, 9));
}

#[test]
fn test_relax_improves_and_keeps() {
    let mut dist = vec![0, INF, 3];
    let mut parent = vec![NO_VERTEX; 3];
    assert_eq!(relax(&mut dist, &mut parent, 0, 1, 5), RelaxResult::Improved);
    assert_eq!(dist, vec![0, 5, 3]);
    assert_eq!(parent[1], 0);
    // 0 + 4 is not below 3.
    assert_eq!(relax(&mut dist, &mut parent, 0, 2, 4), RelaxResult::NoChange);
    assert_eq!(dist, vec![0, 5, 3]);
    assert_eq!(relax(&mut dist, &mut parent, 2, 1, -1), RelaxResult::Improved);
    assert_eq!(dist[1], 2);
    assert_eq!(parent[1], 2);
}

#[test]
fn test_relax_from_unreached_does_nothing() {
    let mut dist = vec![INF, INF];
    let mut parent = vec![NO_VERTEX; 2];
    assert_eq!(relax_with(&mut dist, &mut parent, 0, INF, 1, -5), RelaxResult::NoChange);
    assert_eq!(dist, vec![INF, INF]);
    assert_eq!(relax_with(&mut dist, &mut parent, 0, 10, 1, -5), RelaxResult::Improved);
    assert_eq!(dist[1], 5);
}

#[test]
fn test_relax_overflow_is_no_change() {
    let mut dist = vec![INF - 1, INF];
    let mut parent = vec![NO_VERTEX; 2];
    assert_eq!(relax(&mut dist, &mut parent, 0, 1, 5), RelaxResult::NoChange);
    assert_eq!(dist[1], INF);
}

#[test]
fn test_sssp_buffers_basics() {
    let mut b = SsspBuffers::new_inf(3);
    assert_eq!(b.len(), 3);
    assert_eq!(b.dist_at(1), INF);
    assert_eq!(b.parent_at(1), NO_VERTEX);
    b.set_source(1);
    assert_eq!(b.dist_at(1), 0);
    assert_eq!(b.parent_of(1), None);
    assert_eq!(b.path_to(1), Some(vec![1]));
    assert_eq!(b.path_to(0), None);
    b.reset_inf();
    assert_eq!(b.dist_at(1), INF);
}

#[test]
fn test_init_and_finalize_sssp() {
    let mut b = SsspBuffers::new_inf(4);
    init_sssp(&mut b, &[0, 2]);
    assert_eq!((0..4).map(|v| b.dist_at(v)).collect::<Vec<_>>(), vec![0, INF, 0, INF]);
    let r = finalize_sssp(&b, 7, true);
    assert_eq!(r.iterations, 7);
    assert!(r.negative_cycle);
    assert_eq!(r.vertices_reached, 2);
    assert_eq!(r.total_distance, 0);
}

#[test]
fn test_mst_buffers_basics() {
    let mut b = MstBuffers::new_inf(3);
    init_mst(&mut b, 2);
    assert_eq!(b.parent_of(2), None);
    assert!(b.collect_edges().is_empty());
    assert_eq!(b.total_weight(), 0);
    assert_eq!(b.vertices_in_mst(), 0);
    let r = finalize_mst(&b, 3, 3);
    assert_eq!(r.iterations, 3);
    assert_eq!(r.vertices_in_mst, 0);
    assert_eq!(r.total_weight, 0);
    assert!(!r.is_connected);
    let r0 = finalize_mst(&MstBuffers::new_inf(0), 0, 0);
    assert!(r0.is_connected);
    b.set_source(0);
    b.reset_inf();
    assert_eq!(b.parent_of(0), None);
    let e = MstEdge::new(0, 1, 4);
    assert_eq!(e, MstEdge { from: 0, to: 1, weight: 4 });
}

#[test]
fn test_apsp_buffers_basics() {
    let mut b = ApspBuffers::new(3);
    assert_eq!(b.get(0, 0), 0);
    assert_eq!(b.get(0, 1), INF);
    assert_eq!(b.get_next(0, 1), APSP_NO_PATH);
    assert_eq!(b.path(0, 1), None);
    b.set(0, 1, 4);
    b.set_next(0, 1, 1);
    assert_eq!(b.get(0, 1), 4);
    assert_eq!(b.path(0, 1), Some(vec![0, 1]));
    assert!(!b.has_negative_cycle());
    b.set(2, 2, -1);
    assert!(b.has_negative_cycle());
    b.reset();
    assert_eq!(b.get(2, 2), 0);
    assert_eq!(b.get(0, 1), INF);
    let r = ApspResult::new(3, false, 3);
    assert_eq!((r.iterations, r.negative_cycle, r.pairs_reached), (3, false, 3));
}

#[test]
fn test_configs() {
    let c = SsspConfig::with_targets(vec![3, 5]);
    assert!(c.is_target(5));
    assert!(!c.is_target(4));
    assert_eq!(HasSsspConfig::targets(&c), &[3, 5]);
    assert!(SsspConfig::default().targets.is_empty());
    assert_eq!(SsspConfig::with_target(2).targets, vec![2]);

    let mut d = DijkstraConfig::with_target(1);
    assert_eq!(d.targets, vec![1]);
    d.set_targets(vec![4, 6]);
    assert_eq!(d.targets, vec![4, 6]);
    d.set_target(9);
    assert_eq!(d.targets, vec![9]);
    assert!(d.lazy_deletion);
    assert_eq!(DijkstraConfig::with_targets(vec![0, 2]).targets, vec![0, 2]);

    let bf = BellmanFordConfig::with_targets(vec![1, 2]).without_early_termination();
    assert_eq!(HasSsspConfig::targets(&bf), &[1, 2]);
    assert!(!bf.early_termination);
    assert!(BellmanFordConfig::with_target(0).early_termination);
}

#[test]
fn test_graph_building() {
    let mut g: AdjListGraph<u8> = AdjListGraph::new(3);
    g.add_edge_with(0, 1, 5, 7);
    g.add_edge_with(0, 2, -1, 8);
    g.add_edge_with(2, 1, 2, 9);
    assert_eq!(g.m(), 3);
    assert_eq!(g.neighbors(0), &[Edge::with_meta(1, 5, 7), Edge::with_meta(2, -1, 8)]);
    assert!(g.neighbors(1).is_empty());
    let e: Edge = Edge::new(4, 3);
    assert_eq!((e.to, e.w), (4, 3));
}

#[test]
fn test_mst_buffers_entry_writers() {
    let mut b = MstBuffers::new_inf(3);
    b.set_key(1, 7);
    b.set_parent(1, 0);
    b.set_in_mst(0, true);
    b.set_in_mst(1, true);
    assert_eq!(b.key_at(1), 7);
    assert_eq!(b.parent_of(1), Some(0));
    assert!(b.is_in_mst(1));
    assert!(!b.is_in_mst(2));
    assert_eq!(b.vertices_in_mst(), 2);
}
