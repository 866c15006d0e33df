use sssp_fast::{dijkstra_multi, AdjListGraph, Dijkstra, DijkstraConfig, SsspAlgorithm, SsspBuffers, INF};

fn linear(n: usize, w: i64) -> AdjListGraph {
    let mut g = AdjListGraph::new(n);
    for u in 0..n - 1 {
        g.add_edge(u, u + 1, w);
    }
    g
}

fn linear_undirected(n: usize, w: i64) -> AdjListGraph {
    let mut g = AdjListGraph::new(n);
    for u in 0..n - 1 {
        g.add_edge(u, u + 1, w);
        g.add_edge(u + 1, u, w);
    }
    g
}

#[test]
fn test_multi_source_nearest() {
    // Sources 0 and 4 on an undirected chain 0-1-2-3-4.
    // Each vertex gets min distance to either source.
    let g = linear_undirected(5, 1);
    let mut buf = SsspBuffers::new_inf(5);
    dijkstra_multi(&g, &[0, 4], &mut buf);

    for (v, d) in [(0, 0), (1, 1), (2, 2), (3, 1), (4, 0)] {
        assert_eq!(buf.dist_at(v), d);
    }
}

#[test]
fn test_multi_target_early_stop() {
    // Chain of 10. Targets {3, 6}: loop should exit once both are finalised
    let g = linear(10, 1);
    let mut buf = SsspBuffers::new_inf(10);
    let mut algo = Dijkstra::with_config(DijkstraConfig::with_targets(vec![3, 6]));
    algo.run(&g, 0, &mut buf);

    assert_eq!(buf.dist_at(3), 3);
    assert_eq!(buf.dist_at(6), 6);
    for v in [7, 8, 9] {
        assert_eq!(buf.dist_at(v), INF);
    }
}

#[test]
fn test_dijkstra_multi_nearest_source() {
    let g = linear_undirected(6, 2);
    let mut buf = SsspBuffers::new_inf(6);
    sssp_fast::dijkstra_multi(&g, &[1, 5], &mut buf);
    let d: Vec<i128> = (0..6).map(|v| buf.dist_at(v)).collect();
    assert_eq!(d, vec![2, 0, 2, 4, 2, 0]);
    assert_eq!(buf.path_to(3).map(|p| p[0] == 1 || p[0] == 5), Some(true));
}

#[test]
fn test_multi_target_without_lazy_deletion_waits_for_every_target() {
    // A stale second pop of target 1 does not count: the search goes on
    // until target 3 is finalised at its shortest distance.
    let mut g = AdjListGraph::new(5);
    g.add_edge(0, 1, 10);
    g.add_edge(0, 2, 1);
    g.add_edge(2, 1, 1);
    g.add_edge(1, 3, 20);
    g.add_edge(0, 4, 11);
    g.add_edge(4, 3, 1);
    let mut buf = SsspBuffers::new_inf(5);
    let mut algo = Dijkstra::with_config(DijkstraConfig::with_targets(vec![1, 3]).without_lazy_deletion());
    algo.run_from(&g, &[0], &mut buf);
    assert_eq!(buf.dist_at(1), 2);
    assert_eq!(buf.dist_at(3), 12);
    assert_eq!(buf.path_to(3), Some(vec![0, 4, 3]));
}

#[test]
fn test_multi_target_repeated_target_stops() {
    let g = linear(10, 1);
    let mut buf = SsspBuffers::new_inf(10);
    let mut algo = Dijkstra::with_config(DijkstraConfig::with_targets(vec![3, 3]));
    let r = algo.run(&g, 0, &mut buf);
    assert_eq!(buf.dist_at(3), 3);
    for v in 4..10 {
        assert_eq!(buf.dist_at(v), INF);
    }
    assert_eq!(r.iterations, 3);
}

#[test]
fn test_multi_target_unreachable_runs_to_end() {
    // Target 1 cannot be reached from 2, so every distance is computed.
    let g = linear(5, 1);
    let mut buf = SsspBuffers::new_inf(5);
    let mut algo = Dijkstra::with_config(DijkstraConfig::with_targets(vec![1, 3]));
    algo.run(&g, 2, &mut buf);
    assert_eq!(buf.dist_at(1), INF);
    assert_eq!(buf.dist_at(3), 1);
    assert_eq!(buf.dist_at(4), 2);
}

#[test]
fn test_multi_sources_and_unreached_have_no_parent() {
    let g = linear(6, 1);
    let mut buf = SsspBuffers::new_inf(6);
    dijkstra_multi(&g, &[2, 4], &mut buf);
    assert_eq!(buf.parent_of(2), None);
    assert_eq!(buf.parent_of(4), None);
    assert_eq!(buf.parent_of(0), None);
    assert_eq!(buf.parent_of(1), None);
    assert_eq!(buf.parent_of(5), Some(4));
}
