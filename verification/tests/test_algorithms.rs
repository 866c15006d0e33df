use sssp_fast::{
    bellman_ford, bellman_ford_multi, cheeky_dijkstra, dijkstra_to, floyd_warshall, AStar, AStarConfig, AdjListGraph,
    ApspAlgorithm, ApspAlgorithmInfo, ApspBuffers, BellmanFord, BellmanFordConfig, Dijkstra, DijkstraConfig, Event,
    FloydWarshall, FloydWarshallConfig, SsspAlgorithm, SsspAlgorithmInfo, SsspBuffers, ZeroHeuristic, INF,
};

/// 0 -> 1 (4), 0 -> 2 (1), 2 -> 1 (-2), 1 -> 3 (1): shortest 0, -1, 1, 0.
fn negative_edge_graph() -> AdjListGraph {
    let mut g = AdjListGraph::new(4);
    g.add_edge(0, 1, 4);
    g.add_edge(0, 2, 1);
    g.add_edge(2, 1, -2);
    g.add_edge(1, 3, 1);
    g
}

/// 0 -> 1 (1), 1 -> 2 (-1), 2 -> 1 (-1): the cycle 1 -> 2 -> 1 has length -2.
fn negative_cycle_graph() -> AdjListGraph {
    let mut g = AdjListGraph::new(4);
    g.add_edge(0, 1, 1);
    g.add_edge(1, 2, -1);
    g.add_edge(2, 1, -1);
    g
}

/// A small directed graph with non-negative weights.
fn diamond() -> AdjListGraph {
    let mut g = AdjListGraph::new(6);
    g.add_edge(0, 1, 7);
    g.add_edge(0, 2, 9);
    g.add_edge(0, 5, 14);
    g.add_edge(1, 2, 10);
    g.add_edge(1, 3, 15);
    g.add_edge(2, 3, 11);
    g.add_edge(2, 5, 2);
    g.add_edge(3, 4, 6);
    g.add_edge(5, 4, 9);
    g
}

fn distances(buf: &SsspBuffers) -> Vec<i128> {
    (0..buf.len()).map(|v| buf.dist_at(v)).collect()
}

#[test]
fn test_dijkstra_distances_exact() {
    let g = diamond();
    let mut buf = SsspBuffers::new_inf(6);
    let r = cheeky_dijkstra(&g, 0, &mut buf);
    assert_eq!(distances(&buf), vec![0, 7, 9, 20, 20, 11]);
    assert_eq!(r.vertices_reached, 6);
    assert_eq!(r.total_distance, 67);
    assert!(!r.negative_cycle);
}

#[test]
fn test_dijkstra_unreachable_is_inf() {
    let mut g = AdjListGraph::new(3);
    g.add_edge(0, 1, 2);
    let mut buf = SsspBuffers::new_inf(3);
    let r = cheeky_dijkstra(&g, 0, &mut buf);
    assert_eq!(distances(&buf), vec![0, 2, INF]);
    assert_eq!(r.vertices_reached, 2);
    assert_eq!(r.total_distance, 2);
    assert_eq!(buf.path_to(2), None);
}

#[test]
fn test_dijkstra_agrees_with_bellman_ford_on_example() {
    let g = diamond();
    let mut d = SsspBuffers::new_inf(6);
    cheeky_dijkstra(&g, 0, &mut d);
    let mut b = SsspBuffers::new_inf(6);
    let r = bellman_ford(&g, 0, &mut b);
    assert!(!r.negative_cycle);
    assert_eq!(distances(&d), distances(&b));
}

#[test]
fn test_dijkstra_without_lazy_deletion_same_distances() {
    let g = diamond();
    let mut buf = SsspBuffers::new_inf(6);
    let mut algo = Dijkstra::with_config(DijkstraConfig::default().without_lazy_deletion());
    algo.run(&g, 0, &mut buf);
    assert_eq!(distances(&buf), vec![0, 7, 9, 20, 20, 11]);
    assert!(!algo.config().lazy_deletion);
}

#[test]
fn test_dijkstra_events() {
    let mut g = AdjListGraph::new(2);
    g.add_edge(0, 1, 5);
    let mut buf = SsspBuffers::new_inf(2);
    let mut events = Vec::new();
    let mut algo = Dijkstra::new();
    algo.run_observed(&g, 0, &mut buf, |e| events.push(e));
    assert_eq!(
        events,
        vec![
            Event::Improved { vertex: 1, dist: 5, parent: 0 },
            Event::Finalized { vertex: 0, dist: 0, parent: None },
            Event::Finalized { vertex: 1, dist: 5, parent: Some(0) },
        ]
    );
    assert_eq!(algo.name(), "Dijkstra");
    assert!(!algo.supports_negative_weights());
}

#[test]
fn test_dijkstra_to_target_is_shortest() {
    let g = diamond();
    let mut buf = SsspBuffers::new_inf(6);
    dijkstra_to(&g, 0, 4, &mut buf);
    assert_eq!(buf.dist_at(4), 20);
}

#[test]
fn test_bellman_ford_negative_edge() {
    let g = negative_edge_graph();
    let mut buf = SsspBuffers::new_inf(4);
    let r = bellman_ford(&g, 0, &mut buf);
    assert_eq!(distances(&buf), vec![0, -1, 1, 0]);
    assert!(!r.negative_cycle);
    assert_eq!(buf.path_to(3), Some(vec![0, 2, 1, 3]));
}

#[test]
fn test_bellman_ford_flags_negative_cycle() {
    let g = negative_cycle_graph();
    let mut buf = SsspBuffers::new_inf(4);
    let r = bellman_ford(&g, 0, &mut buf);
    assert!(r.negative_cycle);
    assert_eq!(r.iterations, 3);
    assert_eq!(buf.dist_at(3), INF);
}

#[test]
fn test_bellman_ford_unreachable_cycle_not_flagged() {
    // The negative cycle 1 <-> 2 cannot be reached from 3.
    let g = negative_cycle_graph();
    let mut buf = SsspBuffers::new_inf(4);
    let r = bellman_ford(&g, 3, &mut buf);
    assert!(!r.negative_cycle);
    assert_eq!(distances(&buf), vec![INF, INF, INF, 0]);
}

#[test]
fn test_bellman_ford_early_termination() {
    let mut g = AdjListGraph::new(5);
    for u in 0..4 {
        g.add_edge(u, u + 1, 1);
    }
    let mut buf = SsspBuffers::new_inf(5);
    let mut early = BellmanFord::new();
    let r1 = early.run(&g, 0, &mut buf);
    assert_eq!(distances(&buf), vec![0, 1, 2, 3, 4]);
    let mut full = BellmanFord::with_config(BellmanFordConfig::default().without_early_termination());
    let mut buf2 = SsspBuffers::new_inf(5);
    let r2 = full.run(&g, 0, &mut buf2);
    assert_eq!(distances(&buf2), vec![0, 1, 2, 3, 4]);
    assert_eq!(r2.iterations, 4);
    assert!(r1.iterations <= r2.iterations);
    assert!(full.supports_negative_weights());
}

#[test]
fn test_bellman_ford_multi_source() {
    let g = negative_edge_graph();
    let mut buf = SsspBuffers::new_inf(4);
    bellman_ford_multi(&g, &[0, 2], &mut buf);
    assert_eq!(distances(&buf), vec![0, -2, 0, -1]);
}

#[test]
fn test_bellman_ford_events() {
    let mut g = AdjListGraph::new(2);
    g.add_edge(0, 1, -3);
    let mut buf = SsspBuffers::new_inf(2);
    let mut events = Vec::new();
    let mut algo = BellmanFord::new();
    algo.run_observed(&g, 0, &mut buf, |e| events.push(e));
    assert_eq!(events[0], Event::Improved { vertex: 1, dist: -3, parent: 0 });
    assert_eq!(events[1], Event::Iteration(0));
}

#[test]
fn test_floyd_warshall_distances_and_paths() {
    let g = negative_edge_graph();
    let mut buf = ApspBuffers::new(4);
    let r = floyd_warshall(&g, &mut buf);
    assert!(!r.negative_cycle);
    assert!(!buf.has_negative_cycle());
    assert_eq!(r.iterations, 4);
    assert_eq!(buf.get(0, 3), 0);
    assert_eq!(buf.get(0, 1), -1);
    assert_eq!(buf.get(2, 3), -1);
    assert_eq!(buf.get(3, 0), INF);
    assert_eq!(buf.get(1, 1), 0);
    assert_eq!(buf.path(0, 3), Some(vec![0, 2, 1, 3]));
    assert_eq!(buf.path(3, 0), None);
    assert_eq!(buf.path(2, 2), Some(vec![2]));
    // Pairs (i, j) with a finite distance: row 0 has 4, row 1 has 2, row 2 has 3, row 3 has 1.
    assert_eq!(r.pairs_reached, 10);
}

#[test]
fn test_floyd_warshall_negative_cycle() {
    let g = negative_cycle_graph();
    let mut buf = ApspBuffers::new(4);
    let mut fw = FloydWarshall::new();
    let r = fw.run(&g, &mut buf);
    assert!(r.negative_cycle);
    assert!(buf.has_negative_cycle());
    assert!(buf.get(1, 1) < 0);
    assert_eq!(fw.name(), "Floyd-Warshall");
    assert!(fw.supports_negative_weights());
}

#[test]
fn test_floyd_warshall_detection_off() {
    let g = negative_cycle_graph();
    let mut buf = ApspBuffers::new(4);
    let mut fw = FloydWarshall::with_config(FloydWarshallConfig::default().without_negative_cycle_detection());
    let r = fw.run(&g, &mut buf);
    assert!(!r.negative_cycle);
    assert!(buf.has_negative_cycle());
}

#[test]
fn test_floyd_warshall_agrees_with_dijkstra() {
    let g = diamond();
    let mut all = ApspBuffers::new(6);
    floyd_warshall(&g, &mut all);
    for s in 0..6 {
        let mut one = SsspBuffers::new_inf(6);
        cheeky_dijkstra(&g, s, &mut one);
        for t in 0..6 {
            assert_eq!(all.get(s, t), one.dist_at(t));
        }
    }
}

#[test]
fn test_astar_zero_heuristic_matches_dijkstra() {
    let g = diamond();
    for t in 0..6 {
        let mut a = SsspBuffers::new_inf(6);
        let mut astar = AStar::new(t, ZeroHeuristic);
        let r = astar.run(&g, 0, &mut a);
        assert!(!r.negative_cycle);
        let mut d = SsspBuffers::new_inf(6);
        cheeky_dijkstra(&g, 0, &mut d);
        assert_eq!(a.dist_at(t), d.dist_at(t));
    }
}

#[test]
fn test_astar_stops_at_target() {
    let mut g = AdjListGraph::new(5);
    for u in 0..4 {
        g.add_edge(u, u + 1, 1);
    }
    let mut buf = SsspBuffers::new_inf(5);
    let mut astar = AStar::with_config(AStarConfig::new(2, ZeroHeuristic).without_lazy_deletion());
    let r = astar.run(&g, 0, &mut buf);
    assert_eq!(buf.dist_at(2), 2);
    assert_eq!(buf.dist_at(4), INF);
    assert_eq!(r.iterations, 2);
    assert_eq!(buf.path_to(2), Some(vec![0, 1, 2]));
    assert_eq!(astar.config().target, 2);
    assert!(!astar.config().lazy_deletion);
    assert_eq!(astar.name(), "A*");
}

#[test]
fn test_astar_with_capacity_and_config_mut() {
    let g = diamond();
    let mut astar = AStar::with_capacity(0, ZeroHeuristic, 16);
    astar.config_mut().target = 4;
    let mut buf = SsspBuffers::new_inf(6);
    astar.run(&g, 0, &mut buf);
    assert_eq!(buf.dist_at(4), 20);
}

#[test]
fn test_dijkstra_paths_follow_tight_edges() {
    // Every reconstructed path starts at the source, ends at its vertex, and
    // its edge weights add up to the vertex's distance.
    let g = diamond();
    let mut buf = SsspBuffers::new_inf(6);
    cheeky_dijkstra(&g, 0, &mut buf);
    for v in 0..6 {
        let path = buf.path_to(v).unwrap();
        assert_eq!(path[0], 0);
        assert_eq!(*path.last().unwrap(), v);
        let mut total: i128 = 0;
        for pair in path.windows(2) {
            let (a, b) = (pair[0], pair[1]);
            let w = g.neighbors(a).iter().filter(|e| e.to == b).map(|e| e.w).min().unwrap();
            assert_eq!(buf.dist_at(b), buf.dist_at(a) + w as i128);
            total += w as i128;
        }
        assert_eq!(total, buf.dist_at(v));
    }
    assert_eq!(buf.path_to(4), Some(vec![0, 2, 5, 4]));
}

#[test]
fn test_bellman_ford_paths_follow_tight_edges() {
    let g = negative_edge_graph();
    let mut buf = SsspBuffers::new_inf(4);
    let r = bellman_ford(&g, 0, &mut buf);
    assert!(!r.negative_cycle);
    for v in 0..4 {
        let path = buf.path_to(v).unwrap();
        assert_eq!(path[0], 0);
        assert_eq!(*path.last().unwrap(), v);
        for pair in path.windows(2) {
            let (a, b) = (pair[0], pair[1]);
            assert!(g.neighbors(a).iter().any(|e| e.to == b && buf.dist_at(b) == buf.dist_at(a) + e.w as i128));
        }
    }
}

#[test]
fn test_floyd_warshall_agrees_with_bellman_ford() {
    let g = negative_edge_graph();
    let mut all = ApspBuffers::new(4);
    floyd_warshall(&g, &mut all);
    for s in 0..4 {
        let mut one = SsspBuffers::new_inf(4);
        let r = bellman_ford(&g, s, &mut one);
        assert!(!r.negative_cycle);
        for t in 0..4 {
            assert_eq!(all.get(s, t), one.dist_at(t));
        }
    }
}

#[test]
fn test_weighted_run_uses_given_weights() {
    // Doubling every weight doubles every distance.
    let g = diamond();
    let mut buf = SsspBuffers::new_inf(6);
    let mut algo = Dijkstra::new();
    algo.run_from_weighted(&g, &[0], &mut buf, |w: i64, _m: &()| 2 * w);
    assert_eq!(distances(&buf), vec![0, 14, 18, 40, 40, 22]);
    assert_eq!(buf.path_to(4), Some(vec![0, 2, 5, 4]));
}

#[test]
fn test_floyd_warshall_paths_follow_tight_edges() {
    // Every next-hop route ends at its target, along edges whose weights add
    // up to the matrix entry.
    let g = negative_edge_graph();
    let mut all = ApspBuffers::new(4);
    floyd_warshall(&g, &mut all);
    for i in 0..4 {
        for j in 0..4 {
            if all.get(i, j) == INF {
                assert_eq!(all.path(i, j), None);
                continue;
            }
            let path = all.path(i, j).unwrap();
            assert_eq!(path[0], i);
            assert_eq!(*path.last().unwrap(), j);
            let mut total: i128 = 0;
            for pair in path.windows(2) {
                let (a, b) = (pair[0], pair[1]);
                let w = g.neighbors(a).iter().filter(|e| e.to == b).map(|e| e.w).min().unwrap();
                total += w as i128;
            }
            assert_eq!(total, all.get(i, j));
        }
    }
}

#[test]
fn test_astar_path_to_target_is_shortest() {
    // The path A* leaves to its target runs from the source along edges whose
    // weights add up to the target's shortest distance.
    let g = diamond();
    let mut d = SsspBuffers::new_inf(6);
    cheeky_dijkstra(&g, 0, &mut d);
    for t in 1..6 {
        let mut buf = SsspBuffers::new_inf(6);
        let mut astar = AStar::new(t, ZeroHeuristic);
        astar.run(&g, 0, &mut buf);
        let path = buf.path_to(t).unwrap();
        assert_eq!(path[0], 0);
        assert_eq!(*path.last().unwrap(), t);
        let mut total: i128 = 0;
        for pair in path.windows(2) {
            let (a, b) = (pair[0], pair[1]);
            let w = g.neighbors(a).iter().filter(|e| e.to == b).map(|e| e.w).min().unwrap();
            total += w as i128;
        }
        assert_eq!(total, d.dist_at(t));
    }
    let mut buf = SsspBuffers::new_inf(6);
    AStar::new(4, ZeroHeuristic).run(&g, 0, &mut buf);
    assert_eq!(buf.path_to(4), Some(vec![0, 2, 5, 4]));
}

#[test]
fn test_dijkstra_to_does_not_scan_past_target() {
    let mut g = AdjListGraph::new(6);
    for u in 0..5 {
        g.add_edge(u, u + 1, 1);
    }
    let mut buf = SsspBuffers::new_inf(6);
    let r = dijkstra_to(&g, 0, 3, &mut buf);
    assert_eq!(buf.dist_at(3), 3);
    assert_eq!(buf.dist_at(4), INF);
    assert!(r.iterations <= 4);
    assert_eq!(r.iterations, 3);
}

#[test]
fn test_astar_leaves_vertices_past_target_unreached() {
    let mut g = AdjListGraph::new(4);
    g.add_edge(0, 1, 1);
    g.add_edge(1, 2, 1);
    g.add_edge(2, 3, 1);
    let mut buf = SsspBuffers::new_inf(4);
    let r = AStar::new(2, ZeroHeuristic).run(&g, 0, &mut buf);
    assert_eq!(distances(&buf), vec![0, 1, 2, INF]);
    assert_eq!(r.iterations, 2);
    assert_eq!(r.vertices_reached, 3);
    assert_eq!(r.total_distance, 3);
}

#[test]
fn test_astar_unreachable_target_exhausts_queue() {
    let g = diamond();
    let mut buf = SsspBuffers::new_inf(6);
    AStar::new(0, ZeroHeuristic).run(&g, 1, &mut buf);
    let mut d = SsspBuffers::new_inf(6);
    cheeky_dijkstra(&g, 1, &mut d);
    assert_eq!(buf.dist_at(0), INF);
    assert_eq!(distances(&buf), distances(&d));
}

#[test]
fn test_bellman_ford_stops_at_first_idle_round() {
    // Rounds 1 and 2 each reach one more vertex; round 3 changes nothing.
    let mut g = AdjListGraph::new(5);
    g.add_edge(0, 1, 1);
    g.add_edge(1, 2, 1);
    let mut buf = SsspBuffers::new_inf(5);
    let r = bellman_ford(&g, 0, &mut buf);
    assert_eq!(r.iterations, 3);
    assert_eq!(distances(&buf), vec![0, 1, 2, INF, INF]);
    assert_eq!(buf.parent_of(3), None);
    assert_eq!(buf.parent_of(0), None);
}

#[test]
fn test_bellman_ford_first_best_proposal_wins() {
    // Vertex 3 is proposed distance 2 from 1 and from 2; the first wins.
    let mut g = AdjListGraph::new(4);
    g.add_edge(0, 1, 1);
    g.add_edge(0, 2, 1);
    g.add_edge(1, 3, 1);
    g.add_edge(2, 3, 1);
    let mut buf = SsspBuffers::new_inf(4);
    bellman_ford(&g, 0, &mut buf);
    assert_eq!(buf.path_to(3), Some(vec![0, 1, 3]));
}

#[test]
fn test_bellman_ford_runs_agree_with_and_without_early_termination() {
    let g = negative_cycle_graph();
    let mut a = SsspBuffers::new_inf(4);
    let mut b = SsspBuffers::new_inf(4);
    let ra = BellmanFord::new().run(&g, 0, &mut a);
    let rb = BellmanFord::with_config(BellmanFordConfig::default().without_early_termination()).run(&g, 0, &mut b);
    assert_eq!(distances(&a), distances(&b));
    assert_eq!(ra.negative_cycle, rb.negative_cycle);
    assert_eq!(ra.iterations, 3);
    assert_eq!(rb.iterations, 3);
}

#[test]
fn test_floyd_warshall_next_hops_of_diagonal_and_unreachable() {
    let g = negative_edge_graph();
    let mut all = ApspBuffers::new(4);
    floyd_warshall(&g, &mut all);
    for i in 0..4 {
        assert_eq!(all.get_next(i, i), i);
    }
    assert_eq!(all.get(3, 0), INF);
    assert_eq!(all.get_next(3, 0), sssp_fast::APSP_NO_PATH);
}

#[test]
fn test_astar_target_outside_graph_runs_to_end() {
    let g = diamond();
    let mut buf = SsspBuffers::new_inf(6);
    AStar::new(10, ZeroHeuristic).run(&g, 0, &mut buf);
    let mut d = SsspBuffers::new_inf(6);
    cheeky_dijkstra(&g, 0, &mut d);
    assert_eq!(distances(&buf), distances(&d));
}

#[test]
fn test_weighted_run_with_identity_weights() {
    let g = diamond();
    let mut buf = SsspBuffers::new_inf(6);
    let r = Dijkstra::new().run_from_weighted(&g, &[0], &mut buf, |w, _m| w);
    let mut d = SsspBuffers::new_inf(6);
    cheeky_dijkstra(&g, 0, &mut d);
    assert_eq!(distances(&buf), distances(&d));
    assert!(r.iterations <= r.vertices_reached);
}

#[test]
fn test_bellman_ford_config_flag() {
    assert!(BellmanFordConfig::default().early_termination_enabled());
    assert!(!BellmanFordConfig::default().without_early_termination().early_termination_enabled());
}
