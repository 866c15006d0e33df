use sssp_fast::{dijkstra, relax_cond, AdjListGraph, Graph, RelaxResult, SsspBuffers, INF, NO_VERTEX};

#[derive(Clone, Copy, Debug, PartialEq)]
struct Cap {
    capacity: u32,
}

#[test]
fn test_dijkstra_ignore_meta() {
    let edges = [(0, 1, 1), (1, 2, 1), (0, 2, 3), (1, 3, 2), (2, 3, 1)];

    let mut meta_g: AdjListGraph<Cap> = AdjListGraph::new(4);
    for (u, v, w) in edges {
        meta_g.add_edge_with(u, v, w, Cap { capacity: 10 });
    }

    let mut plain_g: AdjListGraph = AdjListGraph::new(4);
    for (u, v, w) in edges {
        plain_g.add_edge(u, v, w);
    }

    let mut meta_buf = SsspBuffers::new_inf(4);
    let mut plain_buf = SsspBuffers::new_inf(4);

    dijkstra(&meta_g, 0, &mut meta_buf);
    dijkstra(&plain_g, 0, &mut plain_buf);

    for v in 0..4 {
        assert_eq!(meta_buf.dist_at(v), plain_buf.dist_at(v));
        assert_eq!(meta_buf.parent_at(v), plain_buf.parent_at(v));
    }
}

#[test]
fn test_relax_cond() {
    let mut dist = vec![0, INF];
    let mut parent = vec![NO_VERTEX, NO_VERTEX];

    // Gate=false blocks relaxation.
    let r = relax_cond(&mut dist, &mut parent, 0, 0, 1, 5, || false);
    assert!(matches!(r, RelaxResult::NoChange));
    assert_eq!(dist[1], INF);

    // Gate=true allows it.
    relax_cond(&mut dist, &mut parent, 0, 0, 1, 5, || true);
    assert_eq!(dist[1], 5);
    assert_eq!(parent[1], 0);

    // Gate is skipped when dist wouldn't improve anyway.
    let mut called = false;
    relax_cond(&mut dist, &mut parent, 0, 0, 1, 99, || {
        called = true;
        true
    });
    assert!(!called);
}

#[test]
fn test_meta_gated_routing() {
    // Direct edge 0->1 is blocked (cap=0); shortest route is 0->2->1 at cost 4.
    let mut g: AdjListGraph<Cap> = AdjListGraph::new(3);
    g.add_edge_with(0, 1, 1, Cap { capacity: 0 });
    g.add_edge_with(0, 2, 3, Cap { capacity: 10 });
    g.add_edge_with(2, 1, 1, Cap { capacity: 10 });

    let mut dist = vec![INF; 3];
    let mut parent = vec![NO_VERTEX; 3];
    dist[0] = 0;

    g.for_each_out_edge(0, |v, w, meta| {
        relax_cond(&mut dist, &mut parent, 0, 0, v, w, || meta.capacity > 0);
    });
    assert_eq!(dist[1], INF);
    assert_eq!(dist[2], 3);

    let d2 = dist[2];
    g.for_each_out_edge(2, |v, w, meta| {
        relax_cond(&mut dist, &mut parent, 2, d2, v, w, || meta.capacity > 0);
    });
    assert_eq!(dist[1], 4);
    assert_eq!(parent[1], 2);
}
