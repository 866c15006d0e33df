use sssp_fast::{cheeky_dijkstra, dijkstra_to, AdjListGraph, SsspBuffers};

fn dynamic(n: usize) -> SsspBuffers {
    SsspBuffers::new_inf(n)
}

fn linear(n: usize, w: i64) -> AdjListGraph {
    let mut g = AdjListGraph::new(n);
    for u in 0..n - 1 {
        g.add_edge(u, u + 1, w);
    }
    g
}

#[test]
fn test_path_reconstruction() {
    let mut g: AdjListGraph = AdjListGraph::new(3);
    g.add_edge(0, 1, 1);
    g.add_edge(1, 2, 1);
    g.add_edge(0, 2, 1); // shortcut

    let mut buf = dynamic(3);
    cheeky_dijkstra(&g, 0, &mut buf);

    assert_eq!(buf.dist_at(2), 1);
    assert_eq!(buf.path_to(2), Some(vec![0, 2]));
}

#[test]
fn test_early_stop() {
    let g = linear(10, 1);
    let mut buf = dynamic(10);
    let result = dijkstra_to(&g, 0, 3, &mut buf);

    assert_eq!(buf.dist_at(3), 3);
    assert!(result.iterations <= 4);
}

#[test]
fn test_parallel_edges() {
    let mut g: AdjListGraph = AdjListGraph::new(2);
    g.add_edge(0, 1, 5);
    g.add_edge(0, 1, 3);
    g.add_edge(0, 1, 7);

    let mut buf = dynamic(2);
    cheeky_dijkstra(&g, 0, &mut buf);

    assert_eq!(buf.dist_at(1), 3);
}
