# sssp_fast

Shortest paths and spanning-tree buffers on weighted directed graphs, with
every algorithm's contract proved by Verus.

- `graph`: the `Graph` trait and `AdjListGraph`, an adjacency list of
  `Edge { to, w, meta }` with `i64` weights.
- `dijkstra`, `astar`, `bellman_ford`, `floyd_warshall`: the algorithms, run
  into caller-owned buffers and reporting through an optional observer.
- `buffers`, `apsp`, `mst`: per-vertex and all-pairs buffers; the per-vertex
  vectors are nalgebra `DVector`s.
- `heap`: the binary min-heap of `(distance, vertex)` entries used by Dijkstra
  and A*.
- `walks`, `simple_walks`: the mathematical model (walks, their lengths,
  shortest distances, negative cycles) in which the contracts are stated.
- `fw_routes`: the proof that the successor matrix Floyd-Warshall leaves
  routes every finite pair along edges to its end.
- `laws`: properties that relate several functions, such as Dijkstra and
  Bellman-Ford agreeing on graphs without negative edges.

Distances are `i128` and `INF` (`i128::MAX`) marks an unreached vertex, so a
walk of fewer than 2^64 edges never overflows.

`app/` holds `FnHeuristic`, an A* heuristic given as a function pointer,
which the verifier cannot represent.
