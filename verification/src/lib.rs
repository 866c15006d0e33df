//! Single-source, all-pairs and spanning-tree algorithms on weighted directed
//! graphs with integer weights, with their contracts proved by Verus.
//!
//! Weights are `i64`; distances are `i128`, so that a walk of fewer than 2^64
//! edges never overflows, and `INF` (`i128::MAX`) marks an unreached vertex.
pub mod apsp;
pub mod astar;
pub mod bellman_ford;
pub mod buffers;
pub mod common;
pub mod dijkstra;
pub mod floyd_warshall;
pub mod fw_routes;
pub mod graph;
pub mod heap;
pub mod laws;
pub mod mst;
pub mod relaxation;
pub mod simple_walks;
pub mod vector;
pub mod walks;

pub use apsp::{ApspBuffers, APSP_NO_PATH};
pub use bellman_ford::{bellman_ford, bellman_ford_multi, BellmanFord, BellmanFordConfig};
pub use buffers::SsspBuffers;
pub use common::{
    init_mst, init_sssp, finalize_mst, finalize_sssp, ApspAlgorithm, ApspAlgorithmInfo, ApspResult, Event, HasSsspConfig, MstAlgorithm, MstAlgorithmInfo, MstResult,
    SsspAlgorithm, SsspAlgorithmInfo, SsspConfig, SsspResult,
};
pub use astar::{AStar, AStarConfig, Heuristic, ZeroHeuristic};
pub use dijkstra::{cheeky_dijkstra, dijkstra, dijkstra_multi, dijkstra_to, Dijkstra, DijkstraConfig};
pub use floyd_warshall::{floyd_warshall, FloydWarshall, FloydWarshallConfig};
pub use graph::{AdjListGraph, Edge, Graph, NO_VERTEX};
pub use heap::{BinaryHeap, HeapEntry};
pub use mst::{MstBuffers, MstEdge};
pub use relaxation::{relax, relax_cond, relax_with, RelaxResult};
pub use walks::INF;
