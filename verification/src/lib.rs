//! Maximum flow in directed capacitated networks.
//!
//! A dense-matrix graph holds a capacity and a current flow for every
//! directed edge slot.  A unified traversal engine walks the graph in
//! breadth-first or depth-first order under an edge-admissibility
//! predicate, and the Ford-Fulkerson loop on top of it repeatedly pushes
//! flow along augmenting paths until none remains.

pub mod cuts;
pub mod flow;
pub mod graph;
pub mod maxflow;
pub mod parse;
pub mod search;
pub mod sums;

pub use flow::create_residual_edges;
pub use flow::Edge;
pub use flow::FlowEdge;
pub use flow::Graph;
pub use flow::Property;
pub use flow::Search;
pub use flow::Triplet;
pub use flow::VertexId;
pub use flow::BFS;
pub use flow::DFS;
pub use maxflow::FlowGraph;
pub use parse::flow_network_from_dicaps;
pub use parse::flow_network_from_txt;
pub use parse::parse_dicaps;
pub use parse::parse_txt;
pub use search::path_from_visited;
pub use search::GraphIterator;
