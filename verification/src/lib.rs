//! Analytics over an undirected social graph: a symmetric adjacency store,
//! bounded-depth reachability, uniform vertex sampling, extended-degree and
//! component-membership computation, and the aggregation that turns
//! per-vertex traversal counts into ranked, depth-indexed summaries.
pub mod analysis;
pub mod batch;
pub mod graph;
pub mod sampler;
pub mod stats;
pub mod strings;
