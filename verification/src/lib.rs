//! Routing of traffic demands over a network so that the total delay is small.
//!
//! The graph keeps for every edge a capacity and a cost that follows the flow on the
//! edge; shortest paths are searched with an indexed priority queue; the delay of an
//! edge and its derivatives come from a delay model in fixed-point arithmetic; a ledger
//! records how much of every commodity each edge carries; and the flow-deviation
//! optimiser moves flow between the paths of each commodity towards its shortest path.
//!
//! All amounts are non-negative integers: flows, capacities and demands in a unit of the
//! caller's choice, delays and costs in billionths.

pub mod bag;
pub mod topology;
pub mod graph;
pub mod index_min_pq;
pub mod dijkstra_find_path;
pub mod delay_func_count;
pub mod utils_graph;
pub mod projection_method;
pub mod flow_deviation;
