//! A small-world property-graph index.
//!
//! A [`GraphSource`] hands out typed nodes and edges. From it a [`Graph`] is built, which
//! [`leiden`] divides into clusters and [`RegionGraph`] into regions of clusters. A
//! [`HubSet`] marks the pivotal nodes, and a [`HubGraph`] links them. All of this is laid
//! out as an index for a key-value store ([`layout`]), which can be queried ([`query`])
//! and grown node by node ([`insert`]). What is stored stays consistent
//! ([`consistency`]).
//!
//! Graphs are read from GML documents ([`gml`]), from edge lists ([`edgelist`]) and from
//! SQL schema dumps ([`sql_dump`]).
//!
//! The library computes with whole numbers only, and does no input or output of its own.
use vstd::prelude::*;

pub mod adjacency;
pub mod betweenness;
pub mod bfs;
pub mod built;
pub mod bytes;
pub mod codec;
pub mod cohesion;
pub mod community;
pub mod components;
pub mod consistency;
pub mod corridor;
pub mod distinct;
pub mod documents;
pub mod edgelist;
pub mod gains;
pub mod gml;
pub mod graph;
pub mod hub;
pub mod hub_graph;
pub mod id;
pub mod index;
pub mod insert;
pub mod labels;
pub mod layout;
pub mod listing;
pub mod maintenance;
pub mod modularity;
pub mod moving;
pub mod neighbors;
pub mod node;
pub mod partition;
pub mod progress;
pub mod quality;
pub mod query;
pub mod readings;
pub mod region;
pub mod sort;
pub mod source;
pub mod sql_dump;
pub mod statements;
pub mod sums;
pub mod tally;
pub mod text;
pub mod weighted;

pub use codec::SwIndexError;
pub use community::{
    cluster_adjacency, leiden, leiden_seeded, louvain, louvain_seeded, regions_from_clusters,
};
pub use corridor::{bfs_distance, cluster_corridor, evaluate_corridor, CorridorReport};
pub use edgelist::{EdgeListError, EdgeListSource};
pub use gml::{GmlError, GmlSource};
pub use graph::{Graph, GraphError};
pub use hub::{Fraction, HubSet};
pub use hub_graph::HubGraph;
pub use id::Uuid7;
pub use index::{BuildStats, QueryKind, QueryResult, QueryStats, SwStats};
pub use maintenance::{
    ClusterDrift, DriftReport, MaintenanceAction, MaintenancePolicy, MaintenanceReport,
    NeverRebalance,
};
pub use modularity::modularity;
pub use node::{Edge, EdgeId, EdgeKind, Node, NodeId, NodeKind};
pub use partition::Partition;
pub use region::RegionGraph;
pub use source::{GraphSource, SliceSource};
pub use sql_dump::{SqlDumpError, SqlDumpSource};

verus! {

/// The version of this library.
pub fn version() -> (v: &'static str)
    ensures
        v@ == "0.1.0"@,
{
    "0.1.0"
}

} // verus!
