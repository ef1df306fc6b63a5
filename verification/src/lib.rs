//! Cluster statistics and induced edge sets over static graphs.
//!
//! A [`graph::Graph`] is an immutable graph with dense node ids, ascending
//! neighbour lists and a numbering of its edges. Clusters are sets of its
//! nodes, kept in compressed bitmaps of the `roaring` crate. For a cluster
//! the library counts the nodes, the edges inside, the edges that leave it,
//! the least number of neighbours that a member has inside, and the volume
//! ([`stats`]); it maps a node set to the ids of the edges that it induces
//! ([`edges`]); it applies the policies for clusters of fewer than two
//! nodes ([`singleton`]); it translates external node ids ([`codec`]); and
//! it keeps the labels of the connected components once they are computed
//! ([`components`]).
//!
//! What the functions return is stated over [`model::GraphModel`], the
//! graph as a mathematical value, and over mathematical sets of ids.
//! [`laws`] and [`counting`] prove what holds of these for every graph and
//! every cluster. The contracts of the `roaring` functions in [`bitmap`]
//! and [`treemap`] are taken on trust.

pub mod bitmap;
pub mod cluster;
pub mod codec;
pub mod components;
pub mod counting;
pub mod edges;
pub mod error;
pub mod graph;
pub mod ingest;
pub mod laws;
pub mod lookup;
pub mod model;
pub mod nodes;
pub mod populate;
pub mod quality;
pub mod sets;
pub mod singleton;
pub mod stats;
pub mod treemap;
