//! Replication core of a peer-to-peer, content-addressed file synchronisation
//! system: index leaf sets, version vectors, directory contents, the
//! missing-parts tracker and the decision logic of the network layer.

pub mod arena;
pub mod assoc;
pub mod blob;
pub mod block_store;
pub mod directory;
pub mod dispatcher;
pub mod error;
pub mod hash;
pub mod index;
pub mod interface;
pub mod leaf;
pub mod leaf_table;
pub mod network_state;
pub mod node_table;
pub mod peer;
pub mod snapshot;
pub mod idset;
pub mod cache;
pub mod client_table;
pub mod connection;
pub mod tracker_model;
pub mod tracker;
pub mod version_vector;
