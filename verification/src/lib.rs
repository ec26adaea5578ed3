//! Analysis of parametrized Boolean networks: the symbolic graph of the
//! synchronous update, its attractors, and the search for the driver sets
//! that force the network into an attractor under a mean-field relaxation.
pub mod bdd;
pub mod decision_tree;
pub mod driver_set;
pub mod encoding;
pub mod ibmfa_computations;
pub mod network;
pub mod symbolic_sync_graph;
pub mod utils;
