//! Structure of a force-directed graph layout: the graph arena with its
//! adjacency lists, the selection of the forces that act on a node, the
//! loading of a graph from records, and the static partition of the nodes
//! among workers.
//!
//! Every item here works on integers and on payloads it never looks into, so
//! the physical quantities (positions, weights, stiffness) travel through the
//! library as type parameters.

pub mod graph;
pub mod load;
pub mod model;
pub mod partition;
pub mod sim;
pub mod table;
