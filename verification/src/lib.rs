//! A small in-process graph container.
//!
//! Nodes and edges carry caller-chosen payloads and are addressed by opaque
//! handles drawn from one shared, strictly increasing counter. Every
//! operation is specified against [`GraphModel`], a mathematical description
//! of the container's contents, and verified to match it.

mod counting;
pub mod cursor;
pub mod graph;
pub mod ids;
pub mod laws;
pub mod model;
mod store;

pub use cursor::{Neighbors, NeighborsData, NeighborsDataIter, NeighborsIter};
pub use graph::Graph;
pub use ids::{Edge, EdgeId, NodeId};
pub use model::{GraphModel, Link, Op};
