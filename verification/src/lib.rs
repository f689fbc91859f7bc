//! Recursive directed hyper-multigraphs.
//!
//! A [`Hypergraph`] stores nodes, hyperedges, links and nested hypergraphs.
//! Every element is addressed by a path: the local ids of the nested
//! hypergraphs that lead to it, followed by its own local id. Hyperedges are
//! first-class elements; links are the simple edges that tie a hyperedge to
//! the elements it connects.
//!
//! Every operation carries a contract over a flat mathematical model of the
//! structure, a map from paths to records, and every operation that changes
//! a root is proved to keep the structural rules stated in [`model`]. What
//! follows from the rules for each element is stated in [`laws`].

pub mod direction;
pub mod elements;
pub mod embedding;
pub mod errors;
pub mod growth;
pub mod hypergraph;
pub mod laws;
pub mod model;
pub mod order;
pub mod path;
pub mod removal;
pub mod slots;
pub mod traits;
pub mod walkers;

pub use direction::Direction;
pub use hypergraph::get::HypergraphEnum;
pub use hypergraph::Hypergraph;
pub use traits::Main;
pub use traits::Sub;
