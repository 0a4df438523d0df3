//! An in-memory container for directed acyclic graphs.
//!
//! The container stores nodes and directed edges, each carrying an opaque
//! payload, and guarantees after every operation that the edge relation has
//! no cycle. Edges are held in a forward index (source to targets with
//! payloads) and a derived backward index (target to sources), kept in
//! lock-step so that both children and parents can be enumerated.

mod dag;
mod error;
mod iters;
mod keyseq;
mod laws;
mod paths;

pub use dag::Dag;
pub use error::DagError;
pub use iters::ChildrenIter;
pub use iters::EdgesIter;
pub use iters::ParentsIter;
pub use iters::pair_lt;
pub use keyseq::strictly_sorted;
pub use laws::lemma_acyclicity;
pub use laws::lemma_edge_endpoints;
pub use laws::lemma_mirror_consistency;
pub use laws::lemma_sorted_distinct_unique;
pub use paths::add_edge;
pub use paths::connected;
pub use paths::edge_in;
pub use paths::has_cycle;
pub use paths::is_path;
