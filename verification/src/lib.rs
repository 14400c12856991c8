//! Merging of parsed document object graphs: identifier renumbering,
//! structural classification, catalog and page-tree reconciliation,
//! page re-parenting, and outline construction.

use vstd::prelude::*;

pub mod graph;
pub mod laws;
pub mod merge;
pub mod object;
pub mod outline;
pub mod relabel;
pub mod walk;

verus! {

pub use crate::graph::Graph;
pub use crate::merge::MergeError;
pub use crate::merge::merge;
pub use crate::object::Object;
pub use crate::object::ObjectId;

} // verus!
