//! Graph algorithms over vertices numbered from 0.

pub mod csr;

use vstd::prelude::*;

pub use csr::Csr;
pub use csr::Edge;

verus! {

/// A position in a depth-first visit order.
#[derive(Debug, Clone, Copy, PartialEq, Eq, Structural, PartialOrd, Ord)]
pub struct DfsIndex(pub usize);

} // verus!
