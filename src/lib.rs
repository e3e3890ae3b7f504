use vstd::prelude::*;

mod graph;
pub use crate::graph::{Graph, Node, Op};

verus! {

/// Sum of two sizes; the caller guarantees that it fits in `usize`.
pub fn add(left: usize, right: usize) -> (r: usize)
    requires
        left + right <= usize::MAX,
    ensures
        r == left + right,
{
    left + right
}

} // verus!
