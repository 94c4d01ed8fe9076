//! Tropical optimization: the solver's configuration.
use vstd::prelude::*;

verus! {

/// A tropical optimization solver for problems of a given dimension.
#[derive(Debug, Clone, Copy)]
pub struct TropicalOptimizer {
    /// Problem dimension.
    pub dim: usize,
}

impl TropicalOptimizer {
    /// A solver for problems of dimension `dim`.
    pub fn new(dim: usize) -> (r: Self)
        ensures
            r.dim == dim,
    {
        TropicalOptimizer { dim }
    }
}

} // verus!
