//! Epigenetic manifold engine state: the hidden width and the number of
//! nullspace projection updates applied.

use vstd::prelude::*;

verus! {

/// Manifold engine state: the hidden width and the number of updates applied.
pub struct EpigeneticManifoldEngine {
    pub hidden_dim: usize,
    pub update_counter: usize,
}

impl EpigeneticManifoldEngine {
    pub fn new(hidden_dim: usize) -> (r: Self)
        ensures
            r.hidden_dim == hidden_dim,
            r.update_counter == 0,
    {
        EpigeneticManifoldEngine { hidden_dim, update_counter: 0 }
    }

    /// Counts one more projection update.
    pub fn record_update(&mut self)
        requires
            old(self).update_counter < usize::MAX,
        ensures
            final(self).update_counter == old(self).update_counter + 1,
            final(self).hidden_dim == old(self).hidden_dim,
    {
        self.update_counter = self.update_counter + 1;
    }
}

} // verus!
