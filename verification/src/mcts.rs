//! Concept lookup used by the concept-guided tree search.

use crate::cuneiform::{token_concept_spec, token_id_to_concept, Concept6D};
use vstd::prelude::*;

verus! {

/// The concept a token id stands for in the search.
pub fn token_to_concept(token_id: usize) -> (r: Concept6D)
    ensures
        r == token_concept_spec(token_id),
{
    token_id_to_concept(token_id)
}

} // verus!
