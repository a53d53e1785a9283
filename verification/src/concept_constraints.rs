//! Box constraints over 6D concept coordinates, used to restrict which tokens a
//! decoder may emit.

use crate::cuneiform::{token_id_to_concept, Concept6D};
use vstd::prelude::*;

verus! {

/// Why a constraint could not be built.
#[derive(Debug, Clone, Copy, PartialEq, Eq, Structural)]
pub enum ConstraintError {
    /// On axis `axis` the lower bound `lo` exceeds the upper bound `hi`.
    InvertedAxis { axis: usize, lo: u8, hi: u8 },
    /// A mask needs at least one allowed box.
    NoBounds,
}

/// An axis-aligned box of concepts, bounds included.
#[derive(Debug, Clone, Copy, PartialEq, Eq)]
pub struct ConceptBounds6D {
    pub min: Concept6D,
    pub max: Concept6D,
}

/// First axis on which `lo` exceeds `hi`, if any.
pub open spec fn first_inverted_axis(lo: Seq<u8>, hi: Seq<u8>, from: int) -> Option<int>
    decreases 6 - from,
{
    if from >= 6 || from < 0 {
        None
    } else if lo[from] > hi[from] {
        Some(from)
    } else {
        first_inverted_axis(lo, hi, from + 1)
    }
}

/// `c` lies inside the box from `min` to `max` on every axis.
pub open spec fn in_box(min: Concept6D, max: Concept6D, c: Concept6D) -> bool {
    forall|i: int| 0 <= i < 6 ==> min.axes_spec()[i] <= #[trigger] c.axes_spec()[i] <= max.axes_spec()[i]
}

impl ConceptBounds6D {
    /// The box from `min` to `max`; refused at the first axis whose bounds are
    /// inverted.
    pub fn new(min: Concept6D, max: Concept6D) -> (r: Result<Self, ConstraintError>)
        ensures
            match first_inverted_axis(min.axes_spec(), max.axes_spec(), 0) {
                Some(a) => r == Err::<Self, ConstraintError>(
                    ConstraintError::InvertedAxis {
                        axis: a as usize,
                        lo: min.axes_spec()[a],
                        hi: max.axes_spec()[a],
                    },
                ),
                None => r == Ok::<Self, ConstraintError>(ConceptBounds6D { min, max }),
            },
    {
        let lo = min.axes();
        let hi = max.axes();
        let mut axis: usize = 0;
        while axis < 6
            invariant
                axis <= 6,
                lo@ == min.axes_spec(),
                hi@ == max.axes_spec(),
                first_inverted_axis(lo@, hi@, 0) == first_inverted_axis(lo@, hi@, axis as int),
            decreases 6 - axis,
        {
            if lo[axis] > hi[axis] {
                return Err(ConstraintError::InvertedAxis { axis, lo: lo[axis], hi: hi[axis] });
            }
            axis += 1;
        }
        Ok(ConceptBounds6D { min, max })
    }

    /// Whether `concept` lies inside the box.
    pub fn contains(self, concept: Concept6D) -> (r: bool)
        ensures
            r == in_box(self.min, self.max, concept),
    {
        let v = concept.axes();
        let lo = self.min.axes();
        let hi = self.max.axes();
        let mut i: usize = 0;
        while i < 6
            invariant
                i <= 6,
                v@ == concept.axes_spec(),
                lo@ == self.min.axes_spec(),
                hi@ == self.max.axes_spec(),
                forall|k: int| 0 <= k < i ==> lo@[k] <= #[trigger] v@[k] <= hi@[k],
            decreases 6 - i,
        {
            if v[i] < lo[i] || v[i] > hi[i] {
                return false;
            }
            i += 1;
        }
        true
    }
}

/// A union of concept boxes.
#[derive(Debug, Clone, PartialEq, Eq)]
pub struct ConceptConstraintMask {
    bounds: Vec<ConceptBounds6D>,
}

impl ConceptConstraintMask {
    /// The boxes whose union is allowed.
    pub closed spec fn boxes(&self) -> Seq<ConceptBounds6D> {
        self.bounds@
    }

    /// Some box of the mask holds `c`.
    pub open spec fn allows(&self, c: Concept6D) -> bool {
        exists|i: int| 0 <= i < self.boxes().len() && in_box(self.boxes()[i].min, self.boxes()[i].max, c)
    }

    /// A mask over `bounds`; refused when there is none.
    pub fn new(bounds: Vec<ConceptBounds6D>) -> (r: Result<Self, ConstraintError>)
        ensures
            bounds@.len() == 0 ==> r == Err::<Self, ConstraintError>(ConstraintError::NoBounds),
            bounds@.len() > 0 ==> (r matches Ok(m) && m.boxes() == bounds@),
    {
        if bounds.len() == 0 {
            return Err(ConstraintError::NoBounds);
        }
        Ok(ConceptConstraintMask { bounds })
    }

    /// A mask of one box.
    pub fn single(bounds: ConceptBounds6D) -> (r: Self)
        ensures
            r.boxes() == seq![bounds],
    {
        let mut v: Vec<ConceptBounds6D> = Vec::new();
        v.push(bounds);
        assert(v@ =~= seq![bounds]);
        ConceptConstraintMask { bounds: v }
    }

    /// Whether some box holds `concept`.
    pub fn allows_concept(&self, concept: Concept6D) -> (r: bool)
        ensures
            r == self.allows(concept),
    {
        let mut i: usize = 0;
        while i < self.bounds.len()
            invariant
                i <= self.bounds@.len(),
                forall|k: int| 0 <= k < i ==> !in_box(#[trigger] self.bounds@[k].min, self.bounds@[k].max, concept),
            decreases self.bounds@.len() - i,
        {
            if self.bounds[i].contains(concept) {
                assert(in_box(self.boxes()[i as int].min, self.boxes()[i as int].max, concept));
                return true;
            }
            i += 1;
        }
        false
    }

    /// Whether the concept that `token_id` hashes to is allowed.
    pub fn allows_token(&self, token_id: usize) -> (r: bool)
        ensures
            r == self.allows(crate::cuneiform::token_concept_spec(token_id)),
    {
        self.allows_concept(token_id_to_concept(token_id))
    }

    /// For each of the first `vocab_size` token ids, whether it is allowed; the
    /// number allowed comes second.
    pub fn token_mask(&self, vocab_size: usize) -> (r: (Vec<bool>, usize))
        ensures
            r.0@.len() == vocab_size,
            forall|t: int| 0 <= t < vocab_size ==> #[trigger] r.0@[t] == self.allows(crate::cuneiform::token_concept_spec(t as usize)),
            r.1 as int == r.0@.filter(|b: bool| b).len(),
    {
        let mut mask: Vec<bool> = Vec::new();
        let mut allowed: usize = 0;
        let mut t: usize = 0;
        while t < vocab_size
            invariant
                t <= vocab_size,
                mask@.len() == t,
                allowed <= t,
                forall|k: int| 0 <= k < t ==> #[trigger] mask@[k] == self.allows(crate::cuneiform::token_concept_spec(k as usize)),
                allowed as int == mask@.filter(|b: bool| b).len(),
            decreases vocab_size - t,
        {
            let ok = self.allows_token(t);
            let ghost before = mask@;
            mask.push(ok);
            proof {
                assert(before.push(ok).drop_last() =~= before);
                assert(mask@ == before.push(ok));
                reveal(Seq::filter);
            }
            if ok {
                allowed += 1;
            }
            t += 1;
        }
        (mask, allowed)
    }
}

} // verus!
