//! Whole-position helpers for the learned evaluators.
use crate::game::rules::Variant;
use vstd::prelude::*;

verus! {

/// Whether a position is of the 5T variant (the campaign variant).
pub fn is_t5(variant: Variant) -> (r: bool)
    ensures
        r == (variant == Variant::T5),
{
    variant == Variant::T5
}

} // verus!
