//! Handles by which the caller's entity store names its entities.

use vstd::prelude::*;

verus! {

/// An opaque, stable handle. Two handles name the same entity exactly when
/// their bits are equal; the rules never look inside.
#[derive(Debug, Clone, Copy, PartialEq, Eq, Structural, Hash)]
pub struct Entity(pub u64);

} // verus!
