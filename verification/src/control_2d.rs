//! The commands that a controller sends to the pawns it owns.

use vstd::prelude::*;
use crate::entity::Entity;

verus! {

/// The controller asks its pawns to fire.
#[derive(Debug, Clone, Copy, PartialEq, Eq, Structural, Hash)]
pub struct Shoot {
    pub controller: Entity,
}

} // verus!
