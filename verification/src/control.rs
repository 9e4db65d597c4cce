//! Who steers what: controllers, and the pawns they own.

use vstd::prelude::*;
use crate::entity::Entity;

verus! {

/// Something that issues commands under a numeric identity.
pub trait Controller {
    /// The identity, as contracts speak of it.
    spec fn id(&self) -> u32;

    /// Reads the identity.
    fn get_id(&self) -> (id: &u32)
        ensures
            *id == self.id(),
    ;

    /// Lends the identity out for writing; what the borrower leaves there is
    /// the identity afterwards.
    fn get_mut_id(&mut self) -> (id: &mut u32)
        ensures
            *id == old(self).id(),
            final(self).id() == *final(id),
    ;
}

/// The controller of a human player.
#[derive(Debug, Clone, Copy)]
pub struct PlayerController {
    pub id: u32,
}

impl Controller for PlayerController {
    open spec fn id(&self) -> u32 {
        self.id
    }

    fn get_id(&self) -> (id: &u32) {
        &self.id
    }

    fn get_mut_id(&mut self) -> (id: &mut u32) {
        &mut self.id
    }
}

/// Something that is steered by a controller entity.
pub trait Pawn: Sized {
    /// The entity that steers this pawn, as contracts speak of it.
    spec fn controller(&self) -> Entity;

    /// A pawn steered by `controller`.
    fn new(controller: Entity) -> (pawn: Self)
        ensures
            pawn.controller() == controller,
    ;

    /// Reads the entity that steers this pawn.
    fn get_controller(&self) -> (controller: &Entity)
        ensures
            *controller == self.controller(),
    ;

    /// Lends the steering entity out for writing; what the borrower leaves
    /// there steers the pawn afterwards.
    fn get_mut_controller(&mut self) -> (controller: &mut Entity)
        ensures
            *controller == old(self).controller(),
            final(self).controller() == *final(controller),
    ;
}

/// The pawn of a ship.
#[derive(Debug, Clone, Copy)]
pub struct ShipPawn {
    controller: Entity,
}

impl Pawn for ShipPawn {
    closed spec fn controller(&self) -> Entity {
        self.controller
    }

    fn new(controller: Entity) -> (pawn: Self) {
        Self { controller }
    }

    fn get_controller(&self) -> (controller: &Entity) {
        &self.controller
    }

    fn get_mut_controller(&mut self) -> (controller: &mut Entity) {
        &mut self.controller
    }
}

} // verus!
