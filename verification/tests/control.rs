use asteroids::control::{Controller, Pawn, PlayerController, ShipPawn};
use asteroids::entity::Entity;

#[test]
fn a_controller_shows_its_id() {
    let controller = PlayerController { id: 3 };
    assert_eq!(*controller.get_id(), 3);
}

#[test]
fn a_controller_lends_its_id_for_writing() {
    let mut controller = PlayerController { id: 3 };
    *controller.get_mut_id() = 8;
    assert_eq!(controller.id, 8);
    assert_eq!(*controller.get_id(), 8);
}

#[test]
fn a_pawn_remembers_who_steers_it() {
    let pawn = ShipPawn::new(Entity(42));
    assert_eq!(*pawn.get_controller(), Entity(42));
}

#[test]
fn a_pawn_can_change_hands() {
    let mut pawn = ShipPawn::new(Entity(42));
    *pawn.get_mut_controller() = Entity(43);
    assert_eq!(*pawn.get_controller(), Entity(43));
}

#[test]
fn handles_are_equal_exactly_when_their_bits_are() {
    assert_eq!(Entity(5), Entity(5));
    assert_ne!(Entity(5), Entity(6));
    assert_ne!(Entity(0), Entity(u64::MAX));
}
