use asteroids::bodies::{Collider, Collision, Member, TimeStamp};
use asteroids::lifecycle::Effect;
use asteroids::bullet::{collisions_bullets, destroy_bullets, Flight, BULLET_TEAM};
use asteroids::entity::Entity;

fn member(entity: u64, team: u32) -> Member {
    Member { entity: Entity(entity), collider: Collider { team } }
}

fn contact(first: u64, second: u64) -> Collision {
    Collision { entity1: Entity(first), entity2: Entity(second) }
}

fn flight(entity: u64, spawned_at_millis: u128) -> Flight {
    Flight { entity: Entity(entity), spawn_time: TimeStamp(spawned_at_millis * 1_000_000) }
}

#[test]
fn bullets_fight_on_team_one() {
    assert_eq!(BULLET_TEAM, 1);
}

#[test]
fn a_bullet_past_its_lifetime_is_removed() {
    let bullets = vec![flight(1, 0), flight(2, 900), flight(3, 100)];
    let effects = destroy_bullets(&bullets, TimeStamp(1_500 * 1_000_000), 1_000);
    assert_eq!(effects, vec![Effect::Despawn(Entity(1)), Effect::Despawn(Entity(3))]);
}

#[test]
fn a_bullet_exactly_at_its_lifetime_flies_on() {
    let bullets = vec![flight(1, 500)];
    let at = destroy_bullets(&bullets, TimeStamp(1_500 * 1_000_000), 1_000);
    let after = destroy_bullets(&bullets, TimeStamp(1_500 * 1_000_000 + 1), 1_000);
    assert_eq!(at, Vec::<Effect>::new());
    assert_eq!(after, vec![Effect::Despawn(Entity(1))]);
}

#[test]
fn a_bullet_fired_this_instant_flies_on() {
    let now = TimeStamp(42);
    let bullets = vec![Flight { entity: Entity(1), spawn_time: now }];
    assert_eq!(destroy_bullets(&bullets, now, 0), Vec::<Effect>::new());
}

#[test]
fn no_bullets_nothing_to_remove() {
    assert_eq!(destroy_bullets(&Vec::new(), TimeStamp(1), 1), Vec::<Effect>::new());
}

#[test]
fn a_bullet_that_hits_a_hostile_is_removed_and_nothing_else_happens() {
    let bullets = vec![member(5, 1)];
    let colliders = vec![member(5, 1), member(6, 0)];
    let effects = collisions_bullets(&bullets, &colliders, &vec![contact(5, 6)]);
    assert_eq!(effects, vec![Effect::Despawn(Entity(5))]);
}

#[test]
fn the_bullet_may_be_on_either_side_of_the_contact() {
    let bullets = vec![member(5, 1)];
    let colliders = vec![member(5, 1), member(6, 0)];
    let effects = collisions_bullets(&bullets, &colliders, &vec![contact(6, 5)]);
    assert_eq!(effects, vec![Effect::Despawn(Entity(5))]);
}

#[test]
fn a_bullet_passes_through_its_own_team() {
    let bullets = vec![member(5, 1), member(6, 1)];
    let colliders = vec![member(5, 1), member(6, 1), member(7, 1)];
    let contacts = vec![contact(5, 6), contact(7, 5), contact(6, 7)];
    assert_eq!(collisions_bullets(&bullets, &colliders, &contacts), Vec::<Effect>::new());
}

#[test]
fn two_hostile_bullets_destroy_each_other() {
    let bullets = vec![member(5, 1), member(6, 2)];
    let colliders = vec![member(5, 1), member(6, 2)];
    let effects = collisions_bullets(&bullets, &colliders, &vec![contact(5, 6)]);
    assert_eq!(effects, vec![Effect::Despawn(Entity(5)), Effect::Despawn(Entity(6))]);
}

#[test]
fn a_bullet_that_hits_two_hostiles_is_removed_once() {
    let bullets = vec![member(5, 1)];
    let colliders = vec![member(5, 1), member(1, 0), member(2, 0)];
    let effects = collisions_bullets(&bullets, &colliders, &vec![contact(5, 1), contact(2, 5)]);
    assert_eq!(effects, vec![Effect::Despawn(Entity(5))]);
}

#[test]
fn a_bullet_ignores_what_has_no_collider() {
    let bullets = vec![member(5, 1)];
    let colliders = vec![member(5, 1)];
    assert_eq!(collisions_bullets(&bullets, &colliders, &vec![contact(5, 6)]), Vec::<Effect>::new());
}

#[test]
fn contacts_between_others_leave_the_bullets_alone() {
    let bullets = vec![member(5, 1)];
    let colliders = vec![member(5, 1), member(6, 0), member(7, 1)];
    assert_eq!(collisions_bullets(&bullets, &colliders, &vec![contact(6, 7)]), Vec::<Effect>::new());
}

#[test]
fn every_bullet_that_hits_is_removed_in_the_order_of_the_contacts() {
    let bullets = vec![member(5, 1), member(6, 1), member(7, 1)];
    let colliders = vec![member(5, 1), member(6, 1), member(7, 1), member(1, 0), member(2, 0)];
    let contacts = vec![contact(1, 7), contact(5, 6), contact(5, 2)];
    let effects = collisions_bullets(&bullets, &colliders, &contacts);
    assert_eq!(effects, vec![Effect::Despawn(Entity(7)), Effect::Despawn(Entity(5))]);
}
