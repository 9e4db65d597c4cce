use asteroids::bodies::{Collider, Collision, Member, TimeStamp};
use asteroids::lifecycle::Effect;
use asteroids::control::{Pawn, ShipPawn};
use asteroids::control_2d::Shoot;
use asteroids::entity::Entity;
use asteroids::ship::{collisions_ship, latest_command, shoot, Gunner, SHIP_TEAM};

fn member(entity: u64, team: u32) -> Member {
    Member { entity: Entity(entity), collider: Collider { team } }
}

fn contact(first: u64, second: u64) -> Collision {
    Collision { entity1: Entity(first), entity2: Entity(second) }
}

fn millis(count: u128) -> TimeStamp {
    TimeStamp(count * 1_000_000)
}

fn gunner(controller: u64, last_shot: TimeStamp) -> Gunner {
    Gunner { pawn: ShipPawn::new(Entity(controller)), last_shot }
}

fn shot(controller: u64) -> Shoot {
    Shoot { controller: Entity(controller) }
}

fn stamps(ships: &Vec<Gunner>) -> Vec<TimeStamp> {
    ships.iter().map(|ship| ship.last_shot).collect()
}

#[test]
fn ships_fight_on_team_one() {
    assert_eq!(SHIP_TEAM, 1);
}

#[test]
fn a_ship_that_hits_a_hostile_is_removed_and_the_game_is_over() {
    let ships = vec![member(1, 1)];
    let colliders = vec![member(1, 1), member(2, 0)];
    let effects = collisions_ship(&ships, &colliders, &vec![contact(2, 1)]);
    assert_eq!(effects, vec![Effect::Despawn(Entity(1)), Effect::GameOver]);
}

#[test]
fn a_ship_takes_no_harm_from_its_own_bullets() {
    let ships = vec![member(1, 1)];
    let colliders = vec![member(1, 1), member(5, 1)];
    assert_eq!(collisions_ship(&ships, &colliders, &vec![contact(1, 5)]), Vec::<Effect>::new());
}

#[test]
fn contacts_between_others_leave_the_ship_alone() {
    let ships = vec![member(1, 1)];
    let colliders = vec![member(1, 1), member(5, 1), member(6, 0)];
    assert_eq!(collisions_ship(&ships, &colliders, &vec![contact(5, 6)]), Vec::<Effect>::new());
}

#[test]
fn two_hostile_ships_destroy_each_other() {
    let ships = vec![member(1, 1), member(2, 2)];
    let colliders = vec![member(1, 1), member(2, 2)];
    let effects = collisions_ship(&ships, &colliders, &vec![contact(1, 2)]);
    assert_eq!(
        effects,
        vec![
            Effect::Despawn(Entity(1)),
            Effect::GameOver,
            Effect::Despawn(Entity(2)),
            Effect::GameOver,
        ]
    );
}

#[test]
fn a_ship_that_hits_two_hostiles_is_removed_once() {
    let ships = vec![member(1, 1)];
    let colliders = vec![member(1, 1), member(2, 0), member(3, 0)];
    let effects = collisions_ship(&ships, &colliders, &vec![contact(2, 1), contact(1, 3)]);
    assert_eq!(effects, vec![Effect::Despawn(Entity(1)), Effect::GameOver]);
}

#[test]
fn the_game_is_over_exactly_when_a_ship_is_removed() {
    let ships = vec![member(1, 1)];
    let colliders = vec![member(1, 1), member(2, 0), member(3, 1)];
    for contacts in [
        vec![],
        vec![contact(1, 3)],
        vec![contact(2, 3)],
        vec![contact(1, 2)],
        vec![contact(3, 1), contact(2, 1)],
    ] {
        let effects = collisions_ship(&ships, &colliders, &contacts);
        let over = effects.contains(&Effect::GameOver);
        let removed = effects.iter().any(|effect| matches!(effect, Effect::Despawn(_)));
        assert_eq!(over, removed);
    }
}

#[test]
fn a_cooled_down_weapon_fires_and_starts_cooling_again() {
    let mut ships = vec![gunner(9, millis(0))];
    let now = millis(1_000);
    let bullets = shoot(&mut ships, &vec![shot(9)], now, 300);
    assert_eq!(bullets, vec![0]);
    assert_eq!(stamps(&ships), vec![now]);
}

#[test]
fn a_weapon_that_is_still_hot_does_not_fire() {
    let mut ships = vec![gunner(9, millis(800))];
    let bullets = shoot(&mut ships, &vec![shot(9)], millis(1_000), 300);
    assert_eq!(bullets, Vec::<usize>::new());
    assert_eq!(stamps(&ships), vec![millis(800)]);
}

#[test]
fn the_delay_must_be_exceeded_not_just_reached() {
    let mut ships = vec![gunner(9, millis(700))];
    assert_eq!(shoot(&mut ships, &vec![shot(9)], millis(1_000), 300), Vec::<usize>::new());
    let just_after = TimeStamp(1_000 * 1_000_000 + 1);
    assert_eq!(shoot(&mut ships, &vec![shot(9)], just_after, 300), vec![0]);
    assert_eq!(stamps(&ships), vec![just_after]);
}

#[test]
fn a_ship_fires_once_however_often_it_is_told() {
    let mut ships = vec![gunner(9, millis(0))];
    let bullets = shoot(&mut ships, &vec![shot(9), shot(9), shot(9)], millis(5_000), 300);
    assert_eq!(bullets, vec![0]);
}

#[test]
fn a_ship_fires_once_even_without_any_delay() {
    let mut ships = vec![gunner(9, millis(0))];
    let bullets = shoot(&mut ships, &vec![shot(9), shot(9)], millis(5_000), 0);
    assert_eq!(bullets, vec![0]);
}

#[test]
fn a_ship_ignores_the_commands_of_other_controllers() {
    let mut ships = vec![gunner(9, millis(0))];
    let bullets = shoot(&mut ships, &vec![shot(8), shot(10)], millis(5_000), 300);
    assert_eq!(bullets, Vec::<usize>::new());
    assert_eq!(stamps(&ships), vec![millis(0)]);
}

#[test]
fn the_stamp_of_a_ship_without_command_is_never_read() {
    let later = millis(9_000);
    let mut ships = vec![gunner(9, millis(0)), gunner(8, later)];
    let now = millis(5_000);
    let bullets = shoot(&mut ships, &vec![shot(9)], now, 300);
    assert_eq!(bullets, vec![0]);
    assert_eq!(stamps(&ships), vec![now, later]);
}

#[test]
fn no_command_no_shot() {
    let mut ships = vec![gunner(9, millis(0))];
    assert_eq!(shoot(&mut ships, &Vec::new(), millis(5_000), 300), Vec::<usize>::new());
    assert_eq!(stamps(&ships), vec![millis(0)]);
}

#[test]
fn bullets_are_created_command_by_command() {
    let mut ships = vec![gunner(1, millis(0)), gunner(2, millis(0)), gunner(1, millis(0))];
    let now = millis(5_000);
    let bullets = shoot(&mut ships, &vec![shot(2), shot(1), shot(2)], now, 300);
    assert_eq!(bullets, vec![1, 0, 2]);
    assert_eq!(stamps(&ships), vec![now, now, now]);
}

#[test]
fn only_the_ready_ships_of_a_controller_fire() {
    let mut ships = vec![gunner(1, millis(4_900)), gunner(1, millis(0)), gunner(2, millis(0))];
    let now = millis(5_000);
    let bullets = shoot(&mut ships, &vec![shot(1)], now, 300);
    assert_eq!(bullets, vec![1]);
    assert_eq!(stamps(&ships), vec![millis(4_900), now, millis(0)]);
}

#[test]
fn the_last_command_of_the_own_controller_stands() {
    let pawn = ShipPawn::new(Entity(4));
    let commands = vec![Entity(4), Entity(5), Entity(4), Entity(6)];
    assert_eq!(latest_command(&pawn, &commands), Some(2));
}

#[test]
fn a_pawn_without_commands_keeps_its_course() {
    let pawn = ShipPawn::new(Entity(4));
    assert_eq!(latest_command(&pawn, &vec![Entity(5), Entity(6)]), None);
    assert_eq!(latest_command(&pawn, &Vec::new()), None);
}

#[test]
fn a_single_command_is_also_the_last() {
    let pawn = ShipPawn::new(Entity(4));
    assert_eq!(latest_command(&pawn, &vec![Entity(4)]), Some(0));
    assert_eq!(latest_command(&pawn, &vec![Entity(4), Entity(5)]), Some(0));
}
