use asteroids::asteroid::{
    choose_variant, destroy_asteroids, find_asteroid, AsteroidBody, ASTEROID_TEAM,
    FRAGMENT_OFFSET, SPAWN_INTERVAL, SPLIT_SCALE,
};
use asteroids::mesh::{create_astroid_mesh, neighbours, ring_triangles};
use asteroids::bodies::{Collider, Collision, Member};
use asteroids::lifecycle::Effect;
use asteroids::entity::Entity;
use asteroids::spawner::{SpawnGenerator, WORLD_SEED};
use bevy_turborand::RngComponent;

fn rock(entity: u64, team: u32, splits: bool) -> AsteroidBody {
    AsteroidBody { entity: Entity(entity), collider: Collider { team }, splits }
}

fn member(entity: u64, team: u32) -> Member {
    Member { entity: Entity(entity), collider: Collider { team } }
}

fn contact(first: u64, second: u64) -> Collision {
    Collision { entity1: Entity(first), entity2: Entity(second) }
}

fn fragment(parent: u64, offset: i32) -> Effect {
    Effect::SpawnFragment { parent: Entity(parent), offset }
}

fn seeded() -> SpawnGenerator {
    SpawnGenerator { rng: RngComponent::with_seed(WORLD_SEED) }
}

#[test]
fn the_tuning_constants_have_their_values() {
    assert_eq!(ASTEROID_TEAM, 0);
    assert_eq!(FRAGMENT_OFFSET, 50);
    assert_eq!(SPLIT_SCALE, 25);
    assert_eq!(SPAWN_INTERVAL, 2);
    assert_eq!(WORLD_SEED, 1024);
}

#[test]
fn neighbours_wrap_around_the_ring() {
    assert_eq!(neighbours(0, 5), (4, 1));
    assert_eq!(neighbours(2, 5), (1, 3));
    assert_eq!(neighbours(4, 5), (3, 0));
}

#[test]
fn on_the_smallest_ring_each_vertex_sees_the_other_two() {
    assert_eq!(neighbours(0, 3), (2, 1));
    assert_eq!(neighbours(1, 3), (0, 2));
    assert_eq!(neighbours(2, 3), (1, 0));
}

#[test]
fn a_triangle_is_triangulated_as_three_quads() {
    assert_eq!(
        ring_triangles(3),
        vec![0, 3, 1, 3, 4, 1, 1, 4, 2, 4, 5, 2, 2, 5, 0, 5, 3, 0]
    );
}

#[test]
fn a_square_is_triangulated_as_four_quads() {
    assert_eq!(
        ring_triangles(4),
        vec![0, 4, 1, 4, 5, 1, 1, 5, 2, 5, 6, 2, 2, 6, 3, 6, 7, 3, 3, 7, 0, 7, 4, 0]
    );
}

#[test]
fn a_ring_mesh_is_closed() {
    for n in 3..40usize {
        let indices = ring_triangles(n);
        assert_eq!(indices.len(), 6 * n);
        assert!(indices.iter().all(|index| (*index as usize) < 2 * n));
        for vertex in 0..2 * n {
            assert!(indices.contains(&(vertex as u32)));
        }
    }
}

#[test]
fn both_triangles_of_a_quad_share_its_diagonal() {
    let n = 7;
    let indices = ring_triangles(n);
    for edge in 0..n {
        let quad = &indices[6 * edge..6 * edge + 6];
        let next = ((edge + 1) % n) as u32;
        assert_eq!(quad[0], edge as u32);
        assert_eq!(quad[1], (edge + n) as u32);
        assert_eq!(quad[2], next);
        assert_eq!(quad[3], (edge + n) as u32);
        assert_eq!(quad[4], next + n as u32);
        assert_eq!(quad[5], next);
    }
}

#[test]
fn a_generated_mesh_has_a_vertex_count_from_the_range_and_is_closed() {
    let mut spawner = seeded();
    for _ in 0..50 {
        let mesh = create_astroid_mesh(&mut spawner, 8, 12);
        assert!(8 <= mesh.num_verts && mesh.num_verts < 12);
        assert!(mesh.vertex_count() >= 6);
        assert_eq!(mesh.vertex_count(), 2 * mesh.num_verts);
        assert_eq!(mesh.indices.len(), 6 * mesh.num_verts);
        assert!(mesh.indices.iter().all(|index| (*index as usize) < mesh.vertex_count()));
        assert_eq!(mesh.indices, ring_triangles(mesh.num_verts));
    }
}

#[test]
fn a_range_of_one_leaves_no_choice() {
    let mut spawner = seeded();
    for _ in 0..10 {
        assert_eq!(create_astroid_mesh(&mut spawner, 3, 4).num_verts, 3);
    }
}

#[test]
fn the_generator_varies_the_vertex_count() {
    let mut spawner = seeded();
    let mut counts = Vec::new();
    for _ in 0..64 {
        let mesh = create_astroid_mesh(&mut spawner, 3, 1000);
        assert!(3 <= mesh.num_verts && mesh.num_verts < 1000);
        if !counts.contains(&mesh.num_verts) {
            counts.push(mesh.num_verts);
        }
    }
    assert!(counts.len() > 1);
    assert!(counts.iter().any(|count| *count != 3));
}

#[test]
fn the_same_seed_gives_the_same_meshes() {
    let mut first = seeded();
    let mut second = seeded();
    for _ in 0..20 {
        let one = create_astroid_mesh(&mut first, 5, 50);
        let other = create_astroid_mesh(&mut second, 5, 50);
        assert_eq!(one.num_verts, other.num_verts);
        assert_eq!(one.indices, other.indices);
    }
}

#[test]
fn a_chosen_variant_is_one_of_those_prepared() {
    let mut spawner = seeded();
    let mut seen = Vec::new();
    for _ in 0..200 {
        let index = choose_variant(&mut spawner, 5);
        assert!(index < 5);
        if !seen.contains(&index) {
            seen.push(index);
        }
    }
    assert!(seen.len() > 1);
    assert_eq!(choose_variant(&mut spawner, 1), 0);
}

#[test]
fn lookup_finds_an_asteroid_by_its_entity() {
    let rows = vec![rock(1, 0, true), rock(2, 0, false)];
    assert_eq!(find_asteroid(&rows, Entity(2)), Some(rock(2, 0, false)));
    assert_eq!(find_asteroid(&rows, Entity(3)), None);
}

#[test]
fn a_large_asteroid_hit_by_a_hostile_splits_in_two() {
    let asteroids = vec![rock(1, 0, true)];
    let colliders = vec![member(1, 0), member(2, 1)];
    let effects = destroy_asteroids(&asteroids, &colliders, &vec![contact(1, 2)]);
    assert_eq!(
        effects,
        vec![Effect::Scored, fragment(1, 50), fragment(1, -50), Effect::Despawn(Entity(1))]
    );
}

#[test]
fn a_small_asteroid_hit_by_a_hostile_just_vanishes() {
    let asteroids = vec![rock(1, 0, false)];
    let colliders = vec![member(1, 0), member(2, 1)];
    let effects = destroy_asteroids(&asteroids, &colliders, &vec![contact(1, 2)]);
    assert_eq!(effects, vec![Effect::Scored, Effect::Despawn(Entity(1))]);
}

#[test]
fn it_does_not_matter_on_which_side_of_the_contact_the_asteroid_is() {
    let asteroids = vec![rock(1, 0, true)];
    let colliders = vec![member(1, 0), member(2, 1)];
    let one_way = destroy_asteroids(&asteroids, &colliders, &vec![contact(1, 2)]);
    let other_way = destroy_asteroids(&asteroids, &colliders, &vec![contact(2, 1)]);
    assert_eq!(one_way, other_way);
}

#[test]
fn asteroids_of_one_team_do_not_destroy_each_other() {
    let asteroids = vec![rock(1, 0, true), rock(2, 0, true)];
    let colliders = vec![member(1, 0), member(2, 0)];
    let effects = destroy_asteroids(&asteroids, &colliders, &vec![contact(1, 2)]);
    assert_eq!(effects, Vec::<Effect>::new());
}

#[test]
fn asteroids_of_different_teams_destroy_each_other() {
    let asteroids = vec![rock(1, 0, false), rock(2, 3, true)];
    let colliders = vec![member(1, 0), member(2, 3)];
    let effects = destroy_asteroids(&asteroids, &colliders, &vec![contact(1, 2)]);
    assert_eq!(
        effects,
        vec![
            Effect::Scored,
            Effect::Despawn(Entity(1)),
            Effect::Scored,
            fragment(2, 50),
            fragment(2, -50),
            Effect::Despawn(Entity(2)),
        ]
    );
}

#[test]
fn a_contact_with_something_that_has_no_collider_is_harmless() {
    let asteroids = vec![rock(1, 0, true)];
    let colliders = vec![member(1, 0)];
    let effects = destroy_asteroids(&asteroids, &colliders, &vec![contact(1, 2)]);
    assert_eq!(effects, Vec::<Effect>::new());
}

#[test]
fn a_contact_between_other_bodies_is_none_of_the_asteroids_business() {
    let asteroids = vec![rock(1, 0, true)];
    let colliders = vec![member(1, 0), member(2, 1), member(3, 2)];
    let effects = destroy_asteroids(&asteroids, &colliders, &vec![contact(2, 3)]);
    assert_eq!(effects, Vec::<Effect>::new());
}

#[test]
fn no_contacts_no_effects() {
    let asteroids = vec![rock(1, 0, true)];
    let colliders = vec![member(1, 0), member(2, 1)];
    assert_eq!(destroy_asteroids(&asteroids, &colliders, &Vec::new()), Vec::<Effect>::new());
}

#[test]
fn contacts_are_answered_in_the_order_they_were_reported() {
    let asteroids = vec![rock(1, 0, false), rock(2, 0, true), rock(3, 0, false)];
    let colliders = vec![member(1, 0), member(2, 0), member(3, 0), member(7, 1), member(8, 1)];
    let contacts = vec![contact(7, 3), contact(1, 2), contact(2, 8), contact(1, 7)];
    let effects = destroy_asteroids(&asteroids, &colliders, &contacts);
    assert_eq!(
        effects,
        vec![
            Effect::Scored,
            Effect::Despawn(Entity(3)),
            Effect::Scored,
            fragment(2, 50),
            fragment(2, -50),
            Effect::Despawn(Entity(2)),
            Effect::Scored,
            Effect::Despawn(Entity(1)),
        ]
    );
}

#[test]
fn an_asteroid_in_several_hostile_contacts_is_one_kill() {
    let asteroids = vec![rock(1, 0, true)];
    let colliders = vec![member(1, 0), member(7, 1), member(8, 1)];
    let effects = destroy_asteroids(&asteroids, &colliders, &vec![contact(1, 7), contact(8, 1)]);
    let scored = effects.iter().filter(|effect| **effect == Effect::Scored).count();
    let removed = effects.iter().filter(|effect| matches!(effect, Effect::Despawn(_))).count();
    let fragments =
        effects.iter().filter(|effect| matches!(effect, Effect::SpawnFragment { .. })).count();
    assert_eq!(scored, 1);
    assert_eq!(removed, 1);
    assert_eq!(fragments, 2);
    assert_eq!(
        effects,
        vec![Effect::Scored, fragment(1, 50), fragment(1, -50), Effect::Despawn(Entity(1))]
    );
}

#[test]
fn a_small_asteroid_hit_three_times_scores_once() {
    let asteroids = vec![rock(1, 0, false)];
    let colliders = vec![member(1, 0), member(7, 1), member(8, 1), member(9, 2)];
    let contacts = vec![contact(7, 1), contact(1, 8), contact(9, 1)];
    let effects = destroy_asteroids(&asteroids, &colliders, &contacts);
    assert_eq!(effects, vec![Effect::Scored, Effect::Despawn(Entity(1))]);
}

#[test]
fn the_first_hostile_contact_decides_and_harmless_ones_before_it_do_not_count() {
    let asteroids = vec![rock(1, 0, true), rock(2, 0, false)];
    let colliders = vec![member(1, 0), member(2, 0), member(7, 1), member(8, 1)];
    let contacts = vec![contact(1, 2), contact(7, 2), contact(1, 8), contact(2, 8), contact(7, 1)];
    let effects = destroy_asteroids(&asteroids, &colliders, &contacts);
    assert_eq!(
        effects,
        vec![
            Effect::Scored,
            Effect::Despawn(Entity(2)),
            Effect::Scored,
            fragment(1, 50),
            fragment(1, -50),
            Effect::Despawn(Entity(1)),
        ]
    );
}

#[test]
fn no_entity_is_removed_twice_in_a_tick() {
    let asteroids = vec![rock(1, 0, true), rock(2, 0, true), rock(3, 5, false)];
    let colliders = vec![member(1, 0), member(2, 0), member(3, 5), member(7, 1)];
    let contacts = vec![
        contact(1, 7),
        contact(1, 3),
        contact(3, 2),
        contact(7, 2),
        contact(3, 7),
        contact(7, 1),
    ];
    let effects = destroy_asteroids(&asteroids, &colliders, &contacts);
    let removed: Vec<Entity> = effects
        .iter()
        .filter_map(|effect| match effect {
            Effect::Despawn(entity) => Some(*entity),
            _ => None,
        })
        .collect();
    assert_eq!(removed, vec![Entity(1), Entity(3), Entity(2)]);
    let scored = effects.iter().filter(|effect| **effect == Effect::Scored).count();
    let fragments =
        effects.iter().filter(|effect| matches!(effect, Effect::SpawnFragment { .. })).count();
    assert_eq!(scored, 3);
    assert_eq!(fragments, 4);
}

#[test]
fn scores_match_removals_and_fragments_come_in_pairs() {
    let asteroids = vec![rock(1, 0, true), rock(2, 0, false), rock(3, 4, true), rock(4, 0, true)];
    let colliders =
        vec![member(1, 0), member(2, 0), member(3, 4), member(4, 0), member(9, 1)];
    let contacts =
        vec![contact(1, 9), contact(2, 9), contact(3, 4), contact(1, 2), contact(9, 9)];
    let effects = destroy_asteroids(&asteroids, &colliders, &contacts);
    let scored = effects.iter().filter(|effect| **effect == Effect::Scored).count();
    let removed = effects.iter().filter(|effect| matches!(effect, Effect::Despawn(_))).count();
    let fragments =
        effects.iter().filter(|effect| matches!(effect, Effect::SpawnFragment { .. })).count();
    let splitting = effects
        .iter()
        .filter(|effect| match effect {
            Effect::Despawn(entity) => {
                find_asteroid(&asteroids, *entity).map_or(false, |body| body.splits)
            }
            _ => false,
        })
        .count();
    assert_eq!(scored, removed);
    assert_eq!(removed, 4);
    assert_eq!(splitting, 3);
    assert_eq!(fragments, 2 * splitting);
    assert!(!effects.contains(&fragment(2, 50)));
    assert!(!effects.contains(&fragment(2, -50)));
}
