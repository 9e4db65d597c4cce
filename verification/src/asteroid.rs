//! Asteroids: what contacts do to them, and which mesh a new one shows.

use vstd::prelude::*;
use crate::bodies::{
    collider_of, find_collider, lemma_collider_of, one_team, Collider, Collision, Member,
};
use crate::lifecycle::{
    inspect, is_removed, lemma_over_contacts_invariant, lemma_over_contacts_removed,
    lemma_over_contacts_silent, lemma_over_contacts_step, lemma_removals_concat,
    lemma_removed_once, over_contacts, removals, removes, removes_inspected, struck, Effect,
};
use crate::entity::Entity;
use crate::spawner::{draw_usize, SpawnGenerator};

verus! {

/// The team that asteroids are spawned on.
pub const ASTEROID_TEAM: u32 = 0;

/// The scale that an asteroid must exceed to split when it is destroyed.
pub const SPLIT_SCALE: u32 = 25;

/// How many seconds pass between two asteroids drifting in from outside.
pub const SPAWN_INTERVAL: u64 = 2;

/// By how many degrees each of the two fragments of a split leaves to the
/// side of the reversed course of its parent; one takes the positive angle
/// and one the negative.
pub const FRAGMENT_OFFSET: i32 = 50;

/// One row of a snapshot of the asteroids.
#[derive(Debug, Clone, Copy, PartialEq, Eq, Structural, Hash)]
pub struct AsteroidBody {
    pub entity: Entity,
    pub collider: Collider,
    /// Whether the scale of the body exceeds the split threshold.
    pub splits: bool,
}

/// The row that `rows` holds for `entity`: the first which names it, if
/// there is one.
pub open spec fn asteroid_of(rows: Seq<AsteroidBody>, entity: Entity) -> Option<AsteroidBody>
    decreases rows.len(),
{
    if rows.len() == 0 {
        None
    } else if rows[0].entity == entity {
        Some(rows[0])
    } else {
        asteroid_of(rows.drop_first(), entity)
    }
}

/// A lookup that succeeds returns a row that names the entity, and a lookup
/// fails only if no row names it.
pub proof fn lemma_asteroid_of(rows: Seq<AsteroidBody>, entity: Entity)
    ensures
        match asteroid_of(rows, entity) {
            Some(body) => body.entity == entity && rows.contains(body),
            None => forall|i: int| 0 <= i < rows.len() ==> (#[trigger] rows[i]).entity != entity,
        },
    decreases rows.len(),
{
    if rows.len() > 0 {
        let rest = rows.drop_first();
        lemma_asteroid_of(rest, entity);
        if rows[0].entity != entity {
            match asteroid_of(rest, entity) {
                Some(body) => {
                    let at = choose|at: int| 0 <= at < rest.len() && rest[at] == body;
                    assert(rows[at + 1] == body);
                },
                None => {
                    assert forall|i: int| 0 <= i < rows.len() implies (#[trigger] rows[i]).entity
                        != entity by {
                        if i > 0 {
                            assert(rest[i - 1] == rows[i]);
                        }
                    }
                },
            }
        }
    }
}

/// Looks `entity` up among the asteroids.
pub fn find_asteroid(rows: &Vec<AsteroidBody>, entity: Entity) -> (found: Option<AsteroidBody>)
    ensures
        found == asteroid_of(rows@, entity),
{
    let mut i: usize = 0;
    assert(rows@.skip(0) =~= rows@);
    while i < rows.len()
        invariant
            i <= rows.len(),
            asteroid_of(rows@, entity) == asteroid_of(rows@.skip(i as int), entity),
        decreases rows.len() - i,
    {
        let ghost rest = rows@.skip(i as int);
        assert(rest[0] == rows@[i as int]);
        assert(rest.drop_first() =~= rows@.skip(i + 1));
        if rows[i].entity == entity {
            return Some(rows[i]);
        }
        i += 1;
    }
    assert(rows@.skip(i as int).len() == 0);
    None
}

/// Whether a contact with `other` destroys `inspected` as an asteroid:
/// `inspected` is one, `other` carries a collider, and their teams differ.
pub open spec fn asteroid_destroys(
    asteroids: Seq<AsteroidBody>,
    colliders: Seq<Member>,
    inspected: Entity,
    other: Entity,
) -> bool {
    &&& asteroid_of(asteroids, inspected) matches Some(body)
    &&& collider_of(colliders, other) matches Some(collider)
    &&& body.collider.hostile(collider)
}

/// What a destroyed asteroid leaves behind, once for each kill: a score, two
/// fragments if it was large enough to split, and its own removal.
pub open spec fn asteroid_destroyed(body: AsteroidBody) -> Seq<Effect> {
    if body.splits {
        seq![
            Effect::Scored,
            Effect::SpawnFragment { parent: body.entity, offset: FRAGMENT_OFFSET },
            Effect::SpawnFragment { parent: body.entity, offset: (-FRAGMENT_OFFSET) as i32 },
            Effect::Despawn(body.entity),
        ]
    } else {
        seq![Effect::Scored, Effect::Despawn(body.entity)]
    }
}

/// What the contact of `inspected` with `other` does to `inspected`, seen as
/// an asteroid: nothing unless it is one, the other side carries a collider
/// and the two are on different teams.
pub open spec fn asteroid_hit(
    asteroids: Seq<AsteroidBody>,
    colliders: Seq<Member>,
    inspected: Entity,
    other: Entity,
) -> Seq<Effect> {
    if asteroid_destroys(asteroids, colliders, inspected, other) {
        asteroid_destroyed(asteroid_of(asteroids, inspected).unwrap())
    } else {
        Seq::empty()
    }
}

/// What the contacts of one tick do to the asteroids.
pub open spec fn asteroid_effects(
    asteroids: Seq<AsteroidBody>,
    colliders: Seq<Member>,
    collisions: Seq<Collision>,
) -> Seq<Effect> {
    over_contacts(
        collisions,
        |inspected: Entity, other: Entity| asteroid_hit(asteroids, colliders, inspected, other),
    )
}

/// How many fragments `effects` ask to spawn.
pub open spec fn fragment_count(effects: Seq<Effect>) -> nat {
    effects.filter(|effect: Effect| effect is SpawnFragment).len()
}

/// How many scored events `effects` raise.
pub open spec fn scored_count(effects: Seq<Effect>) -> nat {
    effects.filter(|effect: Effect| effect is Scored).len()
}

/// Whether `entity` is an asteroid large enough to split.
pub open spec fn splits(asteroids: Seq<AsteroidBody>, entity: Entity) -> bool {
    asteroid_of(asteroids, entity) matches Some(body) && body.splits
}

/// The asteroids large enough to split among those that `effects` ask to
/// remove, in the order of the requests.
pub open spec fn splitting(asteroids: Seq<AsteroidBody>, effects: Seq<Effect>) -> Seq<Entity> {
    removals(effects).filter(|entity: Entity| splits(asteroids, entity))
}

/// The split rule for one asteroid: destroyed above the split scale, it
/// leaves exactly two fragments, one to each side of its reversed course; at
/// or below it, none. Either way it is removed once and scores once.
pub proof fn lemma_split_rule(body: AsteroidBody)
    ensures
        fragment_count(asteroid_destroyed(body)) == if body.splits { 2nat } else { 0nat },
        body.splits ==> asteroid_destroyed(body).contains(
            Effect::SpawnFragment { parent: body.entity, offset: FRAGMENT_OFFSET },
        ),
        body.splits ==> asteroid_destroyed(body).contains(
            Effect::SpawnFragment { parent: body.entity, offset: (-FRAGMENT_OFFSET) as i32 },
        ),
        removals(asteroid_destroyed(body)) == seq![body.entity],
        scored_count(asteroid_destroyed(body)) == 1,
{
    let effects = asteroid_destroyed(body);
    let is_fragment = |effect: Effect| effect is SpawnFragment;
    let is_scored = |effect: Effect| effect is Scored;
    reveal_with_fuel(Seq::filter, 5);
    reveal_with_fuel(removals, 5);
    if body.splits {
        assert(effects.drop_last().drop_last().drop_last().drop_last() =~= Seq::<Effect>::empty());
        assert(effects[1] == Effect::SpawnFragment { parent: body.entity, offset: FRAGMENT_OFFSET });
        assert(effects[2] == Effect::SpawnFragment {
            parent: body.entity,
            offset: (-FRAGMENT_OFFSET) as i32,
        });
        assert(effects.filter(is_fragment).len() == 2);
        assert(effects.filter(is_scored).len() == 1);
        assert(removals(effects) =~= seq![body.entity]);
    } else {
        assert(effects.drop_last().drop_last() =~= Seq::<Effect>::empty());
        assert(effects.filter(is_fragment).len() == 0);
        assert(effects.filter(is_scored).len() == 1);
        assert(removals(effects) =~= seq![body.entity]);
    }
}

/// The rule for asteroids removes what it acts on, and nothing else.
proof fn lemma_asteroid_rule(asteroids: Seq<AsteroidBody>, colliders: Seq<Member>)
    ensures
        removes_inspected(
            |inspected: Entity, other: Entity| asteroid_hit(asteroids, colliders, inspected, other),
        ),
{
    assert forall|inspected: Entity, other: Entity|
        (#[trigger] asteroid_hit(asteroids, colliders, inspected, other)).len() > 0 implies removals(
        asteroid_hit(asteroids, colliders, inspected, other),
    ) == seq![inspected] by {
        lemma_asteroid_of(asteroids, inspected);
        lemma_split_rule(asteroid_of(asteroids, inspected).unwrap());
    }
}

/// The counts of one inspected side: as many scores as removals, and two
/// fragments for each removal of an asteroid that splits.
proof fn lemma_hit_counts(
    asteroids: Seq<AsteroidBody>,
    colliders: Seq<Member>,
    inspected: Entity,
    other: Entity,
)
    ensures
        scored_count(asteroid_hit(asteroids, colliders, inspected, other)) == removals(
            asteroid_hit(asteroids, colliders, inspected, other),
        ).len(),
        fragment_count(asteroid_hit(asteroids, colliders, inspected, other)) == 2 * splitting(
            asteroids,
            asteroid_hit(asteroids, colliders, inspected, other),
        ).len(),
{
    let effects = asteroid_hit(asteroids, colliders, inspected, other);
    let large = |entity: Entity| splits(asteroids, entity);
    reveal_with_fuel(Seq::filter, 3);
    reveal_with_fuel(removals, 2);
    if effects.len() > 0 {
        let body = asteroid_of(asteroids, inspected).unwrap();
        lemma_asteroid_of(asteroids, inspected);
        lemma_split_rule(body);
        let removed = removals(effects);
        assert(removed == seq![inspected]);
        assert(removed.drop_last() =~= Seq::<Entity>::empty());
        assert(removed.last() == inspected);
        assert(large(inspected) == body.splits);
        assert(removed.filter(large).len() == if body.splits { 1nat } else { 0nat });
    } else {
        assert(effects =~= Seq::<Effect>::empty());
    }
}

/// Choosing from a list without repetitions leaves no repetitions.
proof fn lemma_filter_keeps_distinct(entities: Seq<Entity>, wanted: spec_fn(Entity) -> bool)
    requires
        entities.no_duplicates(),
    ensures
        entities.filter(wanted).no_duplicates(),
    decreases entities.len(),
{
    reveal(Seq::filter);
    if entities.len() == 0 {
        assert(entities.filter(wanted) =~= Seq::<Entity>::empty());
    } else {
        let rest = entities.drop_last();
        let last = entities.last();
        assert(rest.no_duplicates());
        lemma_filter_keeps_distinct(rest, wanted);
        let head = rest.filter(wanted);
        let tail = if wanted(last) { seq![last] } else { Seq::empty() };
        assert(entities.filter(wanted) == head + tail);
        assert forall|i: int, j: int| 0 <= i < head.len() && 0 <= j < tail.len() implies head[i]
            != tail[j] by {
            rest.lemma_filter_contains_rev(wanted, head[i]);
            assert(head.contains(head[i]));
            let at = choose|at: int| 0 <= at < rest.len() && rest[at] == head[i];
            assert(entities[at] == head[i]);
            assert(entities[entities.len() - 1] == last);
        }
        vstd::seq_lib::lemma_no_dup_in_concat(head, tail);
    }
}

/// The split rule for a whole tick. No asteroid is removed twice, however
/// many hostile contacts it is in. The scores are as many as the asteroids
/// removed, and the fragments are two for each removed asteroid that was
/// large enough to split; an asteroid at or below the split scale leaves
/// none.
pub proof fn lemma_tick_counts(
    asteroids: Seq<AsteroidBody>,
    colliders: Seq<Member>,
    collisions: Seq<Collision>,
)
    ensures
        removals(asteroid_effects(asteroids, colliders, collisions)).no_duplicates(),
        splitting(asteroids, asteroid_effects(asteroids, colliders, collisions)).no_duplicates(),
        scored_count(asteroid_effects(asteroids, colliders, collisions)) == removals(
            asteroid_effects(asteroids, colliders, collisions),
        ).to_set().len(),
        fragment_count(asteroid_effects(asteroids, colliders, collisions)) == 2 * splitting(
            asteroids,
            asteroid_effects(asteroids, colliders, collisions),
        ).to_set().len(),
{
    let hit = |inspected: Entity, other: Entity|
        asteroid_hit(asteroids, colliders, inspected, other);
    let large = |entity: Entity| splits(asteroids, entity);
    let is_fragment = |effect: Effect| effect is SpawnFragment;
    let is_scored = |effect: Effect| effect is Scored;
    let holds = |so_far: Seq<Effect>|
        scored_count(so_far) == removals(so_far).len() && fragment_count(so_far) == 2 * splitting(
            asteroids,
            so_far,
        ).len();
    assert(holds(Seq::empty())) by {
        reveal_with_fuel(Seq::filter, 2);
        reveal_with_fuel(removals, 2);
    }
    assert forall|so_far: Seq<Effect>, inspected: Entity, other: Entity| holds(so_far) implies holds(
        #[trigger] inspect(so_far, hit, inspected, other),
    ) by {
        if !removes(so_far, inspected) {
            let added = asteroid_hit(asteroids, colliders, inspected, other);
            lemma_hit_counts(asteroids, colliders, inspected, other);
            lemma_removals_concat(so_far, added);
            Seq::filter_distributes_over_add(so_far, added, is_fragment);
            Seq::filter_distributes_over_add(so_far, added, is_scored);
            Seq::filter_distributes_over_add(removals(so_far), removals(added), large);
        }
    }
    lemma_over_contacts_invariant(collisions, hit, holds);
    lemma_asteroid_rule(asteroids, colliders);
    lemma_removed_once(collisions, hit);
    let effects = asteroid_effects(asteroids, colliders, collisions);
    lemma_filter_keeps_distinct(removals(effects), large);
    removals(effects).unique_seq_to_set();
    splitting(asteroids, effects).unique_seq_to_set();
}

/// An asteroid is removed in a tick exactly when one of the tick's contacts
/// has it on one side and, on the other, a collider of another team.
pub proof fn lemma_asteroid_removed(
    asteroids: Seq<AsteroidBody>,
    colliders: Seq<Member>,
    collisions: Seq<Collision>,
    entity: Entity,
)
    ensures
        asteroid_effects(asteroids, colliders, collisions).contains(Effect::Despawn(entity))
            <==> exists|k: int|
            0 <= k < collisions.len() && struck(
                #[trigger] collisions[k],
                entity,
                |inspected: Entity, other: Entity|
                    asteroid_destroys(asteroids, colliders, inspected, other),
            ),
{
    let hit = |inspected: Entity, other: Entity|
        asteroid_hit(asteroids, colliders, inspected, other);
    let acts = |inspected: Entity, other: Entity| hit(inspected, other).len() > 0;
    let destroys = |inspected: Entity, other: Entity|
        asteroid_destroys(asteroids, colliders, inspected, other);
    lemma_asteroid_rule(asteroids, colliders);
    lemma_over_contacts_removed(collisions, hit, entity);
    assert forall|k: int| 0 <= k < collisions.len() implies (struck(
        #[trigger] collisions[k],
        entity,
        acts,
    ) <==> struck(collisions[k], entity, destroys)) by {
        let contact = collisions[k];
        assert(acts(entity, contact.entity2) <==> asteroid_hit(
            asteroids,
            colliders,
            entity,
            contact.entity2,
        ).len() > 0);
        assert(acts(entity, contact.entity1) <==> asteroid_hit(
            asteroids,
            colliders,
            entity,
            contact.entity1,
        ).len() > 0);
    }
}

/// Bodies of one team never harm each other: while every asteroid and every
/// collider is on the same team, contacts have no consequences at all.
pub proof fn lemma_asteroids_among_friends(
    asteroids: Seq<AsteroidBody>,
    colliders: Seq<Member>,
    collisions: Seq<Collision>,
    team: u32,
)
    requires
        forall|i: int| 0 <= i < asteroids.len() ==> (#[trigger] asteroids[i]).collider.team == team,
        one_team(colliders, team),
    ensures
        asteroid_effects(asteroids, colliders, collisions) == Seq::<Effect>::empty(),
{
    let hit = |inspected: Entity, other: Entity|
        asteroid_hit(asteroids, colliders, inspected, other);
    assert forall|inspected: Entity, other: Entity| #[trigger]
        asteroid_hit(asteroids, colliders, inspected, other) == Seq::<Effect>::empty() by {
        lemma_asteroid_of(asteroids, inspected);
        lemma_collider_of(colliders, other);
    }
    lemma_over_contacts_silent(collisions, hit);
}

fn inspect_asteroid(
    asteroids: &Vec<AsteroidBody>,
    colliders: &Vec<Member>,
    inspected: Entity,
    other: Entity,
    effects: &mut Vec<Effect>,
)
    ensures
        final(effects)@ == if removes(old(effects)@, inspected) {
            old(effects)@
        } else {
            old(effects)@ + asteroid_hit(asteroids@, colliders@, inspected, other)
        },
{
    let ghost before = effects@;
    if is_removed(effects, inspected) {
        return;
    }
    if let Some(body) = find_asteroid(asteroids, inspected) {
        if let Some(collider) = find_collider(colliders, other) {
            if body.collider.is_hostile(&collider) {
                effects.push(Effect::Scored);
                if body.splits {
                    effects.push(Effect::SpawnFragment { parent: body.entity, offset: FRAGMENT_OFFSET });
                    effects.push(Effect::SpawnFragment { parent: body.entity, offset: -FRAGMENT_OFFSET });
                }
                effects.push(Effect::Despawn(body.entity));
                assert(effects@ =~= before + asteroid_destroyed(body));
                return;
            }
        }
    }
    assert(effects@ =~= before + Seq::<Effect>::empty());
}

/// Applies the destructive rule to the asteroids: the first contact across
/// teams that an asteroid is in scores, splits the asteroid if it is large
/// enough, and removes it. That is one kill; later contacts of the same tick
/// find the asteroid already destroyed.
pub fn destroy_asteroids(
    asteroids: &Vec<AsteroidBody>,
    colliders: &Vec<Member>,
    collisions: &Vec<Collision>,
) -> (effects: Vec<Effect>)
    ensures
        effects@ == asteroid_effects(asteroids@, colliders@, collisions@),
{
    let mut effects: Vec<Effect> = Vec::new();
    let ghost hit = |inspected: Entity, other: Entity|
        asteroid_hit(asteroids@, colliders@, inspected, other);
    let mut i: usize = 0;
    assert(collisions@.take(0) =~= Seq::<Collision>::empty());
    while i < collisions.len()
        invariant
            i <= collisions.len(),
            hit == |inspected: Entity, other: Entity|
                asteroid_hit(asteroids@, colliders@, inspected, other),
            effects@ == over_contacts(collisions@.take(i as int), hit),
        decreases collisions.len() - i,
    {
        let contact = collisions[i];
        proof {
            lemma_over_contacts_step(collisions@, hit, i as int);
        }
        inspect_asteroid(asteroids, colliders, contact.entity1, contact.entity2, &mut effects);
        inspect_asteroid(asteroids, colliders, contact.entity2, contact.entity1, &mut effects);
        i += 1;
    }
    assert(collisions@.take(i as int) =~= collisions@);
    effects
}

/// Picks which of `variants` prepared meshes a newly spawned asteroid
/// shows. Whatever the generator hands back, it names one of them.
pub fn choose_variant(spawner: &mut SpawnGenerator, variants: usize) -> (index: usize)
    requires
        0 < variants,
    ensures
        index < variants,
{
    draw_usize(&mut spawner.rng, 0, variants)
}

} // verus!
