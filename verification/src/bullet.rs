//! Bullets: they vanish on a hostile contact and when their time is up.

use vstd::prelude::*;
use crate::bodies::{one_team, Collision, Member, TimeStamp};
use crate::lifecycle::{
    hostile_contact, inspect, is_hostile_contact, is_removed, lemma_concat_contains,
    lemma_friends_are_safe, lemma_over_contacts_invariant, lemma_over_contacts_removed,
    lemma_over_contacts_silent, lemma_over_contacts_step, lemma_removed_once, over_contacts,
    removals, removes, removes_inspected, struck, Effect,
};
use crate::entity::Entity;

verus! {

/// The team that bullets are spawned on.
pub const BULLET_TEAM: u32 = 1;

/// One row of a snapshot of the bullets in flight, with the time each was
/// fired.
#[derive(Debug, Clone, Copy, PartialEq, Eq, Structural, Hash)]
pub struct Flight {
    pub entity: Entity,
    pub spawn_time: TimeStamp,
}

/// The bullets whose lifetime of `lifetime` milliseconds has run out at
/// `now`, as removals in the order of the snapshot.
pub open spec fn expired_bullets(bullets: Seq<Flight>, now: TimeStamp, lifetime: u64) -> Seq<Effect>
    decreases bullets.len(),
{
    if bullets.len() == 0 {
        Seq::empty()
    } else {
        let last = bullets.last();
        expired_bullets(bullets.drop_last(), now, lifetime) + if last.spawn_time.lapsed(
            now,
            lifetime,
        ) {
            seq![Effect::Despawn(last.entity)]
        } else {
            Seq::empty()
        }
    }
}

/// A bullet is removed for its age exactly when its lifetime has run out,
/// and running out of time asks for nothing else.
pub proof fn lemma_expired_contains(
    bullets: Seq<Flight>,
    now: TimeStamp,
    lifetime: u64,
    effect: Effect,
)
    ensures
        expired_bullets(bullets, now, lifetime).contains(effect) <==> exists|i: int|
            0 <= i < bullets.len() && (#[trigger] bullets[i]).spawn_time.lapsed(now, lifetime)
                && effect == Effect::Despawn(bullets[i].entity),
    decreases bullets.len(),
{
    if bullets.len() > 0 {
        let rest = bullets.drop_last();
        let last = bullets.last();
        let head = expired_bullets(rest, now, lifetime);
        let tail = if last.spawn_time.lapsed(now, lifetime) {
            seq![Effect::Despawn(last.entity)]
        } else {
            Seq::empty()
        };
        lemma_expired_contains(rest, now, lifetime, effect);
        lemma_concat_contains(head, tail, effect);
        if head.contains(effect) {
            let i = choose|i: int|
                0 <= i < rest.len() && (#[trigger] rest[i]).spawn_time.lapsed(now, lifetime)
                    && effect == Effect::Despawn(rest[i].entity);
            assert(bullets[i] == rest[i]);
        }
        if tail.contains(effect) {
            assert(tail[0] == Effect::Despawn(last.entity));
            assert(bullets[bullets.len() - 1] == last);
        }
        if exists|i: int|
            0 <= i < bullets.len() && (#[trigger] bullets[i]).spawn_time.lapsed(now, lifetime)
                && effect == Effect::Despawn(bullets[i].entity) {
            let i = choose|i: int|
                0 <= i < bullets.len() && (#[trigger] bullets[i]).spawn_time.lapsed(now, lifetime)
                    && effect == Effect::Despawn(bullets[i].entity);
            if i < rest.len() {
                assert(rest[i] == bullets[i]);
            } else {
                assert(tail[0] == effect);
            }
        }
    }
}

/// Removes every bullet that has been in flight for more than `lifetime`
/// milliseconds, whatever it did or did not hit.
pub fn destroy_bullets(bullets: &Vec<Flight>, now: TimeStamp, lifetime: u64) -> (effects: Vec<Effect>)
    requires
        forall|i: int| 0 <= i < bullets@.len() ==> bullets@[i].spawn_time.0 <= now.0,
    ensures
        effects@ == expired_bullets(bullets@, now, lifetime),
{
    let mut effects: Vec<Effect> = Vec::new();
    let mut i: usize = 0;
    assert(bullets@.take(0) =~= Seq::<Flight>::empty());
    while i < bullets.len()
        invariant
            i <= bullets.len(),
            forall|k: int| 0 <= k < bullets@.len() ==> bullets@[k].spawn_time.0 <= now.0,
            effects@ == expired_bullets(bullets@.take(i as int), now, lifetime),
        decreases bullets.len() - i,
    {
        let bullet = bullets[i];
        proof {
            let longer = bullets@.take(i + 1);
            assert(longer.drop_last() =~= bullets@.take(i as int));
            assert(longer.last() == bullet);
        }
        let ghost before = effects@;
        if bullet.spawn_time.older_than(now, lifetime) {
            effects.push(Effect::Despawn(bullet.entity));
            assert(effects@ =~= before + seq![Effect::Despawn(bullet.entity)]);
        } else {
            assert(effects@ =~= before + Seq::<Effect>::empty());
        }
        i += 1;
    }
    assert(bullets@.take(i as int) =~= bullets@);
    effects
}

/// What the contact of `inspected` with `other` does to `inspected`, seen as
/// a bullet: it is removed if it is one, the other side carries a collider
/// and the two are on different teams.
pub open spec fn bullet_hit(
    bullets: Seq<Member>,
    colliders: Seq<Member>,
    inspected: Entity,
    other: Entity,
) -> Seq<Effect> {
    if hostile_contact(bullets, colliders, inspected, other) {
        seq![Effect::Despawn(inspected)]
    } else {
        Seq::empty()
    }
}

/// What the contacts of one tick do to the bullets.
pub open spec fn bullet_effects(
    bullets: Seq<Member>,
    colliders: Seq<Member>,
    collisions: Seq<Collision>,
) -> Seq<Effect> {
    over_contacts(
        collisions,
        |inspected: Entity, other: Entity| bullet_hit(bullets, colliders, inspected, other),
    )
}

fn inspect_bullet(
    bullets: &Vec<Member>,
    colliders: &Vec<Member>,
    inspected: Entity,
    other: Entity,
    effects: &mut Vec<Effect>,
)
    ensures
        final(effects)@ == if removes(old(effects)@, inspected) {
            old(effects)@
        } else {
            old(effects)@ + bullet_hit(bullets@, colliders@, inspected, other)
        },
{
    let ghost before = effects@;
    if is_removed(effects, inspected) {
        return;
    }
    if is_hostile_contact(bullets, colliders, inspected, other) {
        effects.push(Effect::Despawn(inspected));
        assert(effects@ =~= before + seq![Effect::Despawn(inspected)]);
    } else {
        assert(effects@ =~= before + Seq::<Effect>::empty());
    }
}

/// The rule for bullets removes what it acts on, and nothing else.
proof fn lemma_bullet_rule(bullets: Seq<Member>, colliders: Seq<Member>)
    ensures
        removes_inspected(
            |inspected: Entity, other: Entity| bullet_hit(bullets, colliders, inspected, other),
        ),
{
    assert forall|inspected: Entity, other: Entity|
        (#[trigger] bullet_hit(bullets, colliders, inspected, other)).len() > 0 implies removals(
        bullet_hit(bullets, colliders, inspected, other),
    ) == seq![inspected] by {
        let found = bullet_hit(bullets, colliders, inspected, other);
        reveal_with_fuel(removals, 3);
        assert(found.drop_last() =~= Seq::<Effect>::empty());
        assert(found.last() == Effect::Despawn(inspected));
        assert(removals(found) =~= seq![inspected]);
    }
}

/// A tick's contacts ask nothing of the bullets but removals, and a bullet
/// is removed exactly when one of the contacts has it on one side and, on the
/// other, a collider of another team.
pub proof fn lemma_bullet_removed(
    bullets: Seq<Member>,
    colliders: Seq<Member>,
    collisions: Seq<Collision>,
    effect: Effect,
)
    ensures
        bullet_effects(bullets, colliders, collisions).contains(effect) <==> effect is Despawn
            && exists|k: int|
            0 <= k < collisions.len() && struck(
                #[trigger] collisions[k],
                effect->Despawn_0,
                |inspected: Entity, other: Entity|
                    hostile_contact(bullets, colliders, inspected, other),
            ),
{
    let hit = |inspected: Entity, other: Entity| bullet_hit(bullets, colliders, inspected, other);
    let acts = |inspected: Entity, other: Entity| hit(inspected, other).len() > 0;
    let destroys = |inspected: Entity, other: Entity|
        hostile_contact(bullets, colliders, inspected, other);
    let only_removals = |effects: Seq<Effect>|
        forall|i: int| 0 <= i < effects.len() ==> (#[trigger] effects[i]) is Despawn;
    assert forall|so_far: Seq<Effect>, inspected: Entity, other: Entity|
        only_removals(so_far) implies only_removals(
        #[trigger] inspect(so_far, hit, inspected, other),
    ) by {
        let found = bullet_hit(bullets, colliders, inspected, other);
        assert(forall|i: int| 0 <= i < found.len() ==> (#[trigger] found[i]) is Despawn);
    }
    lemma_over_contacts_invariant(collisions, hit, only_removals);
    let effects = bullet_effects(bullets, colliders, collisions);
    if effects.contains(effect) {
        let at = choose|at: int| 0 <= at < effects.len() && effects[at] == effect;
        assert(effects[at] is Despawn);
    }
    if effect is Despawn {
        let entity = effect->Despawn_0;
        lemma_bullet_rule(bullets, colliders);
        lemma_over_contacts_removed(collisions, hit, entity);
        assert forall|k: int| 0 <= k < collisions.len() implies (struck(
            #[trigger] collisions[k],
            entity,
            acts,
        ) <==> struck(collisions[k], entity, destroys)) by {
            let contact = collisions[k];
            assert(acts(entity, contact.entity2) <==> bullet_hit(
                bullets,
                colliders,
                entity,
                contact.entity2,
            ).len() > 0);
            assert(acts(entity, contact.entity1) <==> bullet_hit(
                bullets,
                colliders,
                entity,
                contact.entity1,
            ).len() > 0);
        }
    }
}

/// One kill for each bullet: no bullet is removed twice in a tick, however
/// many hostile contacts it is in.
pub proof fn lemma_bullet_removed_once(
    bullets: Seq<Member>,
    colliders: Seq<Member>,
    collisions: Seq<Collision>,
)
    ensures
        removals(bullet_effects(bullets, colliders, collisions)).no_duplicates(),
{
    lemma_bullet_rule(bullets, colliders);
    lemma_removed_once(
        collisions,
        |inspected: Entity, other: Entity| bullet_hit(bullets, colliders, inspected, other),
    );
}

/// Bullets among colliders of their own team come to no harm.
pub proof fn lemma_bullets_among_friends(
    bullets: Seq<Member>,
    colliders: Seq<Member>,
    collisions: Seq<Collision>,
    team: u32,
)
    requires
        one_team(bullets, team),
        one_team(colliders, team),
    ensures
        bullet_effects(bullets, colliders, collisions) == Seq::<Effect>::empty(),
{
    let hit = |inspected: Entity, other: Entity| bullet_hit(bullets, colliders, inspected, other);
    assert forall|inspected: Entity, other: Entity| #[trigger]
        bullet_hit(bullets, colliders, inspected, other) == Seq::<Effect>::empty() by {
        lemma_friends_are_safe(bullets, colliders, inspected, other, team);
    }
    lemma_over_contacts_silent(collisions, hit);
}

/// Applies the destructive rule to the bullets: a contact across teams
/// removes the bullet and does nothing else.
pub fn collisions_bullets(
    bullets: &Vec<Member>,
    colliders: &Vec<Member>,
    collisions: &Vec<Collision>,
) -> (effects: Vec<Effect>)
    ensures
        effects@ == bullet_effects(bullets@, colliders@, collisions@),
{
    let mut effects: Vec<Effect> = Vec::new();
    let ghost hit = |inspected: Entity, other: Entity|
        bullet_hit(bullets@, colliders@, inspected, other);
    let mut i: usize = 0;
    assert(collisions@.take(0) =~= Seq::<Collision>::empty());
    while i < collisions.len()
        invariant
            i <= collisions.len(),
            hit == |inspected: Entity, other: Entity|
                bullet_hit(bullets@, colliders@, inspected, other),
            effects@ == over_contacts(collisions@.take(i as int), hit),
        decreases collisions.len() - i,
    {
        let contact = collisions[i];
        proof {
            lemma_over_contacts_step(collisions@, hit, i as int);
        }
        inspect_bullet(bullets, colliders, contact.entity1, contact.entity2, &mut effects);
        inspect_bullet(bullets, colliders, contact.entity2, contact.entity1, &mut effects);
        i += 1;
    }
    assert(collisions@.take(i as int) =~= collisions@);
    effects
}

} // verus!
