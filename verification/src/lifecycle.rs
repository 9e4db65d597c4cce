//! The destructive rule that all kinds of bodies share, and what it asks of
//! the caller.
//!
//! Each kind of body reads the same contacts of a tick on its own and decides
//! for its own members only. Nothing is changed while contacts are read: the
//! rules answer with a list of effects, and the caller carries them out.

use vstd::prelude::*;
use crate::bodies::{collider_of, find_collider, lemma_collider_of, one_team, Collision, Member};
use crate::entity::Entity;

verus! {

/// What a lifecycle rule asks of the caller. Structural changes are applied
/// at the tick's flush point, never while contacts are still being read.
#[derive(Debug, Clone, Copy, PartialEq, Eq, Structural, Hash)]
pub enum Effect {
    /// Remove the entity.
    Despawn(Entity),
    /// Spawn a fragment of `parent`. The fragment leaves along the reversed
    /// course of the parent turned by `offset` degrees.
    SpawnFragment { parent: Entity, offset: i32 },
    /// Raise one scored event.
    Scored,
    /// Move the run state to game over.
    GameOver,
}

/// Whether a contact with `other` destroys `inspected` as one of `own`:
/// `inspected` is among them, `other` carries a collider, and their teams
/// differ.
pub open spec fn hostile_contact(
    own: Seq<Member>,
    colliders: Seq<Member>,
    inspected: Entity,
    other: Entity,
) -> bool {
    &&& collider_of(own, inspected) matches Some(mine)
    &&& collider_of(colliders, other) matches Some(theirs)
    &&& mine.hostile(theirs)
}

/// Decides whether a contact with `other` destroys `inspected` as one of
/// `own`.
pub fn is_hostile_contact(
    own: &Vec<Member>,
    colliders: &Vec<Member>,
    inspected: Entity,
    other: Entity,
) -> (hostile: bool)
    ensures
        hostile == hostile_contact(own@, colliders@, inspected, other),
{
    match find_collider(own, inspected) {
        Some(mine) => match find_collider(colliders, other) {
            Some(theirs) => mine.is_hostile(&theirs),
            None => false,
        },
        None => false,
    }
}

/// Members of one team never meet in a hostile contact.
pub proof fn lemma_friends_are_safe(
    own: Seq<Member>,
    colliders: Seq<Member>,
    inspected: Entity,
    other: Entity,
    team: u32,
)
    requires
        one_team(own, team),
        one_team(colliders, team),
    ensures
        !hostile_contact(own, colliders, inspected, other),
{
    lemma_collider_of(own, inspected);
    lemma_collider_of(colliders, other);
}

/// Whether `effects` already ask for the removal of `entity`.
pub open spec fn removes(effects: Seq<Effect>, entity: Entity) -> bool {
    effects.contains(Effect::Despawn(entity))
}

/// The entities that `effects` ask to remove, in the order of the requests.
pub open spec fn removals(effects: Seq<Effect>) -> Seq<Entity>
    decreases effects.len(),
{
    if effects.len() == 0 {
        Seq::empty()
    } else {
        removals(effects.drop_last()) + match effects.last() {
            Effect::Despawn(entity) => seq![entity],
            _ => Seq::empty(),
        }
    }
}

/// Tests whether `effects` already ask for the removal of `entity`.
pub fn is_removed(effects: &Vec<Effect>, entity: Entity) -> (found: bool)
    ensures
        found == removes(effects@, entity),
{
    let mut i: usize = 0;
    while i < effects.len()
        invariant
            i <= effects.len(),
            forall|k: int| 0 <= k < i ==> effects@[k] != Effect::Despawn(entity),
        decreases effects.len() - i,
    {
        match effects[i] {
            Effect::Despawn(removed) => {
                if removed == entity {
                    return true;
                }
            },
            _ => {},
        }
        i += 1;
    }
    false
}

/// What is asked for once one more side of a contact has been read, after
/// `so_far`: an entity that is already being removed was destroyed by an
/// earlier contact of the tick and is not inspected again; any other is put
/// to the rule `hit`.
pub open spec fn inspect(
    so_far: Seq<Effect>,
    hit: spec_fn(Entity, Entity) -> Seq<Effect>,
    inspected: Entity,
    other: Entity,
) -> Seq<Effect> {
    if removes(so_far, inspected) {
        so_far
    } else {
        so_far + hit(inspected, other)
    }
}

/// What a tick's contacts lead to under a rule `hit` that inspects one side
/// of one contact. Contacts are taken in the order the detector reported
/// them, and each is inspected from both sides, the first entity first. An
/// entity is destroyed by the first contact that destroys it and by no other:
/// one kill, however many hostile contacts it is in.
pub open spec fn over_contacts(
    collisions: Seq<Collision>,
    hit: spec_fn(Entity, Entity) -> Seq<Effect>,
) -> Seq<Effect>
    decreases collisions.len(),
{
    if collisions.len() == 0 {
        Seq::empty()
    } else {
        let last = collisions.last();
        inspect(
            inspect(over_contacts(collisions.drop_last(), hit), hit, last.entity1, last.entity2),
            hit,
            last.entity2,
            last.entity1,
        )
    }
}

/// Reading one more contact inspects its two sides after what came before.
pub proof fn lemma_over_contacts_step(
    collisions: Seq<Collision>,
    hit: spec_fn(Entity, Entity) -> Seq<Effect>,
    upto: int,
)
    requires
        0 <= upto < collisions.len(),
    ensures
        over_contacts(collisions.take(upto + 1), hit) == inspect(
            inspect(
                over_contacts(collisions.take(upto), hit),
                hit,
                collisions[upto].entity1,
                collisions[upto].entity2,
            ),
            hit,
            collisions[upto].entity2,
            collisions[upto].entity1,
        ),
{
    let longer = collisions.take(upto + 1);
    assert(longer.drop_last() =~= collisions.take(upto));
    assert(longer.last() == collisions[upto]);
}

/// Whether `entity` is a side of `contact` and `destroys` holds of it and the
/// other side.
pub open spec fn struck(
    contact: Collision,
    entity: Entity,
    destroys: spec_fn(Entity, Entity) -> bool,
) -> bool {
    ||| contact.entity1 == entity && destroys(entity, contact.entity2)
    ||| contact.entity2 == entity && destroys(entity, contact.entity1)
}

/// Whether the rule `hit` removes what it acts on: whenever it asks for
/// anything, it asks once for the removal of the inspected entity and for no
/// other removal.
pub open spec fn removes_inspected(hit: spec_fn(Entity, Entity) -> Seq<Effect>) -> bool {
    forall|inspected: Entity, other: Entity|
        (#[trigger] hit(inspected, other)).len() > 0 ==> removals(hit(inspected, other))
            == seq![inspected]
}

/// A joined sequence holds what either part holds.
pub proof fn lemma_concat_contains<A>(first: Seq<A>, second: Seq<A>, item: A)
    ensures
        (first + second).contains(item) <==> first.contains(item) || second.contains(item),
{
    let all = first + second;
    if all.contains(item) {
        let at = choose|at: int| 0 <= at < all.len() && all[at] == item;
        if at < first.len() {
            assert(first[at] == item);
        } else {
            assert(second[at - first.len()] == item);
        }
    }
    if first.contains(item) {
        let at = choose|at: int| 0 <= at < first.len() && first[at] == item;
        assert(all[at] == item);
    }
    if second.contains(item) {
        let at = choose|at: int| 0 <= at < second.len() && second[at] == item;
        assert(all[first.len() + at] == item);
    }
}

/// The removals of a joined list are those of its parts, one after the
/// other.
pub proof fn lemma_removals_concat(first: Seq<Effect>, second: Seq<Effect>)
    ensures
        removals(first + second) == removals(first) + removals(second),
    decreases second.len(),
{
    if second.len() == 0 {
        assert(first + second =~= first);
        assert(removals(first) + removals(second) =~= removals(first));
    } else {
        let all = first + second;
        assert(all.drop_last() =~= first + second.drop_last());
        assert(all.last() == second.last());
        lemma_removals_concat(first, second.drop_last());
        let tail = match second.last() {
            Effect::Despawn(entity) => seq![entity],
            _ => Seq::empty(),
        };
        assert(removals(first) + removals(second.drop_last()) + tail =~= removals(first) + (
        removals(second.drop_last()) + tail));
    }
}

/// An entity is among the removals exactly when its removal is asked for.
pub proof fn lemma_removals_contains(effects: Seq<Effect>, entity: Entity)
    ensures
        removals(effects).contains(entity) <==> removes(effects, entity),
    decreases effects.len(),
{
    if effects.len() > 0 {
        let rest = effects.drop_last();
        let tail = match effects.last() {
            Effect::Despawn(removed) => seq![removed],
            _ => Seq::empty(),
        };
        lemma_removals_contains(rest, entity);
        lemma_concat_contains(removals(rest), tail, entity);
        assert(effects =~= rest + seq![effects.last()]);
        lemma_concat_contains(rest, seq![effects.last()], Effect::Despawn(entity));
        if tail.contains(entity) {
            assert(tail[0] == entity);
            assert(seq![effects.last()][0] == Effect::Despawn(entity));
        }
        if seq![effects.last()].contains(Effect::Despawn(entity)) {
            assert(seq![effects.last()][0] == effects.last());
            assert(tail[0] == entity);
        }
    }
}

/// What holds of no effects at all, and keeps holding when one more side of
/// a contact is read, holds of what a whole tick's contacts lead to.
pub proof fn lemma_over_contacts_invariant(
    collisions: Seq<Collision>,
    hit: spec_fn(Entity, Entity) -> Seq<Effect>,
    holds: spec_fn(Seq<Effect>) -> bool,
)
    requires
        holds(Seq::empty()),
        forall|so_far: Seq<Effect>, inspected: Entity, other: Entity|
            holds(so_far) ==> holds(#[trigger] inspect(so_far, hit, inspected, other)),
    ensures
        holds(over_contacts(collisions, hit)),
    decreases collisions.len(),
{
    if collisions.len() > 0 {
        let last = collisions.last();
        let head = over_contacts(collisions.drop_last(), hit);
        lemma_over_contacts_invariant(collisions.drop_last(), hit, holds);
        let middle = inspect(head, hit, last.entity1, last.entity2);
        assert(holds(middle));
        assert(holds(inspect(middle, hit, last.entity2, last.entity1)));
    }
}

/// Under a rule that never asks for anything, no contact has consequences.
pub proof fn lemma_over_contacts_silent(
    collisions: Seq<Collision>,
    hit: spec_fn(Entity, Entity) -> Seq<Effect>,
)
    requires
        forall|inspected: Entity, other: Entity| #[trigger] hit(inspected, other) == Seq::<Effect>::empty(),
    ensures
        over_contacts(collisions, hit) == Seq::<Effect>::empty(),
{
    let holds = |effects: Seq<Effect>| effects == Seq::<Effect>::empty();
    assert forall|so_far: Seq<Effect>, inspected: Entity, other: Entity| holds(so_far) implies holds(
        #[trigger] inspect(so_far, hit, inspected, other),
    ) by {
        assert(hit(inspected, other) == Seq::<Effect>::empty());
        assert(so_far + hit(inspected, other) =~= so_far);
    }
    lemma_over_contacts_invariant(collisions, hit, holds);
}

/// One kill for each entity: under a rule that removes what it acts on, no
/// entity is removed twice in a tick, however many of the tick's contacts
/// would destroy it.
pub proof fn lemma_removed_once(
    collisions: Seq<Collision>,
    hit: spec_fn(Entity, Entity) -> Seq<Effect>,
)
    requires
        removes_inspected(hit),
    ensures
        removals(over_contacts(collisions, hit)).no_duplicates(),
{
    let holds = |effects: Seq<Effect>| removals(effects).no_duplicates();
    assert forall|so_far: Seq<Effect>, inspected: Entity, other: Entity| holds(so_far) implies holds(
        #[trigger] inspect(so_far, hit, inspected, other),
    ) by {
        if !removes(so_far, inspected) {
            let added = hit(inspected, other);
            lemma_removals_concat(so_far, added);
            lemma_removals_contains(so_far, inspected);
            if added.len() > 0 {
                assert(removals(added) == seq![inspected]);
                assert forall|i: int, j: int|
                    0 <= i < removals(so_far).len() && 0 <= j < removals(added).len() implies removals(
                    so_far,
                )[i] != removals(added)[j] by {
                    assert(removals(so_far).contains(removals(so_far)[i]));
                }
                vstd::seq_lib::lemma_no_dup_in_concat(removals(so_far), removals(added));
            } else {
                assert(so_far + added =~= so_far);
            }
        }
    }
    lemma_over_contacts_invariant(collisions, hit, holds);
}

/// Under a rule that removes what it acts on, an entity is removed in a tick
/// exactly when one of the tick's contacts has it on one side and the rule
/// acts on it there.
pub proof fn lemma_over_contacts_removed(
    collisions: Seq<Collision>,
    hit: spec_fn(Entity, Entity) -> Seq<Effect>,
    entity: Entity,
)
    requires
        removes_inspected(hit),
    ensures
        removes(over_contacts(collisions, hit), entity) <==> exists|k: int|
            0 <= k < collisions.len() && struck(
                #[trigger] collisions[k],
                entity,
                |inspected: Entity, other: Entity| hit(inspected, other).len() > 0,
            ),
    decreases collisions.len(),
{
    let acts = |inspected: Entity, other: Entity| hit(inspected, other).len() > 0;
    if collisions.len() > 0 {
        let rest = collisions.drop_last();
        let last = collisions.last();
        let head = over_contacts(rest, hit);
        let middle = inspect(head, hit, last.entity1, last.entity2);
        let all = inspect(middle, hit, last.entity2, last.entity1);
        lemma_over_contacts_removed(rest, hit, entity);
        lemma_inspect_removes(head, hit, last.entity1, last.entity2, entity);
        lemma_inspect_removes(middle, hit, last.entity2, last.entity1, entity);
        if removes(head, entity) {
            let k = choose|k: int| 0 <= k < rest.len() && struck(#[trigger] rest[k], entity, acts);
            assert(rest[k] == collisions[k]);
        }
        if removes(all, entity) && !removes(head, entity) {
            assert(struck(collisions[collisions.len() - 1], entity, acts));
        }
        if exists|k: int| 0 <= k < collisions.len() && struck(#[trigger] collisions[k], entity, acts) {
            let k = choose|k: int|
                0 <= k < collisions.len() && struck(#[trigger] collisions[k], entity, acts);
            if k < collisions.len() - 1 {
                assert(rest[k] == collisions[k]);
            }
        }
    }
}

/// After one more side of a contact has been read, an entity is being
/// removed exactly if it was before, or it is the side inspected and the rule
/// acts on it.
proof fn lemma_inspect_removes(
    so_far: Seq<Effect>,
    hit: spec_fn(Entity, Entity) -> Seq<Effect>,
    inspected: Entity,
    other: Entity,
    entity: Entity,
)
    requires
        removes_inspected(hit),
    ensures
        removes(inspect(so_far, hit, inspected, other), entity) <==> removes(so_far, entity) || (
        inspected == entity && hit(inspected, other).len() > 0),
{
    let added = hit(inspected, other);
    lemma_concat_contains(so_far, added, Effect::Despawn(entity));
    lemma_removals_contains(added, entity);
    if added.len() > 0 {
        assert(removals(added) == seq![inspected]);
        assert(seq![inspected][0] == inspected);
    } else {
        assert(removals(added) =~= Seq::<Entity>::empty());
    }
}

} // verus!
