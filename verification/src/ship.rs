//! Ships: a hostile contact ends the game, and the weapon has a cooldown.

use vstd::prelude::*;
use crate::bodies::{one_team, Collision, Member, TimeStamp, NANOS_PER_MILLI};
use crate::lifecycle::{
    hostile_contact, inspect, is_hostile_contact, is_removed, lemma_concat_contains,
    lemma_friends_are_safe, lemma_over_contacts_invariant, lemma_over_contacts_removed,
    lemma_over_contacts_silent, lemma_over_contacts_step, lemma_removed_once, over_contacts,
    removals, removes, removes_inspected, struck, Effect,
};
use crate::control::{Pawn, ShipPawn};
use crate::control_2d::Shoot;
use crate::entity::Entity;

verus! {

/// The team that ships are spawned on.
pub const SHIP_TEAM: u32 = 1;

/// What the contact of `inspected` with `other` does to `inspected`, seen as
/// a ship: if it is one, the other side carries a collider and the two are
/// on different teams, the ship is removed and the game is over.
pub open spec fn ship_hit(
    ships: Seq<Member>,
    colliders: Seq<Member>,
    inspected: Entity,
    other: Entity,
) -> Seq<Effect> {
    if hostile_contact(ships, colliders, inspected, other) {
        seq![Effect::Despawn(inspected), Effect::GameOver]
    } else {
        Seq::empty()
    }
}

/// What the contacts of one tick do to the ships.
pub open spec fn ship_effects(
    ships: Seq<Member>,
    colliders: Seq<Member>,
    collisions: Seq<Collision>,
) -> Seq<Effect> {
    over_contacts(
        collisions,
        |inspected: Entity, other: Entity| ship_hit(ships, colliders, inspected, other),
    )
}

fn inspect_ship(
    ships: &Vec<Member>,
    colliders: &Vec<Member>,
    inspected: Entity,
    other: Entity,
    effects: &mut Vec<Effect>,
)
    ensures
        final(effects)@ == if removes(old(effects)@, inspected) {
            old(effects)@
        } else {
            old(effects)@ + ship_hit(ships@, colliders@, inspected, other)
        },
{
    let ghost before = effects@;
    if is_removed(effects, inspected) {
        return;
    }
    if is_hostile_contact(ships, colliders, inspected, other) {
        effects.push(Effect::Despawn(inspected));
        effects.push(Effect::GameOver);
        assert(effects@ =~= before + seq![Effect::Despawn(inspected), Effect::GameOver]);
    } else {
        assert(effects@ =~= before + Seq::<Effect>::empty());
    }
}

/// The rule for ships removes what it acts on, and nothing else.
proof fn lemma_ship_rule(ships: Seq<Member>, colliders: Seq<Member>)
    ensures
        removes_inspected(
            |inspected: Entity, other: Entity| ship_hit(ships, colliders, inspected, other),
        ),
{
    assert forall|inspected: Entity, other: Entity|
        (#[trigger] ship_hit(ships, colliders, inspected, other)).len() > 0 implies removals(
        ship_hit(ships, colliders, inspected, other),
    ) == seq![inspected] by {
        let found = ship_hit(ships, colliders, inspected, other);
        reveal_with_fuel(removals, 4);
        assert(found.drop_last() =~= seq![Effect::Despawn(inspected)]);
        assert(found.drop_last().drop_last() =~= Seq::<Effect>::empty());
        assert(found.last() == Effect::GameOver);
        assert(found.drop_last().last() == Effect::Despawn(inspected));
        assert(removals(found.drop_last()) =~= seq![inspected]);
        assert(removals(found) =~= seq![inspected]);
    }
}

/// A tick's contacts ask for nothing but removals of ships and the end of
/// the game. A ship is removed exactly when one of the contacts has it on one
/// side and, on the other, a collider of another team; and the game is over
/// exactly when some ship is removed.
pub proof fn lemma_ship_removed(
    ships: Seq<Member>,
    colliders: Seq<Member>,
    collisions: Seq<Collision>,
    effect: Effect,
)
    ensures
        ship_effects(ships, colliders, collisions).contains(effect) ==> effect is Despawn
            || effect is GameOver,
        effect is Despawn ==> (ship_effects(ships, colliders, collisions).contains(effect)
            <==> exists|k: int|
            0 <= k < collisions.len() && struck(
                #[trigger] collisions[k],
                effect->Despawn_0,
                |inspected: Entity, other: Entity|
                    hostile_contact(ships, colliders, inspected, other),
            )),
        ship_effects(ships, colliders, collisions).contains(Effect::GameOver) <==> exists|
            entity: Entity,
        | #[trigger]
            ship_effects(ships, colliders, collisions).contains(Effect::Despawn(entity)),
{
    let hit = |inspected: Entity, other: Entity| ship_hit(ships, colliders, inspected, other);
    let acts = |inspected: Entity, other: Entity| hit(inspected, other).len() > 0;
    let destroys = |inspected: Entity, other: Entity|
        hostile_contact(ships, colliders, inspected, other);
    let effects = ship_effects(ships, colliders, collisions);
    let holds = |so_far: Seq<Effect>|
        {
            &&& forall|i: int|
                0 <= i < so_far.len() ==> (#[trigger] so_far[i]) is Despawn || so_far[i] is GameOver
            &&& so_far.contains(Effect::GameOver) <==> exists|entity: Entity| #[trigger]
                so_far.contains(Effect::Despawn(entity))
        };
    assert(!Seq::<Effect>::empty().contains(Effect::GameOver));
    assert(forall|entity: Entity| !(#[trigger] Seq::<Effect>::empty().contains(Effect::Despawn(entity))));
    assert forall|so_far: Seq<Effect>, inspected: Entity, other: Entity| holds(so_far) implies holds(
        #[trigger] inspect(so_far, hit, inspected, other),
    ) by {
        let found = ship_hit(ships, colliders, inspected, other);
        let next = inspect(so_far, hit, inspected, other);
        if !removes(so_far, inspected) && found.len() > 0 {
            assert(next == so_far + found);
            assert(found[0] == Effect::Despawn(inspected));
            assert(found[1] == Effect::GameOver);
            lemma_concat_contains(so_far, found, Effect::GameOver);
            lemma_concat_contains(so_far, found, Effect::Despawn(inspected));
            assert(next.contains(Effect::GameOver));
            assert(next.contains(Effect::Despawn(inspected)));
        } else if !removes(so_far, inspected) {
            assert(so_far + found =~= so_far);
        }
    }
    lemma_over_contacts_invariant(collisions, hit, holds);
    assert(holds(effects));
    if effects.contains(effect) {
        let at = choose|at: int| 0 <= at < effects.len() && effects[at] == effect;
        assert(effects[at] is Despawn || effects[at] is GameOver);
    }
    if effect is Despawn {
        let entity = effect->Despawn_0;
        lemma_ship_rule(ships, colliders);
        lemma_over_contacts_removed(collisions, hit, entity);
        assert forall|k: int| 0 <= k < collisions.len() implies (struck(
            #[trigger] collisions[k],
            entity,
            acts,
        ) <==> struck(collisions[k], entity, destroys)) by {
            let contact = collisions[k];
            assert(acts(entity, contact.entity2) <==> ship_hit(
                ships,
                colliders,
                entity,
                contact.entity2,
            ).len() > 0);
            assert(acts(entity, contact.entity1) <==> ship_hit(
                ships,
                colliders,
                entity,
                contact.entity1,
            ).len() > 0);
        }
    }
}

/// One kill for each ship: no ship is removed twice in a tick, however many
/// hostile contacts it is in.
pub proof fn lemma_ship_removed_once(
    ships: Seq<Member>,
    colliders: Seq<Member>,
    collisions: Seq<Collision>,
)
    ensures
        removals(ship_effects(ships, colliders, collisions)).no_duplicates(),
{
    lemma_ship_rule(ships, colliders);
    lemma_removed_once(
        collisions,
        |inspected: Entity, other: Entity| ship_hit(ships, colliders, inspected, other),
    );
}

/// Ships among colliders of their own team come to no harm.
pub proof fn lemma_ships_among_friends(
    ships: Seq<Member>,
    colliders: Seq<Member>,
    collisions: Seq<Collision>,
    team: u32,
)
    requires
        one_team(ships, team),
        one_team(colliders, team),
    ensures
        ship_effects(ships, colliders, collisions) == Seq::<Effect>::empty(),
{
    let hit = |inspected: Entity, other: Entity| ship_hit(ships, colliders, inspected, other);
    assert forall|inspected: Entity, other: Entity| #[trigger]
        ship_hit(ships, colliders, inspected, other) == Seq::<Effect>::empty() by {
        lemma_friends_are_safe(ships, colliders, inspected, other, team);
    }
    lemma_over_contacts_silent(collisions, hit);
}

/// Applies the destructive rule to the ships: a contact across teams removes
/// the ship and ends the game.
pub fn collisions_ship(
    ships: &Vec<Member>,
    colliders: &Vec<Member>,
    collisions: &Vec<Collision>,
) -> (effects: Vec<Effect>)
    ensures
        effects@ == ship_effects(ships@, colliders@, collisions@),
{
    let mut effects: Vec<Effect> = Vec::new();
    let ghost hit = |inspected: Entity, other: Entity|
        ship_hit(ships@, colliders@, inspected, other);
    let mut i: usize = 0;
    assert(collisions@.take(0) =~= Seq::<Collision>::empty());
    while i < collisions.len()
        invariant
            i <= collisions.len(),
            hit == |inspected: Entity, other: Entity| ship_hit(ships@, colliders@, inspected, other),
            effects@ == over_contacts(collisions@.take(i as int), hit),
        decreases collisions.len() - i,
    {
        let contact = collisions[i];
        proof {
            lemma_over_contacts_step(collisions@, hit, i as int);
        }
        inspect_ship(ships, colliders, contact.entity1, contact.entity2, &mut effects);
        inspect_ship(ships, colliders, contact.entity2, contact.entity1, &mut effects);
        i += 1;
    }
    assert(collisions@.take(i as int) =~= collisions@);
    effects
}

/// Whether command `at` is the last among `commands` that the controller
/// `controller` sent. Each entry of `commands` names the sender of one
/// command, in the order in which the commands arrived.
pub open spec fn latest_from(commands: Seq<Entity>, controller: Entity, at: int) -> bool {
    &&& 0 <= at < commands.len()
    &&& commands[at] == controller
    &&& forall|later: int| at < later < commands.len() ==> commands[later] != controller
}

/// Finds the command that steers `pawn` after a tick in which `commands`
/// arrived: every command of the pawn's own controller overrides the ones
/// before it, so the last of them stands. `None` if the controller sent none.
pub fn latest_command(pawn: &ShipPawn, commands: &Vec<Entity>) -> (latest: Option<usize>)
    ensures
        latest matches Some(at) ==> latest_from(commands@, pawn.controller(), at as int),
        latest is None ==> !commands@.contains(pawn.controller()),
{
    let controller = *pawn.get_controller();
    let mut i: usize = commands.len();
    while i > 0
        invariant
            i <= commands.len(),
            controller == pawn.controller(),
            forall|later: int| i <= later < commands.len() ==> commands@[later] != controller,
        decreases i,
    {
        i -= 1;
        if commands[i] == controller {
            return Some(i);
        }
    }
    None
}

/// One row of a snapshot of the armed ships: who steers the ship and when it
/// last fired.
#[derive(Debug, Clone, Copy)]
pub struct Gunner {
    pub pawn: ShipPawn,
    pub last_shot: TimeStamp,
}

/// Whether `gunner` answers `shot` at `now`: the shot comes from its own
/// controller and its last shot is more than `fire_delay` milliseconds ago.
pub open spec fn fires(gunner: Gunner, shot: Shoot, now: TimeStamp, fire_delay: u64) -> bool {
    gunner.pawn.controller() == shot.controller && gunner.last_shot.lapsed(now, fire_delay)
}

/// The gunner once it has fired at `now`.
pub open spec fn reloaded(gunner: Gunner, now: TimeStamp) -> Gunner {
    Gunner { pawn: gunner.pawn, last_shot: now }
}

/// The snapshot after one shot command: whoever answers it has fired now.
pub open spec fn after_shot(ships: Seq<Gunner>, shot: Shoot, now: TimeStamp, fire_delay: u64) -> Seq<
    Gunner,
> {
    Seq::new(
        ships.len(),
        |i: int|
            if fires(ships[i], shot, now, fire_delay) {
                reloaded(ships[i], now)
            } else {
                ships[i]
            },
    )
}

/// The rows that answer one shot command, in the order of the snapshot.
pub open spec fn firing(ships: Seq<Gunner>, shot: Shoot, now: TimeStamp, fire_delay: u64) -> Seq<
    usize,
>
    decreases ships.len(),
{
    if ships.len() == 0 {
        Seq::empty()
    } else {
        firing(ships.drop_last(), shot, now, fire_delay) + if fires(
            ships.last(),
            shot,
            now,
            fire_delay,
        ) {
            seq![(ships.len() - 1) as usize]
        } else {
            Seq::empty()
        }
    }
}

/// The snapshot after a tick's shot commands, taken one after the other.
pub open spec fn after_shots(
    ships: Seq<Gunner>,
    shots: Seq<Shoot>,
    now: TimeStamp,
    fire_delay: u64,
) -> Seq<Gunner>
    decreases shots.len(),
{
    if shots.len() == 0 {
        ships
    } else {
        after_shot(after_shots(ships, shots.drop_last(), now, fire_delay), shots.last(), now, fire_delay)
    }
}

/// The rows that fire during a tick, one entry for each bullet, in the order
/// in which the bullets are created: command by command, and for one command
/// in the order of the snapshot.
pub open spec fn fired(ships: Seq<Gunner>, shots: Seq<Shoot>, now: TimeStamp, fire_delay: u64) -> Seq<
    usize,
>
    decreases shots.len(),
{
    if shots.len() == 0 {
        Seq::empty()
    } else {
        fired(ships, shots.drop_last(), now, fire_delay) + firing(
            after_shots(ships, shots.drop_last(), now, fire_delay),
            shots.last(),
            now,
            fire_delay,
        )
    }
}

/// Whether one of `shots` comes from the controller of `gunner`.
pub open spec fn addressed(gunner: Gunner, shots: Seq<Shoot>) -> bool {
    exists|k: int|
        0 <= k < shots.len() && (#[trigger] shots[k]).controller == gunner.pawn.controller()
}

/// No ship that one of `shots` addresses carries a stamp later than `now`.
/// Only for those is the age of the last shot taken; the stamp of a ship
/// that gets no command is never read.
pub open spec fn stamps_past(ships: Seq<Gunner>, shots: Seq<Shoot>, now: TimeStamp) -> bool {
    forall|i: int|
        0 <= i < ships.len() && addressed(#[trigger] ships[i], shots) ==> ships[i].last_shot.0
            <= now.0
}

/// Whether one of `shots` finds `gunner` ready to fire.
pub open spec fn triggered(gunner: Gunner, shots: Seq<Shoot>, now: TimeStamp, fire_delay: u64) -> bool {
    exists|k: int| 0 <= k < shots.len() && fires(gunner, #[trigger] shots[k], now, fire_delay)
}

/// A gunner that has just fired does not answer another command of the same
/// tick.
proof fn lemma_reloaded_holds_fire(gunner: Gunner, shot: Shoot, now: TimeStamp, fire_delay: u64)
    ensures
        !fires(reloaded(gunner, now), shot, now, fire_delay),
{
    assert(fire_delay * NANOS_PER_MILLI >= 0) by (nonlinear_arith)
        requires fire_delay >= 0, NANOS_PER_MILLI >= 0;
}

/// What a tick's shot commands leave of the snapshot: a ship whose weapon was
/// cooled down and that got a command of its own controller has fired now;
/// every other ship is as it was.
pub proof fn lemma_after_shots(
    ships: Seq<Gunner>,
    shots: Seq<Shoot>,
    now: TimeStamp,
    fire_delay: u64,
)
    ensures
        after_shots(ships, shots, now, fire_delay).len() == ships.len(),
        forall|i: int|
            0 <= i < ships.len() ==> #[trigger] after_shots(ships, shots, now, fire_delay)[i] == if triggered(
                ships[i],
                shots,
                now,
                fire_delay,
            ) {
                reloaded(ships[i], now)
            } else {
                ships[i]
            },
    decreases shots.len(),
{
    if shots.len() > 0 {
        let rest = shots.drop_last();
        let last = shots.last();
        let table = after_shots(ships, rest, now, fire_delay);
        lemma_after_shots(ships, rest, now, fire_delay);
        assert forall|i: int| 0 <= i < ships.len() implies #[trigger] after_shots(
            ships,
            shots,
            now,
            fire_delay,
        )[i] == if triggered(ships[i], shots, now, fire_delay) {
            reloaded(ships[i], now)
        } else {
            ships[i]
        } by {
            lemma_reloaded_holds_fire(ships[i], last, now, fire_delay);
            if triggered(ships[i], rest, now, fire_delay) {
                let k = choose|k: int|
                    0 <= k < rest.len() && fires(ships[i], #[trigger] rest[k], now, fire_delay);
                assert(shots[k] == rest[k]);
            } else if fires(ships[i], last, now, fire_delay) {
                assert(shots[shots.len() - 1] == last);
            } else if triggered(ships[i], shots, now, fire_delay) {
                let k = choose|k: int|
                    0 <= k < shots.len() && fires(ships[i], #[trigger] shots[k], now, fire_delay);
                assert(k < rest.len());
                assert(rest[k] == shots[k]);
            }
        }
    }
}

/// The rows that answer one command are those that it finds ready.
proof fn lemma_firing_contains(
    ships: Seq<Gunner>,
    shot: Shoot,
    now: TimeStamp,
    fire_delay: u64,
    row: usize,
)
    requires
        ships.len() <= usize::MAX,
    ensures
        firing(ships, shot, now, fire_delay).contains(row) <==> row < ships.len() && fires(
            ships[row as int],
            shot,
            now,
            fire_delay,
        ),
    decreases ships.len(),
{
    if ships.len() > 0 {
        let rest = ships.drop_last();
        let head = firing(rest, shot, now, fire_delay);
        let tail = if fires(ships.last(), shot, now, fire_delay) {
            seq![(ships.len() - 1) as usize]
        } else {
            Seq::empty()
        };
        lemma_firing_contains(rest, shot, now, fire_delay, row);
        lemma_concat_contains(head, tail, row);
        if row < rest.len() {
            assert(rest[row as int] == ships[row as int]);
        }
        if fires(ships.last(), shot, now, fire_delay) {
            assert(tail[0] == (ships.len() - 1) as usize);
        }
    }
}

/// No row answers one command twice.
proof fn lemma_firing_once(ships: Seq<Gunner>, shot: Shoot, now: TimeStamp, fire_delay: u64)
    requires
        ships.len() <= usize::MAX,
    ensures
        firing(ships, shot, now, fire_delay).no_duplicates(),
    decreases ships.len(),
{
    if ships.len() > 0 {
        let rest = ships.drop_last();
        let head = firing(rest, shot, now, fire_delay);
        let tail = if fires(ships.last(), shot, now, fire_delay) {
            seq![(ships.len() - 1) as usize]
        } else {
            Seq::empty()
        };
        lemma_firing_once(rest, shot, now, fire_delay);
        assert forall|i: int, j: int| 0 <= i < head.len() && 0 <= j < tail.len() implies head[i]
            != tail[j] by {
            lemma_firing_contains(rest, shot, now, fire_delay, head[i]);
            assert(head.contains(head[i]));
        }
        vstd::seq_lib::lemma_no_dup_in_concat(head, tail);
    }
}

/// A ship fires in a tick exactly when its weapon was cooled down at the
/// start of the tick and one of the commands came from its own controller.
pub proof fn lemma_fired_contains(
    ships: Seq<Gunner>,
    shots: Seq<Shoot>,
    now: TimeStamp,
    fire_delay: u64,
    row: usize,
)
    requires
        ships.len() <= usize::MAX,
    ensures
        fired(ships, shots, now, fire_delay).contains(row) <==> row < ships.len() && triggered(
            ships[row as int],
            shots,
            now,
            fire_delay,
        ),
    decreases shots.len(),
{
    if shots.len() > 0 {
        let rest = shots.drop_last();
        let last = shots.last();
        let table = after_shots(ships, rest, now, fire_delay);
        let head = fired(ships, rest, now, fire_delay);
        let tail = firing(table, last, now, fire_delay);
        lemma_fired_contains(ships, rest, now, fire_delay, row);
        lemma_after_shots(ships, rest, now, fire_delay);
        lemma_firing_contains(table, last, now, fire_delay, row);
        lemma_concat_contains(head, tail, row);
        if row < ships.len() {
            let gunner = ships[row as int];
            lemma_reloaded_holds_fire(gunner, last, now, fire_delay);
            assert(shots[shots.len() - 1] == last);
            if triggered(gunner, rest, now, fire_delay) {
                let k = choose|k: int|
                    0 <= k < rest.len() && fires(gunner, #[trigger] rest[k], now, fire_delay);
                assert(shots[k] == rest[k]);
            }
            if triggered(gunner, shots, now, fire_delay) {
                let k = choose|k: int|
                    0 <= k < shots.len() && fires(gunner, #[trigger] shots[k], now, fire_delay);
                if k < rest.len() {
                    assert(rest[k] == shots[k]);
                }
            }
        }
    }
}

/// A ship fires at most once in a tick, however many commands it gets.
pub proof fn lemma_fired_once(ships: Seq<Gunner>, shots: Seq<Shoot>, now: TimeStamp, fire_delay: u64)
    requires
        ships.len() <= usize::MAX,
    ensures
        fired(ships, shots, now, fire_delay).no_duplicates(),
    decreases shots.len(),
{
    if shots.len() > 0 {
        let rest = shots.drop_last();
        let last = shots.last();
        let table = after_shots(ships, rest, now, fire_delay);
        let head = fired(ships, rest, now, fire_delay);
        let tail = firing(table, last, now, fire_delay);
        lemma_fired_once(ships, rest, now, fire_delay);
        lemma_after_shots(ships, rest, now, fire_delay);
        lemma_firing_once(table, last, now, fire_delay);
        assert forall|i: int, j: int| 0 <= i < head.len() && 0 <= j < tail.len() implies head[i]
            != tail[j] by {
            let row = head[i];
            assert(head.contains(row));
            lemma_fired_contains(ships, rest, now, fire_delay, row);
            lemma_reloaded_holds_fire(ships[row as int], last, now, fire_delay);
            lemma_firing_contains(table, last, now, fire_delay, row);
            if tail[j] == row {
                assert(tail.contains(row));
            }
        }
        vstd::seq_lib::lemma_no_dup_in_concat(head, tail);
    }
}

fn shoot_one(ships: &mut Vec<Gunner>, shot: Shoot, now: TimeStamp, fire_delay: u64, bullets: &mut Vec<usize>)
    requires
        forall|k: int|
            0 <= k < old(ships)@.len() && (#[trigger] old(ships)@[k]).pawn.controller()
                == shot.controller ==> old(ships)@[k].last_shot.0 <= now.0,
    ensures
        final(ships)@ == after_shot(old(ships)@, shot, now, fire_delay),
        final(bullets)@ == old(bullets)@ + firing(old(ships)@, shot, now, fire_delay),
{
    let ghost start = ships@;
    let ghost before = bullets@;
    let mut i: usize = 0;
    assert(start.take(0) =~= Seq::<Gunner>::empty());
    assert(bullets@ =~= before + Seq::<usize>::empty());
    while i < ships.len()
        invariant
            i <= ships.len(),
            ships@.len() == start.len(),
            forall|k: int|
                0 <= k < start.len() && (#[trigger] start[k]).pawn.controller() == shot.controller
                    ==> start[k].last_shot.0 <= now.0,
            forall|k: int| 0 <= k < i ==> ships@[k] == after_shot(start, shot, now, fire_delay)[k],
            forall|k: int| i <= k < ships@.len() ==> ships@[k] == start[k],
            bullets@ == before + firing(start.take(i as int), shot, now, fire_delay),
        decreases ships.len() - i,
    {
        let gunner = ships[i];
        proof {
            let longer = start.take(i + 1);
            assert(longer.drop_last() =~= start.take(i as int));
            assert(longer.last() == gunner);
            assert(gunner == start[i as int]);
        }
        let ghost so_far = bullets@;
        if *gunner.pawn.get_controller() == shot.controller && gunner.last_shot.older_than(
            now,
            fire_delay,
        ) {
            ships.set(i, Gunner { pawn: gunner.pawn, last_shot: now });
            bullets.push(i);
            assert(bullets@ =~= before + firing(start.take(i + 1), shot, now, fire_delay));
        } else {
            assert(bullets@ =~= before + firing(start.take(i + 1), shot, now, fire_delay));
        }
        i += 1;
    }
    assert(start.take(i as int) =~= start);
    assert(ships@ =~= after_shot(start, shot, now, fire_delay));
}

/// Answers the shot commands of one tick. A ship fires when a command of its
/// own controller finds its weapon cooled down, and its cooldown starts
/// anew with the shot. Returns the rows that fire, one entry for each bullet
/// to create.
///
/// The last shot of a ship that gets a command must not lie in the future;
/// of ships that get none, nothing is asked.
pub fn shoot(ships: &mut Vec<Gunner>, shots: &Vec<Shoot>, now: TimeStamp, fire_delay: u64) -> (bullets:
    Vec<usize>)
    requires
        stamps_past(old(ships)@, shots@, now),
    ensures
        final(ships)@ == after_shots(old(ships)@, shots@, now, fire_delay),
        bullets@ == fired(old(ships)@, shots@, now, fire_delay),
{
    let ghost start = ships@;
    let mut bullets: Vec<usize> = Vec::new();
    let mut i: usize = 0;
    assert(shots@.take(0) =~= Seq::<Shoot>::empty());
    while i < shots.len()
        invariant
            i <= shots.len(),
            ships@.len() == start.len(),
            forall|r: int| 0 <= r < start.len() ==> (#[trigger] ships@[r]).pawn == start[r].pawn,
            stamps_past(ships@, shots@, now),
            ships@ == after_shots(start, shots@.take(i as int), now, fire_delay),
            bullets@ == fired(start, shots@.take(i as int), now, fire_delay),
        decreases shots.len() - i,
    {
        proof {
            let longer = shots@.take(i + 1);
            assert(longer.drop_last() =~= shots@.take(i as int));
            assert(longer.last() == shots@[i as int]);
        }
        let ghost table = ships@;
        proof {
            assert forall|k: int|
                0 <= k < table.len() && (#[trigger] table[k]).pawn.controller() == shots@[i as int].controller implies table[k].last_shot.0
                <= now.0 by {
                assert(addressed(table[k], shots@));
            }
        }
        shoot_one(ships, shots[i], now, fire_delay, &mut bullets);
        proof {
            assert forall|r: int| 0 <= r < start.len() implies (#[trigger] ships@[r]).pawn
                == start[r].pawn by {
                assert(table[r].pawn == start[r].pawn);
            }
            assert forall|r: int|
                0 <= r < ships@.len() && addressed(#[trigger] ships@[r], shots@) implies ships@[r].last_shot.0
                <= now.0 by {
                assert(ships@[r].pawn == table[r].pawn);
                assert(addressed(table[r], shots@));
            }
        }
        i += 1;
    }
    assert(shots@.take(i as int) =~= shots@);
    bullets
}

} // verus!
