//! What the rules read of a rigid body: the time stamps that cooldowns and
//! lifetimes go by, its collider team, and the contacts it takes part in.
//! Also the two scans that work on bodies as such: the detector that finds
//! the overlapping pairs, and the choice of the contacts that are resolved
//! physically.

use vstd::prelude::*;
use crate::entity::Entity;

verus! {

/// Nanoseconds in a millisecond.
pub const NANOS_PER_MILLI: u128 = 1_000_000;

/// The simulated time of the last event that an entity recorded, in
/// nanoseconds since the simulation started.
#[derive(Debug, Clone, Copy, PartialEq, Eq, Structural, Hash)]
pub struct TimeStamp(pub u128);

impl TimeStamp {
    /// Whether strictly more than `millis` milliseconds lie between this
    /// stamp and `now`.
    pub open spec fn lapsed(self, now: TimeStamp, millis: u64) -> bool {
        now.0 - self.0 > millis * NANOS_PER_MILLI
    }

    /// Tests whether the stamp is more than `millis` milliseconds old. A
    /// stamp is never later than the current time.
    pub fn older_than(&self, now: TimeStamp, millis: u64) -> (expired: bool)
        requires
            self.0 <= now.0,
        ensures
            expired == self.lapsed(now, millis),
    {
        now.0 - self.0 > (millis as u128) * NANOS_PER_MILLI
    }
}

/// The side a body fights on. Bodies of one team bounce off each other
/// without harm; a contact across teams destroys.
#[derive(Debug, Clone, Copy, PartialEq, Eq, Structural, Hash)]
pub struct Collider {
    pub team: u32,
}

impl Collider {
    /// Whether a contact between the two is destructive.
    pub open spec fn hostile(self, other: Collider) -> bool {
        self.team != other.team
    }

    /// Whether a contact with `other` destroys the body that carries `self`.
    pub fn is_hostile(&self, other: &Collider) -> (hostile: bool)
        ensures
            hostile == self.hostile(*other),
    {
        self.team != other.team
    }
}

/// One pair of overlapping bodies, as the detector reported it for the
/// current tick. The geometry of the contact stays with the caller.
#[derive(Debug, Clone, Copy, PartialEq, Eq, Structural, Hash)]
pub struct Collision {
    pub entity1: Entity,
    pub entity2: Entity,
}

/// One row of a snapshot of the entities that carry a collider.
#[derive(Debug, Clone, Copy, PartialEq, Eq, Structural, Hash)]
pub struct Member {
    pub entity: Entity,
    pub collider: Collider,
}

/// The collider that `rows` holds for `entity`: that of the first row which
/// names it, if there is one.
pub open spec fn collider_of(rows: Seq<Member>, entity: Entity) -> Option<Collider>
    decreases rows.len(),
{
    if rows.len() == 0 {
        None
    } else if rows[0].entity == entity {
        Some(rows[0].collider)
    } else {
        collider_of(rows.drop_first(), entity)
    }
}

/// Looks `entity` up in a snapshot.
pub fn find_collider(rows: &Vec<Member>, entity: Entity) -> (found: Option<Collider>)
    ensures
        found == collider_of(rows@, entity),
{
    let mut i: usize = 0;
    assert(rows@.skip(0) =~= rows@);
    while i < rows.len()
        invariant
            i <= rows.len(),
            collider_of(rows@, entity) == collider_of(rows@.skip(i as int), entity),
        decreases rows.len() - i,
    {
        let ghost rest = rows@.skip(i as int);
        assert(rest[0] == rows@[i as int]);
        assert(rest.drop_first() =~= rows@.skip(i + 1));
        if rows[i].entity == entity {
            return Some(rows[i].collider);
        }
        i += 1;
    }
    assert(rows@.skip(i as int).len() == 0);
    None
}

/// A lookup that succeeds returns the collider of a row that names the
/// entity, and a lookup fails only if no row names it.
pub proof fn lemma_collider_of(rows: Seq<Member>, entity: Entity)
    ensures
        match collider_of(rows, entity) {
            Some(collider) => rows.contains(Member { entity, collider }),
            None => forall|i: int| 0 <= i < rows.len() ==> (#[trigger] rows[i]).entity != entity,
        },
    decreases rows.len(),
{
    if rows.len() > 0 {
        let rest = rows.drop_first();
        lemma_collider_of(rest, entity);
        if rows[0].entity == entity {
            assert(rows[0] == Member { entity, collider: rows[0].collider });
        } else {
            match collider_of(rest, entity) {
                Some(collider) => {
                    let found = Member { entity, collider };
                    let at = choose|at: int| 0 <= at < rest.len() && rest[at] == found;
                    assert(rows[at + 1] == found);
                },
                None => {
                    assert forall|i: int| 0 <= i < rows.len() implies (#[trigger] rows[i]).entity
                        != entity by {
                        if i > 0 {
                            assert(rest[i - 1] == rows[i]);
                        }
                    }
                },
            }
        }
    }
}

/// Whether every row of the snapshot is on `team`.
pub open spec fn one_team(rows: Seq<Member>, team: u32) -> bool {
    forall|i: int| 0 <= i < rows.len() ==> (#[trigger] rows[i]).collider.team == team
}

/// Whether pair `a` is visited before pair `b`: pairs go by their first
/// index, and by their second among those that share the first.
pub open spec fn pair_before(a: (usize, usize), b: (usize, usize)) -> bool {
    a.0 < b.0 || (a.0 == b.0 && a.1 < b.1)
}

/// Whether `pair` is one that a scan of `count` bodies visits: two different
/// bodies, the lower index first.
pub open spec fn in_scan(pair: (usize, usize), count: usize) -> bool {
    pair.0 < pair.1 < count
}

/// Whether `contacts` are in the order of the scan, each before the next.
pub open spec fn scan_ordered(contacts: Seq<(usize, usize)>) -> bool {
    forall|k: int, l: int| 0 <= k < l < contacts.len() ==> pair_before(contacts[k], contacts[l])
}

/// Whether `contacts` report the bodies `i` and `j` as overlapping, in
/// whichever order the two are named.
pub open spec fn reported(contacts: Seq<(usize, usize)>, i: usize, j: usize) -> bool {
    contacts.contains((i, j)) || contacts.contains((j, i))
}

/// Scans `count` bodies for overlaps. Every unordered pair of distinct
/// bodies is put to `overlap` once, lower index first, and the pairs that it
/// reports as overlapping are returned in the order of the scan.
///
/// A pair is therefore reported at most once and never in both orders.
pub fn collisions<F: Fn(usize, usize) -> bool>(count: usize, overlap: F) -> (contacts: Vec<(usize, usize)>)
    requires
        forall|i: usize, j: usize| i < j < count ==> call_requires(overlap, (i, j)),
    ensures
        forall|k: int| 0 <= k < contacts@.len() ==> in_scan(#[trigger] contacts@[k], count),
        forall|k: int|
            0 <= k < contacts@.len() ==> call_ensures(overlap, #[trigger] contacts@[k], true),
        forall|i: usize, j: usize|
            i < j < count && !contacts@.contains((i, j)) ==> call_ensures(overlap, (i, j), false),
        scan_ordered(contacts@),
{
    let mut contacts: Vec<(usize, usize)> = Vec::new();
    let mut i: usize = 0;
    while i < count
        invariant
            i <= count,
            forall|a: usize, b: usize| a < b < count ==> call_requires(overlap, (a, b)),
            forall|k: int| 0 <= k < contacts@.len() ==> in_scan(#[trigger] contacts@[k], count),
            forall|k: int| 0 <= k < contacts@.len() ==> (#[trigger] contacts@[k]).0 < i,
            forall|k: int|
                0 <= k < contacts@.len() ==> call_ensures(overlap, #[trigger] contacts@[k], true),
            forall|a: usize, b: usize|
                a < b < count && a < i && !contacts@.contains((a, b)) ==> call_ensures(
                    overlap,
                    (a, b),
                    false,
                ),
            scan_ordered(contacts@),
        decreases count - i,
    {
        let mut j: usize = i + 1;
        while j < count
            invariant
                i < count,
                i < j <= count,
                forall|a: usize, b: usize| a < b < count ==> call_requires(overlap, (a, b)),
                forall|k: int| 0 <= k < contacts@.len() ==> in_scan(#[trigger] contacts@[k], count),
                forall|k: int|
                    0 <= k < contacts@.len() ==> pair_before(#[trigger] contacts@[k], (i, j)),
                forall|k: int|
                    0 <= k < contacts@.len() ==> call_ensures(
                        overlap,
                        #[trigger] contacts@[k],
                        true,
                    ),
                forall|a: usize, b: usize|
                    a < b < count && pair_before((a, b), (i, j)) && !contacts@.contains((a, b))
                        ==> call_ensures(overlap, (a, b), false),
                scan_ordered(contacts@),
            decreases count - j,
        {
            let ghost before = contacts@;
            let hit = overlap(i, j);
            if hit {
                contacts.push((i, j));
                assert(contacts@[before.len() as int] == (i, j));
            }
            proof {
                assert forall|a: usize, b: usize|
                    a < b < count && pair_before((a, b), (i, (j + 1) as usize))
                        && !contacts@.contains((a, b)) implies call_ensures(
                    overlap,
                    (a, b),
                    false,
                ) by {
                    if a == i && b == j {
                    } else {
                        if before.contains((a, b)) {
                            let at = choose|at: int| 0 <= at < before.len() && before[at] == (a, b);
                            assert(contacts@[at] == (a, b));
                        }
                    }
                }
            }
            j += 1;
        }
        i += 1;
    }
    contacts
}

/// Contacts in the order of the scan hold no pair twice, and never a pair
/// together with its mirror image: an overlap is reported once, whichever of
/// the two bodies one starts from.
pub proof fn lemma_scan_reports_once(contacts: Seq<(usize, usize)>, count: usize, k: int, l: int)
    requires
        scan_ordered(contacts),
        forall|m: int| 0 <= m < contacts.len() ==> in_scan(#[trigger] contacts[m], count),
        0 <= k < contacts.len(),
        0 <= l < contacts.len(),
    ensures
        k != l ==> contacts[k] != contacts[l],
        contacts[k] != (contacts[l].1, contacts[l].0),
{
    assert(in_scan(contacts[k], count));
    assert(in_scan(contacts[l], count));
    if k < l {
        assert(pair_before(contacts[k], contacts[l]));
    } else if l < k {
        assert(pair_before(contacts[l], contacts[k]));
    }
}

/// Detection does not depend on which of two bodies comes first. If the
/// overlap test itself gives the same answer for a pair and its mirror image,
/// then two different bodies are reported exactly when they overlap, whether
/// one asks for the first with the second or for the second with the first.
pub proof fn lemma_scan_is_symmetric(
    contacts: Seq<(usize, usize)>,
    count: usize,
    overlaps: spec_fn(usize, usize) -> bool,
    i: usize,
    j: usize,
)
    requires
        forall|m: int| 0 <= m < contacts.len() ==> in_scan(#[trigger] contacts[m], count),
        forall|a: usize, b: usize|
            a < b < count ==> (contacts.contains((a, b)) <==> #[trigger] overlaps(a, b)),
        forall|a: usize, b: usize| #[trigger] overlaps(a, b) == overlaps(b, a),
        i < count,
        j < count,
        i != j,
    ensures
        reported(contacts, i, j) == reported(contacts, j, i),
        reported(contacts, i, j) == overlaps(i, j),
{
    if i < j {
        if contacts.contains((j, i)) {
            let at = choose|at: int| 0 <= at < contacts.len() && contacts[at] == (j, i);
            assert(in_scan(contacts[at], count));
        }
        assert(contacts.contains((i, j)) <==> overlaps(i, j));
    } else {
        if contacts.contains((i, j)) {
            let at = choose|at: int| 0 <= at < contacts.len() && contacts[at] == (i, j);
            assert(in_scan(contacts[at], count));
        }
        assert(contacts.contains((j, i)) <==> overlaps(j, i));
    }
}

/// Whether the resolver treats a contact, given the entities that still
/// carry motion state and mass: both sides must be among them, and they must
/// be two different entities.
pub open spec fn bounces(bodies: Seq<Entity>, contact: Collision) -> bool {
    &&& contact.entity1 != contact.entity2
    &&& bodies.contains(contact.entity1)
    &&& bodies.contains(contact.entity2)
}

fn carries(bodies: &Vec<Entity>, entity: Entity) -> (found: bool)
    ensures
        found == bodies@.contains(entity),
{
    let mut i: usize = 0;
    while i < bodies.len()
        invariant
            i <= bodies.len(),
            forall|k: int| 0 <= k < i ==> bodies@[k] != entity,
        decreases bodies.len() - i,
    {
        if bodies[i] == entity {
            return true;
        }
        i += 1;
    }
    false
}

/// Picks the contacts that the resolver treats, as positions in
/// `collisions`, in ascending order. Whether a body is about to be destroyed
/// plays no part: the contact is resolved physically all the same.
pub fn bounce_contacts(bodies: &Vec<Entity>, collisions: &Vec<Collision>) -> (picked: Vec<usize>)
    ensures
        forall|k: int| 0 <= k < picked@.len() ==> (#[trigger] picked@[k]) < collisions@.len(),
        forall|k: int|
            0 <= k < picked@.len() ==> bounces(bodies@, collisions@[(#[trigger] picked@[k]) as int]),
        forall|i: int|
            0 <= i < collisions@.len() && bounces(bodies@, collisions@[i]) ==> picked@.contains(
                i as usize,
            ),
        forall|k: int, l: int| 0 <= k < l < picked@.len() ==> picked@[k] < picked@[l],
{
    let mut picked: Vec<usize> = Vec::new();
    let mut i: usize = 0;
    while i < collisions.len()
        invariant
            i <= collisions.len(),
            forall|k: int| 0 <= k < picked@.len() ==> (#[trigger] picked@[k]) < i,
            forall|k: int|
                0 <= k < picked@.len() ==> bounces(
                    bodies@,
                    collisions@[(#[trigger] picked@[k]) as int],
                ),
            forall|c: int|
                0 <= c < i && bounces(bodies@, collisions@[c]) ==> picked@.contains(c as usize),
            forall|k: int, l: int| 0 <= k < l < picked@.len() ==> picked@[k] < picked@[l],
        decreases collisions.len() - i,
    {
        let contact = collisions[i];
        let ghost before = picked@;
        if contact.entity1 != contact.entity2 && carries(bodies, contact.entity1) && carries(
            bodies,
            contact.entity2,
        ) {
            picked.push(i);
            assert(picked@[before.len() as int] == i);
        }
        proof {
            assert forall|c: int|
                0 <= c < i + 1 && bounces(bodies@, collisions@[c]) implies picked@.contains(
                c as usize,
            ) by {
                if c < i {
                    let at = choose|at: int| 0 <= at < before.len() && before[at] == c as usize;
                    assert(picked@[at] == c as usize);
                }
            }
        }
        i += 1;
    }
    picked
}

} // verus!
