//! Which enemies near our rooms are worth sending a squad against, and how urgently.
//!
//! A squad is sent to where the enemy is, not to the room that it threatens. An enemy in a room of ours
//! comes first, then one next door; one that is further away than the leash is left alone.
use crate::fixed::{plus, to_i64, Milli};
use crate::parts::Part;
use vstd::prelude::*;

verus! {

/// The priority of an enemy in a room of ours, in thousandths.
pub const DEFENSE_PRIORITY_CRITICAL: Milli = 100_000;

/// The priority of an enemy next to a room of ours, in thousandths.
pub const DEFENSE_PRIORITY_HIGH: Milli = 75_000;

/// The priority of an enemy further away, in thousandths.
pub const DEFENSE_PRIORITY_MEDIUM: Milli = 50_000;

/// How many rooms away an enemy is still followed.
pub const DEFAULT_LEASH: u32 = 2;

/// An enemy that was found.
#[derive(Clone, Copy, Debug, PartialEq)]
pub struct Threat<R> {
    /// The room where it is.
    pub room: R,
    /// How dangerous its creeps are, in thousandths: ranks enemies of the same priority.
    pub danger: Milli,
    /// The damage of its towers, in thousandths. Only handed on.
    pub tower_danger: Milli,
}

/// A room of ours.
#[derive(Clone, Copy, Debug, PartialEq)]
pub struct OwnedRoom<R> {
    pub room: R,
    /// What it is worth, in thousandths.
    pub value: Milli,
}

/// A room to clear of enemies.
#[derive(Clone, Copy, Debug, PartialEq)]
pub struct SecureEmission<R> {
    /// The room where the enemy is.
    pub room: R,
    /// How urgent it is, in thousandths.
    pub priority: Milli,
    /// The enemy is in a room of ours or next to one.
    pub asset_boosted: bool,
}

/// How far to go.
#[derive(Clone, Copy, Debug, PartialEq, Eq, Structural)]
pub struct DefensePolicy {
    /// How many rooms from the nearest of ours an enemy is still followed.
    pub leash: u32,
}

impl Default for DefensePolicy {
    fn default() -> (p: Self)
        ensures
            p.leash == DEFAULT_LEASH,
    {
        DefensePolicy { leash: DEFAULT_LEASH }
    }
}

// ---------------------------------------------------------------------------------------------
// Distances.
// ---------------------------------------------------------------------------------------------

/// `least` is the least of what `dist` gives from the rooms of ours to `room`, or `None` where we have no
/// room.
pub open spec fn is_nearest<R, D: Fn(R, R) -> u32>(
    owned: Seq<OwnedRoom<R>>,
    room: R,
    dist: D,
    least: Option<u32>,
) -> bool {
    match least {
        None => owned.len() == 0,
        Some(d) => {
            &&& exists|i: int|
                0 <= i < owned.len() && dist.ensures(((#[trigger] owned[i]).room, room), d)
            &&& forall|i: int|
                0 <= i < owned.len() ==> exists|e: u32|
                    d <= e && #[trigger] dist.ensures(((#[trigger] owned[i]).room, room), e)
        },
    }
}

/// The distance from the nearest room of ours.
fn nearest_owned<R: Copy, D: Fn(R, R) -> u32>(owned: &[OwnedRoom<R>], room: R, dist: &D) -> (least:
    Option<u32>)
    requires
        forall|a: R, b: R| #[trigger] dist.requires((a, b)),
    ensures
        is_nearest(owned@, room, *dist, least),
{
    let mut least: Option<u32> = None;
    let mut i: usize = 0;
    assert(owned@.take(0) =~= Seq::empty());
    while i < owned.len()
        invariant
            forall|a: R, b: R| #[trigger] dist.requires((a, b)),
            i <= owned@.len(),
            is_nearest(owned@.take(i as int), room, *dist, least),
        decreases owned@.len() - i,
    {
        let d: u32 = dist(owned[i].room, room);
        let ghost before = owned@.take(i as int);
        let ghost seen = owned@.take(i + 1);
        let closer = match least {
            Some(l) => d < l,
            None => true,
        };
        let ghost was = least;
        if closer {
            least = Some(d);
        }
        proof {
            assert(seen[i as int] == owned@[i as int]);
            assert(dist.ensures((seen[i as int].room, room), d));
            let l = least->0;
            if !closer {
                let k = choose|k: int|
                    0 <= k < before.len() && dist.ensures(((#[trigger] before[k]).room, room), l);
                assert(seen[k] == before[k]);
                assert(dist.ensures((seen[k].room, room), l));
            }
            assert forall|k: int| 0 <= k < seen.len() implies exists|e: u32|
                l <= e && #[trigger] dist.ensures(((#[trigger] seen[k]).room, room), e) by {
                if k < i {
                    assert(seen[k] == before[k]);
                    assert(was is Some);
                    let e = choose|e: u32|
                        was->0 <= e && #[trigger] dist.ensures((before[k].room, room), e);
                    assert(l <= e && dist.ensures((seen[k].room, room), e));
                } else {
                    assert(l <= d && dist.ensures((seen[k].room, room), d));
                }
            }
        }
        i = i + 1;
    }
    assert(owned@.take(i as int) =~= owned@);
    least
}

// ---------------------------------------------------------------------------------------------
// Squads to send.
// ---------------------------------------------------------------------------------------------

/// An enemy at this distance is followed.
pub open spec fn is_chased(least: Option<u32>, leash: u32) -> bool {
    least is Some && least->0 <= leash
}

/// The priority of an enemy at this distance.
pub open spec fn priority_at(distance: u32) -> Milli {
    if distance == 0 {
        DEFENSE_PRIORITY_CRITICAL
    } else if distance == 1 {
        DEFENSE_PRIORITY_HIGH
    } else {
        DEFENSE_PRIORITY_MEDIUM
    }
}

/// What to send against the enemy.
pub open spec fn emission<R>(threat: Threat<R>, distance: u32) -> SecureEmission<R> {
    SecureEmission {
        room: threat.room,
        priority: priority_at(distance),
        asset_boosted: distance <= 1,
    }
}

/// The `i`th enemy comes before the `j`th: it is more urgent, or as urgent and more dangerous, or neither
/// and found earlier.
pub open spec fn comes_first<R>(
    threats: Seq<Threat<R>>,
    near: Seq<Option<u32>>,
    i: int,
    j: int,
) -> bool {
    let (p, q) = (priority_at(near[i]->0), priority_at(near[j]->0));
    p > q || (p == q && (threats[i].danger > threats[j].danger || (threats[i].danger
        == threats[j].danger && i < j)))
}

/// The enemies among the first `n` that are followed, each once, in the order in which they come.
pub open spec fn is_order<R>(
    threats: Seq<Threat<R>>,
    near: Seq<Option<u32>>,
    leash: u32,
    n: int,
    order: Seq<int>,
) -> bool {
    &&& forall|k: int|
        0 <= k < order.len() ==> 0 <= #[trigger] order[k] < n && is_chased(near[order[k]], leash)
    &&& forall|j: int| 0 <= j < n && is_chased(near[j], leash) ==> #[trigger] order.contains(j)
    &&& forall|k: int, l: int|
        0 <= k < l < order.len() ==> comes_first(
            threats,
            near,
            #[trigger] order[k],
            #[trigger] order[l],
        )
}

/// What to send where, in that order.
pub open spec fn emissions<R>(
    threats: Seq<Threat<R>>,
    near: Seq<Option<u32>>,
    order: Seq<int>,
) -> Seq<SecureEmission<R>> {
    Seq::new(order.len(), |k: int| emission(threats[order[k]], near[order[k]]->0))
}

/// The nearest of our rooms is this far from each enemy.
pub open spec fn are_nearest<R, D: Fn(R, R) -> u32>(
    owned: Seq<OwnedRoom<R>>,
    threats: Seq<Threat<R>>,
    dist: D,
    near: Seq<Option<u32>>,
) -> bool {
    &&& near.len() == threats.len()
    &&& forall|j: int|
        0 <= j < threats.len() ==> is_nearest(owned, threats[j].room, dist, #[trigger] near[j])
}

/// The priority of defending at a distance.
fn priority_of(distance: u32) -> (p: Milli)
    ensures
        p == priority_at(distance),
{
    if distance == 0 {
        DEFENSE_PRIORITY_CRITICAL
    } else if distance == 1 {
        DEFENSE_PRIORITY_HIGH
    } else {
        DEFENSE_PRIORITY_MEDIUM
    }
}

/// The entries, as integers.
spec fn indices(order: Seq<usize>) -> Seq<int> {
    Seq::new(order.len(), |k: int| order[k] as int)
}

/// Where the `j`th enemy, the last one found, comes among those before it.
fn place_of<R>(threats: &[Threat<R>], near: &[Option<u32>], leash: u32, order: &Vec<usize>, j: usize) -> (at:
    usize)
    requires
        near@.len() == threats@.len(),
        j < threats@.len(),
        is_chased(near@[j as int], leash),
        is_order(threats@, near@, leash, j as int, indices(order@)),
    ensures
        at <= order@.len(),
        forall|k: int|
            0 <= k < at ==> comes_first(threats@, near@, #[trigger] indices(order@)[k], j as int),
        forall|k: int|
            at <= k < order@.len() ==> comes_first(
                threats@,
                near@,
                j as int,
                #[trigger] indices(order@)[k],
            ),
{
    let ghost ranks = indices(order@);
    let p: Milli = match near[j] {
        Some(d) => priority_of(d),
        None => 0,
    };
    let mut at: usize = 0;
    while at < order.len()
        invariant
            near@.len() == threats@.len(),
            j < threats@.len(),
            is_chased(near@[j as int], leash),
            ranks == indices(order@),
            is_order(threats@, near@, leash, j as int, ranks),
            p == priority_at(near@[j as int]->0),
            at <= order@.len(),
            forall|k: int|
                0 <= k < at ==> comes_first(threats@, near@, #[trigger] ranks[k], j as int),
        decreases order@.len() - at,
    {
        assert(ranks[at as int] == order@[at as int]);
        let other: usize = order[at];
        let q: Milli = match near[other] {
            Some(d) => priority_of(d),
            None => 0,
        };
        if p > q || (p == q && threats[j].danger > threats[other].danger) {
            assert forall|k: int| at <= k < order@.len() implies comes_first(
                threats@,
                near@,
                j as int,
                #[trigger] ranks[k],
            ) by {
                assert(at < k ==> comes_first(threats@, near@, ranks[at as int], ranks[k]));
            }
            return at;
        }
        at = at + 1;
    }
    at
}

/// An order stays one when the next enemy takes its place in it.
proof fn lemma_inserted<R>(
    threats: Seq<Threat<R>>,
    near: Seq<Option<u32>>,
    leash: u32,
    order: Seq<int>,
    j: int,
    at: int,
)
    requires
        0 <= j < threats.len(),
        near.len() == threats.len(),
        is_chased(near[j], leash),
        is_order(threats, near, leash, j, order),
        0 <= at <= order.len(),
        forall|k: int| 0 <= k < at ==> comes_first(threats, near, #[trigger] order[k], j),
        forall|k: int| at <= k < order.len() ==> comes_first(threats, near, j, #[trigger] order[k]),
    ensures
        is_order(threats, near, leash, j + 1, order.insert(at, j)),
{
    let new = order.insert(at, j);
    assert(new[at] == j);
    assert forall|k: int| 0 <= k < new.len() implies #[trigger] new[k] == (if k < at {
        order[k]
    } else if k == at {
        j
    } else {
        order[k - 1]
    }) by {}
    assert forall|i: int| 0 <= i < j + 1 && is_chased(near[i], leash) implies #[trigger] new.contains(
        i,
    ) by {
        if i < j {
            assert(order.contains(i));
            let k = choose|k: int| 0 <= k < order.len() && order[k] == i;
            if k < at {
                assert(new[k] == i);
            } else {
                assert(new[k + 1] == i);
            }
        }
    }
}

/// What to send against which of the enemies, where the nearest of our rooms is `near` from each of them:
/// the most urgent first, then the most dangerous.
pub fn rank_threats<R: Copy>(
    threats: &[Threat<R>],
    near: &[Option<u32>],
    policy: DefensePolicy,
) -> (out: Vec<SecureEmission<R>>)
    requires
        near@.len() == threats@.len(),
    ensures
        is_ranking(threats@, near@, policy, out@),
{
    let mut order: Vec<usize> = Vec::new();
    let mut j: usize = 0;
    while j < threats.len()
        invariant
            near@.len() == threats@.len(),
            j <= threats@.len(),
            is_order(threats@, near@, policy.leash, j as int, indices(order@)),
        decreases threats@.len() - j,
    {
        let chased = match near[j] {
            Some(d) => d <= policy.leash,
            None => false,
        };
        if chased {
            let at: usize = place_of(threats, near, policy.leash, &order, j);
            let ghost before = indices(order@);
            order.insert(at, j);
            proof {
                lemma_inserted(threats@, near@, policy.leash, before, j as int, at as int);
                assert(indices(order@) =~= before.insert(at as int, j as int));
            }
        }
        j = j + 1;
    }
    let ghost ranks = indices(order@);
    let mut out: Vec<SecureEmission<R>> = Vec::new();
    let mut k: usize = 0;
    while k < order.len()
        invariant
            near@.len() == threats@.len(),
            ranks == indices(order@),
            is_order(threats@, near@, policy.leash, threats@.len() as int, ranks),
            k <= order@.len(),
            out@ =~= emissions(threats@, near@, ranks).take(k as int),
        decreases order@.len() - k,
    {
        assert(ranks[k as int] == order@[k as int]);
        let j: usize = order[k];
        let d: u32 = match near[j] {
            Some(d) => d,
            None => 0,
        };
        out.push(
            SecureEmission {
                room: threats[j].room,
                priority: priority_of(d),
                asset_boosted: d <= 1,
            },
        );
        k = k + 1;
    }
    assert(out@ =~= emissions(threats@, near@, ranks));
    out
}

/// What to send where: one squad for each enemy that is followed, in their order.
pub open spec fn is_ranking<R>(
    threats: Seq<Threat<R>>,
    near: Seq<Option<u32>>,
    policy: DefensePolicy,
    out: Seq<SecureEmission<R>>,
) -> bool {
    exists|order: Seq<int>|
        #[trigger] is_order(threats, near, policy.leash, threats.len() as int, order) && out
            == emissions(threats, near, order)
}

/// What to send against which of the enemies. `dist` gives the number of rooms between two rooms: none for
/// the same, one for neighbours.
pub fn emit_defense<R: Copy, D: Fn(R, R) -> u32>(
    owned: &[OwnedRoom<R>],
    threats: &[Threat<R>],
    policy: DefensePolicy,
    dist: D,
) -> (out: Vec<SecureEmission<R>>)
    requires
        forall|a: R, b: R| #[trigger] dist.requires((a, b)),
    ensures
        exists|near: Seq<Option<u32>>|
            #[trigger] are_nearest(owned@, threats@, dist, near) && is_ranking(
                threats@,
                near,
                policy,
                out@,
            ),
{
    let mut near: Vec<Option<u32>> = Vec::new();
    let mut j: usize = 0;
    while j < threats.len()
        invariant
            forall|a: R, b: R| #[trigger] dist.requires((a, b)),
            j <= threats@.len(),
            near@.len() == j,
            forall|i: int|
                0 <= i < j ==> is_nearest(owned@, threats@[i].room, dist, #[trigger] near@[i]),
        decreases threats@.len() - j,
    {
        let least = nearest_owned(owned, threats[j].room, &dist);
        near.push(least);
        j = j + 1;
    }
    assert(are_nearest(owned@, threats@, dist, near@));
    rank_threats(threats, &near, policy)
}

// ---------------------------------------------------------------------------------------------
// Enemies to find.
// ---------------------------------------------------------------------------------------------

/// A room that was looked at.
#[derive(Clone, Copy, Debug, PartialEq)]
pub struct ObservedRoom<R> {
    pub room: R,
    /// Some creep there is worth a defender.
    pub armed: bool,
    /// How dangerous the creeps there are, in thousandths.
    pub danger: Milli,
    /// The damage of the towers there, in thousandths.
    pub tower_danger: Milli,
}

/// The room holds an enemy to follow: an armed one, outside of our rooms, within the leash.
pub open spec fn is_threatening<R>(room: ObservedRoom<R>, least: Option<u32>, leash: u32) -> bool {
    room.armed && least is Some && 1 <= least->0 <= leash
}

/// The enemy in the room.
pub open spec fn threat_in<R>(room: ObservedRoom<R>) -> Threat<R> {
    Threat { room: room.room, danger: room.danger, tower_danger: room.tower_danger }
}

/// The enemies in the rooms, where the nearest of our rooms is `near` from each of them.
pub open spec fn threats_in<R>(
    observed: Seq<ObservedRoom<R>>,
    near: Seq<Option<u32>>,
    leash: u32,
    n: int,
) -> Seq<Threat<R>>
    decreases n,
{
    if n <= 0 {
        Seq::empty()
    } else {
        let rest = threats_in(observed, near, leash, n - 1);
        if is_threatening(observed[n - 1], near[n - 1], leash) {
            rest.push(threat_in(observed[n - 1]))
        } else {
            rest
        }
    }
}

/// Where a room holds an armed creep, the nearest of our rooms is this far from it.
pub open spec fn are_nearest_to_armed<R, D: Fn(R, R) -> u32>(
    owned: Seq<OwnedRoom<R>>,
    observed: Seq<ObservedRoom<R>>,
    dist: D,
    near: Seq<Option<u32>>,
) -> bool {
    &&& near.len() == observed.len()
    &&& forall|j: int|
        0 <= j < observed.len() && observed[j].armed ==> is_nearest(
            owned,
            observed[j].room,
            dist,
            #[trigger] near[j],
        )
}

/// The enemies in the rooms around ours: one for each room that holds an armed creep and lies within the
/// leash. Our own rooms are left out: what is in them is found elsewhere.
pub fn neighbour_threats<R: Copy, D: Fn(R, R) -> u32>(
    owned: &[OwnedRoom<R>],
    observed: &[ObservedRoom<R>],
    policy: DefensePolicy,
    dist: D,
) -> (out: Vec<Threat<R>>)
    requires
        forall|a: R, b: R| #[trigger] dist.requires((a, b)),
    ensures
        exists|near: Seq<Option<u32>>|
            #[trigger] are_nearest_to_armed(owned@, observed@, dist, near) && out@ == threats_in(
                observed@,
                near,
                policy.leash,
                observed@.len() as int,
            ),
{
    let mut out: Vec<Threat<R>> = Vec::new();
    let ghost mut near: Seq<Option<u32>> = Seq::empty();
    let mut j: usize = 0;
    while j < observed.len()
        invariant
            forall|a: R, b: R| #[trigger] dist.requires((a, b)),
            j <= observed@.len(),
            near.len() == j,
            forall|i: int|
                0 <= i < j && observed@[i].armed ==> is_nearest(
                    owned@,
                    observed@[i].room,
                    dist,
                    #[trigger] near[i],
                ),
            out@ == threats_in(observed@, near, policy.leash, j as int),
        decreases observed@.len() - j,
    {
        let room = &observed[j];
        let ghost before = near;
        let mut least: Option<u32> = None;
        if room.armed {
            least = nearest_owned(owned, room.room, &dist);
            if let Some(d) = least {
                if d != 0 && d <= policy.leash {
                    out.push(
                        Threat {
                            room: room.room,
                            danger: room.danger,
                            tower_danger: room.tower_danger,
                        },
                    );
                }
            }
        }
        proof {
            near = before.push(least);
            lemma_threats_of_prefix(observed@, before, near, policy.leash, j as int);
        }
        j = j + 1;
    }
    assert(are_nearest_to_armed(owned@, observed@, dist, near));
    out
}

/// What the rooms before the `n`th hold depends on the distances to them alone.
proof fn lemma_threats_of_prefix<R>(
    observed: Seq<ObservedRoom<R>>,
    a: Seq<Option<u32>>,
    b: Seq<Option<u32>>,
    leash: u32,
    n: int,
)
    requires
        0 <= n <= a.len(),
        n <= b.len(),
        forall|i: int| 0 <= i < n ==> #[trigger] a[i] == b[i],
    ensures
        threats_in(observed, a, leash, n) == threats_in(observed, b, leash, n),
    decreases n,
{
    if n > 0 {
        lemma_threats_of_prefix(observed, a, b, leash, n - 1);
        assert(a[n - 1] == b[n - 1]);
    }
}

// ---------------------------------------------------------------------------------------------
// Rooms to look at.
// ---------------------------------------------------------------------------------------------

/// The part can do harm or keep others doing it.
pub open spec fn is_armed(part: Part) -> bool {
    part == Part::Attack || part == Part::RangedAttack || part == Part::Work || part == Part::Claim
        || part == Part::Heal
}

/// The creep is worth a defender.
pub open spec fn is_hostile(body: Seq<Part>) -> bool {
    exists|i: int| 0 <= i < body.len() && is_armed(#[trigger] body[i])
}

/// Whether a creep is worth a defender: one that strikes, shoots, takes apart, claims or heals is, a scout
/// or a hauler is not.
pub fn hostile_warrants_defender(parts: &[Part]) -> (yes: bool)
    ensures
        yes == is_hostile(parts@),
{
    let mut i: usize = 0;
    while i < parts.len()
        invariant
            i <= parts@.len(),
            forall|k: int| 0 <= k < i ==> !is_armed(#[trigger] parts@[k]),
        decreases parts@.len() - i,
    {
        if matches!(
            parts[i],
            Part::Attack | Part::RangedAttack | Part::Work | Part::Claim | Part::Heal
        ) {
            assert(is_armed(parts@[i as int]));
            return true;
        }
        i = i + 1;
    }
    false
}

/// The damage of a part, in thousandths.
pub open spec fn danger_of_part() -> spec_fn(Part) -> int {
    |p: Part|
        match p {
            Part::Attack => 30_000int,
            Part::RangedAttack => 10_000int,
            _ => 0int,
        }
}

/// The damage of a creep, in thousandths.
pub open spec fn danger_of(body: Seq<Part>) -> int {
    crate::fixed::nearest_i64(crate::parts::weigh(body, danger_of_part()))
}

/// How dangerous a creep is, in thousandths: thirty for each part that strikes, ten for each that shoots.
pub fn estimate_danger(parts: &[Part]) -> (danger: Milli)
    ensures
        danger == danger_of(parts@),
        0 <= danger,
{
    let mut sum: i128 = 0;
    let mut i: usize = 0;
    assert(parts@.take(0) =~= Seq::empty());
    while i < parts.len()
        invariant
            i <= parts@.len(),
            sum == crate::parts::weigh(parts@.take(i as int), danger_of_part()),
            0 <= sum <= i * 30_000,
        decreases parts@.len() - i,
    {
        proof {
            let seen = parts@.take(i + 1);
            assert(seen.drop_last() =~= parts@.take(i as int));
            assert(seen.last() == parts@[i as int]);
        }
        let damage: i128 = match parts[i] {
            Part::Attack => 30_000,
            Part::RangedAttack => 10_000,
            _ => 0,
        };
        sum = sum + damage;
        i = i + 1;
    }
    assert(parts@.take(i as int) =~= parts@);
    to_i64(sum)
}

/// How dangerous a WORK part is to a structure of ours, in thousandths.
pub const DISMANTLE_DANGER_PER_WORK: Milli = 15_000;

/// How dangerous a creep that takes structures apart is, in thousandths: not at all where we have none.
pub fn dismantle_danger(work_parts: usize, has_targetable_structures: bool) -> (danger: Milli)
    ensures
        danger == if has_targetable_structures {
            crate::fixed::nearest_i64(work_parts * DISMANTLE_DANGER_PER_WORK)
        } else {
            0
        },
        has_targetable_structures && work_parts * 15_000 <= i64::MAX ==> danger == work_parts * 15_000,
{
    if has_targetable_structures {
        let each: i128 = DISMANTLE_DANGER_PER_WORK as i128;
        assert(work_parts * each == work_parts * 15_000);
        to_i64(work_parts as i128 * each)
    } else {
        0
    }
}

/// What was seen of a room.
#[derive(Clone, Debug)]
pub struct RawObservation<'a, R> {
    pub room: R,
    /// The working parts of each enemy creep there.
    pub hostile_bodies: &'a [Vec<Part>],
    /// The room can be seen.
    pub visible: bool,
    /// The room is ours.
    pub is_owned: bool,
    /// How many rooms the nearest of ours is away, if we have any.
    pub nearest_owned_dist: Option<u32>,
    /// The damage of the towers there, in thousandths.
    pub tower_danger: Milli,
}

/// Some creep among them is worth a defender.
pub open spec fn any_hostile(bodies: Seq<Vec<Part>>) -> bool {
    exists|i: int| 0 <= i < bodies.len() && is_hostile((#[trigger] bodies[i])@)
}

/// How dangerous the creeps are together, in thousandths.
pub open spec fn danger_of_all(bodies: Seq<Vec<Part>>) -> int
    decreases bodies.len(),
{
    if bodies.len() == 0 {
        0
    } else {
        crate::fixed::nearest_i64(
            danger_of_all(bodies.drop_last()) + danger_of(bodies.last()@),
        )
    }
}

/// The room is worth acting on: seen, not ours, within the leash, with a creep worth a defender; but not
/// where its creeps do no damage and towers stand over them.
pub open spec fn is_worth_noting<R>(obs: RawObservation<R>, leash: u32) -> bool {
    &&& obs.visible
    &&& !obs.is_owned
    &&& obs.nearest_owned_dist is Some
    &&& 1 <= obs.nearest_owned_dist->0 <= leash
    &&& any_hostile(obs.hostile_bodies@)
    &&& !(danger_of_all(obs.hostile_bodies@) == 0 && obs.tower_danger > 0)
}

/// What is noted of the room: all its creeps in one.
pub open spec fn note_of<R>(obs: RawObservation<R>) -> ObservedRoom<R> {
    ObservedRoom {
        room: obs.room,
        armed: true,
        danger: danger_of_all(obs.hostile_bodies@) as i64,
        tower_danger: obs.tower_danger,
    }
}

/// What is noted of the rooms.
pub open spec fn notes_of<R>(observations: Seq<RawObservation<R>>, leash: u32) -> Seq<ObservedRoom<R>>
    decreases observations.len(),
{
    if observations.len() == 0 {
        Seq::empty()
    } else {
        let rest = notes_of(observations.drop_last(), leash);
        if is_worth_noting(observations.last(), leash) {
            rest.push(note_of(observations.last()))
        } else {
            rest
        }
    }
}

/// Whether some creep is worth a defender, and how dangerous they are together.
fn appraise(bodies: &[Vec<Part>]) -> (r: (bool, Milli))
    ensures
        r.0 == any_hostile(bodies@),
        r.1 == danger_of_all(bodies@),
{
    let mut armed = false;
    let mut danger: Milli = 0;
    let mut i: usize = 0;
    assert(bodies@.take(0) =~= Seq::empty());
    while i < bodies.len()
        invariant
            i <= bodies@.len(),
            armed == exists|k: int| 0 <= k < i && is_hostile((#[trigger] bodies@[k])@),
            danger == danger_of_all(bodies@.take(i as int)),
        decreases bodies@.len() - i,
    {
        proof {
            let seen = bodies@.take(i + 1);
            assert(seen.drop_last() =~= bodies@.take(i as int));
            assert(seen.last() == bodies@[i as int]);
        }
        if hostile_warrants_defender(&bodies[i]) {
            assert(is_hostile(bodies@[i as int]@));
            armed = true;
        }
        danger = plus(danger, estimate_danger(&bodies[i]));
        i = i + 1;
    }
    assert(bodies@.take(i as int) =~= bodies@);
    (armed, danger)
}

/// What is noted of the rooms that were seen: one entry for each that is worth acting on.
pub fn observe_neighbours<R: Copy>(observations: &[RawObservation<R>], policy: DefensePolicy) -> (out:
    Vec<ObservedRoom<R>>)
    ensures
        out@ == notes_of(observations@, policy.leash),
{
    let mut out: Vec<ObservedRoom<R>> = Vec::new();
    let mut i: usize = 0;
    assert(observations@.take(0) =~= Seq::empty());
    while i < observations.len()
        invariant
            i <= observations@.len(),
            out@ == notes_of(observations@.take(i as int), policy.leash),
        decreases observations@.len() - i,
    {
        proof {
            let seen = observations@.take(i + 1);
            assert(seen.drop_last() =~= observations@.take(i as int));
            assert(seen.last() == observations@[i as int]);
        }
        let obs = &observations[i];
        let in_reach = match obs.nearest_owned_dist {
            Some(d) => d != 0 && d <= policy.leash,
            None => false,
        };
        if obs.visible && !obs.is_owned && in_reach {
            let (armed, danger) = appraise(obs.hostile_bodies);
            if armed && !(danger == 0 && obs.tower_danger > 0) {
                out.push(
                    ObservedRoom { room: obs.room, armed, danger, tower_danger: obs.tower_danger },
                );
            }
        }
        i = i + 1;
    }
    assert(observations@.take(i as int) =~= observations@);
    out
}

// ---------------------------------------------------------------------------------------------
// Laws.
// ---------------------------------------------------------------------------------------------

/// An enemy is in the room.
pub open spec fn holds_threat<R>(threats: Seq<Threat<R>>, room: R) -> bool {
    exists|j: int| 0 <= j < threats.len() && (#[trigger] threats[j]).room == room
}

/// Base defense comes first: what is sent is in order of urgency, every squad goes to where an enemy is,
/// and a room of ours that is attacked is critical, one next to it urgent.
pub proof fn law_base_defense_comes_first<R>(
    threats: Seq<Threat<R>>,
    near: Seq<Option<u32>>,
    policy: DefensePolicy,
    out: Seq<SecureEmission<R>>,
)
    requires
        is_ranking(threats, near, policy, out),
    ensures
        forall|k: int, l: int|
            0 <= k < l < out.len() ==> (#[trigger] out[k]).priority >= (#[trigger] out[l]).priority,
        forall|k: int|
            0 <= k < out.len() ==> holds_threat(threats, (#[trigger] out[k]).room),
        forall|k: int|
            0 <= k < out.len() ==> ((#[trigger] out[k]).asset_boosted <==> out[k].priority
                >= DEFENSE_PRIORITY_HIGH),
{
    let order = choose|order: Seq<int>|
        #[trigger] is_order(threats, near, policy.leash, threats.len() as int, order) && out
            == emissions(threats, near, order);
    assert forall|k: int, l: int| 0 <= k < l < out.len() implies (#[trigger] out[k]).priority >= (
    #[trigger] out[l]).priority by {
        assert(comes_first(threats, near, order[k], order[l]));
    }
    assert forall|k: int| 0 <= k < out.len() implies holds_threat(
        threats,
        (#[trigger] out[k]).room,
    ) by {
        assert(threats[order[k]].room == out[k].room);
    }
}

/// Every enemy within the leash is answered, and none beyond it: as many squads are sent as there are
/// enemies that are followed.
pub proof fn law_leash_decides<R>(
    threats: Seq<Threat<R>>,
    near: Seq<Option<u32>>,
    policy: DefensePolicy,
    out: Seq<SecureEmission<R>>,
)
    requires
        near.len() == threats.len(),
        is_ranking(threats, near, policy, out),
    ensures
        forall|j: int|
            0 <= j < threats.len() && is_chased(near[j], policy.leash) ==> out.contains(
                emission(#[trigger] threats[j], near[j]->0),
            ),
        (forall|j: int| 0 <= j < near.len() ==> !is_chased(#[trigger] near[j], policy.leash))
            ==> out.len() == 0,
{
    let order = choose|order: Seq<int>|
        #[trigger] is_order(threats, near, policy.leash, threats.len() as int, order) && out
            == emissions(threats, near, order);
    assert forall|j: int|
        0 <= j < threats.len() && is_chased(near[j], policy.leash) implies out.contains(
        emission(#[trigger] threats[j], near[j]->0),
    ) by {
        assert(order.contains(j));
        let k = choose|k: int| 0 <= k < order.len() && order[k] == j;
        assert(out[k] == emission(threats[j], near[j]->0));
    }
    if out.len() > 0 {
        assert(is_chased(near[order[0]], policy.leash));
    }
}

/// The same enemies at the same distances always get the same answer, in the same order.
pub proof fn law_ranking_is_unique<R>(
    threats: Seq<Threat<R>>,
    near: Seq<Option<u32>>,
    policy: DefensePolicy,
    a: Seq<SecureEmission<R>>,
    b: Seq<SecureEmission<R>>,
)
    requires
        is_ranking(threats, near, policy, a),
        is_ranking(threats, near, policy, b),
    ensures
        a == b,
{
    let n = threats.len() as int;
    let p = choose|order: Seq<int>|
        #[trigger] is_order(threats, near, policy.leash, n, order) && a == emissions(
            threats,
            near,
            order,
        );
    let q = choose|order: Seq<int>|
        #[trigger] is_order(threats, near, policy.leash, n, order) && b == emissions(
            threats,
            near,
            order,
        );
    lemma_orders_agree(threats, near, policy.leash, p, q, p.len() as int);
    lemma_orders_agree(threats, near, policy.leash, q, p, q.len() as int);
    assert(p =~= q);
}

/// Two orders of the same enemies agree as far as the first goes.
proof fn lemma_orders_agree<R>(
    threats: Seq<Threat<R>>,
    near: Seq<Option<u32>>,
    leash: u32,
    p: Seq<int>,
    q: Seq<int>,
    n: int,
)
    requires
        is_order(threats, near, leash, threats.len() as int, p),
        is_order(threats, near, leash, threats.len() as int, q),
        0 <= n <= p.len(),
    ensures
        n <= q.len(),
        forall|k: int| 0 <= k < n ==> #[trigger] p[k] == q[k],
    decreases n,
{
    if n > 0 {
        lemma_orders_agree(threats, near, leash, p, q, n - 1);
        let x = p[n - 1];
        assert(q.contains(x));
        let l = choose|l: int| 0 <= l < q.len() && q[l] == x;
        if l < n - 1 {
            assert(p[l] == q[l]);
            assert(comes_first(threats, near, p[l], p[n - 1]));
        }
        assert(n <= q.len());
        if l > n - 1 {
            let y = q[n - 1];
            assert(comes_first(threats, near, q[n - 1], q[l]));
            assert(p.contains(y));
            let m = choose|m: int| 0 <= m < p.len() && p[m] == y;
            if m < n - 1 {
                assert(p[m] == q[m]);
                assert(comes_first(threats, near, q[m], q[n - 1]));
            } else if m > n - 1 {
                assert(comes_first(threats, near, p[n - 1], p[m]));
            }
        }
    }
}

/// The towers of an enemy change nothing of what is sent against it.
pub proof fn law_towers_do_not_rank<R>(
    threats: Seq<Threat<R>>,
    others: Seq<Threat<R>>,
    near: Seq<Option<u32>>,
    policy: DefensePolicy,
    out: Seq<SecureEmission<R>>,
)
    requires
        threats.len() == others.len(),
        forall|j: int|
            0 <= j < threats.len() ==> (#[trigger] threats[j]).room == others[j].room
                && threats[j].danger == others[j].danger,
        is_ranking(threats, near, policy, out),
    ensures
        is_ranking(others, near, policy, out),
{
    let n = threats.len() as int;
    let order = choose|order: Seq<int>|
        #[trigger] is_order(threats, near, policy.leash, n, order) && out == emissions(
            threats,
            near,
            order,
        );
    assert forall|k: int, l: int| 0 <= k < l < order.len() implies comes_first(
        others,
        near,
        #[trigger] order[k],
        #[trigger] order[l],
    ) by {
        assert(comes_first(threats, near, order[k], order[l]));
        assert(threats[order[k]].danger == others[order[k]].danger);
        assert(threats[order[l]].danger == others[order[l]].danger);
    }
    assert(is_order(others, near, policy.leash, n, order));
    assert forall|k: int| 0 <= k < order.len() implies emissions(threats, near, order)[k]
        == #[trigger] emissions(others, near, order)[k] by {
        assert(threats[order[k]].room == others[order[k]].room);
    }
    assert(out =~= emissions(others, near, order));
}

/// Towers hide a room only where its creeps do no damage: one that does is noted, and without towers any
/// that is worth a defender is.
pub proof fn law_towers_hide_only_the_harmless<R>(obs: RawObservation<R>, leash: u32)
    requires
        obs.visible,
        !obs.is_owned,
        obs.nearest_owned_dist is Some,
        1 <= obs.nearest_owned_dist->0 <= leash,
        any_hostile(obs.hostile_bodies@),
    ensures
        danger_of_all(obs.hostile_bodies@) != 0 ==> is_worth_noting(obs, leash),
        obs.tower_danger <= 0 ==> is_worth_noting(obs, leash),
        danger_of_all(obs.hostile_bodies@) == 0 && obs.tower_danger > 0 ==> !is_worth_noting(obs, leash),
{
}

/// However many creeps a room holds, it gives one entry at most, and what is noted is worth a defender.
pub proof fn law_one_note_per_room<R>(observations: Seq<RawObservation<R>>, leash: u32)
    ensures
        notes_of(observations, leash).len() <= observations.len(),
        forall|k: int|
            0 <= k < notes_of(observations, leash).len() ==> (#[trigger] notes_of(
                observations,
                leash,
            )[k]).armed,
    decreases observations.len(),
{
    if observations.len() > 0 {
        law_one_note_per_room(observations.drop_last(), leash);
        let rest = notes_of(observations.drop_last(), leash);
        let all = notes_of(observations, leash);
        assert forall|k: int| 0 <= k < all.len() implies (#[trigger] all[k]).armed by {
            if k < rest.len() {
                assert(all[k] == rest[k]);
            }
        }
    }
}

/// A threat in a room of ours is critical, one next door is high, and one farther away is medium; those of
/// our rooms and next to them stand out. It is followed as far as the leash reaches.
pub proof fn law_priority_falls_with_distance<R>(threat: Threat<R>, distance: u32, leash: u32)
    ensures
        distance == 0 ==> emission(threat, distance).priority == 100_000,
        distance == 1 ==> emission(threat, distance).priority == 75_000,
        distance >= 2 ==> emission(threat, distance).priority == 50_000,
        emission(threat, distance).asset_boosted <==> distance <= 1,
        emission(threat, distance).room == threat.room,
        is_chased(Some(distance), leash) <==> distance <= leash,
        !is_chased(None, leash),
{
}

/// Nearer comes before farther, up to two rooms; of those alike the more dangerous comes first, and of those
/// alike in that the one that was listed first.
pub proof fn law_nearer_and_more_dangerous_comes_first<R>(
    threats: Seq<Threat<R>>,
    near: Seq<Option<u32>>,
    i: int,
    j: int,
)
    requires
        near[i] is Some,
        near[j] is Some,
    ensures
        ({
            let a = if near[i]->0 >= 2 {
                2
            } else {
                near[i]->0
            };
            let b = if near[j]->0 >= 2 {
                2
            } else {
                near[j]->0
            };
            comes_first(threats, near, i, j) <==> {
                ||| a < b
                ||| a == b && threats[i].danger > threats[j].danger
                ||| a == b && threats[i].danger == threats[j].danger && i < j
            }
        }),
{
}

/// Each ATTACK makes a body more dangerous by thirty and each RANGED_ATTACK by ten; no other part does. A
/// body is worth a defender where it has a part that fights, heals, takes apart or claims.
pub proof fn law_danger_goes_by_the_weapons(body: Seq<Part>, part: Part)
    requires
        0 <= crate::parts::weigh(body, danger_of_part()) <= i64::MAX - 30_000,
    ensures
        danger_of(Seq::empty()) == 0,
        danger_of(body.push(part)) - danger_of(body) == if part == Part::Attack {
            30_000int
        } else if part == Part::RangedAttack {
            10_000
        } else {
            0
        },
        !is_hostile(Seq::empty()),
        is_hostile(body.push(part)) <==> is_hostile(body) || !(part == Part::Move || part == Part::Carry
            || part == Part::Tough),
{
    let more = body.push(part);
    assert(more.drop_last() =~= body);
    assert(more[body.len() as int] == part);
    if is_hostile(body) {
        let i = choose|i: int| 0 <= i < body.len() && is_armed(#[trigger] body[i]);
        assert(more[i] == body[i]);
    }
    if is_hostile(more) {
        let i = choose|i: int| 0 <= i < more.len() && is_armed(#[trigger] more[i]);
        assert(i < body.len() ==> body[i] == more[i]);
    }
}

/// The danger of a room is that of all its creeps together, and one creep that is worth a defender is enough.
pub proof fn law_danger_of_a_room_adds_up(bodies: Seq<Vec<Part>>, body: Vec<Part>)
    ensures
        danger_of_all(Seq::empty()) == 0,
        i64::MIN <= danger_of_all(bodies) + danger_of(body@) <= i64::MAX ==> danger_of_all(
            bodies.push(body),
        ) == danger_of_all(bodies) + danger_of(body@),
        !any_hostile(Seq::empty()),
        any_hostile(bodies.push(body)) <==> any_hostile(bodies) || is_hostile(body@),
{
    let more = bodies.push(body);
    assert(more.drop_last() =~= bodies);
    assert(more[bodies.len() as int] == body);
    if any_hostile(bodies) {
        let i = choose|i: int| 0 <= i < bodies.len() && is_hostile((#[trigger] bodies[i])@);
        assert(more[i] == bodies[i]);
    }
    if any_hostile(more) {
        let i = choose|i: int| 0 <= i < more.len() && is_hostile((#[trigger] more[i])@);
        assert(i < bodies.len() ==> bodies[i] == more[i]);
    }
}

/// A room is noted where it is seen, is not ours but within the leash of one that is, and has a creep worth a
/// defender; unless its creeps do no damage and its towers do. What is noted is the room as it was seen.
pub proof fn law_only_what_threatens_is_noted<R>(
    observations: Seq<RawObservation<R>>,
    obs: RawObservation<R>,
    leash: u32,
)
    ensures
        notes_of(Seq::<RawObservation<R>>::empty(), leash).len() == 0,
        ({
            let before = notes_of(observations, leash);
            let after = notes_of(observations.push(obs), leash);
            let noted = {
                &&& obs.visible && !obs.is_owned
                &&& obs.nearest_owned_dist matches Some(d) && 1 <= d <= leash
                &&& any_hostile(obs.hostile_bodies@)
                &&& danger_of_all(obs.hostile_bodies@) != 0 || obs.tower_danger <= 0
            };
            &&& !noted ==> after == before
            &&& noted ==> {
                &&& after.len() == before.len() + 1 && after.drop_last() == before
                &&& after.last().room == obs.room && after.last().armed
                &&& after.last().tower_danger == obs.tower_danger
                &&& after.last().danger == danger_of_all(obs.hostile_bodies@) as i64
            }
        }),
{
    assert(observations.push(obs).drop_last() =~= observations);
    let before = notes_of(observations, leash);
    assert(before.push(note_of(obs)).drop_last() =~= before);
}

/// A room that was noted is a threat where it is armed and near one of ours, but not ours: with its danger and
/// that of its towers.
pub proof fn law_threats_are_near_and_armed<R>(
    observed: Seq<ObservedRoom<R>>,
    near: Seq<Option<u32>>,
    leash: u32,
    n: int,
)
    requires
        0 <= n < observed.len(),
        n < near.len(),
    ensures
        threats_in(observed, near, leash, 0).len() == 0,
        ({
            let before = threats_in(observed, near, leash, n);
            let after = threats_in(observed, near, leash, n + 1);
            let room = observed[n];
            let threat = room.armed && near[n] is Some && near[n]->0 != 0 && near[n]->0 <= leash;
            &&& !threat ==> after == before
            &&& threat ==> {
                &&& after.len() == before.len() + 1 && after.drop_last() == before
                &&& after.last().room == room.room && after.last().danger == room.danger
                    && after.last().tower_danger == room.tower_danger
            }
        }),
{
    let before = threats_in(observed, near, leash, n);
    assert(before.push(threat_in(observed[n])).drop_last() =~= before);
}

/// Where the distance is `far` whichever way it is asked for, the nearest of our rooms is as far away as the
/// nearest is: some room of ours is, and none is nearer; without rooms there is none.
pub proof fn law_nearest_is_the_least_distance<R, D: Fn(R, R) -> u32>(
    owned: Seq<OwnedRoom<R>>,
    room: R,
    dist: D,
    far: spec_fn(R, R) -> u32,
    least: Option<u32>,
)
    requires
        is_nearest(owned, room, dist, least),
        forall|a: R, b: R, d: u32| #[trigger] dist.ensures((a, b), d) ==> d == far(a, b),
    ensures
        least is None <==> owned.len() == 0,
        least matches Some(d) ==> {
            &&& exists|i: int| 0 <= i < owned.len() && far((#[trigger] owned[i]).room, room) == d
            &&& forall|i: int| 0 <= i < owned.len() ==> d <= far((#[trigger] owned[i]).room, room)
        },
{
    if least is Some {
        let d = least->0;
        let i = choose|i: int|
            0 <= i < owned.len() && dist.ensures(((#[trigger] owned[i]).room, room), d);
        assert(far(owned[i].room, room) == d);
        assert forall|i: int| 0 <= i < owned.len() implies d <= far((#[trigger] owned[i]).room, room) by {
            let e = choose|e: u32| d <= e && #[trigger] dist.ensures((owned[i].room, room), e);
            assert(e == far(owned[i].room, room));
        }
    }
}

}
