//! When a squad leaves for its objective, where it gathers, and when it crosses into a room.
//!
//! Members that have not spawned yet have no position and count for nothing. Into a room that may be
//! defended a squad goes together; into one that is known to be clear, as soon as it is no lone creep.
use crate::fixed::Milli;
use crate::geometry::{range_between, room_delta, room_offset, Position, RoomName};
use vstd::prelude::*;

verus! {

/// The share of a squad, in thousandths, that has to be near a border before it crosses.
pub const STRICT_QUORUM_RATIO: Milli = 750;

/// The least group that goes into a fight.
pub const MIN_VIABLE_GROUP: usize = 2;

/// How near to the rally a member counts as gathered.
pub const RALLY_GATHER_RADIUS: u32 = 3;

/// The share of the living, in thousandths, that gathers before an attack.
pub const GATHER_QUORUM_RATIO: Milli = 750;

/// How near to a border a member counts as there.
pub const NEAR_EDGE: u8 = 8;

/// The middle of a room, along either axis.
pub const ROOM_CENTRE: u8 = 25;

// ---------------------------------------------------------------------------------------------
// Counting members.
// ---------------------------------------------------------------------------------------------

/// How many of the members are somewhere that meets `at`.
pub open spec fn tally(members: Seq<Option<Position>>, at: spec_fn(Position) -> bool) -> int
    decreases members.len(),
{
    if members.len() == 0 {
        0
    } else {
        tally(members.drop_last(), at) + match members.last() {
            Some(p) => if at(p) {
                1int
            } else {
                0
            },
            None => 0int,
        }
    }
}

/// Anywhere.
pub open spec fn anywhere() -> spec_fn(Position) -> bool {
    |p: Position| true
}

/// Within `radius` of the rally.
pub open spec fn gathered_at(rally: Position, radius: int) -> spec_fn(Position) -> bool {
    |p: Position| crate::geometry::chebyshev(p, rally) <= radius
}

/// In one of the two rooms.
pub open spec fn in_either(a: RoomName, b: RoomName) -> spec_fn(Position) -> bool {
    |p: Position| p.room == a || p.room == b
}

/// Out of the room, or near its border towards the destination.
pub open spec fn at_border(room: RoomName, destination: Position) -> spec_fn(Position) -> bool {
    |p: Position| p.room != room || is_near_edge(p, destination)
}

/// How many members are in the world.
pub open spec fn present(members: Seq<Option<Position>>) -> int {
    tally(members, anywhere())
}

/// Every member that is in the world stands on a tile.
pub open spec fn all_on_tiles(members: Seq<Option<Position>>) -> bool {
    forall|i: int| 0 <= i < members.len() && members[i] is Some ==> (#[trigger] members[i])->0.wf()
}

/// A tally lies between none and all of those in the world, and these between none and all.
pub proof fn lemma_tally_bounds(members: Seq<Option<Position>>, at: spec_fn(Position) -> bool)
    ensures
        0 <= tally(members, at) <= present(members) <= members.len(),
    decreases members.len(),
{
    if members.len() > 0 {
        lemma_tally_bounds(members.drop_last(), at);
    }
}

/// The members that are spawned.
fn count_present(members: &[Option<Position>]) -> (n: usize)
    ensures
        n == present(members@),
        n <= members@.len(),
{
    let mut n: usize = 0;
    let mut i: usize = 0;
    assert(members@.take(0) =~= Seq::empty());
    while i < members.len()
        invariant
            i <= members@.len(),
            n == present(members@.take(i as int)),
            n <= i,
        decreases members@.len() - i,
    {
        proof {
            let seen = members@.take(i + 1);
            assert(seen.drop_last() =~= members@.take(i as int));
            assert(seen.last() == members@[i as int]);
        }
        if members[i].is_some() {
            n = n + 1;
        }
        i = i + 1;
    }
    assert(members@.take(i as int) =~= members@);
    n
}

// ---------------------------------------------------------------------------------------------
// Leaving.
// ---------------------------------------------------------------------------------------------

/// The least number that is a share `ratio` of `n`, in thousandths.
pub open spec fn share_of(n: int, ratio: int) -> int {
    crate::fixed::ceil_quotient(n * ratio, 1000)
}

/// The group that a squad of `n` goes with: the share, but no lone creep, and no more than there are.
pub open spec fn quorum_of(n: int, ratio: int) -> int {
    crate::fixed::min_of(crate::fixed::max_of(share_of(n, ratio), MIN_VIABLE_GROUP as int), n)
}

/// The group that a squad of `n` goes with.
fn quorum(n: usize, ratio: Milli) -> (q: usize)
    requires
        0 <= ratio <= 1000,
    ensures
        q == quorum_of(n as int, ratio as int),
{
    let wide: i128 = n as i128;
    let r: i128 = ratio as i128;
    assert(0 <= wide * r <= wide * 1000) by (nonlinear_arith)
        requires
            0 <= wide,
            0 <= r <= 1000,
    ;
    let share: usize = crate::fixed::div_up(wide * r, 1000) as usize;
    let least: usize = if share > MIN_VIABLE_GROUP {
        share
    } else {
        MIN_VIABLE_GROUP
    };
    if least < n {
        least
    } else {
        n
    }
}

/// Whether the squad has all its members: as many are in the world as were asked for. More may still be
/// spawning. Where it is not known how many were asked for, nothing holds it.
pub fn squad_ready_to_depart(member_positions: &[Option<Position>], requested_slots: usize) -> (r:
    bool)
    ensures
        r == (requested_slots == 0 || present(member_positions@) >= requested_slots),
{
    if requested_slots == 0 {
        return true;
    }
    count_present(member_positions) >= requested_slots
}

/// Whether enough of the squad is in the world to go as a group: three quarters, but no lone creep
/// unless one was all that was asked for.
pub fn squad_ready_to_depart_at_quorum(
    member_positions: &[Option<Position>],
    requested_slots: usize,
) -> (r: bool)
    ensures
        r == (requested_slots == 0 || present(member_positions@) >= quorum_of(
            requested_slots as int,
            STRICT_QUORUM_RATIO as int,
        )),
{
    if requested_slots == 0 {
        return true;
    }
    count_present(member_positions) >= quorum(requested_slots, STRICT_QUORUM_RATIO)
}

/// What is known of a room can be trusted.
pub open spec fn is_trusted(mapped: bool, live_visible: bool) -> bool {
    mapped || live_visible
}

/// The room is known to be clear.
pub open spec fn is_clear(
    trusted: bool,
    no_hostiles: bool,
    no_towers: bool,
    no_safe_mode: bool,
) -> bool {
    trusted && no_hostiles && no_towers && no_safe_mode
}

/// Whether what is known of a room can be trusted, so that nothing seen means nothing there: it was
/// scouted, or a member is in it.
pub fn rally_intel_reliable(mapped: bool, live_visible: bool) -> (r: bool)
    ensures
        r == is_trusted(mapped, live_visible),
{
    mapped || live_visible
}

/// Whether a room is known to be clear: trusted knowledge of no enemies, no towers and no safe mode.
pub fn target_is_uncontested(
    intel_reliable: bool,
    no_hostiles: bool,
    no_hostile_towers: bool,
    no_enemy_safe_mode: bool,
) -> (r: bool)
    ensures
        r == is_clear(intel_reliable, no_hostiles, no_hostile_towers, no_enemy_safe_mode),
{
    intel_reliable && no_hostiles && no_hostile_towers && no_enemy_safe_mode
}

/// The members that have to be in the world before the squad leaves.
pub open spec fn needed_to_leave(requested: int, uncontested: bool) -> int {
    if uncontested {
        crate::fixed::min_of(MIN_VIABLE_GROUP as int, requested)
    } else {
        requested
    }
}

/// Whether the squad leaves: for a room that is known to be clear as soon as it is no lone creep, for
/// any other with all its members.
pub fn ready_to_depart_gate(
    member_positions: &[Option<Position>],
    requested_slots: usize,
    uncontested: bool,
) -> (r: bool)
    ensures
        r == (requested_slots == 0 || present(member_positions@) >= needed_to_leave(
            requested_slots as int,
            uncontested,
        )),
{
    if !uncontested {
        return squad_ready_to_depart(member_positions, requested_slots);
    }
    if requested_slots == 0 {
        return true;
    }
    let least: usize = if MIN_VIABLE_GROUP < requested_slots {
        MIN_VIABLE_GROUP
    } else {
        requested_slots
    };
    count_present(member_positions) >= least
}

// ---------------------------------------------------------------------------------------------
// Crossing.
// ---------------------------------------------------------------------------------------------

/// Along one axis: where the room of the destination lies further on, the tile is near the far border,
/// where it lies further back, near the other; where it lies level, there is nothing to cross.
pub open spec fn is_near_end(at: int, way: int) -> bool {
    if way > 0 {
        at >= 49 - NEAR_EDGE
    } else if way < 0 {
        at <= NEAR_EDGE
    } else {
        true
    }
}

/// The tile is in the room of the destination, or near the borders that are to be crossed on the way to
/// that room.
pub open spec fn is_near_edge(p: Position, destination: Position) -> bool {
    p.room == destination.room || (is_near_end(p.x as int, destination.room.x - p.room.x)
        && is_near_end(p.y as int, destination.room.y - p.room.y))
}

/// Whether the tile is near the border on the way, along one axis.
fn near_end(at: u8, way: i32) -> (r: bool)
    ensures
        r == is_near_end(at as int, way as int),
{
    if way > 0 {
        at >= 49 - NEAR_EDGE
    } else if way < 0 {
        at <= NEAR_EDGE
    } else {
        true
    }
}

/// Whether the tile is in the room of the destination, or near the borders that are to be crossed on the
/// way to that room.
fn is_near_room_edge_toward(pos: Position, destination: Position) -> (r: bool)
    ensures
        r == is_near_edge(pos, destination),
{
    if pos.room == destination.room {
        return true;
    }
    let way = room_delta(destination.room, pos.room);
    near_end(pos.x, way.0) && near_end(pos.y, way.1)
}

/// At least a share `ratio` of `all`, in thousandths, are among the `some`.
pub open spec fn is_share(some: int, all: int, ratio: int) -> bool {
    some * 1000 >= all * ratio
}

/// The squad is not gathered at the border yet.
pub open spec fn is_held(
    members: Seq<Option<Position>>,
    virtual_pos: Position,
    destination: Position,
) -> bool {
    let living = present(members);
    &&& virtual_pos.room != destination.room
    &&& living > 1
    &&& !(is_share(
        tally(members, in_either(virtual_pos.room, destination.room)),
        living,
        STRICT_QUORUM_RATIO as int,
    ) && is_share(
        tally(members, at_border(virtual_pos.room, destination)),
        living,
        STRICT_QUORUM_RATIO as int,
    ))
}

/// Whether the squad waits at a border: before it moves on from the room of `virtual_pos` into another,
/// three quarters of the members in the world have to be in one of the two rooms, and three quarters
/// past the border or near it. A lone member does not wait.
pub fn should_hold_at_boundary(
    member_positions: &[Option<Position>],
    virtual_pos: Position,
    destination: Position,
) -> (hold: bool)
    ensures
        hold == is_held(member_positions@, virtual_pos, destination),
{
    let living: usize = count_present(member_positions);
    if virtual_pos.room == destination.room || living <= 1 {
        return false;
    }
    let ghost either = in_either(virtual_pos.room, destination.room);
    let ghost border = at_border(virtual_pos.room, destination);
    let mut gathered: usize = 0;
    let mut near: usize = 0;
    let mut i: usize = 0;
    assert(member_positions@.take(0) =~= Seq::empty());
    while i < member_positions.len()
        invariant
            either == in_either(virtual_pos.room, destination.room),
            border == at_border(virtual_pos.room, destination),
            i <= member_positions@.len(),
            gathered == tally(member_positions@.take(i as int), either),
            near == tally(member_positions@.take(i as int), border),
            gathered <= i,
            near <= i,
        decreases member_positions@.len() - i,
    {
        proof {
            let seen = member_positions@.take(i + 1);
            assert(seen.drop_last() =~= member_positions@.take(i as int));
            assert(seen.last() == member_positions@[i as int]);
        }
        if let Some(p) = member_positions[i] {
            assert(member_positions@[i as int] == Some(p));
            if p.room == virtual_pos.room || p.room == destination.room {
                gathered = gathered + 1;
            }
            if p.room != virtual_pos.room || is_near_room_edge_toward(p, destination) {
                near = near + 1;
            }
        }
        i = i + 1;
    }
    assert(member_positions@.take(i as int) =~= member_positions@);
    let r: u128 = STRICT_QUORUM_RATIO as u128;
    assert(living * r == living * 750);
    let wanted: u128 = living as u128 * r;
    !(gathered as u128 * 1000 >= wanted && near as u128 * 1000 >= wanted)
}

// ---------------------------------------------------------------------------------------------
// Gathering.
// ---------------------------------------------------------------------------------------------

/// How many members are within `radius` of the rally.
pub fn members_gathered_at(
    member_positions: &[Option<Position>],
    rally: Position,
    radius: u32,
) -> (n: usize)
    requires
        all_on_tiles(member_positions@),
        rally.wf(),
    ensures
        n == tally(member_positions@, gathered_at(rally, radius as int)),
        n <= member_positions@.len(),
{
    let ghost near = gathered_at(rally, radius as int);
    let mut n: usize = 0;
    let mut i: usize = 0;
    assert(member_positions@.take(0) =~= Seq::empty());
    while i < member_positions.len()
        invariant
            all_on_tiles(member_positions@),
            rally.wf(),
            near == gathered_at(rally, radius as int),
            i <= member_positions@.len(),
            n == tally(member_positions@.take(i as int), near),
            n <= i,
        decreases member_positions@.len() - i,
    {
        proof {
            let seen = member_positions@.take(i + 1);
            assert(seen.drop_last() =~= member_positions@.take(i as int));
            assert(seen.last() == member_positions@[i as int]);
        }
        if let Some(p) = member_positions[i] {
            assert(member_positions@[i as int] == Some(p));
            if range_between(p, rally) <= radius {
                n = n + 1;
            }
        }
        i = i + 1;
    }
    assert(member_positions@.take(i as int) =~= member_positions@);
    n
}

/// The squad attacks: one member is enough for a room that is known to be clear; for any other three
/// quarters of the living, with a fighter among them, and no lone creep unless only one was asked for.
pub open spec fn is_massed(
    members: Seq<Option<Position>>,
    rally: Position,
    requested: int,
    uncontested: bool,
    has_fighter: bool,
    radius: int,
) -> bool {
    let gathered = tally(members, gathered_at(rally, radius));
    let living = present(members);
    if requested == 0 {
        true
    } else if uncontested {
        gathered >= 1
    } else {
        &&& living > 0
        &&& gathered >= quorum_of(living, GATHER_QUORUM_RATIO as int)
        &&& requested > 1 ==> gathered >= MIN_VIABLE_GROUP
        &&& has_fighter
    }
}

/// Whether enough members have gathered at the rally to attack.
pub fn gather_quorum_met(
    member_positions: &[Option<Position>],
    rally: Position,
    requested_slots: usize,
    uncontested: bool,
    has_fighter_gathered: bool,
    radius: u32,
) -> (r: bool)
    requires
        all_on_tiles(member_positions@),
        rally.wf(),
    ensures
        r == is_massed(
            member_positions@,
            rally,
            requested_slots as int,
            uncontested,
            has_fighter_gathered,
            radius as int,
        ),
{
    if requested_slots == 0 {
        return true;
    }
    let gathered: usize = members_gathered_at(member_positions, rally, radius);
    if uncontested {
        return gathered >= 1;
    }
    let living: usize = count_present(member_positions);
    if living == 0 {
        return false;
    }
    if requested_slots > 1 && gathered < MIN_VIABLE_GROUP {
        return false;
    }
    gathered >= quorum(living, GATHER_QUORUM_RATIO) && has_fighter_gathered
}

/// The sign of a number.
pub open spec fn sign(n: int) -> int {
    if n > 0 {
        1
    } else if n < 0 {
        -1
    } else {
        0
    }
}

/// The sign of a number.
fn sign_of(n: i32) -> (s: i32)
    ensures
        s == sign(n as int),
{
    if n > 0 {
        1
    } else if n < 0 {
        -1
    } else {
        0
    }
}

/// The room next to `target` on the way to `approach`.
pub open spec fn one_room_short(approach: RoomName, target: RoomName) -> RoomName {
    RoomName {
        x: (target.x + sign(approach.x - target.x)) as u8,
        y: (target.y + sign(approach.y - target.y)) as u8,
    }
}

/// The room where a squad gathers.
pub open spec fn rally_room(approach: RoomName, target: RoomName, uncontested: bool) -> RoomName {
    if uncontested {
        target
    } else {
        one_room_short(approach, target)
    }
}

/// Where a squad that comes from `approach` gathers: in the middle of the target room where that is known
/// to be clear, or where it has arrived; else one room short of it.
pub fn shared_rally_point(approach: Position, target: Position, uncontested: bool) -> (rally: Position)
    ensures
        rally.room == rally_room(approach.room, target.room, uncontested),
        rally.x == ROOM_CENTRE,
        rally.y == ROOM_CENTRE,
        rally.wf(),
{
    if uncontested || approach.room == target.room {
        return Position { room: target.room, x: ROOM_CENTRE, y: ROOM_CENTRE };
    }
    let delta = room_delta(approach.room, target.room);
    let room = room_offset(target.room, sign_of(delta.0), sign_of(delta.1));
    Position { room, x: ROOM_CENTRE, y: ROOM_CENTRE }
}

// ---------------------------------------------------------------------------------------------
// Laws.
// ---------------------------------------------------------------------------------------------

/// Whoever may leave with all its members may leave as a group, and into a clear room; whoever may leave
/// as a group may leave into a clear room; and more members never hold a squad back.
pub proof fn law_gates_are_ordered(n: int, more: int, requested: int)
    requires
        0 <= n <= more,
        1 <= requested,
    ensures
        n >= requested ==> n >= quorum_of(requested, STRICT_QUORUM_RATIO as int),
        n >= quorum_of(requested, STRICT_QUORUM_RATIO as int) ==> n >= needed_to_leave(requested, true),
        n >= needed_to_leave(requested, false) ==> n >= needed_to_leave(requested, true),
        n >= quorum_of(requested, STRICT_QUORUM_RATIO as int) ==> more >= quorum_of(
            requested,
            STRICT_QUORUM_RATIO as int,
        ),
{
}

/// A lone creep is sent nowhere, unless only one was asked for.
pub proof fn law_no_lone_creep_leaves(requested: int, uncontested: bool)
    requires
        2 <= requested,
    ensures
        1 < quorum_of(requested, STRICT_QUORUM_RATIO as int),
        1 < needed_to_leave(requested, uncontested),
{
    assert(requested * 750 >= 1500);
}

/// A member that has not spawned changes nothing: not the count, not whether the squad waits at a border,
/// not whether it attacks.
pub proof fn law_unspawned_members_count_for_nothing(
    members: Seq<Option<Position>>,
    virtual_pos: Position,
    destination: Position,
    requested: int,
    uncontested: bool,
    has_fighter: bool,
    radius: int,
)
    ensures
        present(members.push(None)) == present(members),
        is_held(members.push(None), virtual_pos, destination) == is_held(
            members,
            virtual_pos,
            destination,
        ),
        is_massed(
            members.push(None),
            destination,
            requested,
            uncontested,
            has_fighter,
            radius,
        ) == is_massed(members, destination, requested, uncontested, has_fighter, radius),
{
    assert(members.push(None).drop_last() =~= members);
}

/// Against a room that may be defended no squad attacks without a fighter, and no creep alone: neither
/// one of several members, nor the last of a squad of which more were asked for.
pub proof fn law_no_weak_attack(
    members: Seq<Option<Position>>,
    rally: Position,
    requested: int,
    has_fighter: bool,
    radius: int,
)
    requires
        requested >= 1,
        is_massed(members, rally, requested, false, has_fighter, radius),
    ensures
        has_fighter,
        requested >= 2 || present(members) >= 2 ==> tally(members, gathered_at(rally, radius)) >= 2,
{
    lemma_tally_bounds(members, gathered_at(rally, radius));
}

/// Where one border leads to the room of the destination, only that one counts: how far along it a member
/// stands does not matter, nor where in the room the destination is.
pub proof fn law_only_the_border_to_cross_counts(p: Position, destination: Position)
    requires
        p.wf(),
    ensures
        p.room.y == destination.room.y && destination.room.x < p.room.x ==> (is_near_edge(
            p,
            destination,
        ) <==> p.x <= NEAR_EDGE),
        p.room.y == destination.room.y && destination.room.x > p.room.x ==> (is_near_edge(
            p,
            destination,
        ) <==> 49 - p.x <= NEAR_EDGE),
        p.room.x == destination.room.x && destination.room.y < p.room.y ==> (is_near_edge(
            p,
            destination,
        ) <==> p.y <= NEAR_EDGE),
        p.room.x == destination.room.x && destination.room.y > p.room.y ==> (is_near_edge(
            p,
            destination,
        ) <==> 49 - p.y <= NEAR_EDGE),
{
}

/// Once all members in the world have crossed, the squad does not wait.
pub proof fn law_all_across_moves_on(
    members: Seq<Option<Position>>,
    virtual_pos: Position,
    destination: Position,
)
    requires
        forall|i: int|
            0 <= i < members.len() && members[i] is Some ==> (#[trigger] members[i])->0.room
                == destination.room,
    ensures
        !is_held(members, virtual_pos, destination),
{
    lemma_all_count(members, in_either(virtual_pos.room, destination.room));
    if virtual_pos.room != destination.room {
        lemma_all_count(members, at_border(virtual_pos.room, destination));
        lemma_tally_bounds(members, anywhere());
    }
}

/// Where every member in the world meets `at`, all of them are counted.
proof fn lemma_all_count(members: Seq<Option<Position>>, at: spec_fn(Position) -> bool)
    requires
        forall|i: int| 0 <= i < members.len() && members[i] is Some ==> at((#[trigger] members[i])->0),
    ensures
        tally(members, at) == present(members),
    decreases members.len(),
{
    if members.len() > 0 {
        let rest = members.drop_last();
        assert forall|i: int| 0 <= i < rest.len() && rest[i] is Some implies at(
            (#[trigger] rest[i])->0,
        ) by {
            assert(rest[i] == members[i]);
        }
        lemma_all_count(rest, at);
        assert(members.last() == members[members.len() - 1]);
    }
}

/// Short of a room that may be defended, a squad gathers in the next room to it, nearer to where it comes
/// from than the target is; once it has arrived, in the target room.
pub proof fn law_gathers_one_room_short(approach: RoomName, target: RoomName)
    ensures
        approach != target ==> {
            let room = rally_room(approach, target, false);
            &&& crate::geometry::room_distance(room, target) == 1
            &&& crate::geometry::room_distance(room, approach)
                < crate::geometry::room_distance(target, approach)
        },
        rally_room(target, target, false) == target,
        rally_room(approach, target, true) == target,
{
}

/// For a room that was scouted, whether a member sees it at the moment does not matter: neither to whether
/// it counts as clear, nor to where the squad gathers.
pub proof fn law_scouted_rally_is_stable(
    approach: RoomName,
    target: RoomName,
    mapped: bool,
    seen: bool,
    seen_later: bool,
    no_hostiles: bool,
    no_towers: bool,
    no_safe_mode: bool,
)
    requires
        mapped,
    ensures
        ({
            let now = is_clear(is_trusted(mapped, seen), no_hostiles, no_towers, no_safe_mode);
            let later = is_clear(
                is_trusted(mapped, seen_later),
                no_hostiles,
                no_towers,
                no_safe_mode,
            );
            now == later && rally_room(approach, target, now) == rally_room(
                approach,
                target,
                later,
            )
        }),
{
}

/// A room that was neither scouted nor seen is never taken for clear.
pub proof fn law_unknown_is_not_clear(no_hostiles: bool, no_towers: bool, no_safe_mode: bool)
    ensures
        !is_clear(is_trusted(false, false), no_hostiles, no_towers, no_safe_mode),
{
}

/// A squad attacks a room that may be defended exactly when it has a fighter there and three of four of
/// its living members have gathered, two at least unless it was to be a single creep and is one.
pub proof fn law_attack_musters_three_quarters(
    members: Seq<Option<Position>>,
    rally: Position,
    requested: int,
    has_fighter: bool,
    radius: int,
)
    requires
        requested > 0,
    ensures
        ({
            let gathered = tally(members, gathered_at(rally, radius));
            let living = present(members);
            is_massed(members, rally, requested, false, has_fighter, radius) <==> {
                &&& has_fighter
                &&& living >= 1
                &&& gathered * 1000 >= living * 750
                &&& living >= 2 || requested >= 2 ==> gathered >= 2
            }
        }),
{
    let gathered = tally(members, gathered_at(rally, radius));
    let living = present(members);
    lemma_tally_bounds(members, gathered_at(rally, radius));
    lemma_tally_bounds(members, anywhere());
    crate::fixed::lemma_ceil_covers(living * 750, 1000, gathered);
}

/// Into a room that is known to be clear, the first member at the rally may go; and where nobody was asked
/// for, nothing holds the squad.
pub proof fn law_clear_room_needs_one(
    members: Seq<Option<Position>>,
    rally: Position,
    requested: int,
    uncontested: bool,
    has_fighter: bool,
    radius: int,
)
    requires
        requested >= 0,
    ensures
        is_massed(members, rally, 0, uncontested, has_fighter, radius),
        requested > 0 ==> (is_massed(members, rally, requested, true, has_fighter, radius) <==> tally(
            members,
            gathered_at(rally, radius),
        ) >= 1),
{
}

/// A group leaves exactly when three of four of the members that were asked for are in the world, and it is
/// no lone creep unless it has all its members.
pub proof fn law_group_leaves_at_three_quarters(present: int, requested: int)
    requires
        0 <= present,
        1 <= requested,
    ensures
        present >= quorum_of(requested, STRICT_QUORUM_RATIO as int) <==> {
            &&& present * 1000 >= requested * 750
            &&& present >= 2 || present >= requested
        },
{
    crate::fixed::lemma_ceil_covers(requested * 750, 1000, present);
}

/// Into a room that may be defended a squad leaves exactly when it has all its members; into a clear one
/// when it has all its members or two.
pub proof fn law_leaving_waits_for_all_or_two(present: int, requested: int)
    requires
        0 <= present,
        1 <= requested,
    ensures
        present >= needed_to_leave(requested, false) <==> present >= requested,
        present >= needed_to_leave(requested, true) <==> present >= requested || present >= 2,
{
}

/// Each member in the world counts once: always as living, as gathered where it stands within `radius` of
/// the rally along both axes of the world, as in one of two rooms where it is, and as past the border where
/// it has left the room or is close to the border; one that is not in the world never counts.
pub proof fn law_each_member_counts_once(
    members: Seq<Option<Position>>,
    p: Position,
    rally: Position,
    radius: int,
    a: RoomName,
    b: RoomName,
    destination: Position,
)
    ensures
        present(Seq::empty()) == 0,
        tally(Seq::empty(), gathered_at(rally, radius)) == 0,
        tally(Seq::empty(), in_either(a, b)) == 0,
        tally(Seq::empty(), at_border(a, destination)) == 0,
        present(members.push(Some(p))) == present(members) + 1,
        present(members.push(None)) == present(members),
        ({
            let dx = 50 * (p.room.x - rally.room.x) + p.x - rally.x;
            let dy = 50 * (p.room.y - rally.room.y) + p.y - rally.y;
            tally(members.push(Some(p)), gathered_at(rally, radius)) - tally(
                members,
                gathered_at(rally, radius),
            ) == if -radius <= dx <= radius && -radius <= dy <= radius {
                1int
            } else {
                0
            }
        }),
        tally(members.push(Some(p)), in_either(a, b)) - tally(members, in_either(a, b)) == if p.room == a
            || p.room == b {
            1int
        } else {
            0
        },
        tally(members.push(Some(p)), at_border(a, destination)) - tally(members, at_border(a, destination))
            == if p.room != a || is_near_edge(p, destination) {
            1int
        } else {
            0
        },
        forall|at: spec_fn(Position) -> bool| #[trigger]
            tally(members.push(None), at) == tally(members, at),
{
    assert(members.push(Some(p)).drop_last() =~= members);
    assert(members.push(None).drop_last() =~= members);
}

/// A squad of several waits before the border of another room exactly as long as more than one in four of
/// its living members is in neither of the two rooms, or more than one in four is neither past the border
/// nor near it.
pub proof fn law_waits_for_three_quarters(
    members: Seq<Option<Position>>,
    virtual_pos: Position,
    destination: Position,
)
    ensures
        is_held(members, virtual_pos, destination) <==> {
            let living = present(members);
            let together = tally(members, in_either(virtual_pos.room, destination.room));
            let close = tally(members, at_border(virtual_pos.room, destination));
            &&& virtual_pos.room != destination.room
            &&& living >= 2
            &&& living * 750 > together * 1000 || living * 750 > close * 1000
        },
{
}

/// A member is near the border to another room exactly when, along each axis on which the rooms differ, it
/// stands within eight tiles of the end of its room on that side.
pub proof fn law_near_means_eight_tiles(p: Position, destination: Position)
    ensures
        p.room == destination.room ==> is_near_edge(p, destination),
        p.room != destination.room ==> (is_near_edge(p, destination) <==> {
            &&& destination.room.x > p.room.x ==> p.x + 8 >= 49
            &&& destination.room.x < p.room.x ==> p.x <= 8
            &&& destination.room.y > p.room.y ==> p.y + 8 >= 49
            &&& destination.room.y < p.room.y ==> p.y <= 8
        }),
{
}

/// The room one short of the target lies from it, along each axis, on the side that the squad comes from.
pub proof fn law_rally_is_on_the_way(approach: RoomName, target: RoomName)
    ensures
        ({
            let room = rally_room(approach, target, false);
            &&& approach.x > target.x ==> room.x == target.x + 1
            &&& approach.x < target.x ==> room.x == target.x - 1
            &&& approach.x == target.x ==> room.x == target.x
            &&& approach.y > target.y ==> room.y == target.y + 1
            &&& approach.y < target.y ==> room.y == target.y - 1
            &&& approach.y == target.y ==> room.y == target.y
        }),
{
}

/// Trusted knowledge that there is nothing makes a room clear, and any single thing there, or the lack of
/// that knowledge, makes it count as defended.
pub proof fn law_one_sign_of_defense_is_enough(
    mapped: bool,
    seen: bool,
    no_hostiles: bool,
    no_towers: bool,
    no_safe_mode: bool,
)
    ensures
        mapped || seen ==> is_clear(is_trusted(mapped, seen), true, true, true),
        !no_hostiles || !no_towers || !no_safe_mode ==> !is_clear(
            is_trusted(mapped, seen),
            no_hostiles,
            no_towers,
            no_safe_mode,
        ),
{
}

/// The numbers that squads gather by.
pub proof fn law_numbers_of_gathering()
    ensures
        STRICT_QUORUM_RATIO == 750 && GATHER_QUORUM_RATIO == 750,
        MIN_VIABLE_GROUP == 2 && RALLY_GATHER_RADIUS == 3,
        NEAR_EDGE == 8 && ROOM_CENTRE == 25,
{
}

}
