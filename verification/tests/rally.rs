//! Gathering, leaving and crossing.
use screeps_combat_decision::geometry::{Position, RoomName};
use screeps_combat_decision::rally::{
    gather_quorum_met, members_gathered_at, rally_intel_reliable, ready_to_depart_gate,
    shared_rally_point, should_hold_at_boundary, squad_ready_to_depart,
    squad_ready_to_depart_at_quorum, target_is_uncontested, RALLY_GATHER_RADIUS,
};

fn room(name: &str) -> RoomName {
    let [x, y] = name.parse::<screeps::RoomName>().unwrap().packed_repr().to_be_bytes();
    RoomName { x, y }
}

fn pos(x: u8, y: u8, name: &str) -> Position {
    Position { room: room(name), x, y }
}

fn in_game(p: Position) -> screeps::Position {
    screeps::Position::from_packed(u32::from_be_bytes([p.room.x, p.room.y, p.x, p.y]))
}

/// How many rooms apart two rooms are.
fn rooms_apart(a: RoomName, b: RoomName) -> u32 {
    let dx = (a.x as i32 - b.x as i32).unsigned_abs();
    let dy = (a.y as i32 - b.y as i32).unsigned_abs();
    dx.max(dy)
}

/// One step towards a tile, across borders.
fn step_toward(from: Position, to: Position) -> Position {
    if from == to {
        return from;
    }
    let (fx, fy) = in_game(from).world_coords();
    let (tx, ty) = in_game(to).world_coords();
    let (nx, ny) = (fx + (tx - fx).signum(), fy + (ty - fy).signum());
    let [room_x, room_y, x, y] =
        screeps::Position::from_world_coords(nx, ny).packed_repr().to_be_bytes();
    Position { room: RoomName { x: room_x, y: room_y }, x, y }
}

#[test]
fn boundary_does_not_hold_for_a_spawning_member() {
    let vp = pos(25, 25, "W3N6");
    let dest = pos(25, 25, "W3N5");
    let lead = pos(25, 2, "W3N5");
    assert!(
        !should_hold_at_boundary(&[Some(lead), None], vp, dest),
        "a still-spawning (None) member must not jam the boundary hold for a lone in-room lead"
    );
}

#[test]
fn boundary_holds_for_a_lagging_member() {
    let vp = pos(25, 25, "W3N6");
    let dest = pos(25, 25, "W3N5");
    let lead = pos(25, 2, "W3N5");
    let lagger = pos(25, 25, "W3N6");
    assert!(
        should_hold_at_boundary(&[Some(lead), Some(lagger)], vp, dest),
        "hold while a real member lags far from the boundary edge"
    );
}

#[test]
fn boundary_releases_when_all_crossed() {
    let vp = pos(25, 25, "W3N6");
    let dest = pos(25, 25, "W3N5");
    let a = pos(25, 2, "W3N5");
    let b = pos(26, 2, "W3N5");
    assert!(
        !should_hold_at_boundary(&[Some(a), Some(b)], vp, dest),
        "release once the whole squad has crossed"
    );
}

#[test]
fn squad_ready_only_when_full_roster_present() {
    let p = pos(25, 25, "W1N1");
    assert!(squad_ready_to_depart(&[Some(p), Some(p)], 2), "full + all present → depart");
    assert!(!squad_ready_to_depart(&[Some(p), None], 2), "a still-spawning member → hold + rally");
    assert!(!squad_ready_to_depart(&[Some(p)], 2), "roster not fully spawned → hold + rally");
    assert!(squad_ready_to_depart(&[Some(p)], 0), "unknown roster size → do not gate (legacy)");
    assert!(squad_ready_to_depart(&[Some(p), None], 1), "requested present + surplus spawning → depart");
}

#[test]
fn quorum_deploys_grouped_not_solo_not_full() {
    let p = pos(25, 25, "W1N1");
    assert!(!squad_ready_to_depart_at_quorum(&[Some(p), None, None, None], 4), "1/4 lone trickle → hold");
    assert!(!squad_ready_to_depart_at_quorum(&[Some(p), Some(p), None, None], 4), "2/4 below quorum → hold");
    assert!(squad_ready_to_depart_at_quorum(&[Some(p), Some(p), Some(p), None], 4), "3/4 quorum → deploy");
    assert!(squad_ready_to_depart_at_quorum(&[Some(p), Some(p)], 2), "2/2 → deploy");
    assert!(!squad_ready_to_depart_at_quorum(&[Some(p), None], 2), "1/2 below the min viable group → hold");
    assert!(squad_ready_to_depart_at_quorum(&[Some(p)], 1), "1/1 single-slot objective → deploy");
    assert!(squad_ready_to_depart_at_quorum(&[], 0), "unknown roster → do not gate");
}

#[test]
fn gate_quorum_when_uncontested_full_roster_when_contested() {
    let p = pos(25, 25, "W7N7");
    let three_of_five = [Some(p), Some(p), Some(p), None, None];
    assert!(
        ready_to_depart_gate(&three_of_five, 5, true),
        "3/5 present + UNCONTESTED → deploy at quorum (advance + dismantle as members arrive)"
    );
    assert!(
        !ready_to_depart_gate(&three_of_five, 5, false),
        "3/5 present + CONTESTED/UNSEEN → hold for the full roster (enter together or be picked off)"
    );
    let full = [Some(p), Some(p), Some(p), Some(p), Some(p)];
    assert!(ready_to_depart_gate(&full, 5, true), "5/5 uncontested → depart");
    assert!(ready_to_depart_gate(&full, 5, false), "5/5 contested → depart (full roster present)");
}

#[test]
fn scattered_members_converge_at_shared_rally_then_assault_advances() {
    let rally = pos(5, 25, "W3N2");
    let target = pos(25, 25, "W4N2");
    let mut a = pos(25, 25, "W2N9");
    let mut b = pos(8, 25, "W3N2");

    let mut gathered_tick = None;
    for t in 0..400 {
        if gather_quorum_met(&[Some(a), Some(b)], rally, 2, false, true, RALLY_GATHER_RADIUS) {
            gathered_tick = Some(t);
            break;
        }
        a = step_toward(a, rally);
        b = step_toward(b, rally);
    }
    let gathered_tick = gathered_tick.expect("both members converge at the shared rally (solo travel)");
    assert!(in_game(a).get_range_to(in_game(rally)) <= RALLY_GATHER_RADIUS, "member A reached the shared rally");
    assert!(in_game(b).get_range_to(in_game(rally)) <= RALLY_GATHER_RADIUS, "member B reached the shared rally");
    assert_eq!(a.room, rally.room, "A converged into the rally room");
    assert_eq!(b.room, rally.room, "B converged into the rally room");

    let room_dist = |p: Position| rooms_apart(p.room, target.room);
    let mut anchor = rally;
    let start_dist = room_dist(anchor);
    assert!(start_dist >= 1, "the rally is at least one room short of the target (W3N2 → W4N2)");
    let mut crossed = false;
    for _ in gathered_tick..(gathered_tick + 200) {
        let prev_room = anchor.room;
        anchor = step_toward(anchor, target);
        if anchor.room != prev_room {
            crossed = true;
        }
        if anchor.room == target.room {
            break;
        }
    }
    assert!(crossed, "the assault anchor crossed a room border advancing rally→target");
    assert!(room_dist(anchor) < start_dist, "the assault anchor strictly closed the room-distance to the target");
}

#[test]
fn shared_rally_stages_short_when_contested_at_room_when_uncontested() {
    let target = pos(25, 25, "W4N2");
    let approach = pos(25, 25, "W2N2");

    let r = shared_rally_point(approach, target, true);
    assert_eq!(r.room, target.room, "uncontested → target-room entrance");
    assert_eq!((r.x, r.y), (25, 25), "room centre");

    let r = shared_rally_point(approach, target, false);
    assert_eq!(r.room, room("W3N2"), "contested → one room short on the approach side");
    assert!(rooms_apart(r.room, approach.room) < rooms_apart(target.room, approach.room), "staging is closer to the approach than the target");
    assert_eq!(rooms_apart(r.room, target.room), 1, "staging is exactly one room from the target");

    let arrived = pos(10, 10, "W4N2");
    assert_eq!(shared_rally_point(arrived, target, false).room, target.room, "arrived → target room");
}

#[test]
fn gather_quorum_trickles_uncontested_but_masses_contested() {
    let rally = pos(25, 25, "W3N2");
    let near = pos(26, 25, "W3N2");
    let far = pos(25, 25, "W2N9");

    assert!(
        gather_quorum_met(&[Some(near), None], rally, 2, true, false, RALLY_GATHER_RADIUS),
        "uncontested → a single gathered member trickles in"
    );
    assert!(
        !gather_quorum_met(&[Some(near), Some(far)], rally, 2, false, true, RALLY_GATHER_RADIUS),
        "contested → hold until the near-full roster is massed at the rally"
    );
    assert!(
        gather_quorum_met(&[Some(near), Some(rally)], rally, 2, false, true, RALLY_GATHER_RADIUS),
        "contested + full roster gathered + fighter → assault"
    );
    assert!(
        !gather_quorum_met(&[Some(near), Some(rally)], rally, 2, false, false, RALLY_GATHER_RADIUS),
        "contested + no fighter gathered → never a healer-only assault"
    );
    assert!(gather_quorum_met(&[], rally, 0, false, false, RALLY_GATHER_RADIUS), "unknown roster → ungated");
}

#[test]
fn uncontested_requires_positive_visibility() {
    assert!(target_is_uncontested(true, true, true, true), "visible + clear → uncontested");
    assert!(!target_is_uncontested(false, true, true, true), "UNSEEN room (empty DTOs) → NOT uncontested");
    assert!(!target_is_uncontested(true, false, true, true), "hostiles present → not uncontested");
    assert!(!target_is_uncontested(true, true, false, true), "hostile tower present → not uncontested");
    assert!(!target_is_uncontested(true, true, true, false), "enemy safe mode → not uncontested");
}

#[test]
fn intel_reliable_mapped_is_stable_regardless_of_live_vision() {
    assert!(rally_intel_reliable(true, false), "mapped + no live vision → reliable (cached intel)");
    assert!(rally_intel_reliable(true, true), "mapped + live vision → reliable");
    assert!(rally_intel_reliable(false, true), "unmapped + live-visible → reliable (we see it now)");
    assert!(!rally_intel_reliable(false, false), "unmapped + unseen → NOT reliable (guarded)");
}

#[test]
fn shared_rally_oscillates_when_fed_raw_live_vision() {
    let approach = pos(25, 25, "W6N5");
    let target = pos(25, 25, "W7N5");
    let raw_live_vision = [false, true, false, true];
    let no_hostiles = true;

    let rally_rooms: Vec<RoomName> = raw_live_vision
        .iter()
        .map(|&room_visible| {
            let uncontested = target_is_uncontested(room_visible, no_hostiles, true, true);
            shared_rally_point(approach, target, uncontested).room
        })
        .collect();

    let target_room = target.room;
    let short_room = room("W6N5");
    assert_eq!(rally_rooms[0], short_room, "vision lost → contested → stage one room short");
    assert_eq!(rally_rooms[1], target_room, "vision gained → uncontested → stage at the target");
    assert_ne!(rally_rooms[0], rally_rooms[1], "the rally room OSCILLATES (the reproduced bug)");
    assert_eq!(rally_rooms[2], short_room);
    assert_eq!(rally_rooms[3], target_room);
}

#[test]
fn shared_rally_is_constant_for_a_mapped_target_under_flapping_vision() {
    let approach = pos(25, 25, "W6N5");
    let target = pos(25, 25, "W7N5");
    let flapping_live_vision = [false, true, false, true];
    let no_hostiles = true;
    let mapped = true;

    let rally_rooms: Vec<RoomName> = flapping_live_vision
        .iter()
        .map(|&live_visible| {
            let intel_reliable = rally_intel_reliable(mapped, live_visible);
            let uncontested = target_is_uncontested(intel_reliable, no_hostiles, true, true);
            shared_rally_point(approach, target, uncontested).room
        })
        .collect();

    let first = rally_rooms[0];
    assert_eq!(first, target.room, "mapped + clear → uncontested → stage at the target");
    assert!(
        rally_rooms.iter().all(|&r| r == first),
        "the rally room is CONSTANT across the flapping-vision sequence (oscillation fixed): {:?}",
        rally_rooms
    );
}

#[test]
fn members_are_counted_within_the_radius_across_rooms() {
    let rally = pos(49, 25, "W3N2");
    let next_door = pos(1, 25, "W2N2");
    let members = [Some(next_door), Some(pos(46, 25, "W3N2")), Some(pos(45, 25, "W3N2")), None];
    assert_eq!(members_gathered_at(&members, rally, 3), 2);
    assert_eq!(members_gathered_at(&members, rally, 4), 3);
    assert_eq!(members_gathered_at(&members, rally, 0), 0);
}

#[test]
fn the_border_counts_within_eight_tiles() {
    let vp = pos(25, 25, "W3N6");
    let dest = pos(25, 25, "W3N5");
    let near = pos(25, 41, "W3N6");
    let off = pos(25, 40, "W3N6");
    assert!(!should_hold_at_boundary(&[Some(near), Some(near)], vp, dest));
    assert!(should_hold_at_boundary(&[Some(near), Some(off)], vp, dest));
    assert!(!should_hold_at_boundary(&[Some(off), Some(off)], vp, vp), "no border to cross");
}

#[test]
fn a_diagonal_approach_stages_in_the_corner_room() {
    let target = pos(10, 10, "W4N2");
    let rally = shared_rally_point(pos(25, 25, "W2N5"), target, false);
    assert_eq!(rally, pos(25, 25, "W3N3"));
}

#[test]
fn only_the_border_that_is_crossed_counts() {
    let here = pos(25, 25, "W3N5");
    let west = pos(25, 30, "W4N5");
    let at_border = pos(2, 25, "W3N5");
    assert!(!should_hold_at_boundary(&[Some(at_border), Some(pos(8, 40, "W3N5"))], here, west));
    assert!(should_hold_at_boundary(&[Some(at_border), Some(pos(9, 30, "W3N5"))], here, west));

    let corner = pos(25, 25, "W4N4");
    assert!(!should_hold_at_boundary(&[Some(pos(2, 45, "W3N5")), Some(pos(3, 41, "W3N5"))], here, corner));
    assert!(should_hold_at_boundary(&[Some(at_border), Some(at_border)], here, corner), "two borders to cross");
}

#[test]
fn the_last_of_several_does_not_attack_alone() {
    let rally = pos(25, 25, "W3N2");
    assert!(!gather_quorum_met(&[Some(rally), None], rally, 2, false, true, RALLY_GATHER_RADIUS));
    assert!(!gather_quorum_met(&[Some(rally)], rally, 4, false, true, RALLY_GATHER_RADIUS));
    assert!(gather_quorum_met(&[Some(rally), Some(rally)], rally, 4, false, true, RALLY_GATHER_RADIUS));
    assert!(gather_quorum_met(&[Some(rally)], rally, 1, false, true, RALLY_GATHER_RADIUS), "one was asked for");
}
