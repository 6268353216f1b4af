//! Which enemies are answered, and how urgently.
use screeps_combat_decision::parts::Part;
use screeps_combat_decision::war_decision::{
    dismantle_danger, emit_defense, estimate_danger, hostile_warrants_defender, neighbour_threats,
    observe_neighbours, DefensePolicy, ObservedRoom, OwnedRoom, RawObservation, Threat,
    DEFENSE_PRIORITY_CRITICAL, DEFENSE_PRIORITY_HIGH, DEFENSE_PRIORITY_MEDIUM,
    DISMANTLE_DANGER_PER_WORK,
};

fn milli(x: f64) -> i64 {
    (x * 1000.0).round() as i64
}

type Room = (i32, i32);
fn cheby(a: Room, b: Room) -> u32 {
    (a.0 - b.0).unsigned_abs().max((a.1 - b.1).unsigned_abs())
}

fn owned(r: Room, value: f64) -> OwnedRoom<Room> {
    OwnedRoom { room: r, value: milli(value) }
}
fn threat(r: Room, danger: f64) -> Threat<Room> {
    Threat { room: r, danger: milli(danger), tower_danger: milli(0.0) }
}

#[test]
fn emits_at_the_threat_room_not_the_owned_room() {
    let out = emit_defense(&[owned((0, 0), 1.0)], &[threat((1, 0), 5.0)], DefensePolicy::default(), cheby);
    assert_eq!(out.len(), 1);
    assert_eq!(out[0].room, (1, 0), "the Secure objective sits at the threat's room, not the owned room");
}

#[test]
fn asset_priority_boost_ranks_in_then_adjacent_then_far() {
    let owned_rooms = [owned((0, 0), 1.0)];
    let in_room = emit_defense(&owned_rooms, &[threat((0, 0), 1.0)], DefensePolicy::default(), cheby);
    assert_eq!(in_room[0].priority, DEFENSE_PRIORITY_CRITICAL);
    assert!(in_room[0].asset_boosted);

    let adjacent = emit_defense(&owned_rooms, &[threat((1, 1), 1.0)], DefensePolicy::default(), cheby);
    assert_eq!(adjacent[0].priority, DEFENSE_PRIORITY_HIGH);
    assert!(adjacent[0].asset_boosted);

    let far = emit_defense(&owned_rooms, &[threat((2, 0), 1.0)], DefensePolicy::default(), cheby);
    assert_eq!(far[0].priority, DEFENSE_PRIORITY_MEDIUM);
    assert!(!far[0].asset_boosted);
}

#[test]
fn leash_bounds_the_chase_distance() {
    let owned_rooms = [owned((0, 0), 1.0)];
    let out = emit_defense(&owned_rooms, &[threat((3, 0), 9.0)], DefensePolicy::default(), cheby);
    assert!(out.is_empty(), "a threat beyond the leash is not chased");
    let tight = emit_defense(&owned_rooms, &[threat((2, 0), 9.0)], DefensePolicy { leash: 1 }, cheby);
    assert!(tight.is_empty(), "a leash=1 drops a 2-rooms-out threat");
    let neighbour = emit_defense(&owned_rooms, &[threat((1, 0), 9.0)], DefensePolicy { leash: 1 }, cheby);
    assert_eq!(neighbour.len(), 1);
}

#[test]
fn no_owned_rooms_emits_nothing() {
    let out = emit_defense(&[], &[threat((1, 0), 5.0)], DefensePolicy::default(), cheby);
    assert!(out.is_empty());
}

#[test]
fn multiple_threats_rank_by_priority_then_danger_deterministically() {
    let owned_rooms = [owned((0, 0), 1.0)];
    let threats = [
        threat((2, 0), 3.0),
        threat((0, 0), 1.0),
        threat((1, 0), 2.0),
        threat((5, 0), 9.0),
    ];
    let out = emit_defense(&owned_rooms, &threats, DefensePolicy::default(), cheby);
    assert_eq!(out.len(), 3, "the beyond-leash threat is dropped");
    assert_eq!(out[0].room, (0, 0), "in-base CRITICAL first");
    assert_eq!(out[1].room, (1, 0), "adjacent HIGH second");
    assert_eq!(out[2].room, (2, 0), "leashed MEDIUM last");
    assert_eq!(out, emit_defense(&owned_rooms, &threats, DefensePolicy::default(), cheby));
}

#[test]
fn equal_priority_breaks_by_danger() {
    let owned_rooms = [owned((0, 0), 1.0)];
    let threats = [threat((1, 0), 2.0), threat((-1, 0), 7.0)];
    let out = emit_defense(&owned_rooms, &threats, DefensePolicy::default(), cheby);
    assert_eq!(out.len(), 2);
    assert_eq!(out[0].room, (-1, 0), "higher danger ranks first on a priority tie");
    assert_eq!(out[1].room, (1, 0));
}

fn obs(r: Room, armed: bool, danger: f64) -> ObservedRoom<Room> {
    ObservedRoom { room: r, armed, danger: milli(danger), tower_danger: milli(0.0) }
}

#[test]
fn neighbour_armed_visible_within_leash_becomes_a_threat() {
    let owned_rooms = [owned((0, 0), 1.0)];
    let observed = [obs((1, 0), true, 5.0), obs((2, 0), true, 3.0)];
    let out = neighbour_threats(&owned_rooms, &observed, DefensePolicy::default(), cheby);
    assert_eq!(out.len(), 2);
    assert_eq!(out[0], threat((1, 0), 5.0), "adjacent armed neighbour fed with its danger");
    assert_eq!(out[1], threat((2, 0), 3.0), "within-leash armed neighbour fed with its danger");
}

#[test]
fn neighbour_unarmed_invisible_or_beyond_leash_yields_none() {
    let owned_rooms = [owned((0, 0), 1.0)];
    let observed = [
        obs((1, 0), false, 5.0),
        obs((3, 0), true, 9.0),
    ];
    let out = neighbour_threats(&owned_rooms, &observed, DefensePolicy::default(), cheby);
    assert!(out.is_empty(), "unarmed/beyond-leash dropped; invisible never present");
}

#[test]
fn neighbour_swarm_is_one_threat_room() {
    let owned_rooms = [owned((0, 0), 1.0)];
    let observed = [obs((1, 0), true, 150.0)];
    let out = neighbour_threats(&owned_rooms, &observed, DefensePolicy::default(), cheby);
    assert_eq!(out.len(), 1, "a swarm in one room is a single threat-room");
    assert_eq!(out[0], threat((1, 0), 150.0));
}

#[test]
fn neighbour_excludes_owned_rooms_no_double_count() {
    let owned_rooms = [owned((0, 0), 1.0)];
    let observed = [obs((0, 0), true, 5.0)];
    let out = neighbour_threats(&owned_rooms, &observed, DefensePolicy::default(), cheby);
    assert!(out.is_empty(), "owned rooms are covered by the owned-room scan, not the neighbour builder");
}

#[test]
fn neighbour_no_owned_rooms_yields_none() {
    let out = neighbour_threats(&[], &[obs((1, 0), true, 5.0)], DefensePolicy::default(), cheby);
    assert!(out.is_empty());
}

#[test]
fn neighbour_threats_are_deterministic() {
    let owned_rooms = [owned((0, 0), 1.0)];
    let observed = [obs((1, 0), true, 5.0), obs((-1, 0), true, 7.0), obs((2, 0), true, 3.0)];
    let out = neighbour_threats(&owned_rooms, &observed, DefensePolicy::default(), cheby);
    assert_eq!(out, neighbour_threats(&owned_rooms, &observed, DefensePolicy::default(), cheby));
}

fn raw<'a>(r: Room, bodies: &'a [Vec<Part>], visible: bool, is_owned: bool) -> RawObservation<'a, Room> {
    RawObservation {
        room: r,
        hostile_bodies: bodies,
        visible,
        is_owned,
        nearest_owned_dist: Some(cheby((0, 0), r)),
        tower_danger: milli(0.0),
    }
}

fn raw_towered<'a>(r: Room, bodies: &'a [Vec<Part>], tower_danger: f64) -> RawObservation<'a, Room> {
    RawObservation {
        room: r,
        hostile_bodies: bodies,
        visible: true,
        is_owned: false,
        nearest_owned_dist: Some(cheby((0, 0), r)),
        tower_danger: milli(tower_danger),
    }
}

#[test]
fn observe_armed_check_matches_lifted_predicate() {
    assert!(hostile_warrants_defender(&[Part::Attack, Part::Move]));
    assert!(hostile_warrants_defender(&[Part::RangedAttack, Part::Move]));
    assert!(hostile_warrants_defender(&[Part::Work, Part::Move]));
    assert!(hostile_warrants_defender(&[Part::Claim, Part::Move]));
    assert!(hostile_warrants_defender(&[Part::Heal, Part::Move]));
    assert!(!hostile_warrants_defender(&[Part::Move, Part::Carry]));
    assert!(!hostile_warrants_defender(&[Part::Tough, Part::Move]));
    assert!(!hostile_warrants_defender(&[]));
}

#[test]
fn observe_danger_estimate_matches_lifted_fold() {
    assert_eq!(estimate_danger(&[Part::Attack, Part::Attack, Part::Move]), milli(60.0));
    assert_eq!(estimate_danger(&[Part::RangedAttack, Part::Move]), milli(10.0));
    assert_eq!(estimate_danger(&[Part::Heal, Part::Work, Part::Claim, Part::Move]), milli(0.0));
}

#[test]
fn dismantle_danger_gated_on_our_structures() {
    assert_eq!(dismantle_danger(5, true), 5 * DISMANTLE_DANGER_PER_WORK);
    assert_eq!(dismantle_danger(5, false), milli(0.0));
    assert_eq!(dismantle_danger(0, true), milli(0.0));
    assert_eq!(estimate_danger(&[Part::Work, Part::Work, Part::Move]), milli(0.0));
}

#[test]
fn observe_armed_visible_within_leash_becomes_one_observed_room() {
    let attacker = vec![Part::Attack, Part::Attack, Part::Move];
    let bodies = [attacker];
    let observations = [raw((1, 0), &bodies, true, false)];
    let out = observe_neighbours(&observations, DefensePolicy::default());
    assert_eq!(out.len(), 1);
    assert_eq!(out[0], obs((1, 0), true, 60.0));
}

#[test]
fn observe_drops_unarmed_invisible_owned_and_beyond_leash() {
    let scout = vec![Part::Move, Part::Carry];
    let attacker = vec![Part::Attack, Part::Move];
    let scout_bodies = [scout];
    let attacker_bodies = [attacker];
    let observations = [
        raw((1, 0), &scout_bodies, true, false),
        raw((1, 1), &attacker_bodies, false, false),
        raw((0, 0), &attacker_bodies, true, true),
        raw((3, 0), &attacker_bodies, true, false),
    ];
    let out = observe_neighbours(&observations, DefensePolicy::default());
    assert!(out.is_empty(), "all four filters drop their room");
}

#[test]
fn observe_swarm_is_one_room_with_summed_danger() {
    let bodies = vec![
        vec![Part::Attack, Part::Move],
        vec![Part::Attack, Part::Move],
        vec![Part::RangedAttack, Part::Move],
    ];
    let observations = [raw((1, 0), &bodies, true, false)];
    let out = observe_neighbours(&observations, DefensePolicy::default());
    assert_eq!(out.len(), 1, "a swarm in one room is a single ObservedRoom");
    assert_eq!(out[0], obs((1, 0), true, 70.0), "danger summed across the swarm");
}

#[test]
fn observe_suppresses_bare_secure_for_danger0_creep_under_towers() {
    let dismantler = vec![Part::Work, Part::Move];
    let bodies = [dismantler];
    let observations = [raw_towered((1, 0), &bodies, 300.0)];
    let out = observe_neighbours(&observations, DefensePolicy::default());
    assert!(
        out.is_empty(),
        "a danger==0 creep sitting under hostile towers is NOT attacking us — the bare Secure is suppressed"
    );
}

#[test]
fn observe_preserves_real_attacker_even_under_towers() {
    let attacker = vec![Part::Attack, Part::Move];
    let bodies = [attacker];
    let observations = [raw_towered((1, 0), &bodies, 300.0)];
    let out = observe_neighbours(&observations, DefensePolicy::default());
    assert_eq!(out.len(), 1, "a REAL attacker (danger>0) under towers STILL emits — the suppress gate spares it");
    assert!(out[0].armed);
    assert_eq!(out[0].danger, milli(30.0), "the creep danger is what the attacker scores");
    assert_eq!(out[0].tower_danger, milli(300.0), "the tower threat is carried DISTINCT, not folded into danger");
}

#[test]
fn observe_preserves_danger0_creep_in_non_towered_room() {
    let claimer = vec![Part::Claim, Part::Move];
    let bodies = [claimer];
    let observations = [raw_towered((1, 0), &bodies, 0.0)];
    let out = observe_neighbours(&observations, DefensePolicy::default());
    assert_eq!(out.len(), 1, "a danger==0 creep in a NON-towered room STILL emits (a genuine non-tower threat)");
    assert!(out[0].armed, "a Claim controller-attacker still warrants a defender");
    assert_eq!(out[0].danger, milli(0.0), "its creep danger is 0 (estimate_danger scores only Attack/RangedAttack)");
    assert_eq!(out[0].tower_danger, milli(0.0), "no towers ⇒ the suppress gate does not fire");
}

#[test]
fn observe_no_towers_carries_zero_tower_danger() {
    let attacker = vec![Part::Attack, Part::Move];
    let bodies = [attacker];
    let observations = [raw_towered((1, 0), &bodies, 0.0)];
    let out = observe_neighbours(&observations, DefensePolicy::default());
    assert_eq!(out.len(), 1);
    assert_eq!(out[0].danger, milli(30.0), "the creep danger is unaffected by the tower signal");
    assert_eq!(out[0].tower_danger, milli(0.0), "no scouted towers ⇒ tower_danger is 0");
}

#[test]
fn tower_danger_does_not_alter_the_emission() {
    let attacker = vec![Part::Attack, Part::Move];
    let bodies = [attacker];
    let no_tower = [raw_towered((1, 0), &bodies, 0.0)];
    let with_tower = [raw_towered((1, 0), &bodies, 500.0)];

    let obs_no = observe_neighbours(&no_tower, DefensePolicy::default());
    let obs_yes = observe_neighbours(&with_tower, DefensePolicy::default());
    assert_eq!(obs_no[0].armed, obs_yes[0].armed);
    assert_eq!(obs_no[0].danger, obs_yes[0].danger);
    assert_ne!(obs_no[0].tower_danger, obs_yes[0].tower_danger);

    let owned_rooms = [owned((0, 0), 1.0)];
    let threats_no = neighbour_threats(&owned_rooms, &obs_no, DefensePolicy::default(), cheby);
    let threats_yes = neighbour_threats(&owned_rooms, &obs_yes, DefensePolicy::default(), cheby);
    let emit_no = emit_defense(&owned_rooms, &threats_no, DefensePolicy::default(), cheby);
    let emit_yes = emit_defense(&owned_rooms, &threats_yes, DefensePolicy::default(), cheby);
    assert_eq!(emit_no, emit_yes, "the Secure emission (room/priority/order) is byte-identical");
    assert_eq!(threats_yes[0].tower_danger, milli(500.0));
    assert_eq!(threats_no[0].tower_danger, milli(0.0));
}

#[test]
fn observe_neighbours_is_deterministic() {
    let a = vec![Part::Attack, Part::Move];
    let ab = [a];
    let observations = [
        raw((1, 0), &ab, true, false),
        raw((-1, 0), &ab, true, false),
        raw((2, 0), &ab, true, false),
    ];
    let out = observe_neighbours(&observations, DefensePolicy::default());
    assert_eq!(out, observe_neighbours(&observations, DefensePolicy::default()));
}

#[test]
fn full_ties_keep_the_order_in_which_they_were_found() {
    let owned_rooms = [owned((0, 0), 1.0)];
    let threats = [threat((0, 1), 4.0), threat((1, 0), 4.0), threat((1, 1), 4.0)];
    let out = emit_defense(&owned_rooms, &threats, DefensePolicy::default(), cheby);
    let rooms: Vec<Room> = out.iter().map(|e| e.room).collect();
    assert_eq!(rooms, vec![(0, 1), (1, 0), (1, 1)]);
}

#[test]
fn the_nearest_of_several_rooms_counts() {
    let owned_rooms = [owned((9, 9), 5.0), owned((0, 0), 1.0)];
    let out = emit_defense(&owned_rooms, &[threat((1, 0), 1.0)], DefensePolicy::default(), cheby);
    assert_eq!(out[0].priority, DEFENSE_PRIORITY_HIGH);
}
