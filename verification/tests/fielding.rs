//! Creeps to spawn for a squad.
use screeps_combat_decision::bodies::MoveProfile;
use screeps_combat_decision::composition::{assemble_force, SquadComposition};
use screeps_combat_decision::fielding::slots_to_spawn;
use screeps_combat_decision::force_sizing::RequiredForce;

fn milli(x: f64) -> i64 {
    (x * 1000.0).round() as i64
}

/// Three fighters and five healers.
fn multi_slot_comp() -> SquadComposition {
    let force = RequiredForce { heal_parts: 50, anti_creep_parts: 45, ..Default::default() };
    let comp = assemble_force(&force, 12_900).expect("a full squad");
    assert_eq!(comp.slots.len(), 8);
    comp
}

#[test]
fn queues_every_unfilled_slot_capped_to_the_per_member_energy() {
    let comp = multi_slot_comp();
    let n = comp.slots.len();
    let none_filled = vec![false; n];
    let reqs = slots_to_spawn(&comp, &none_filled, 12_900, 3000, milli(75.0), MoveProfile::Plains);
    assert_eq!(reqs.len(), n, "all slots queue when none are filled and all are buildable");
    for r in &reqs {
        assert!(
            r.body_cost <= 3000,
            "body capped to the per-member ceiling, not the RCL8 home (got {})",
            r.body_cost
        );
        assert!((r.priority as f64 / 1000.0 - 75.0).abs() < f64::EPSILON);
    }
}

#[test]
fn skips_filled_slots_and_maps_ids_to_slot_indices() {
    let comp = multi_slot_comp();
    let n = comp.slots.len();
    let mut filled = vec![false; n];
    filled[0] = true; // slot 0 already has a member
    let reqs = slots_to_spawn(&comp, &filled, 5300, 3000, milli(75.0), MoveProfile::Plains);
    assert_eq!(reqs.len(), n - 1, "the filled slot does not re-queue");
    assert!(reqs.iter().all(|r| r.id != 0), "slot 0 (filled) is absent");
    assert!(reqs.iter().any(|r| r.id == 1), "unfilled slots keep their index as id");
}

#[test]
fn unbuildable_slots_are_skipped_the_stall() {
    let comp = multi_slot_comp();
    let none_filled = vec![false; comp.slots.len()];
    let reqs = slots_to_spawn(&comp, &none_filled, 100, 3000, milli(75.0), MoveProfile::Plains);
    assert!(
        reqs.is_empty(),
        "no in-range home can build a member at 100e → the roster can't field"
    );
}

#[test]
fn a_short_list_leaves_the_rest_unfilled() {
    let comp = multi_slot_comp();
    let reqs = slots_to_spawn(&comp, &[true], 12_900, 3000, 1000, MoveProfile::Plains);
    assert_eq!(reqs.len(), comp.slots.len() - 1);
    let body = comp.slots[1].body_type.build_body(3000, MoveProfile::Plains).expect("built");
    assert_eq!(reqs[0].part_count as usize, body.len());
}
