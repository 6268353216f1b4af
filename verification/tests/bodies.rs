//! Bodies of combat creeps.
use screeps_combat_decision::bodies::{
    attack_parts_to_kill, build_combat_body, defender_heal_parts_for_dps, drain_heal_parts_for_dps,
    sized_defender_body, sized_healer_body, CombatBodySpec, MoveProfile,
};
use screeps_combat_decision::parts::{body_cost, Part};

fn milli(x: f64) -> i64 {
    (x * 1000.0).round() as i64
}

fn count(body: &[Part], part: Part) -> u32 {
    body.iter().filter(|&&p| p == part).count() as u32
}

fn cost(body: &[Part]) -> u128 {
    body_cost(body)
}

#[test]
fn move_profile_ratios() {
    assert_eq!(MoveProfile::Plains.move_parts(10), 10, "plains = 1:1");
    assert_eq!(MoveProfile::Road.move_parts(10), 5, "road = 1:2");
    assert_eq!(MoveProfile::Swamp.move_parts(2), 10, "swamp = 5:1");
    assert_eq!(MoveProfile::Plains.move_parts(0), 0, "no parts ⇒ no move");
}

#[test]
fn build_combat_body_matches_spec_and_fronts_tough() {
    let spec = CombatBodySpec { tough: 2, work: 6, heal: 4, ..Default::default() };
    let body = build_combat_body(&spec, MoveProfile::Plains, 5600).expect("fits");
    assert_eq!(count(&body, Part::Tough), 2);
    assert_eq!(count(&body, Part::Work), 6);
    assert_eq!(count(&body, Part::Heal), 4);
    assert_eq!(count(&body, Part::Move), 12, "1:1 move for 12 non-move parts");
    assert_eq!(body.len(), 24);
    assert!(
        body[0] == Part::Tough && body[1] == Part::Tough,
        "TOUGH is the front meat-shield"
    );
}

#[test]
fn build_combat_body_rejects_over_50_parts() {
    let spec = CombatBodySpec { ranged_attack: 30, ..Default::default() };
    assert_eq!(build_combat_body(&spec, MoveProfile::Plains, 1_000_000), None);
}

#[test]
fn build_combat_body_rejects_over_budget() {
    // 10 HEAL (2500) + 10 MOVE (500) = 3000.
    let spec = CombatBodySpec { heal: 10, ..Default::default() };
    assert_eq!(build_combat_body(&spec, MoveProfile::Plains, 1300), None);
    assert!(build_combat_body(&spec, MoveProfile::Plains, 5600).is_some());
}

#[test]
fn defender_heal_parts_round_up_and_zero_at_zero() {
    assert_eq!(defender_heal_parts_for_dps(milli(0.0), false), 0, "no DPS ⇒ no wasted HEAL");
    assert_eq!(defender_heal_parts_for_dps(milli(120.0), false), 10, "120 ÷ 12 HEAL/part");
    assert_eq!(
        defender_heal_parts_for_dps(milli(120.0), true),
        3,
        "120 ÷ 48 boosted HEAL/part (ceil)"
    );
}

#[test]
fn attack_parts_basic_and_focus_heal() {
    // 600 HP, no heal, 25-tick window, 10 dmg/part: 600/25=24 dps ⇒ 3 RA.
    assert_eq!(attack_parts_to_kill(milli(600.0), milli(0.0), 25, milli(10.0)), Some(3));
    let with_heal = attack_parts_to_kill(milli(600.0), milli(120.0), 25, milli(10.0)).unwrap();
    assert!(with_heal > 3, "focus heal must raise parts: {with_heal}");
    assert_eq!(attack_parts_to_kill(milli(600.0), milli(480.0), 25, milli(10.0)), None);
    assert_eq!(attack_parts_to_kill(milli(600.0), milli(0.0), 25, milli(40.0)), Some(1));
}

#[test]
fn sized_defender_rcl2_vs_claim_is_armed_with_no_heal() {
    let body = sized_defender_body(300, milli(0.0), milli(700.0), milli(0.0), false);
    assert!(!body.is_empty());
    assert!(body.iter().any(|&p| p == Part::RangedAttack), "must be armed");
    assert!(body.iter().any(|&p| p == Part::Move), "must move");
    assert!(!body.iter().any(|&p| p == Part::Heal), "no HEAL vs a zero-DPS threat");
    assert!(cost(&body) <= 300, "cost {} > 300", cost(&body));
}

#[test]
fn sized_defender_drops_heal_when_unaffordable() {
    let body = sized_defender_body(400, milli(90.0), milli(600.0), milli(0.0), false);
    assert!(body.iter().any(|&p| p == Part::RangedAttack));
    assert!(cost(&body) <= 400, "cost {} > 400", cost(&body));
}

#[test]
fn sized_defender_carries_heal_when_affordable() {
    let body = sized_defender_body(2000, milli(120.0), milli(1000.0), milli(0.0), false);
    assert!(body.iter().any(|&p| p == Part::Heal), "should carry HEAL when affordable");
    assert!(body.iter().any(|&p| p == Part::RangedAttack));
    assert!(cost(&body) <= 2000);
}

#[test]
fn sized_healer_builds_at_rcl2() {
    let body = sized_healer_body(550, milli(90.0), false);
    assert!(!body.is_empty());
    assert!(body.iter().any(|&p| p == Part::Heal));
    assert!(body.iter().any(|&p| p == Part::Move));
    assert!(cost(&body) <= 550, "cost {} > 550", cost(&body));
}

#[test]
fn sized_bodies_respect_part_cap() {
    let d = sized_defender_body(50_000, milli(5000.0), milli(1_000_000.0), milli(5000.0), false);
    assert!(d.len() <= 50, "defender len {}", d.len());
    let h = sized_healer_body(50_000, milli(5000.0), false);
    assert!(h.len() <= 50, "healer len {}", h.len());
}

#[test]
fn parts_behind_tough_take_turns() {
    let spec = CombatBodySpec { tough: 1, attack: 2, heal: 1, ..Default::default() };
    let body = build_combat_body(&spec, MoveProfile::Road, 10_000).expect("fits");
    assert_eq!(body.len(), 6);
    assert_eq!(body[0], Part::Tough);
    assert_eq!(count(&body[1..4], Part::Attack), 1, "one of each before the second ATTACK");
    assert_eq!(build_combat_body(&CombatBodySpec::default(), MoveProfile::Plains, 10_000), None);
}

#[test]
fn a_drain_heals_what_comes_in() {
    assert_eq!(drain_heal_parts_for_dps(milli(0.0)), 1);
    assert_eq!(drain_heal_parts_for_dps(milli(600.0)), 50);
    assert_eq!(drain_heal_parts_for_dps(milli(600.5)), 51);
}

#[test]
fn a_budget_below_any_body_gives_the_floor_of_the_role() {
    assert_eq!(
        count(&sized_defender_body(100, milli(0.0), milli(100.0), milli(0.0), false), Part::RangedAttack),
        1
    );
    let healer = sized_healer_body(100, milli(50.0), false);
    assert_eq!((count(&healer, Part::Heal), healer.len()), (1, 2));
}

#[test]
fn part_counts_are_the_least_that_do() {
    assert_eq!(defender_heal_parts_for_dps(milli(120.0), false), 10);
    assert_eq!(defender_heal_parts_for_dps(milli(120.1), false), 11);
    assert_eq!(defender_heal_parts_for_dps(milli(120.0), true), 3);
    assert_eq!(attack_parts_to_kill(milli(5000.0), milli(0.0), 25, milli(10.0)), Some(20));
    assert_eq!(attack_parts_to_kill(milli(5000.1), milli(0.0), 25, milli(10.0)), Some(21));
    assert_eq!(attack_parts_to_kill(milli(6250.0), milli(0.0), 25, milli(10.0)), Some(25));
    assert_eq!(attack_parts_to_kill(milli(6250.1), milli(0.0), 25, milli(10.0)), None);
}
