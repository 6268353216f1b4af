//! Sizing a force against a defense.
use screeps_combat_decision::bodies::{build_combat_body, MoveProfile};
use screeps_combat_decision::constants::DISMANTLE_POWER;
use screeps_combat_decision::force_sizing::{
    assess, clear_force, importance_margin, should_defer_offense_commit, tower_dps_at_assault,
    tower_intel_from, win_probability, AssaultMode, DefenseProfile, ForceAssessment, ForceBudget,
    RequiredForce, TowerIntel, TowerThreat, COORDINATED_DPS_MARGIN, SCOUT_RECONFIRM_TICKS,
};

fn milli(x: f64) -> i64 {
    (x * 1000.0).round() as i64
}

#[test]
fn tower_intel_classification_is_total() {
    assert_eq!(tower_intel_from(true, false), TowerIntel::NeverSeen);
    assert_eq!(tower_intel_from(false, false), TowerIntel::NeverSeen);
    assert_eq!(tower_intel_from(true, true), TowerIntel::ScoutedEmpty);
    assert_eq!(tower_intel_from(false, true), TowerIntel::Seen);
    assert_eq!(DefenseProfile::default().tower_intel, TowerIntel::NeverSeen);
}

#[test]
fn defer_only_empty_stale_never_seen_or_recent() {
    let now = 100_000u32;
    assert!(should_defer_offense_commit(
        TowerIntel::ScoutedEmpty,
        now - (SCOUT_RECONFIRM_TICKS + 1),
        now
    ));
    assert!(!should_defer_offense_commit(TowerIntel::ScoutedEmpty, now - 1, now));
    assert!(!should_defer_offense_commit(TowerIntel::ScoutedEmpty, now - SCOUT_RECONFIRM_TICKS, now));
    assert!(!should_defer_offense_commit(TowerIntel::Seen, now - 10_000, now));
    assert!(!should_defer_offense_commit(TowerIntel::NeverSeen, now - 10_000, now));
}

#[test]
fn defer_clock_reset_is_benign() {
    assert!(!should_defer_offense_commit(TowerIntel::ScoutedEmpty, 10_000, 100));
}

fn assessment(winnable: bool, heal: i64, dps: i64) -> ForceAssessment {
    ForceAssessment {
        winnable,
        mode: AssaultMode::Breach,
        required_heal_per_tick: heal,
        required_dismantle_dps: dps,
        required_tank_hp: milli(0.0),
        est_ticks: 50,
        reason: "test",
    }
}

#[test]
fn required_force_inverts_capabilities_with_ceil() {
    let rf = RequiredForce::from_assessment(&assessment(true, milli(120.0), milli(300.0)));
    assert_eq!(rf.heal_parts, 10, "120 dmg/tick ÷ 12 HEAL/part");
    assert_eq!(rf.dismantle_parts, 6, "300 dps ÷ 50 DISMANTLE/part");
    assert!(rf.heal_parts * 12 >= 120 && rf.dismantle_parts * DISMANTLE_POWER >= 300);
}

#[test]
fn required_force_is_zero_when_unwinnable() {
    assert_eq!(RequiredForce::from_assessment(&assessment(false, milli(999.0), milli(999.0))), RequiredForce::default());
}

fn clear_budget() -> ForceBudget {
    ForceBudget { max_heal_per_tick: milli(600.0), max_dismantle_dps: milli(600.0), tank_effective_hp: milli(5000.0), onsite_budget_ticks: 1000 }
}

#[test]
fn clear_force_individual_beats_a_single() {
    let (a, rf) = clear_force(vec![], milli(30.0), 1000, milli(0.0), &clear_budget(), milli(1.0), false);
    assert!(a.winnable, "{}", a.reason);
    assert!(rf.anti_creep_parts > 0 && rf.heal_parts > 0, "sized anti-creep kill + heal parts: {rf:?}");
}

#[test]
fn clear_force_coordinated_oversizes_the_kill_vs_individual() {
    let (_, ind) = clear_force(vec![], milli(200.0), 4000, milli(0.0), &clear_budget(), milli(1.0), false);
    let (_, coord) = clear_force(vec![], milli(200.0), 4000, milli(0.0), &clear_budget(), COORDINATED_DPS_MARGIN, false);
    assert!(coord.anti_creep_parts > ind.anti_creep_parts, "coordinated out-powers: {} > {}", coord.anti_creep_parts, ind.anti_creep_parts);
    assert_eq!(coord.heal_parts, ind.heal_parts, "heal sized to the incoming, not the margin");
}

#[test]
fn clear_force_out_healed_is_unwinnable() {
    let (a, rf) = clear_force(vec![], milli(50.0), 4000, milli(700.0), &clear_budget(), milli(1.0), false);
    assert!(!a.winnable, "out-healed enemy is unwinnable for one squad");
    assert_eq!(rf, RequiredForce::default());
}

#[test]
fn clear_force_safe_mode_is_vetoed() {
    let (a, _) = clear_force(vec![], milli(30.0), 100, milli(0.0), &clear_budget(), milli(1.0), true);
    assert!(!a.winnable, "safe mode → zero damage possible");
}

#[test]
fn clear_force_sizes_more_heal_for_towers() {
    let no_tower = clear_force(vec![], milli(100.0), 0, milli(0.0), &clear_budget(), milli(1.5), false).1;
    let with_tower = clear_force(vec![TowerThreat { range_to_assault: 20, energy: 1000 }], milli(100.0), 0, milli(0.0), &clear_budget(), milli(1.5), false).1;
    assert!(with_tower.heal_parts > no_tower.heal_parts, "towers raise the out-heal: {} > {}", with_tower.heal_parts, no_tower.heal_parts);
}

#[test]
fn required_force_spec_is_buildable_by_r1() {
    let rf = RequiredForce::from_assessment(&assessment(true, milli(120.0), milli(300.0)));
    let spec = rf.as_solo_spec();
    assert_eq!(spec.heal, 10);
    assert_eq!(spec.work, 6);
    assert!(
        build_combat_body(&spec, MoveProfile::Plains, 5600).is_some(),
        "the required-force spec is affordable + fits at RCL7"
    );
}

fn strong_budget() -> ForceBudget {
    ForceBudget {
        max_heal_per_tick: milli(900.0),
        max_dismantle_dps: milli(600.0),
        tank_effective_hp: milli(50_000.0),
        onsite_budget_ticks: 1400,
    }
}

fn tower(range: u32, energy: u32) -> TowerThreat {
    TowerThreat { range_to_assault: range, energy }
}

#[test]
fn safe_mode_is_a_hard_veto() {
    let profile = DefenseProfile { safe_mode: true, ..Default::default() };
    assert!(!assess(&profile, milli(0.0), &strong_budget()).winnable);
}

#[test]
fn weak_single_tower_is_a_direct_breach() {
    let profile = DefenseProfile {
        towers: vec![tower(5, 1000)],
        breach_hits: 30_000,
        objective_hits: 100_000,
        ..Default::default()
    };
    let a = assess(&profile, milli(0.0), &strong_budget());
    assert!(a.winnable);
    assert_eq!(a.mode, AssaultMode::Breach);
}

#[test]
fn drained_towers_do_not_count() {
    let profile = DefenseProfile {
        towers: vec![tower(1, 5), tower(1, 0), tower(1, 9)],
        breach_hits: 10_000,
        objective_hits: 50_000,
        ..Default::default()
    };
    let weak_heal = ForceBudget { max_heal_per_tick: milli(50.0), ..strong_budget() };
    let a = assess(&profile, milli(0.0), &weak_heal);
    assert!(a.winnable, "drained towers deal no damage, so this is winnable: {}", a.reason);
    assert_eq!(a.mode, AssaultMode::Breach);
}

#[test]
fn strong_towers_force_the_drain_path() {
    let profile = DefenseProfile {
        towers: vec![tower(1, 100); 6],
        breach_hits: 20_000,
        objective_hits: 80_000,
        ..Default::default()
    };
    let a = assess(&profile, milli(0.0), &strong_budget());
    assert!(a.winnable, "should be drainable: {}", a.reason);
    assert_eq!(a.mode, AssaultMode::Drain);
}

#[test]
fn oracle_picks_drain_and_sizes_a_sustainable_drain_comp_when_favorable() {
    let profile = DefenseProfile {
        towers: vec![tower(1, 1500); 4],
        breach_hits: 20_000,
        objective_hits: 30_000,
        ..Default::default()
    };
    let budget = ForceBudget { max_heal_per_tick: milli(600.0), max_dismantle_dps: milli(600.0), tank_effective_hp: milli(20_000.0), onsite_budget_ticks: 1500 };
    let a = assess(&profile, milli(0.0), &budget);
    assert!(a.winnable, "a finite-tower base IS winnable via drain: {}", a.reason);
    assert_eq!(a.mode, AssaultMode::Drain, "and the chosen mode is DRAIN (breach can't out-heal point-blank): {}", a.reason);
    let rf = RequiredForce::from_assessment(&a);
    assert!(rf.heal_parts > 0, "the drain comp carries HEAL to sustain the soak: {rf:?}");
    assert!(rf.heal_parts * 12 >= 600, "the HEAL out-paces the 600/tick falloff soak ({} parts)", rf.heal_parts);
}

#[test]
fn oracle_never_drains_an_infinite_tower() {
    let profile = DefenseProfile {
        towers: vec![tower(1, 100_000); 6],
        breach_hits: 20_000,
        objective_hits: 80_000,
        ..Default::default()
    };
    let a = assess(&profile, milli(0.0), &strong_budget());
    assert!(!a.winnable, "an infinite-tower base is NOT drainable by one squad");
    assert_ne!(a.mode, AssaultMode::Drain, "and it is NOT mis-classified as a drain");
    assert!(a.reason.contains("heavy assault"), "it defers to the heavy-assault arm: {}", a.reason);
}

#[test]
fn oracle_never_drains_a_mixed_finite_and_infinite_base() {
    let profile = DefenseProfile {
        towers: vec![tower(1, 1500), tower(1, 1500), tower(1, 1500), tower(1, 100_000)],
        breach_hits: 20_000,
        objective_hits: 30_000,
        ..Default::default()
    };
    let budget = ForceBudget { max_heal_per_tick: milli(600.0), max_dismantle_dps: milli(600.0), tank_effective_hp: milli(20_000.0), onsite_budget_ticks: 1500 };
    let a = assess(&profile, milli(0.0), &budget);
    assert_ne!(a.mode, AssaultMode::Drain, "a mixed finite+infinite base is NOT mis-classified as a drain: {}", a.reason);
    assert!(!a.winnable, "it falls to the heavy-assault / unwinnable path (the infinite tower can't be bled): {}", a.reason);
    assert!(a.reason.contains("heavy assault"), "it defers to the heavy-assault arm: {}", a.reason);
    let pure_finite = DefenseProfile { towers: vec![tower(1, 1500); 3], ..profile };
    assert_eq!(assess(&pure_finite, milli(0.0), &budget).mode, AssaultMode::Drain, "the pure-finite nest still drains");
}

#[test]
fn oracle_does_not_drain_an_unsustainable_target() {
    let profile = DefenseProfile {
        towers: vec![tower(1, 40_000); 6],
        breach_hits: 20_000,
        objective_hits: 80_000,
        ..Default::default()
    };
    let fragile = ForceBudget { max_heal_per_tick: milli(100.0), max_dismantle_dps: milli(300.0), tank_effective_hp: milli(2_000.0), onsite_budget_ticks: 1400 };
    let a = assess(&profile, milli(0.0), &fragile);
    assert!(!a.winnable, "an unsustainable / too-slow finite drain is unwinnable for one squad: {}", a.reason);
}

#[test]
fn oracle_keeps_a_winning_breach_over_a_drain() {
    let profile = DefenseProfile { towers: vec![tower(5, 500)], breach_hits: 20_000, objective_hits: 80_000, ..Default::default() };
    let a = assess(&profile, milli(0.0), &strong_budget());
    assert!(a.winnable);
    assert_eq!(a.mode, AssaultMode::Breach, "a winning breach is NOT downgraded to a drain: {}", a.reason);
    assert_eq!(RequiredForce::from_assessment(&a).tough_parts, 0, "a breach carries no drain EHP buffer");
}

#[test]
fn drain_assessment_and_sizing_are_deterministic() {
    let profile = DefenseProfile { towers: vec![tower(1, 1500); 4], breach_hits: 20_000, objective_hits: 30_000, ..Default::default() };
    let budget = ForceBudget { max_heal_per_tick: milli(600.0), max_dismantle_dps: milli(600.0), tank_effective_hp: milli(20_000.0), onsite_budget_ticks: 1500 };
    let run = || {
        let a = assess(&profile, milli(0.0), &budget);
        (a.mode, a.winnable, a.required_heal_per_tick, a.required_tank_hp, RequiredForce::from_assessment(&a))
    };
    assert_eq!(run().0, AssaultMode::Drain, "the drain bed picks Drain");
    assert_eq!(run(), run(), "the drain assess + sizing is deterministic");
}

#[test]
fn from_assessment_sizes_tough_only_for_drain() {
    let drain = ForceAssessment {
        winnable: true,
        mode: AssaultMode::Drain,
        required_heal_per_tick: milli(300.0),
        required_dismantle_dps: milli(300.0),
        required_tank_hp: milli(5_000.0),
        est_ticks: 200,
        reason: "drain",
    };
    assert_eq!(RequiredForce::from_assessment(&drain).tough_parts, 50, "drain EHP buffer → TOUGH parts");
    let breach = ForceAssessment { mode: AssaultMode::Breach, required_tank_hp: milli(5_000.0), ..drain };
    assert_eq!(RequiredForce::from_assessment(&breach).tough_parts, 0, "a breach maps no TOUGH");
}

#[test]
fn deep_energy_towers_are_unwinnable_for_one_squad() {
    let profile = DefenseProfile {
        towers: vec![tower(1, 100_000); 6],
        breach_hits: 20_000,
        objective_hits: 80_000,
        ..Default::default()
    };
    let a = assess(&profile, milli(0.0), &strong_budget());
    assert!(!a.winnable);
    assert!(a.reason.contains("heavy assault"), "reason: {}", a.reason);
}

#[test]
fn breach_too_slow_for_one_lifetime_is_unwinnable() {
    let profile = DefenseProfile {
        towers: vec![tower(5, 1000)],
        breach_hits: 10_000_000,
        objective_hits: 100_000,
        ..Default::default()
    };
    let a = assess(&profile, milli(0.0), &strong_budget());
    assert!(!a.winnable);
    assert!(a.reason.contains("too slow"), "reason: {}", a.reason);
}

#[test]
fn required_dismantle_is_gross_not_net_of_repair() {
    let profile = DefenseProfile { breach_hits: 50_000, objective_hits: 100_000, repair_per_tick: milli(200.0), ..Default::default() };
    let a = assess(&profile, milli(0.0), &strong_budget());
    assert!(a.winnable, "600 gross out-paces 200 repair: {}", a.reason);
    assert_eq!(a.required_dismantle_dps, milli(600.0), "field the GROSS dismantle, not the net-of-repair rate (200 less)");
    let rf = RequiredForce::from_assessment(&a);
    assert!(
        rf.dismantle_parts as f64 * DISMANTLE_POWER as f64 - 200.0 > 0.0,
        "the fielded WORK ({} parts) out-paces the 200 repair with breach rate to spare",
        rf.dismantle_parts
    );
}

#[test]
fn repair_locked_breach_target_defers() {
    let repair_locked = DefenseProfile {
        breach_hits: 50_000,
        objective_hits: 100_000,
        repair_per_tick: milli(700.0),
        ..Default::default()
    };
    let a = assess(&repair_locked, milli(0.0), &strong_budget());
    assert!(!a.winnable);
    assert!(a.reason.contains("repair out-paces"), "reason: {}", a.reason);
    let out_paced = DefenseProfile { repair_per_tick: milli(200.0), ..repair_locked.clone() };
    assert!(assess(&out_paced, milli(0.0), &strong_budget()).winnable, "600 dismantle out-paces 200 repair");
}

#[test]
fn undefended_room_is_a_no_breach_win() {
    let profile = DefenseProfile { objective_hits: 50_000, ..Default::default() };
    let a = assess(&profile, milli(0.0), &strong_budget());
    assert!(a.winnable);
    assert_eq!(a.mode, AssaultMode::Breach);
    assert_eq!(a.required_heal_per_tick, milli(0.0), "nothing is shooting us");
}

/// A logistic curve of the surplus, as the game plays out.
fn curve(have: i128, need: i128) -> u64 {
    let surplus = have as f64 / need as f64 - 1.0;
    (1e9 / (1.0 + (-5.0 * surplus).exp())).round() as u64
}

/// The chance to hold, as a plain number.
fn chance(heal: f64, incoming: f64) -> f64 {
    win_probability(milli(heal) as i128, milli(incoming) as i128, &curve) as f64 / 1e9
}

#[test]
fn win_probability_reads_the_hold_margin() {
    assert_eq!(chance(100.0, 0.0), 1.0, "nothing hitting us → certain");
    assert!((chance(100.0, 100.0) - 0.5).abs() < 1e-3, "break-even → coin-flip");
    let p = chance(130.0, 100.0);
    assert!(p > 0.80 && p < 0.85, "the 1.3 hold margin ≈ 0.82 P(win), got {p}");
    assert!(chance(200.0, 100.0) > chance(130.0, 100.0));
}

/// The margin, as a plain number.
fn margin(importance: f64) -> f64 {
    importance_margin(milli(importance)) as f64 / 1e6
}

/// A factor in millionths.
fn micro(x: f64) -> i64 {
    (x * 1e6).round() as i64
}

#[test]
fn importance_scales_the_invested_force() {
    assert_eq!(margin(0.0), 1.0);
    let base = RequiredForce {
        heal_parts: 10,
        dismantle_parts: 6,
        immune_struct_parts: 0,
        anti_creep_parts: 0,
        tough_parts: 0,
        claim_parts: 0,
    };
    assert_eq!(base.scaled(importance_margin(milli(0.0))), base, "importance 0 → no over-invest");
    assert_eq!(margin(1.0), 1.5);
    let crit = base.scaled(importance_margin(milli(1.0)));
    assert_eq!(crit.heal_parts, 15, "10 × 1.5");
    assert_eq!(crit.dismantle_parts, 9, "6 × 1.5");
    assert_eq!(crit.tough_parts, 0, "zero stays zero");
    assert!(
        crit.heal_parts >= base.heal_parts && base.scaled(micro(0.5)) == base,
        "factor < 1 is clamped to no-op"
    );
}

#[test]
fn towers_without_a_shot_do_no_damage() {
    assert_eq!(tower_dps_at_assault(&[]), 0);
    assert_eq!(tower_dps_at_assault(&[tower(1, 9)]), 0);
    assert_eq!(tower_dps_at_assault(&[tower(1, 10), tower(20, 1000)]), milli(750.0));
}

#[test]
fn a_force_that_can_never_be_certain_is_capped() {
    assert_eq!(win_probability(1, 1, &|_a: i128, _b: i128| 5_000_000_000u64), 1_000_000_000);
}
