//! Squads and their expected value.
use screeps_combat_decision::composition::{
    assemble_force, box_footprint, formation_for, optimize_composition, pairing_ev, pairing_p_win,
    quantize_ev, BodyType, CompositionParams, FormationMode, FormationShape, PairingParams,
    SquadCapabilities, SquadRole, MAX_SIZED_MEMBERS,
};
use screeps_combat_decision::constants::HEAL_POWER;
use screeps_combat_decision::doctrine::{DoctrineObjective, EnemyCoordination, EnemyForce};
use screeps_combat_decision::force_sizing::{DefenseProfile, RequiredForce, TowerThreat};
use screeps_combat_decision::objective_value::{value_e, ObjectiveIntel, ObjectiveValueKind};
use screeps_combat_decision::parts::Part;

fn milli(x: f64) -> i64 {
    (x * 1000.0).round() as i64
}

/// A logistic curve of the surplus.
fn curve(have: i128, need: i128) -> u64 {
    let surplus = have as f64 / need as f64 - 1.0;
    (1e9 / (1.0 + (-5.0 * surplus).exp())).round() as u64
}

/// A value in trillionths.
fn trillionths(x: f64) -> i128 {
    (x * 1e12).round() as i128
}

fn member_count_of(req: RequiredForce, energy: u32) -> Option<usize> {
    assemble_force(&req, energy).map(|c| c.slots.len())
}

#[test]
fn assemble_force_is_deterministic() {
    for req in [
        RequiredForce { heal_parts: 12, dismantle_parts: 8, ..Default::default() },
        RequiredForce { heal_parts: 20, immune_struct_parts: 10, anti_creep_parts: 14, ..Default::default() },
        RequiredForce { heal_parts: 40, dismantle_parts: 30, anti_creep_parts: 18, tough_parts: 6, ..Default::default() },
    ] {
        let a = assemble_force(&req, 5600).map(|c| format!("{c:?}"));
        let b = assemble_force(&req, 5600).map(|c| format!("{c:?}"));
        assert_eq!(a, b, "assembler is deterministic for {req:?}");
    }
}

#[test]
fn assemble_force_sizes_continuously_no_snap() {
    assert_eq!(member_count_of(RequiredForce { heal_parts: 5, dismantle_parts: 5, ..Default::default() }, 5600), Some(2), "minimal force is a duo, not a quad");

    let sweep: Vec<usize> = (1..=14)
        .map(|k| member_count_of(RequiredForce { heal_parts: 4 * k, dismantle_parts: 4 * k, ..Default::default() }, 5600).unwrap_or(99))
        .collect();
    for w in sweep.windows(2) {
        assert!(w[1] >= w[0], "member count is monotonic non-decreasing across the sweep: {sweep:?}");
    }
    assert!(sweep.contains(&2) && sweep.contains(&3), "intermediate counts 2 and 3 are reachable (no snap): {sweep:?}");
}

#[test]
fn assemble_force_fields_the_full_role_set() {
    let req = RequiredForce { heal_parts: 6, dismantle_parts: 6, anti_creep_parts: 8, ..Default::default() };
    let comp = assemble_force(&req, 5600).expect("affordable at RCL7");
    for role in [SquadRole::Healer, SquadRole::Dismantler, SquadRole::RangedDPS] {
        assert!(comp.slots.iter().any(|s| s.role == role), "{role:?} present in {:?}", comp.label);
    }
    assert!(comp.slots.iter().all(|s| matches!(s.body_type, BodyType::Sized(_))), "all members are Sized");
    let caps = comp.capabilities(5600);
    assert!(caps.heal_per_tick >= req.heal_parts * HEAL_POWER, "fielded HEAL ≥ required");
}

#[test]
fn assemble_force_ranged_covers_immune_struct_plus_anti_creep() {
    let req = RequiredForce { immune_struct_parts: 10, anti_creep_parts: 10, ..Default::default() };
    let comp = assemble_force(&req, 5600).expect("affordable");
    let ranged: u32 = comp.slots.iter().filter(|s| s.role == SquadRole::RangedDPS).map(|s| s.body_type.part_count(5600, Part::RangedAttack)).sum();
    assert!(ranged >= 20, "ranged covers immune_struct + anti_creep = 20 parts, got {ranged}");
}

#[test]
fn assemble_force_defers_terminally() {
    assert!(assemble_force(&RequiredForce::default(), 5600).is_none(), "empty requirement → None");
    assert!(assemble_force(&RequiredForce { heal_parts: 400, ..Default::default() }, 5600).is_none(), "force past the 8-member cap → None");
    assert!(assemble_force(&RequiredForce { heal_parts: 4, ..Default::default() }, 100).is_none(), "unaffordable role → None");
}

#[test]
fn formation_for_is_total_over_fieldable_counts() {
    assert_eq!(formation_for(0), (FormationShape::Free, FormationMode::Loose));
    assert_eq!(formation_for(1), (FormationShape::Free, FormationMode::Loose));
    assert_eq!(formation_for(2), (FormationShape::Line, FormationMode::Strict));
    for n in 3..=MAX_SIZED_MEMBERS {
        assert_eq!(formation_for(n), (FormationShape::Box2x2, FormationMode::Strict), "N={n} holds the compact box");
    }
}

#[test]
fn box_footprint_is_a_compact_box_for_each_count() {
    let expected = [(1, (1u8, 1u8)), (2, (2, 1)), (3, (2, 2)), (4, (2, 2)), (5, (3, 2)), (6, (3, 2)), (7, (3, 3)), (8, (3, 3))];
    for (n, want) in expected {
        let (w, h) = box_footprint(n);
        assert_eq!((w, h), want, "box_footprint({n})");
        assert!((w as usize) * (h as usize) >= n, "box holds all {n} members");
        assert!(w >= h, "width ≥ height (anchor top-left, fills right then down)");
        assert!((w as usize) * (h as usize - 1) < n, "box is minimal for {n}");
    }
    assert_eq!(box_footprint(0), (1, 1));
}

fn winnable_struct() -> DefenseProfile {
    DefenseProfile {
        towers: vec![TowerThreat { range_to_assault: 18, energy: 200 }],
        breach_hits: 10_000,
        objective_hits: 50_000,

        repair_per_tick: milli(0.0),
        safe_mode: false,
        ..Default::default()
    }
}

#[test]
fn optimize_composition_is_deterministic() {
    let p = CompositionParams { member_energy: 5600, ..Default::default() };
    let defense = winnable_struct();
    let run = || {
        optimize_composition(
            DoctrineObjective::DismantleStructure,
            &defense,
            None,
            milli(100_000.0),
            1400,
            EnemyCoordination::Individual,
            milli(0.0),
            true,
            false,
            &p,
            &curve,
        )
        .map(|c| format!("{c:?}"))
    };
    assert_eq!(run(), run(), "the optimizer is deterministic");
    assert!(run().is_some(), "a winnable ring commits at Default");
}

#[test]
fn optimize_composition_defers_below_commit_threshold() {
    let defense = winnable_struct();
    let strict = CompositionParams { member_energy: 5600, commit_ev_threshold: milli(10_000.0), ..Default::default() };
    let deferred = optimize_composition(
        DoctrineObjective::DismantleStructure,
        &defense,
        None,
        milli(1.0),
        1400,
        EnemyCoordination::Individual,
        milli(0.0),
        true,
        false,
        &strict,
        &curve,
    );
    assert!(deferred.is_none(), "gated + EV ≤ commit threshold → defer (None)");

    let committed = optimize_composition(
        DoctrineObjective::DismantleStructure,
        &defense,
        None,
        milli(100_000.0),
        1400,
        EnemyCoordination::Individual,
        milli(0.0),
        true,
        false,
        &CompositionParams { member_energy: 5600, ..Default::default() },
        &curve,
    );
    assert!(committed.is_some(), "winnable target commits at Default");
}

#[test]
fn optimize_composition_over_invests_for_high_value() {
    let defense = DefenseProfile {
        towers: vec![TowerThreat { range_to_assault: 14, energy: 1000 }],
        breach_hits: 0,
        objective_hits: 0,

        repair_per_tick: milli(0.0),
        safe_mode: false,
        ..Default::default()
    };
    let enemy = Some(EnemyForce { dps: milli(60.0), heal: milli(0.0), hits: 3_000, count: 2, boosted: false });
    let p = CompositionParams { member_energy: 5600, w_energy: milli(0.01), ..Default::default() };
    let opt = |value: i64| {
        optimize_composition(DoctrineObjective::RaidCreeps, &defense, enemy, value, 1400, EnemyCoordination::Coordinated, milli(0.0), true, false, &p, &curve)
            .expect("winnable at both values")
    };
    let low = opt(milli(500.0));
    let high = opt(milli(50_000_000.0));
    assert!(
        high.estimated_cost(5600) > low.estimated_cost(5600),
        "high value over-invests (more energy / parts): high {} vs low {}",
        high.estimated_cost(5600),
        low.estimated_cost(5600)
    );
}

#[test]
fn optimize_composition_commits_a_winnable_target_at_default() {
    let comp = optimize_composition(
        DoctrineObjective::KillImmuneStructure,
        &DefenseProfile { towers: vec![TowerThreat { range_to_assault: 15, energy: 200 }], breach_hits: 0, objective_hits: 100_000, repair_per_tick: milli(0.0), safe_mode: false, ..Default::default() },
        None,
        milli(100_000.0),
        1400,
        EnemyCoordination::Individual,
        milli(0.0),
        true,
        false,
        &CompositionParams { member_energy: 5600, ..Default::default() },
        &curve,
    )
    .expect("a winnable immune core commits at Default");
    assert!(comp.slots.iter().any(|s| s.role == SquadRole::RangedDPS), "immune core fields RANGED: {}", comp.label);
}

#[test]
fn optimize_composition_sizes_an_undefended_core_to_a_minimal_force() {
    let undefended = DefenseProfile {
        towers: vec![],
        breach_hits: 0,
        objective_hits: 100_000,
        repair_per_tick: milli(0.0),
        safe_mode: false,
        ..Default::default()
    };
    let comp = optimize_composition(
        DoctrineObjective::KillImmuneStructure,
        &undefended,
        None,
        milli(100_000.0),
        1400,
        EnemyCoordination::Individual,
        milli(0.0),
        true,
        false,
        &CompositionParams { member_energy: 5600, ..Default::default() },
        &curve,
    )
    .expect("an undefended core is trivially winnable");
    assert!(
        comp.member_count() <= 3,
        "undefended core must size to a minimal force (≤3), got {} ({})",
        comp.member_count(),
        comp.label
    );
    assert!(
        comp.slots.iter().any(|s| s.role == SquadRole::RangedDPS),
        "undefended immune core still fields a RANGED kill: {}",
        comp.label
    );
}

#[test]
fn undefended_core_sizes_to_a_stable_single_slot_across_windows() {
    let core = DefenseProfile { towers: vec![], breach_hits: 0, objective_hits: 8_000, repair_per_tick: milli(0.0), safe_mode: false, ..Default::default() };
    let p = CompositionParams { member_energy: 5600, ..Default::default() };
    let counts: Vec<usize> = [400u32, 600, 900, 1200, 1400]
        .iter()
        .map(|&window| {
            optimize_composition(DoctrineObjective::KillImmuneStructure, &core, None, milli(100_000.0), window, EnemyCoordination::Individual, milli(0.0), true, false, &p, &curve)
                .expect("a small undefended core is winnable at every realistic window")
                .member_count()
        })
        .collect();
    assert!(
        counts.iter().all(|&n| n == 1),
        "an undefended small core must size to a STABLE single slot across the on-site-window range (no 1↔2 oscillation), got {counts:?}"
    );
}

#[test]
fn over_invest_distinguishes_defended_from_undefended() {
    let p = CompositionParams { member_energy: 5600, w_energy: milli(0.01), ..Default::default() };
    let undefended = DefenseProfile {
        towers: vec![],
        breach_hits: 0,
        objective_hits: 100_000,

        repair_per_tick: milli(0.0),
        safe_mode: false,
        ..Default::default()
    };
    let defended = DefenseProfile {
        towers: vec![TowerThreat { range_to_assault: 14, energy: 1000 }],
        objective_hits: 100_000,
        ..undefended.clone()
    };
    let opt = |d: &DefenseProfile| {
        optimize_composition(
            DoctrineObjective::KillImmuneStructure,
            d,
            None,
            milli(50_000_000.0),
            1400,
            EnemyCoordination::Individual,
            milli(0.0),
            true,
            false,
            &p,
            &curve,
        )
        .expect("winnable")
    };
    let undef = opt(&undefended);
    let def = opt(&defended);
    assert!(
        def.estimated_cost(5600) > undef.estimated_cost(5600),
        "defended high-value over-invests vs undefended minimal: defended {} vs undefended {}",
        def.estimated_cost(5600),
        undef.estimated_cost(5600)
    );
    assert!(
        undef.member_count() <= 3,
        "undefended stays minimal even at huge value: {} members",
        undef.member_count()
    );
}

fn squad_caps(ranged: u32, heal: u32, energy: u32) -> SquadCapabilities {
    let req = RequiredForce { immune_struct_parts: ranged, heal_parts: heal, ..Default::default() };
    assemble_force(&req, energy).expect("fieldable").capabilities(energy)
}

#[test]
fn pairing_p_win_reuses_the_decomposition() {
    let caps = squad_caps(10, 5, 5600);
    let p = PairingParams::default();
    let undef = DefenseProfile { objective_hits: 5_000, ..Default::default() };
    assert_eq!(pairing_p_win(caps, &undef, None, 1400, &p, &curve) as f64 / 1e9, 1.0, "undefended in-window = certain win");
    let safe = DefenseProfile { objective_hits: 5_000, safe_mode: true, ..Default::default() };
    assert_eq!(pairing_p_win(caps, &safe, None, 1400, &p, &curve) as f64 / 1e9, 0.0, "safe mode vetoes the win");
    let towered = DefenseProfile { towers: vec![TowerThreat { range_to_assault: 5, energy: 1000 }, TowerThreat { range_to_assault: 5, energy: 1000 }], objective_hits: 5_000, ..Default::default() };
    assert!((pairing_p_win(caps, &towered, None, 1400, &p, &curve) as f64) / 1e9 < 0.5, "an out-healed squad has a low P(win)");
}

#[test]
fn pairing_ev_ranks_value_and_penalizes_travel() {
    let caps = squad_caps(10, 5, 5600);
    let p = PairingParams::default();
    let undef = DefenseProfile { objective_hits: 5_000, ..Default::default() };
    let near_high = pairing_ev(caps, &undef, None, milli(100_000.0), 1400, 1, &p, &curve);
    let near_low = pairing_ev(caps, &undef, None, milli(1_000.0), 1400, 1, &p, &curve);
    assert!(near_high > near_low, "higher value_e ⇒ higher EV");
    let far_high = pairing_ev(caps, &undef, None, milli(100_000.0), 1400, 5, &p, &curve);
    assert!(near_high > far_high, "the same objective farther away scores lower (travel penalty)");
}

#[test]
fn ev_positive_gate_rejects_a_harmless_low_value_objective() {
    let caps = squad_caps(10, 5, 5600);
    let p = PairingParams::default();
    let undef = DefenseProfile { objective_hits: 5_000, ..Default::default() };

    let harmless_value = value_e(ObjectiveValueKind::Defend, &ObjectiveIntel { asset_value: milli(1_000_000.0), threat_danger: milli(0.0), ..Default::default() });
    let ev_harmless = pairing_ev(caps, &undef, None, harmless_value, 1400, 1, &p, &curve);

    let dangerous_value = value_e(ObjectiveValueKind::Defend, &ObjectiveIntel { asset_value: milli(1_000_000.0), threat_danger: milli(300.0), ..Default::default() });
    let ev_stay = pairing_ev(caps, &undef, None, dangerous_value, 1400, 0, &p, &curve);

    let commit_ev_threshold = trillionths(1.0);
    let should_reassign = quantize_ev(ev_harmless) - quantize_ev(ev_stay) > quantize_ev(commit_ev_threshold);
    assert!(!should_reassign, "a harmless dps=0 objective must NOT pull the squad off a real fight (ev_harmless={ev_harmless}, ev_stay={ev_stay})");
    assert!(ev_harmless <= trillionths(0.0), "a dps=0 defend objective has ~zero EV (the over-response fix): {ev_harmless}");
}

#[test]
fn ev_positive_gate_still_fields_a_genuinely_dangerous_threat() {
    let caps = squad_caps(10, 5, 5600);
    let p = PairingParams::default();
    let undef = DefenseProfile { objective_hits: 5_000, ..Default::default() };
    let dangerous_value = value_e(ObjectiveValueKind::Defend, &ObjectiveIntel { asset_value: milli(1_000_000.0), threat_danger: milli(300.0), ..Default::default() });
    let ev_new = pairing_ev(caps, &undef, None, dangerous_value, 1400, 1, &p, &curve);
    let ev_idle = trillionths(0.0);
    let commit_ev_threshold = trillionths(1.0);
    let should_take = quantize_ev(ev_new) - quantize_ev(ev_idle) > quantize_ev(commit_ev_threshold);
    assert!(should_take, "a dangerous threat must still field a defender (ev_new={ev_new})");
}

#[test]
fn quantize_ev_is_stable() {
    assert_eq!(quantize_ev(trillionths(1.2344)), 1234);
    assert_eq!(quantize_ev(trillionths(1.2345)), quantize_ev(trillionths(1.2345)));
    assert_eq!(quantize_ev(trillionths(0.0)), 0);
}

#[test]
fn pairing_is_deterministic() {
    let caps = squad_caps(8, 4, 4000);
    let p = PairingParams::default();
    let def = DefenseProfile { towers: vec![TowerThreat { range_to_assault: 10, energy: 500 }], objective_hits: 20_000, ..Default::default() };
    let a = pairing_ev(caps, &def, Some(EnemyForce { dps: milli(30.0), ..Default::default() }), milli(50_000.0), 900, 3, &p, &curve);
    let b = pairing_ev(caps, &def, Some(EnemyForce { dps: milli(30.0), ..Default::default() }), milli(50_000.0), 900, 3, &p, &curve);
    assert_eq!(quantize_ev(a), quantize_ev(b));
}

#[test]
fn quantizing_rounds_halves_away_from_zero() {
    assert_eq!(quantize_ev(trillionths(0.0005)), 1);
    assert_eq!(quantize_ev(trillionths(-0.0005)), -1);
    assert_eq!(quantize_ev(trillionths(-1.2344)), -1234);
    assert_eq!(quantize_ev(i128::MAX), i64::MAX);
    assert_eq!(quantize_ev(i128::MIN), i64::MIN);
}

#[test]
fn travel_costs_one_per_room_and_winning_the_value() {
    let caps = squad_caps(10, 5, 5600);
    let p = PairingParams::default();
    let undef = DefenseProfile { objective_hits: 5_000, ..Default::default() };
    let ev = pairing_ev(caps, &undef, None, milli(100.0), 1400, 3, &p, &curve);
    assert_eq!(quantize_ev(ev), milli(97.0));
}

#[test]
fn the_label_tallies_the_roles() {
    let req = RequiredForce { heal_parts: 11, dismantle_parts: 5, ..Default::default() };
    let comp = assemble_force(&req, 5600).expect("fieldable");
    assert_eq!(comp.member_count(), comp.slots.len());
    assert!(comp.label.contains("2"), "two healers: {}", comp.label);
    assert_eq!(comp.formation_shape, formation_for(comp.slots.len()).0);
}

#[test]
fn a_squad_costs_its_bodies_and_takes_their_parts_to_spawn() {
    let pair = assemble_force(&RequiredForce { heal_parts: 5, dismantle_parts: 5, ..Default::default() }, 5600).unwrap();
    assert_eq!(pair.member_count(), 2);
    assert_eq!(pair.estimated_cost(5600), 5 * 300 + 5 * 150);
    assert_eq!(pair.estimated_spawn_time(5600, 1), 60);
    assert_eq!(pair.estimated_spawn_time(5600, 2), 30);
    assert_eq!(pair.estimated_spawn_time(5600, 0), u32::MAX);

    let three = assemble_force(&RequiredForce { heal_parts: 12, dismantle_parts: 5, ..Default::default() }, 5600).unwrap();
    assert_eq!(three.member_count(), 3);
    assert_eq!(three.estimated_spawn_time(5600, 2), 36 + 30, "the largest bodies go first");
    assert!(three.required_boosts().is_empty());
}

#[test]
fn a_squad_is_viable_with_more_than_two_fifths_of_its_life() {
    let pair = assemble_force(&RequiredForce { heal_parts: 5, dismantle_parts: 5, ..Default::default() }, 5600).unwrap();
    assert_eq!(pair.estimated_combat_time(100, 5600, 1), 1340);
    assert_eq!(pair.estimated_combat_time(2000, 5600, 1), 0);
    assert_eq!(pair.estimated_combat_time(100, 5600, 0), 0);
    assert!(pair.is_viable_from(839, 5600, 1));
    assert!(!pair.is_viable_from(840, 5600, 1));
}

#[test]
fn a_budget_is_what_a_squad_can_bring() {
    let pair = assemble_force(&RequiredForce { heal_parts: 5, dismantle_parts: 5, ..Default::default() }, 5600).unwrap();
    let caps = pair.capabilities(5600);
    assert_eq!(caps, SquadCapabilities { heal_per_tick: 60, structure_dps: 250, tank_effective_hp: 1000 });
    let budget = pair.force_budget(5600, 900);
    assert_eq!(budget.max_heal_per_tick, milli(60.0));
    assert_eq!(budget.max_dismantle_dps, milli(250.0));
    assert_eq!(budget.tank_effective_hp, milli(1000.0));
    assert_eq!(budget.onsite_budget_ticks, 900);
}

#[test]
fn a_body_counts_its_parts() {
    let pair = assemble_force(&RequiredForce { heal_parts: 5, dismantle_parts: 5, ..Default::default() }, 5600).unwrap();
    let healer = pair.slots[0].body_type;
    assert_eq!(healer.part_count(5600, Part::Heal), 5);
    assert_eq!(healer.part_count(5600, Part::Move), 5);
    assert_eq!(healer.part_count(5600, Part::Work), 0);
    assert_eq!(healer.estimated_part_count(5600), 10);
    assert_eq!(healer.estimated_cost(5600), 1500);
    assert!(healer.required_boosts().is_empty());
}
