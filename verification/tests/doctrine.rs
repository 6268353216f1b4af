//! Doctrines and the forces that they ask for.
use screeps_combat_decision::composition::{
    assemble_force, optimizer_ceiling_budget, BodyType, CompositionParams, SquadRole,
};
use screeps_combat_decision::doctrine::{
    decide_doctrine, default_doctrines, defense_doctrines, emit_requirement, plan_engagement,
    sk_doctrines, DoctrineObjective, EnemyCoordination, EnemyForce, EngagementContext,
};
use screeps_combat_decision::force_sizing::{
    DefenseProfile, TowerThreat, COORDINATED_DPS_MARGIN, HOLD_MARGIN,
};
use screeps_combat_decision::parts::Part;

fn milli(x: f64) -> i64 {
    (x * 1000.0).round() as i64
}

/// A logistic curve of the surplus.
fn curve(have: i128, need: i128) -> u64 {
    let surplus = have as f64 / need as f64 - 1.0;
    (1e9 / (1.0 + (-5.0 * surplus).exp())).round() as u64
}

fn ctx(objective: DoctrineObjective, defense: DefenseProfile) -> EngagementContext {
    EngagementContext {
        objective,
        coordination: EnemyCoordination::Individual,
        defense,
        enemy_force: None,
        importance: milli(0.0),
        member_energy: 5600,
        target_value: milli(100_000.0),
        onsite_window: 1400,
        params: CompositionParams { member_energy: 5600, ..Default::default() },
    }
}

#[test]
fn sk_suppression_sizes_the_keeper_kill() {
    let docs = sk_doctrines();
    let mut c = ctx(DoctrineObjective::Suppress, DefenseProfile::default());
    c.enemy_force = Some(EnemyForce { dps: milli(168.0), heal: milli(0.0), hits: 5000, count: 1, boosted: false });
    let doc = decide_doctrine(&c, &docs).expect("Suppress → sk-suppression");
    let plan = plan_engagement(doc, &c, None, &curve);
    assert_eq!(plan.required.anti_creep_parts, 15, "kills the keeper (a creep) in the window");
    assert!(plan.required.heal_parts > 0, "out-heals the keeper melee");
    let comp = plan.composition.expect("always fields the suppression force");
    assert!((comp.retreat_threshold as f64 / 1000.0 - 0.5).abs() < 1e-6, "SK retreat tuning is layered (bursty → 0.5)");
}

#[test]
fn player_raid_sizes_when_scouted_and_always_fields() {
    let docs = default_doctrines();
    let mut c = ctx(DoctrineObjective::ClearCreeps, DefenseProfile::default());
    c.enemy_force = Some(EnemyForce { dps: milli(150.0), heal: milli(0.0), hits: 0, count: 3, boosted: false });
    let comp = plan_engagement(decide_doctrine(&c, &docs).unwrap(), &c, None, &curve).composition.expect("operator intent always fields");
    assert!(
        comp.slots.iter().any(|s| matches!(s.body_type, BodyType::Sized(spec) if spec.ranged_attack > 0)),
        "raid sized to out-power the defenders"
    );
    c.enemy_force = Some(EnemyForce::default());
    let comp0 = plan_engagement(decide_doctrine(&c, &docs).unwrap(), &c, None, &curve).composition.expect("always fields a force");
    assert!(!comp0.slots.is_empty() && comp0.slots.iter().all(|s| matches!(s.body_type, BodyType::Sized(_))), "unscouted → an assembled (Sized) force, never a hardcoded template");
}

#[test]
fn gated_player_raid_sizes_when_winnable_else_defers() {
    let docs = default_doctrines();
    let mut c = ctx(DoctrineObjective::RaidCreeps, DefenseProfile::default());
    c.enemy_force = Some(EnemyForce { dps: milli(120.0), heal: milli(0.0), hits: 0, count: 3, boosted: false });
    let doc = decide_doctrine(&c, &docs).expect("RaidCreeps → gated-player-raid");
    assert_eq!(doc.name(), "gated-player-raid");
    assert!(doc.honor_verdict(), "the gated raid DEFERS a hopeless room (vs always-field PlayerRaid)");
    let plan = plan_engagement(doc, &c, None, &curve);
    assert!(plan.winnable(), "out-powerable defenders are winnable: {}", plan.assessment.reason);
    assert!(plan.composition.is_some(), "sizes a force when affordable");
    assert!(plan.required.anti_creep_parts > 0, "sized the anti-creep kill parts");
    let mut safe = ctx(DoctrineObjective::RaidCreeps, DefenseProfile { safe_mode: true, ..Default::default() });
    safe.enemy_force = c.enemy_force;
    let plan = plan_engagement(doc, &safe, None, &curve);
    assert!(!plan.winnable(), "safe mode → defer");
    assert!(plan.composition.is_none(), "deferred → no force fielded (the bot skips)");
}

#[test]
fn garrison_defense_clear_force_sizes_the_defender() {
    let docs = defense_doctrines();
    let mut c = ctx(DoctrineObjective::ClearCreeps, DefenseProfile::default());
    c.enemy_force = Some(EnemyForce { dps: milli(200.0), heal: milli(0.0), hits: 0, count: 4, boosted: false });
    let comp = plan_engagement(decide_doctrine(&c, &docs).unwrap(), &c, None, &curve).composition.expect("defense always fields");
    assert!(
        comp.slots.iter().any(|s| matches!(s.body_type, BodyType::Sized(spec) if spec.ranged_attack > 0)),
        "defender assembled to over-power the threat"
    );
}

#[test]
fn garrison_defense_sizes_continuously_no_straddle() {
    let docs = defense_doctrines();
    let size = |force: EnemyForce| {
        let mut c = ctx(DoctrineObjective::ClearCreeps, DefenseProfile::default());
        c.enemy_force = Some(force);
        let doc = decide_doctrine(&c, &docs).expect("ClearCreeps → garrison-defense");
        plan_engagement(doc, &c, None, &curve).composition.expect("defense always fields").slots.len()
    };
    let trivial = size(EnemyForce { dps: milli(10.0), heal: milli(0.0), hits: 100, count: 1, boosted: false });
    let moderate = size(EnemyForce { dps: milli(80.0), heal: milli(0.0), hits: 2000, count: 2, boosted: false });
    let strong = size(EnemyForce { dps: milli(150.0), heal: milli(30.0), hits: 8000, count: 5, boosted: false });
    assert!((2..=8).contains(&trivial), "defense floors at the role-set minimum (a fighter + a healer = 2): {trivial}");
    assert!(moderate >= trivial, "monotonic non-decreasing: {moderate} >= {trivial}");
    assert!(strong >= moderate, "monotonic non-decreasing: {strong} >= {moderate}");
}

fn core_defense() -> DefenseProfile {
    DefenseProfile {
        towers: vec![TowerThreat { range_to_assault: 15, energy: 200 }],
        breach_hits: 0,
        objective_hits: 100_000,
        repair_per_tick: milli(0.0),
        safe_mode: false,
        ..Default::default()
    }
}

#[test]
fn each_objective_routes_to_its_doctrine() {
    let docs = default_doctrines();
    let cases = [
        (DoctrineObjective::KillImmuneStructure, "npc-core"),
        (DoctrineObjective::DismantleStructure, "siege-breach"),
        (DoctrineObjective::ClearCreeps, "player-raid"),
        (DoctrineObjective::RaidCreeps, "gated-player-raid"),
        (DoctrineObjective::Harass, "harass-remote"),
    ];
    for (obj, name) in cases {
        let c = ctx(obj, DefenseProfile::default());
        assert_eq!(decide_doctrine(&c, &docs).map(|d| d.name()), Some(name), "{obj:?}");
    }
}

#[test]
fn npc_core_assembles_a_ranged_force_when_winnable() {
    let docs = default_doctrines();
    let c = ctx(DoctrineObjective::KillImmuneStructure, core_defense());
    let doc = decide_doctrine(&c, &docs).expect("core routes");
    let plan = plan_engagement(doc, &c, None, &curve);
    assert!(plan.winnable(), "weak-tower core is winnable: {}", plan.assessment.reason);
    let comp = plan.composition.expect("a home affords it");
    assert!(plan.required.immune_struct_parts > 0, "sized ranged kill parts");
    assert!(comp.slots.iter().any(|s| s.role == SquadRole::RangedDPS));
}

#[test]
fn safe_mode_core_defers_via_the_oracle() {
    let docs = default_doctrines();
    let mut d = core_defense();
    d.safe_mode = true;
    let c = ctx(DoctrineObjective::KillImmuneStructure, d);
    let doc = decide_doctrine(&c, &docs).expect("core routes");
    let plan = plan_engagement(doc, &c, None, &curve);
    assert!(!plan.winnable(), "safe mode → not winnable");
    assert!(plan.composition.is_none(), "gated doctrine defers to None");
}

#[test]
fn always_field_doctrines_field_even_unscouted() {
    let docs = default_doctrines();
    for obj in [DoctrineObjective::ClearCreeps, DoctrineObjective::Harass] {
        let c = ctx(obj, DefenseProfile::default());
        let doc = decide_doctrine(&c, &docs).expect("routes");
        assert!(!doc.honor_verdict(), "{obj:?} is always-field");
        let plan = plan_engagement(doc, &c, None, &curve);
        assert!(plan.composition.is_some(), "{obj:?}: an always-field doctrine fields a force");
    }
}

#[test]
fn emit_requirement_is_deterministic_over_objectives() {
    let defense = DefenseProfile {
        towers: vec![TowerThreat { range_to_assault: 10, energy: 1000 }],
        breach_hits: 20_000,
        objective_hits: 100_000,
        repair_per_tick: milli(50.0),
        safe_mode: false,
        ..Default::default()
    };
    let enemy = Some(EnemyForce { dps: milli(120.0), heal: milli(20.0), hits: 4000, count: 3, boosted: false });
    let budget = optimizer_ceiling_budget(DoctrineObjective::KillImmuneStructure, 5600, 1400);
    for obj in [
        DoctrineObjective::KillImmuneStructure,
        DoctrineObjective::DismantleStructure,
        DoctrineObjective::ClearCreeps,
        DoctrineObjective::RaidCreeps,
        DoctrineObjective::Suppress,
        DoctrineObjective::Harass,
    ] {
        let run = || emit_requirement(obj, &defense, enemy, Some(&budget), EnemyCoordination::Coordinated, milli(0.5), HOLD_MARGIN, COORDINATED_DPS_MARGIN);
        assert_eq!(run(), run(), "{obj:?}: the emitter is deterministic");
    }
}

#[test]
fn emit_requirement_reproduces_per_objective_semantics() {
    let guarded = DefenseProfile { towers: vec![], breach_hits: 10_000, objective_hits: 100_000, repair_per_tick: milli(0.0), safe_mode: false, ..Default::default() };
    let undefended = DefenseProfile { breach_hits: 10_000, objective_hits: 100_000, ..Default::default() };
    let guard = Some(EnemyForce { dps: milli(90.0), heal: milli(0.0), hits: 3000, count: 2, boosted: false });
    let budget = optimizer_ceiling_budget(DoctrineObjective::DismantleStructure, 5600, 1400);

    let (a, dr) = emit_requirement(DoctrineObjective::DismantleStructure, &guarded, guard, Some(&budget), EnemyCoordination::Coordinated, milli(0.0), HOLD_MARGIN, COORDINATED_DPS_MARGIN);
    assert!(a.winnable && dr.dismantle_parts > 0 && dr.anti_creep_parts > 0 && dr.immune_struct_parts == 0, "siege vs guard: WORK + anti-creep, no immune-alt: {dr:?}");

    let (_, kr) = emit_requirement(DoctrineObjective::KillImmuneStructure, &guarded, guard, Some(&budget), EnemyCoordination::Coordinated, milli(0.0), HOLD_MARGIN, COORDINATED_DPS_MARGIN);
    assert!(kr.immune_struct_parts > 0 && kr.anti_creep_parts > 0, "immune core vs guard: ranged immune-alt + anti-creep: {kr:?}");

    let (_, clean) = emit_requirement(DoctrineObjective::DismantleStructure, &undefended, None, Some(&budget), EnemyCoordination::Individual, milli(0.0), HOLD_MARGIN, COORDINATED_DPS_MARGIN);
    assert_eq!(clean.anti_creep_parts, 0, "no defenders → no anti-creep");

    let (_, cc) = emit_requirement(DoctrineObjective::ClearCreeps, &DefenseProfile::default(), guard, Some(&budget), EnemyCoordination::Coordinated, milli(0.0), HOLD_MARGIN, COORDINATED_DPS_MARGIN);
    assert!(cc.anti_creep_parts > 0 && cc.dismantle_parts == 0 && cc.immune_struct_parts == 0, "clear → anti-creep only: {cc:?}");
}

#[test]
fn keepers_and_defense_have_doctrines_of_their_own() {
    assert_eq!(sk_doctrines()[0].name(), "sk-suppression");
    assert_eq!(defense_doctrines()[0].name(), "garrison-defense");
    let c = ctx(DoctrineObjective::Suppress, DefenseProfile::default());
    assert!(decide_doctrine(&c, &default_doctrines()).is_none());
}

#[test]
fn an_unwinnable_structure_asks_for_nothing() {
    let budget = optimizer_ceiling_budget(DoctrineObjective::DismantleStructure, 5600, 1400);
    let safe = DefenseProfile { safe_mode: true, objective_hits: 1, ..Default::default() };
    let (a, r) = emit_requirement(
        DoctrineObjective::DismantleStructure,
        &safe,
        None,
        Some(&budget),
        EnemyCoordination::Individual,
        milli(1.0),
        HOLD_MARGIN,
        COORDINATED_DPS_MARGIN,
    );
    assert!(!a.winnable);
    assert_eq!(r, Default::default());
}

#[test]
fn what_is_always_fielded_has_the_floor() {
    let docs = default_doctrines();
    for objective in [DoctrineObjective::ClearCreeps, DoctrineObjective::Harass] {
        let c = ctx(objective, DefenseProfile::default());
        let plan = plan_engagement(decide_doctrine(&c, &docs).unwrap(), &c, None, &curve);
        let squad = plan.composition.expect("always fielded");
        let heal: u32 = squad.slots.iter().map(|s| s.body_type.part_count(5600, Part::Heal)).sum();
        let ranged: u32 = squad.slots.iter().map(|s| s.body_type.part_count(5600, Part::RangedAttack)).sum();
        assert!(heal >= 4 && ranged >= 4, "{objective:?} fields {heal} HEAL and {ranged} RANGED_ATTACK");
        assert_eq!(squad.retreat_threshold, 300);
    }
}

#[test]
fn the_squad_of_a_verdict_meets_it() {
    let budget = optimizer_ceiling_budget(DoctrineObjective::DismantleStructure, 5600, 1400);
    let mut defense = core_defense();
    defense.towers = vec![TowerThreat { range_to_assault: 20, energy: 1000 }];
    for objective in [DoctrineObjective::DismantleStructure, DoctrineObjective::KillImmuneStructure] {
        let (verdict, force) = emit_requirement(
            objective,
            &defense,
            None,
            Some(&budget),
            EnemyCoordination::Individual,
            milli(0.0),
            HOLD_MARGIN,
            COORDINATED_DPS_MARGIN,
        );
        assert!(verdict.winnable);
        assert_eq!(verdict.required_heal_per_tick, milli(195.0));
        assert_eq!(force.heal_parts, 17, "16 HEAL heal 192");
        if let Some(squad) = assemble_force(&force, 5600) {
            let caps = squad.capabilities(5600);
            assert!(caps.heal_per_tick as i64 * 1000 >= verdict.required_heal_per_tick);
            assert!(caps.structure_dps as i64 * 1000 >= verdict.required_dismantle_dps);
        } else {
            assert_eq!(objective, DoctrineObjective::KillImmuneStructure, "too much for RANGED_ATTACK alone");
        }
    }
}

#[test]
fn keepers_are_met_with_the_floor_where_nothing_else_can_be_fielded() {
    let docs = sk_doctrines();
    let unseen = ctx(DoctrineObjective::Suppress, DefenseProfile::default());
    let mut too_strong = unseen.clone();
    too_strong.enemy_force = Some(EnemyForce { dps: milli(168.0), heal: milli(0.0), hits: 1_000_000, count: 1, boosted: false });
    for c in [unseen, too_strong] {
        let plan = plan_engagement(decide_doctrine(&c, &docs).unwrap(), &c, None, &curve);
        let squad = plan.composition.expect("always fielded");
        assert_eq!(squad.slots.len(), 2);
        assert_eq!(squad.slots[0].role, SquadRole::Healer);
        assert_eq!(squad.slots[0].body_type.part_count(5600, Part::Heal), 4);
        assert_eq!(squad.slots[1].role, SquadRole::RangedDPS);
        assert_eq!(squad.slots[1].body_type.part_count(5600, Part::RangedAttack), 4);
        assert_eq!(squad.retreat_threshold, 500);
    }
}

#[test]
fn the_floor_takes_the_energy_of_one_heal_part() {
    let docs = default_doctrines();
    let mut c = ctx(DoctrineObjective::ClearCreeps, DefenseProfile::default());
    c.params.member_energy = 300;
    let plan = plan_engagement(decide_doctrine(&c, &docs).unwrap(), &c, None, &curve);
    assert_eq!(plan.composition.expect("always fielded").slots.len(), 8);
    c.params.member_energy = 299;
    let plan = plan_engagement(decide_doctrine(&c, &docs).unwrap(), &c, None, &curve);
    assert!(plan.composition.is_none());
}
