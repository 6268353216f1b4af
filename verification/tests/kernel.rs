//! What squad members do and where they go.
use screeps::local::LocalCostMatrix;
use screeps::RawObjectId;
use screeps_combat_decision::battlefield::{
    CombatIntent, CombatStructureDto, FocusTarget, KillTarget, Ownership, StructureKind, ThreatField,
};
use screeps_combat_decision::geometry::{Position, RoomName};
use screeps_combat_decision::kernel::{
    enumerate_legal_sets, is_engine_legal, plan_squad_ev, sensitivities, squad_dps, tile_key,
    win_permille, Act, ActorCaps, EvMember, KernelParams, G_CAP,
};
use screeps_combat_decision::parts::Part;
use std::collections::HashMap;

fn caps(melee: bool, ranged: bool, heal: bool, dismantle: bool, claim: bool) -> ActorCaps {
    ActorCaps { melee, ranged, heal, dismantle, claim }
}

#[test]
fn enumerated_sets_are_all_engine_legal() {
    for m in [false, true] {
        for r in [false, true] {
            for h in [false, true] {
                for d in [false, true] {
                    for c in [false, true] {
                        let sets = enumerate_legal_sets(caps(m, r, h, d, c));
                        for s in &sets {
                            assert!(is_engine_legal(s), "illegal set {s:?} for caps m{m} r{r} h{h} d{d} c{c}");
                        }
                        assert!(sets.iter().any(|s| s.is_empty()), "idle/move-only is always an option");
                    }
                }
            }
        }
    }
}

#[test]
fn is_engine_legal_rejects_the_known_illegal_combos() {
    assert!(is_engine_legal(&[Act::Melee, Act::Ranged]), "{{melee, ranged}} composes");
    assert!(is_engine_legal(&[Act::Ranged, Act::Heal]), "plain heal does not drop ranged");
    assert!(is_engine_legal(&[Act::Rma, Act::Heal]), "plain heal does not drop RMA");
    assert!(is_engine_legal(&[Act::Dismantle, Act::Ranged]), "dismantle composes with ranged");
    assert!(is_engine_legal(&[Act::Declaim, Act::Ranged]), "declaim composes with ranged");
    assert!(!is_engine_legal(&[Act::Melee, Act::Heal]), "heal drops melee");
    assert!(!is_engine_legal(&[Act::Ranged, Act::RangedHeal]), "rangedHeal drops ranged");
    assert!(!is_engine_legal(&[Act::Rma, Act::RangedHeal]), "rangedHeal drops RMA");
    assert!(!is_engine_legal(&[Act::Ranged, Act::Rma]), "RMA drops single-target ranged");
    assert!(!is_engine_legal(&[Act::Dismantle, Act::Declaim]), "declaim drops dismantle");
    assert!(!is_engine_legal(&[Act::RangedHeal, Act::Heal]), "heal drops rangedHeal");
}

#[test]
fn a_melee_ranged_heal_creep_can_fire_both_weapons_or_fire_and_heal() {
    let sets = enumerate_legal_sets(caps(true, true, true, false, false));
    assert!(sets.iter().any(|s| s.contains(&Act::Melee) && s.contains(&Act::Ranged)), "{{melee, ranged}} offered");
    assert!(sets.iter().any(|s| s.contains(&Act::Ranged) && s.contains(&Act::Heal)), "{{ranged, heal}} offered");
    assert!(!sets.iter().any(|s| s.contains(&Act::Melee) && s.contains(&Act::Heal)));
    assert!(!sets.iter().any(|s| s.contains(&Act::Ranged) && s.contains(&Act::RangedHeal)));
}

#[test]
fn win_curve_is_monotone_symmetric_and_centered() {
    assert_eq!(win_permille(0), 500, "dead-even margin is a coin flip");
    assert!(win_permille(-2000) < win_permille(0) && win_permille(0) < win_permille(2000), "clamped extremes ordered");
    let mut prev = -1i64;
    for mu in (-1000..=1000).step_by(25) {
        let w = win_permille(mu);
        assert!(w >= prev, "monotone non-decreasing at μ={mu} ({w} < {prev})");
        assert!((0..=1000).contains(&w), "in [0,1000] at μ={mu}");
        prev = w;
    }
    for mu in (50..=1000).step_by(50) {
        let s = win_permille(mu) + win_permille(-mu);
        assert!((995..=1005).contains(&s), "W(μ)+W(−μ)≈1000 at μ={mu} (got {s})");
    }
}

#[test]
fn sensitivity_ratio_follows_lanchester() {
    let behind = sensitivities(1000, 3000, -400);
    assert!(behind.g_us > behind.g_them, "when losing, survival/heal weighted above offense");
    let ahead = sensitivities(3000, 1000, 400);
    assert!(ahead.g_them > ahead.g_us, "when winning, offense weighted above survival");
    assert!(behind.g_us >= 2 * behind.g_them, "ratio ~ enemy:our (3:1) when behind");
    assert!(ahead.g_them >= 2 * ahead.g_us, "ratio ~ our:enemy (3:1) when ahead");
}

#[test]
fn sensitivities_are_floored_in_a_blowout_and_stay_in_i64() {
    let blowout = sensitivities(50_000_000, 1_000, 1000);
    assert!(blowout.g_us > 0 && blowout.g_them > 0, "blowout floor keeps EV ordering alive");
    let huge = sensitivities(u64::MAX / 2, u64::MAX / 2, 0);
    assert!(huge.g_us > 0 && huge.g_them > 0 && huge.g_us <= G_CAP && huge.g_them <= G_CAP);
}

fn room() -> RoomName {
    let [x, y] = "W1N1".parse::<screeps::RoomName>().unwrap().packed_repr().to_be_bytes();
    RoomName { x, y }
}

fn kpos(x: u8, y: u8) -> Position {
    Position { room: room(), x, y }
}

fn kraw(id: u8) -> RawObjectId {
    format!("{id:024x}").parse().unwrap()
}

/// A creep without a healer: its hits kill it, and its parts are what it is worth.
fn khostile(id: u8, x: u8, y: u8, hits: u32, parts: &[(Part, u32)]) -> KillTarget {
    let of = |part: Part| parts.iter().filter(|p| p.0 == part).map(|p| p.1).sum::<u32>();
    KillTarget {
        id: Some(kraw(id)),
        pos: kpos(x, y),
        budget: hits,
        threat_value: 30 * of(Part::Attack) + 10 * of(Part::RangedAttack),
        attack_parts: of(Part::Attack),
    }
}

fn kstruct(x: u8, y: u8, t: StructureKind) -> CombatStructureDto {
    CombatStructureDto {
        pos: kpos(x, y),
        structure_type: t,
        hits: 5000,
        ownership: Ownership::Hostile,
    }
}

/// The range between two tiles of the room.
fn range(a: Position, b: Position) -> u32 {
    (a.x.abs_diff(b.x) as u32).max(a.y.abs_diff(b.y) as u32)
}

fn melee_evm(idx: usize, id: u8, x: u8, y: u8) -> EvMember {
    EvMember {
        idx,
        id: Some(kraw(id)),
        pos: kpos(x, y),
        hits: 1000,
        hits_max: 1000,
        caps: ActorCaps { melee: true, ..Default::default() },
        melee_power: 90,
        ranged_power: 0,
        heal_parts: 0,
        dismantle_power: 0,
        claim_power: 0,
    }
}
fn no_threat() -> ThreatField {
    ThreatField::new(room())
}

fn chebyshev_flood(focus: Position) -> HashMap<u16, u32> {
    let mut m = HashMap::new();
    for x in 0..50u8 {
        for y in 0..50u8 {
            m.insert(tile_key(x, y), range(kpos(x, y), focus));
        }
    }
    m
}

#[test]
fn a_melee_creep_attacks_the_adjacent_enemy() {
    let me = melee_evm(0, 1, 25, 25);
    let enemy = khostile(9, 26, 25, 100, &[(Part::Attack, 1)]);
    let focus = Some(FocusTarget { pos: enemy.pos, id: enemy.id });
    let out = plan_squad_ev(&[me], &[enemy], &[], focus, kpos(25, 25), 10_000, 5_000, 300, &no_threat(), 0, &LocalCostMatrix::new(), &chebyshev_flood(kpos(26, 25)), &KernelParams::default());
    assert!(out[0].intents.iter().any(|i| matches!(i, CombatIntent::Attack { target, .. } if *target == kpos(26, 25))), "melee attacks the adjacent enemy: {:?}", out[0].intents);
}

#[test]
fn a_melee_creep_approaches_a_far_enemy() {
    let me = melee_evm(0, 1, 20, 25);
    let enemy = khostile(9, 28, 25, 100, &[(Part::Attack, 1)]);
    let focus = Some(FocusTarget { pos: enemy.pos, id: enemy.id });
    let out = plan_squad_ev(&[me], &[enemy], &[], focus, kpos(20, 25), 10_000, 5_000, 300, &no_threat(), 0, &LocalCostMatrix::new(), &chebyshev_flood(kpos(28, 25)), &KernelParams::default());
    let goal = out[0].goal.expect("a move goal");
    assert!(range(goal, kpos(20, 25)) <= 1, "a local step: {goal:?}");
    assert!(range(goal, kpos(28, 25)) < range(kpos(20, 25), kpos(28, 25)), "steps toward the enemy: {goal:?}");
    assert!(out[0].intents.is_empty(), "nothing in range yet → no action");
}

#[test]
fn a_melee_creep_breaches_the_focus_structure() {
    let me = melee_evm(0, 1, 25, 25);
    let spawn = kstruct(26, 25, StructureKind::Spawn);
    let focus = Some(FocusTarget { pos: spawn.pos, id: None });
    let out = plan_squad_ev(&[me], &[], &[spawn], focus, kpos(25, 25), 10_000, 5_000, 300, &no_threat(), 0, &LocalCostMatrix::new(), &chebyshev_flood(kpos(26, 25)), &KernelParams::default());
    assert!(out[0].intents.iter().any(|i| matches!(i, CombatIntent::Attack { target, id: None } if *target == kpos(26, 25))), "melee breaches the structure: {:?}", out[0].intents);
}

#[test]
fn a_healer_heals_a_mortal_ally() {
    let healer = EvMember {
        idx: 0,
        id: Some(kraw(1)),
        pos: kpos(25, 25),
        hits: 1000,
        hits_max: 1000,
        caps: ActorCaps { heal: true, ..Default::default() },
        melee_power: 0,
        ranged_power: 0,
        heal_parts: 5,
        dismantle_power: 0,
        claim_power: 0,
    };
    let ally = EvMember {
        idx: 1,
        id: Some(kraw(2)),
        pos: kpos(26, 25),
        hits: 50,
        hits_max: 500,
        caps: ActorCaps::default(),
        melee_power: 0,
        ranged_power: 0,
        heal_parts: 0,
        dismantle_power: 0,
        claim_power: 0,
    };
    let mut threat = no_threat();
    for x in 26..=28 {
        for y in 24..=26 {
            threat.set(x, y, 150);
        }
    }
    let out = plan_squad_ev(&[healer, ally], &[], &[], None, kpos(25, 25), 10_000, 5_000, -300, &threat, 0, &LocalCostMatrix::new(), &HashMap::new(), &KernelParams::default());
    assert!(out[0].intents.iter().any(|i| matches!(i, CombatIntent::Heal { target, .. } if *target == kpos(26, 25))), "healer heals the mortal ally: {:?}", out[0].intents);
}

#[test]
fn combined_fire_does_not_overkill_one_target() {
    let a = melee_evm(0, 1, 25, 25);
    let b = melee_evm(1, 2, 25, 26);
    let enemy = khostile(9, 26, 25, 100, &[(Part::Attack, 1)]);
    let weak = khostile(8, 26, 26, 100, &[(Part::Attack, 1)]);
    let focus = Some(FocusTarget { pos: enemy.pos, id: enemy.id });
    let out = plan_squad_ev(&[a, b], &[enemy, weak], &[], focus, kpos(25, 25), 20_000, 4_000, 400, &no_threat(), 0, &LocalCostMatrix::new(), &chebyshev_flood(kpos(26, 25)), &KernelParams::default());
    let attacked: Vec<Position> = out.iter().flat_map(|r| r.intents.iter().filter_map(|i| match i { CombatIntent::Attack { target, .. } => Some(*target), _ => None })).collect();
    assert_eq!(attacked.len(), 2, "both creeps act");
    assert!(attacked.contains(&kpos(26, 25)) && attacked.contains(&kpos(26, 26)), "fire spills to the second target instead of overkilling the first: {attacked:?}");
}

#[test]
fn nobody_steps_on_an_impassable_tile() {
    let me = melee_evm(0, 1, 20, 25);
    let enemy = khostile(9, 28, 25, 100, &[(Part::Attack, 1)]);
    let mut walls = LocalCostMatrix::new();
    for y in 24..=26u8 {
        walls.set(screeps::RoomXY::checked_new(21, y).unwrap(), 255);
    }
    let flood = chebyshev_flood(kpos(28, 25));
    let out = plan_squad_ev(&[me], &[enemy], &[], None, kpos(20, 25), 10_000, 5_000, 300, &no_threat(), 0, &walls, &flood, &KernelParams::default());
    let goal = out[0].goal.expect("a tile is open");
    assert!(goal.x <= 20, "the wall is not stepped on: {goal:?}");
    assert_eq!(goal, kpos(20, 24), "of the tiles worth the same the lowest");
}

#[test]
fn a_walled_in_member_has_nowhere_to_go() {
    let mut walls = LocalCostMatrix::new();
    for x in 19..=21u8 {
        for y in 24..=26u8 {
            walls.set(screeps::RoomXY::checked_new(x, y).unwrap(), 255);
        }
    }
    let out = plan_squad_ev(&[melee_evm(0, 1, 20, 25)], &[], &[], None, kpos(20, 25), 1, 1, 0, &no_threat(), 0, &walls, &HashMap::new(), &KernelParams::default());
    assert_eq!(out.len(), 1);
    assert!(out[0].goal.is_none() && out[0].intents.is_empty());
}

#[test]
fn a_deadly_tile_is_not_stepped_on() {
    let mut field = no_threat();
    for y in 24..=26 {
        field.set(21, y, 5_000);
    }
    let flood = chebyshev_flood(kpos(28, 25));
    let out = plan_squad_ev(&[melee_evm(0, 1, 20, 25)], &[], &[], None, kpos(20, 25), 10, 10, 0, &field, 0, &LocalCostMatrix::new(), &flood, &KernelParams::default());
    assert!(out[0].goal.expect("a tile is open").x <= 20);
}

#[test]
fn a_mass_attack_hits_all_in_range() {
    let shooter = EvMember {
        caps: ActorCaps { ranged: true, ..Default::default() },
        ranged_power: 100,
        melee_power: 0,
        ..melee_evm(0, 1, 25, 25)
    };
    let near: Vec<KillTarget> = (0..3).map(|k| khostile(k + 3, 24 + k, 24, 500, &[(Part::RangedAttack, 5)])).collect();
    let out = plan_squad_ev(&[shooter], &near, &[], None, kpos(25, 25), 100, 100, 0, &no_threat(), 0, &LocalCostMatrix::new(), &HashMap::new(), &KernelParams::default());
    assert_eq!(out[0].intents, vec![CombatIntent::RangedMassAttack]);
}

#[test]
fn dismantling_goes_to_structures_and_ranged_heal_to_the_far() {
    let worker = EvMember {
        caps: ActorCaps { dismantle: true, ..Default::default() },
        dismantle_power: 250,
        ..melee_evm(0, 1, 25, 25)
    };
    let tower = kstruct(26, 25, StructureKind::Tower);
    let out = plan_squad_ev(&[worker], &[], &[tower], None, kpos(25, 25), 10, 10, 0, &no_threat(), 0, &LocalCostMatrix::new(), &HashMap::new(), &KernelParams::default());
    assert_eq!(out[0].intents, vec![CombatIntent::Dismantle { target: kpos(26, 25), id: None }]);
    let healer = EvMember {
        caps: ActorCaps { heal: true, ..Default::default() },
        heal_parts: 5,
        ..melee_evm(0, 1, 25, 25)
    };
    let hurt = EvMember { hits: 100, ..melee_evm(1, 2, 28, 25) };
    let out = plan_squad_ev(&[healer, hurt], &[], &[], None, kpos(25, 25), 10, 10, 0, &no_threat(), 0, &LocalCostMatrix::new(), &HashMap::new(), &KernelParams::default());
    assert_eq!(out[0].intents, vec![CombatIntent::RangedHeal { target: kpos(28, 25), id: Some(kraw(2)) }]);
}

#[test]
fn worthless_structures_are_left_alone() {
    let rampart = kstruct(26, 25, StructureKind::Other);
    let ours = CombatStructureDto { ownership: Ownership::Mine, ..kstruct(24, 25, StructureKind::Spawn) };
    let out = plan_squad_ev(&[melee_evm(0, 1, 25, 25)], &[], &[rampart, ours], None, kpos(25, 25), 10, 10, 0, &no_threat(), 0, &LocalCostMatrix::new(), &HashMap::new(), &KernelParams::default());
    assert!(out[0].intents.is_empty());
}

#[test]
fn odds_and_exchange_rates_are_exact() {
    assert_eq!(win_permille(-1000), 18);
    assert_eq!(win_permille(25), 525);
    assert_eq!(win_permille(1000), 982);
    let even = sensitivities(100, 300, 0);
    assert_eq!((even.g_us, even.g_them), (30_000, 10_000));
}

#[test]
fn the_squad_hits_with_all_it_has() {
    let shooter = EvMember { ranged_power: 40, ..melee_evm(1, 2, 3, 3) };
    assert_eq!(squad_dps(&[melee_evm(0, 1, 2, 2), shooter]), 220);
}

#[test]
fn every_legal_set_of_a_creep_is_on_its_menu() {
    let acts = [Act::Melee, Act::Ranged, Act::Rma, Act::Dismantle, Act::Declaim, Act::Heal, Act::RangedHeal];
    for abilities in 0..32 {
        let has = |bit: u32| abilities & (1 << bit) != 0;
        let creep = caps(has(0), has(1), has(2), has(3), has(4));
        let can = |act: Act| match act {
            Act::Melee => creep.melee,
            Act::Ranged | Act::Rma => creep.ranged,
            Act::Dismantle => creep.dismantle,
            Act::Declaim => creep.claim,
            Act::Heal | Act::RangedHeal => creep.heal,
        };
        let menu = enumerate_legal_sets(creep);
        for chosen in 0..128u32 {
            let set: Vec<Act> = (0..7).filter(|i| chosen & (1 << i) != 0).map(|i| acts[i]).collect();
            if set.iter().all(|&a| can(a)) && is_engine_legal(&set) {
                assert!(
                    menu.iter().any(|m| m.len() == set.len() && set.iter().all(|a| m.contains(a))),
                    "{set:?} is missing for {creep:?}"
                );
            }
        }
    }
}

#[test]
fn odds_of_both_sides_make_certainty() {
    for mu in -1100..=1100 {
        let both = win_permille(mu) + win_permille(-mu);
        assert!(both == 999 || both == 1000, "{both} at {mu}");
    }
    assert_eq!((win_permille(51), win_permille(-51)), (550, 449));
}
