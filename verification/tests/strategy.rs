//! Choice of the weights to fight with.
use screeps_combat_decision::force_sizing::AssaultMode;
use screeps_combat_decision::kernel::KernelParams;
use screeps_combat_decision::strategy::{
    decide_strategy, default_strategies, CombatObjectiveClass, CombatStrategy, SquadTacticParams,
    StrategyContext, StrategyInfo,
};

fn ctx(class: CombatObjectiveClass, info: StrategyInfo) -> StrategyContext {
    StrategyContext { class, info }
}

#[test]
fn open_combat_objective_picks_the_open_profile() {
    let reg = default_strategies();
    let k = decide_strategy(
        &ctx(CombatObjectiveClass::OpenCombat, StrategyInfo::default()),
        &reg,
    )
    .kernel;
    assert_eq!(k, SquadTacticParams::open_combat().kernel);
}

#[test]
fn structure_breach_picks_the_breach_profile() {
    let reg = default_strategies();
    let k = decide_strategy(
        &ctx(CombatObjectiveClass::StructureBreach, StrategyInfo::default()),
        &reg,
    )
    .kernel;
    assert_eq!(k, SquadTacticParams::breach().kernel);
    assert_ne!(k, SquadTacticParams::open_combat().kernel);
}

#[test]
fn safe_mode_vetoes_the_breach_no_approach_into_an_invulnerable_base() {
    let reg = default_strategies();
    let info = StrategyInfo { enemy_safe_mode: true, ..Default::default() };
    let k = decide_strategy(&ctx(CombatObjectiveClass::StructureBreach, info), &reg).kernel;
    assert_eq!(k, SquadTacticParams::open_combat().kernel);
}

#[test]
fn drain_mode_picks_the_patient_drain_profile() {
    let reg = default_strategies();
    let info = StrategyInfo { assault_mode: Some(AssaultMode::Drain), ..Default::default() };
    let k = decide_strategy(&ctx(CombatObjectiveClass::StructureBreach, info), &reg).kernel;
    assert_eq!(k, SquadTacticParams::breach_drain().kernel);
}

struct AlwaysSpread;

impl CombatStrategy for AlwaysSpread {
    fn name(&self) -> &'static str {
        "always-spread"
    }
    fn applies(&self, _ctx: &StrategyContext) -> bool {
        true
    }
    fn profile(&self) -> SquadTacticParams {
        SquadTacticParams {
            kernel: KernelParams { spacing_coef: 9, ..KernelParams::default() },
            ..SquadTacticParams::default()
        }
    }
}

#[test]
fn registry_is_pluggable_with_custom_strategies() {
    let custom: Vec<Box<dyn CombatStrategy>> = vec![Box::new(AlwaysSpread)];
    let k = decide_strategy(
        &ctx(CombatObjectiveClass::OpenCombat, StrategyInfo::default()),
        &custom,
    )
    .kernel;
    assert_eq!(k.spacing_coef, 9, "the injected strategy wins; the registry is the seam to extend");
}

#[test]
fn nothing_that_applies_falls_back_to_the_open() {
    let none: Vec<Box<dyn CombatStrategy>> = vec![];
    let p = decide_strategy(
        &ctx(CombatObjectiveClass::StructureBreach, StrategyInfo::default()),
        &none,
    );
    assert_eq!(p, SquadTacticParams::open_combat());
}

#[test]
fn standard_strategies_have_their_names_and_weights() {
    let names: Vec<&str> = default_strategies().iter().map(|s| s.name()).collect();
    assert_eq!(names, vec!["safe-mode-hold", "drain-breach", "breach", "open-combat"]);
    let open = SquadTacticParams::open_combat().kernel;
    assert_eq!((open.approach_coef, open.incumbency_coef, open.spacing_coef), (1, 6, 2));
    let breach = SquadTacticParams::breach().kernel;
    assert_eq!((breach.incumbency_coef, breach.cohesion_k), (4, 3));
    assert_eq!(SquadTacticParams::breach_drain().kernel.incumbency_coef, 6);
}

#[test]
fn safe_mode_overrules_a_drain() {
    let info = StrategyInfo { enemy_safe_mode: true, assault_mode: Some(AssaultMode::Drain) };
    let p = decide_strategy(
        &ctx(CombatObjectiveClass::StructureBreach, info),
        &default_strategies(),
    );
    assert_eq!(p, SquadTacticParams::open_combat());
}
