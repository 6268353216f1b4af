//! Which doctrine an engagement falls under, and the force that it asks for.
//!
//! A [`ForceDoctrine`] only classifies: it says which objective it handles, and whether it is bound
//! by the verdict. [`emit_requirement`] sizes every objective in one place, and [`plan_engagement`]
//! turns an engagement into the squad to field.
use crate::bodies::defender_heal_parts_for_dps;
use crate::composition::{
    assemble_force, optimize_composition, optimizer_ceiling_budget, CompositionParams,
    SquadComposition, SquadRole, DEFAULT_RETREAT_THRESHOLD,
};
use crate::constants::RANGED_ATTACK_POWER;
use crate::fixed::{div_up, to_i64, Milli, Probability};
use crate::force_sizing::{
    assess, clear_force, importance_margin, AssaultMode, DefenseProfile, ForceAssessment,
    ForceBudget, RequiredForce, TowerThreat,
};
use crate::lists::{alone, with};
use vstd::prelude::*;

verus! {

/// How the enemies fight.
#[derive(Clone, Copy, Debug, PartialEq, Eq, Structural)]
pub enum EnemyCoordination {
    /// One at a time: a force is sized to the worst of them.
    Individual,
    /// Together: a force is sized to all of them, and out-powers them.
    Coordinated,
}

/// What an engagement is for.
#[derive(Clone, Copy, Debug, PartialEq, Eq, Structural)]
pub enum DoctrineObjective {
    /// Destroy a structure that cannot be dismantled, such as an invader core.
    KillImmuneStructure,
    /// Break into, and dismantle, structures that can be.
    DismantleStructure,
    /// Clear a room of hostile creeps.
    ClearCreeps,
    /// Clear a player's remote of creeps, where that can be won.
    RaidCreeps,
    /// Deny a remote, without holding it.
    Harass,
    /// Hold down a source keeper: keep away from it, out-heal it and kill it.
    Suppress,
}

/// The enemy creeps that a force is sized against: the worst of them where they fight one at a time,
/// all of them where they fight together.
#[derive(Clone, Copy, Debug, PartialEq, Eq, Structural)]
pub struct EnemyForce {
    pub dps: Milli,
    pub heal: Milli,
    pub hits: u32,
    pub count: u32,
    pub boosted: bool,
}

/// Nobody.
pub open spec fn nobody() -> EnemyForce {
    EnemyForce { dps: 0, heal: 0, hits: 0, count: 0, boosted: false }
}

/// The enemies seen, or nobody.
pub open spec fn enemies(enemy: Option<EnemyForce>) -> EnemyForce {
    match enemy {
        Some(force) => force,
        None => nobody(),
    }
}

impl Default for EnemyForce {
    /// Nobody.
    fn default() -> (force: Self)
        ensures
            force == nobody(),
    {
        EnemyForce { dps: 0, heal: 0, hits: 0, count: 0, boosted: false }
    }
}

/// The enemies seen, or nobody.
pub(crate) fn seen_or_nobody(enemy: Option<EnemyForce>) -> (force: EnemyForce)
    ensures
        force == enemies(enemy),
{
    match enemy {
        Some(force) => force,
        None => EnemyForce::default(),
    }
}

/// Ticks within which a keeper is killed. A keeper does not heal itself.
pub const SK_KEEPER_KILL_TICKS: u32 = 34;

/// Parts of HEAL, and against creeps, that a force which is always fielded has at least.
pub const DEFAULT_FLOOR_PARTS: u32 = 4;

/// Ticks on site of a defender, who has no way to go.
pub const CLEAR_ONSITE_TICKS: u32 = 1400;

// ---------------------------------------------------------------------------------------------
// Sizing.
// ---------------------------------------------------------------------------------------------

/// A number of the size of [`Milli`] times a factor in thousandths, rounded up.
pub open spec fn by_margin(rate: int, margin: int) -> int {
    crate::fixed::nearest_i64(crate::fixed::ceil_quotient(rate * margin, 1000))
}

/// The verdict and the force of a fight against creeps.
pub open spec fn clearing(
    defense: DefenseProfile,
    enemy: EnemyForce,
    hits: u32,
    budget: ForceBudget,
    margin: Milli,
) -> (ForceAssessment, RequiredForce) {
    let verdict = crate::force_sizing::creep_fight(
        enemy.dps,
        hits,
        enemy.heal,
        budget,
        margin,
    ).verdict(defense.towers@, budget, defense.safe_mode);
    (verdict, crate::force_sizing::clearing_force(verdict))
}

/// The force against a structure, with what its guards ask for on top: enough against creeps to kill
/// them, and heal that covers them too. Where no guard does damage, or where they cannot be beaten,
/// nothing is added.
pub open spec fn guarded(
    required: RequiredForce,
    defense: DefenseProfile,
    enemy: Option<EnemyForce>,
    budget: ForceBudget,
    coordination: EnemyCoordination,
    over_power_margin: Milli,
) -> RequiredForce {
    match enemy {
        Some(force) if force.dps > 0 => {
            let margin = if coordination == EnemyCoordination::Coordinated {
                over_power_margin
            } else {
                1000
            };
            let (verdict, clear) = clearing(defense, force, force.hits, budget, margin);
            if verdict.winnable {
                RequiredForce {
                    anti_creep_parts: clear.anti_creep_parts,
                    heal_parts: crate::fixed::max_of(
                        required.heal_parts as int,
                        clear.heal_parts as int,
                    ) as u32,
                    ..required
                }
            } else {
                required
            }
        },
        _ => required,
    }
}

/// The force without the weapon that does not work on the objective.
pub open spec fn armed_for(objective: DoctrineObjective, required: RequiredForce) -> RequiredForce {
    if objective == DoctrineObjective::DismantleStructure {
        RequiredForce { immune_struct_parts: 0, ..required }
    } else {
        RequiredForce { dismantle_parts: 0, ..required }
    }
}

/// The verdict and the force against a keeper.
pub open spec fn suppressing(keeper: EnemyForce, hold_margin: Milli) -> (
    ForceAssessment,
    RequiredForce,
) {
    let heal = by_margin(keeper.dps as int, hold_margin as int);
    (
        ForceAssessment {
            winnable: true,
            mode: AssaultMode::Breach,
            required_heal_per_tick: heal as i64,
            required_dismantle_dps: 0,
            required_tank_hp: 0,
            est_ticks: SK_KEEPER_KILL_TICKS,
            reason: "sk: out-heal + kill the keeper",
        },
        RequiredForce {
            heal_parts: crate::force_sizing::heal_parts_at(heal) as u32,
            anti_creep_parts: crate::fixed::ceil_quotient(
                keeper.hits as int,
                SK_KEEPER_KILL_TICKS * RANGED_ATTACK_POWER,
            ) as u32,
            ..crate::force_sizing::no_force()
        },
    )
}

/// The verdict and the force that [`emit_requirement`] gives.
pub open spec fn requirement(
    objective: DoctrineObjective,
    defense: DefenseProfile,
    enemy: Option<EnemyForce>,
    budget: ForceBudget,
    coordination: EnemyCoordination,
    importance: Milli,
    hold_margin: Milli,
    over_power_margin: Milli,
) -> (ForceAssessment, RequiredForce) {
    let force = enemies(enemy);
    match objective {
        DoctrineObjective::KillImmuneStructure | DoctrineObjective::DismantleStructure => {
            let verdict = defense.verdict(force.dps as int, budget);
            if verdict.winnable {
                let factor = 1_000_000 + crate::fixed::within(importance as int, 0, 1000) * 500;
                let required = armed_for(
                    objective,
                    crate::force_sizing::razing_force(verdict).scaled_by(factor),
                );
                (
                    verdict,
                    guarded(required, defense, enemy, budget, coordination, over_power_margin),
                )
            } else {
                (verdict, crate::force_sizing::no_force())
            }
        },
        DoctrineObjective::ClearCreeps | DoctrineObjective::Harass => clearing(
            defense,
            force,
            0,
            budget,
            over_power_margin,
        ),
        DoctrineObjective::RaidCreeps => clearing(
            defense,
            force,
            force.hits,
            budget,
            over_power_margin,
        ),
        DoctrineObjective::Suppress => suppressing(force, hold_margin),
    }
}

/// The budget given, or none at all.
pub open spec fn given(budget: Option<&ForceBudget>) -> ForceBudget {
    match budget {
        Some(budget) => *budget,
        None => ForceBudget {
            max_heal_per_tick: 0,
            max_dismantle_dps: 0,
            tank_effective_hp: 0,
            onsite_budget_ticks: 0,
        },
    }
}

/// The verdict on an objective, and the parts that it asks for. A structure is sized by what its
/// defense takes, over-invested in by its importance, with the weapon that works on it, and with what
/// its guards ask for; creeps are sized to be out-powered, and a raid also to be worn down in time; a
/// keeper is sized to be out-healed and killed in its window. Only a keeper needs no budget.
pub fn emit_requirement(
    objective: DoctrineObjective,
    defense: &DefenseProfile,
    enemy_force: Option<EnemyForce>,
    budget: Option<&ForceBudget>,
    coordination: EnemyCoordination,
    importance: Milli,
    hold_margin: Milli,
    over_power_margin: Milli,
) -> (r: (ForceAssessment, RequiredForce))
    requires
        budget is Some || objective == DoctrineObjective::Suppress,
    ensures
        r == requirement(
            objective,
            *defense,
            enemy_force,
            given(budget),
            coordination,
            importance,
            hold_margin,
            over_power_margin,
        ),
{
    let force = seen_or_nobody(enemy_force);
    match budget {
        None => suppression(force, hold_margin),
        Some(budget) => match objective {
            DoctrineObjective::KillImmuneStructure | DoctrineObjective::DismantleStructure => {
                let a = assess(defense, force.dps, budget);
                if !a.winnable {
                    return (a, RequiredForce::default());
                }
                let mut required = RequiredForce::from_assessment(&a).scaled(
                    importance_margin(importance),
                );
                match objective {
                    DoctrineObjective::DismantleStructure => {
                        required.immune_struct_parts = 0;
                    },
                    _ => {
                        required.dismantle_parts = 0;
                    },
                }
                overlay_anti_creep(
                    &mut required,
                    defense,
                    enemy_force,
                    budget,
                    coordination,
                    over_power_margin,
                );
                (a, required)
            },
            DoctrineObjective::ClearCreeps | DoctrineObjective::Harass => clear(
                defense,
                &force,
                0,
                budget,
                over_power_margin,
            ),
            DoctrineObjective::RaidCreeps => clear(
                defense,
                &force,
                force.hits,
                budget,
                over_power_margin,
            ),
            DoctrineObjective::Suppress => suppression(force, hold_margin),
        },
    }
}

/// The verdict and the force against a keeper.
fn suppression(keeper: EnemyForce, hold_margin: Milli) -> (r: (ForceAssessment, RequiredForce))
    ensures
        r == suppressing(keeper, hold_margin),
{
    let dps: i128 = keeper.dps as i128;
    let margin: i128 = hold_margin as i128;
    assert(-0x4000_0000_0000_0000_0000_0000_0000_0000 <= dps * margin
        <= 0x4000_0000_0000_0000_0000_0000_0000_0000) by (nonlinear_arith)
        requires
            -0x8000_0000_0000_0000 <= dps <= 0x7fff_ffff_ffff_ffff,
            -0x8000_0000_0000_0000 <= margin <= 0x7fff_ffff_ffff_ffff,
    ;
    let heal: Milli = to_i64(div_up(dps * margin, 1000));
    let window: u32 = SK_KEEPER_KILL_TICKS * RANGED_ATTACK_POWER;
    let kill: u64 = (keeper.hits as u64 + window as u64 - 1) / window as u64;
    let required = RequiredForce {
        heal_parts: defender_heal_parts_for_dps(heal, false),
        dismantle_parts: 0,
        immune_struct_parts: 0,
        anti_creep_parts: kill as u32,
        tough_parts: 0,
        claim_parts: 0,
    };
    let assessment = ForceAssessment {
        winnable: true,
        mode: AssaultMode::Breach,
        required_heal_per_tick: heal,
        required_dismantle_dps: 0,
        required_tank_hp: 0,
        est_ticks: SK_KEEPER_KILL_TICKS,
        reason: "sk: out-heal + kill the keeper",
    };
    (assessment, required)
}

/// The verdict and the force against creeps.
fn clear(
    defense: &DefenseProfile,
    enemy: &EnemyForce,
    hits: u32,
    budget: &ForceBudget,
    margin: Milli,
) -> (r: (ForceAssessment, RequiredForce))
    ensures
        r == clearing(*defense, *enemy, hits, *budget, margin),
{
    let towers: Vec<TowerThreat> = copy_of(&defense.towers);
    clear_force(towers, enemy.dps, hits, enemy.heal, budget, margin, defense.safe_mode)
}

/// The same towers once more.
fn copy_of(towers: &Vec<TowerThreat>) -> (copy: Vec<TowerThreat>)
    ensures
        copy@ == towers@,
{
    let mut copy: Vec<TowerThreat> = Vec::new();
    let mut i: usize = 0;
    while i < towers.len()
        invariant
            i <= towers@.len(),
            copy@ =~= towers@.take(i as int),
        decreases towers@.len() - i,
    {
        copy.push(towers[i]);
        i = i + 1;
    }
    assert(towers@.take(i as int) =~= towers@);
    copy
}

/// Adds to the force against a structure what its guards ask for.
fn overlay_anti_creep(
    required: &mut RequiredForce,
    defense: &DefenseProfile,
    enemy_force: Option<EnemyForce>,
    budget: &ForceBudget,
    coordination: EnemyCoordination,
    over_power_margin: Milli,
)
    ensures
        *final(required) == guarded(
            *old(required),
            *defense,
            enemy_force,
            *budget,
            coordination,
            over_power_margin,
        ),
{
    if let Some(enemy) = enemy_force {
        if enemy.dps > 0 {
            let margin: Milli = match coordination {
                EnemyCoordination::Coordinated => over_power_margin,
                EnemyCoordination::Individual => 1000,
            };
            let (verdict, force) = clear(defense, &enemy, enemy.hits, budget, margin);
            if verdict.winnable {
                required.anti_creep_parts = force.anti_creep_parts;
                if force.heal_parts > required.heal_parts {
                    required.heal_parts = force.heal_parts;
                }
            }
        }
    }
}

// ---------------------------------------------------------------------------------------------
// Doctrines.
// ---------------------------------------------------------------------------------------------

/// An engagement: what it is for, who stands against it and what it is worth.
#[derive(Clone, Debug)]
pub struct EngagementContext {
    pub objective: DoctrineObjective,
    pub coordination: EnemyCoordination,
    pub defense: DefenseProfile,
    /// The enemy creeps, where they bear on the force.
    pub enemy_force: Option<EnemyForce>,
    /// Importance from zero to one, which over-invests in a structure.
    pub importance: Milli,
    /// The energy of the strongest spawn in range, for information.
    pub member_energy: u32,
    /// What winning is worth.
    pub target_value: Milli,
    /// Ticks on site; zero stands for a defender's.
    pub onsite_window: u32,
    /// The weights and margins of the search for a composition.
    pub params: CompositionParams,
}

/// The squad to field, and the verdict and the force behind it.
#[derive(Clone, Debug)]
pub struct ForcePlan {
    /// The squad to field; none to defer.
    pub composition: Option<SquadComposition>,
    pub assessment: ForceAssessment,
    pub required: RequiredForce,
}

impl ForcePlan {
    /// Whether the engagement is winnable.
    pub fn winnable(&self) -> (yes: bool)
        ensures
            yes == self.assessment.winnable,
    {
        self.assessment.winnable
    }
}

/// A doctrine classifies engagements: it says which it handles, with which role it kills, whether it
/// is bound by the verdict, and when its squads retreat.
pub trait ForceDoctrine: Sync {
    /// The name of the doctrine.
    open spec fn title(&self) -> Seq<char> {
        Seq::empty()
    }

    /// The engagements that the doctrine handles.
    open spec fn handles(&self, ctx: EngagementContext) -> bool {
        false
    }

    /// The role that kills.
    open spec fn killer(&self) -> SquadRole {
        SquadRole::RangedDPS
    }

    /// The doctrine fields nothing where the expected value is too low; else it always fields.
    open spec fn is_gated(&self) -> bool {
        false
    }

    /// The HP share below which its squads retreat.
    open spec fn retreats_at(&self) -> Milli {
        DEFAULT_RETREAT_THRESHOLD
    }

    /// The name of the doctrine.
    fn name(&self) -> (n: &'static str)
        ensures
            n@ == self.title(),
    ;

    /// Whether the doctrine handles the engagement.
    fn applies(&self, ctx: &EngagementContext) -> (yes: bool)
        ensures
            yes == self.handles(*ctx),
    ;

    /// The role that kills: WORK takes apart what can be, all else is shot.
    fn fighter_role(&self) -> (role: SquadRole)
        ensures
            role == self.killer(),
    ;

    /// Whether the doctrine is bound by the verdict.
    fn honor_verdict(&self) -> (yes: bool)
        ensures
            yes == self.is_gated(),
    ;

    /// The HP share below which its squads retreat.
    fn retreat_threshold(&self) -> (share: Milli)
        ensures
            share == self.retreats_at(),
    ;
}

/// Against an invader core, which cannot be dismantled. Gated.
pub struct NpcCore;

impl ForceDoctrine for NpcCore {
    open spec fn title(&self) -> Seq<char> {
        "npc-core"@
    }

    open spec fn handles(&self, ctx: EngagementContext) -> bool {
        ctx.objective == DoctrineObjective::KillImmuneStructure
    }

    open spec fn killer(&self) -> SquadRole {
        SquadRole::RangedDPS
    }

    open spec fn is_gated(&self) -> bool {
        true
    }

    open spec fn retreats_at(&self) -> Milli {
        DEFAULT_RETREAT_THRESHOLD
    }

    fn name(&self) -> (n: &'static str) {
        "npc-core"
    }

    fn applies(&self, ctx: &EngagementContext) -> (yes: bool) {
        matches!(ctx.objective, DoctrineObjective::KillImmuneStructure)
    }

    fn fighter_role(&self) -> (role: SquadRole) {
        SquadRole::RangedDPS
    }

    fn honor_verdict(&self) -> (yes: bool) {
        true
    }

    fn retreat_threshold(&self) -> (share: Milli) {
        DEFAULT_RETREAT_THRESHOLD
    }
}

/// Against structures that can be dismantled. Gated.
pub struct SiegeBreach;

impl ForceDoctrine for SiegeBreach {
    open spec fn title(&self) -> Seq<char> {
        "siege-breach"@
    }

    open spec fn handles(&self, ctx: EngagementContext) -> bool {
        ctx.objective == DoctrineObjective::DismantleStructure
    }

    open spec fn killer(&self) -> SquadRole {
        SquadRole::Dismantler
    }

    open spec fn is_gated(&self) -> bool {
        true
    }

    open spec fn retreats_at(&self) -> Milli {
        DEFAULT_RETREAT_THRESHOLD
    }

    fn name(&self) -> (n: &'static str) {
        "siege-breach"
    }

    fn applies(&self, ctx: &EngagementContext) -> (yes: bool) {
        matches!(ctx.objective, DoctrineObjective::DismantleStructure)
    }

    fn fighter_role(&self) -> (role: SquadRole) {
        SquadRole::Dismantler
    }

    fn honor_verdict(&self) -> (yes: bool) {
        true
    }

    fn retreat_threshold(&self) -> (share: Milli) {
        DEFAULT_RETREAT_THRESHOLD
    }
}

/// Against the creeps of a player's room, on an operator's word: always fielded.
pub struct PlayerRaid;

impl ForceDoctrine for PlayerRaid {
    open spec fn title(&self) -> Seq<char> {
        "player-raid"@
    }

    open spec fn handles(&self, ctx: EngagementContext) -> bool {
        ctx.objective == DoctrineObjective::ClearCreeps
    }

    open spec fn killer(&self) -> SquadRole {
        SquadRole::RangedDPS
    }

    open spec fn is_gated(&self) -> bool {
        false
    }

    open spec fn retreats_at(&self) -> Milli {
        DEFAULT_RETREAT_THRESHOLD
    }

    fn name(&self) -> (n: &'static str) {
        "player-raid"
    }

    fn applies(&self, ctx: &EngagementContext) -> (yes: bool) {
        matches!(ctx.objective, DoctrineObjective::ClearCreeps)
    }

    fn fighter_role(&self) -> (role: SquadRole) {
        SquadRole::RangedDPS
    }

    fn honor_verdict(&self) -> (yes: bool) {
        false
    }

    fn retreat_threshold(&self) -> (share: Milli) {
        DEFAULT_RETREAT_THRESHOLD
    }
}

/// Against the creeps of a player's remote, to deny resources. Gated.
pub struct GatedPlayerRaid;

impl ForceDoctrine for GatedPlayerRaid {
    open spec fn title(&self) -> Seq<char> {
        "gated-player-raid"@
    }

    open spec fn handles(&self, ctx: EngagementContext) -> bool {
        ctx.objective == DoctrineObjective::RaidCreeps
    }

    open spec fn killer(&self) -> SquadRole {
        SquadRole::RangedDPS
    }

    open spec fn is_gated(&self) -> bool {
        true
    }

    open spec fn retreats_at(&self) -> Milli {
        DEFAULT_RETREAT_THRESHOLD
    }

    fn name(&self) -> (n: &'static str) {
        "gated-player-raid"
    }

    fn applies(&self, ctx: &EngagementContext) -> (yes: bool) {
        matches!(ctx.objective, DoctrineObjective::RaidCreeps)
    }

    fn fighter_role(&self) -> (role: SquadRole) {
        SquadRole::RangedDPS
    }

    fn honor_verdict(&self) -> (yes: bool) {
        true
    }

    fn retreat_threshold(&self) -> (share: Milli) {
        DEFAULT_RETREAT_THRESHOLD
    }
}

/// To deny a remote without holding it: always fielded.
pub struct HarassRemote;

impl ForceDoctrine for HarassRemote {
    open spec fn title(&self) -> Seq<char> {
        "harass-remote"@
    }

    open spec fn handles(&self, ctx: EngagementContext) -> bool {
        ctx.objective == DoctrineObjective::Harass
    }

    open spec fn killer(&self) -> SquadRole {
        SquadRole::RangedDPS
    }

    open spec fn is_gated(&self) -> bool {
        false
    }

    open spec fn retreats_at(&self) -> Milli {
        DEFAULT_RETREAT_THRESHOLD
    }

    fn name(&self) -> (n: &'static str) {
        "harass-remote"
    }

    fn applies(&self, ctx: &EngagementContext) -> (yes: bool) {
        matches!(ctx.objective, DoctrineObjective::Harass)
    }

    fn fighter_role(&self) -> (role: SquadRole) {
        SquadRole::RangedDPS
    }

    fn honor_verdict(&self) -> (yes: bool) {
        false
    }

    fn retreat_threshold(&self) -> (share: Milli) {
        DEFAULT_RETREAT_THRESHOLD
    }
}

/// To hold an owned room, which is never left undefended: always fielded.
pub struct GarrisonDefense;

impl ForceDoctrine for GarrisonDefense {
    open spec fn title(&self) -> Seq<char> {
        "garrison-defense"@
    }

    open spec fn handles(&self, ctx: EngagementContext) -> bool {
        ctx.objective == DoctrineObjective::ClearCreeps
    }

    open spec fn killer(&self) -> SquadRole {
        SquadRole::RangedDPS
    }

    open spec fn is_gated(&self) -> bool {
        false
    }

    open spec fn retreats_at(&self) -> Milli {
        DEFAULT_RETREAT_THRESHOLD
    }

    fn name(&self) -> (n: &'static str) {
        "garrison-defense"
    }

    fn applies(&self, ctx: &EngagementContext) -> (yes: bool) {
        matches!(ctx.objective, DoctrineObjective::ClearCreeps)
    }

    fn fighter_role(&self) -> (role: SquadRole) {
        SquadRole::RangedDPS
    }

    fn honor_verdict(&self) -> (yes: bool) {
        false
    }

    fn retreat_threshold(&self) -> (share: Milli) {
        DEFAULT_RETREAT_THRESHOLD
    }
}

/// HP share below which a squad that holds a keeper down retreats: its damage comes in bursts.
pub const SK_RETREAT_THRESHOLD: Milli = 500;

/// To hold a source keeper down: always fielded, and quick to retreat.
pub struct SkSuppression;

impl ForceDoctrine for SkSuppression {
    open spec fn title(&self) -> Seq<char> {
        "sk-suppression"@
    }

    open spec fn handles(&self, ctx: EngagementContext) -> bool {
        ctx.objective == DoctrineObjective::Suppress
    }

    open spec fn killer(&self) -> SquadRole {
        SquadRole::RangedDPS
    }

    open spec fn is_gated(&self) -> bool {
        false
    }

    open spec fn retreats_at(&self) -> Milli {
        SK_RETREAT_THRESHOLD
    }

    fn name(&self) -> (n: &'static str) {
        "sk-suppression"
    }

    fn applies(&self, ctx: &EngagementContext) -> (yes: bool) {
        matches!(ctx.objective, DoctrineObjective::Suppress)
    }

    fn fighter_role(&self) -> (role: SquadRole) {
        SquadRole::RangedDPS
    }

    fn honor_verdict(&self) -> (yes: bool) {
        false
    }

    fn retreat_threshold(&self) -> (share: Milli) {
        SK_RETREAT_THRESHOLD
    }
}

/// Doctrine `i` handles engagements for `objective`, kills with `killer`, is gated or not, and
/// retreats at `share`.
pub open spec fn is_for(
    doctrines: Seq<Box<dyn ForceDoctrine>>,
    i: int,
    title: Seq<char>,
    objective: DoctrineObjective,
    killer: SquadRole,
    gated: bool,
    share: Milli,
) -> bool {
    &&& doctrines[i].title() == title
    &&& forall|ctx: EngagementContext| #[trigger]
        doctrines[i].handles(ctx) == (ctx.objective == objective)
    &&& doctrines[i].killer() == killer
    &&& doctrines[i].is_gated() == gated
    &&& doctrines[i].retreats_at() == share
}

/// The doctrines are those of offense.
pub open spec fn is_offense(doctrines: Seq<Box<dyn ForceDoctrine>>) -> bool {
    &&& doctrines.len() == 5
    &&& is_for(
        doctrines,
        0,
        "npc-core"@,
        DoctrineObjective::KillImmuneStructure,
        SquadRole::RangedDPS,
        true,
        DEFAULT_RETREAT_THRESHOLD,
    )
    &&& is_for(
        doctrines,
        1,
        "siege-breach"@,
        DoctrineObjective::DismantleStructure,
        SquadRole::Dismantler,
        true,
        DEFAULT_RETREAT_THRESHOLD,
    )
    &&& is_for(
        doctrines,
        2,
        "player-raid"@,
        DoctrineObjective::ClearCreeps,
        SquadRole::RangedDPS,
        false,
        DEFAULT_RETREAT_THRESHOLD,
    )
    &&& is_for(
        doctrines,
        3,
        "gated-player-raid"@,
        DoctrineObjective::RaidCreeps,
        SquadRole::RangedDPS,
        true,
        DEFAULT_RETREAT_THRESHOLD,
    )
    &&& is_for(
        doctrines,
        4,
        "harass-remote"@,
        DoctrineObjective::Harass,
        SquadRole::RangedDPS,
        false,
        DEFAULT_RETREAT_THRESHOLD,
    )
}

/// The first doctrine from `i` on that handles the engagement.
pub open spec fn first_doctrine(
    doctrines: Seq<Box<dyn ForceDoctrine>>,
    ctx: EngagementContext,
    i: int,
) -> Option<int>
    decreases doctrines.len() - i,
{
    if i >= doctrines.len() {
        None
    } else if doctrines[i].handles(ctx) {
        Some(i)
    } else {
        first_doctrine(doctrines, ctx, i + 1)
    }
}

/// The doctrines of offense, in order of priority.
pub fn default_doctrines() -> (doctrines: Vec<Box<dyn ForceDoctrine>>)
    ensures
        is_offense(doctrines@),
{
    let core: Box<dyn ForceDoctrine> = Box::new(NpcCore);
    let siege: Box<dyn ForceDoctrine> = Box::new(SiegeBreach);
    let raid: Box<dyn ForceDoctrine> = Box::new(PlayerRaid);
    let gated: Box<dyn ForceDoctrine> = Box::new(GatedPlayerRaid);
    let harass: Box<dyn ForceDoctrine> = Box::new(HarassRemote);
    assert(forall|ctx: EngagementContext| #[trigger]
        core.handles(ctx) == (ctx.objective == DoctrineObjective::KillImmuneStructure));
    assert(core.title() == "npc-core"@);
    assert(core.killer() == SquadRole::RangedDPS);
    assert(core.is_gated() == true);
    assert(core.retreats_at() == DEFAULT_RETREAT_THRESHOLD);
    assert(forall|ctx: EngagementContext| #[trigger]
        siege.handles(ctx) == (ctx.objective == DoctrineObjective::DismantleStructure));
    assert(siege.title() == "siege-breach"@);
    assert(siege.killer() == SquadRole::Dismantler);
    assert(siege.is_gated() == true);
    assert(siege.retreats_at() == DEFAULT_RETREAT_THRESHOLD);
    assert(forall|ctx: EngagementContext| #[trigger]
        raid.handles(ctx) == (ctx.objective == DoctrineObjective::ClearCreeps));
    assert(raid.title() == "player-raid"@);
    assert(raid.killer() == SquadRole::RangedDPS);
    assert(raid.is_gated() == false);
    assert(raid.retreats_at() == DEFAULT_RETREAT_THRESHOLD);
    assert(forall|ctx: EngagementContext| #[trigger]
        gated.handles(ctx) == (ctx.objective == DoctrineObjective::RaidCreeps));
    assert(gated.title() == "gated-player-raid"@);
    assert(gated.killer() == SquadRole::RangedDPS);
    assert(gated.is_gated() == true);
    assert(gated.retreats_at() == DEFAULT_RETREAT_THRESHOLD);
    assert(forall|ctx: EngagementContext| #[trigger]
        harass.handles(ctx) == (ctx.objective == DoctrineObjective::Harass));
    assert(harass.title() == "harass-remote"@);
    assert(harass.killer() == SquadRole::RangedDPS);
    assert(harass.is_gated() == false);
    assert(harass.retreats_at() == DEFAULT_RETREAT_THRESHOLD);
    let list = alone(core);
    assert(list@[0] == core);
    let list = with(siege, list);
    assert(list@[1] == siege);
    let list = with(raid, list);
    assert(list@[2] == raid);
    let list = with(gated, list);
    assert(list@[3] == gated);
    let list = with(harass, list);
    assert(list@[4] == harass);
    list
}

/// The doctrines of holding source keepers down.
pub fn sk_doctrines() -> (doctrines: Vec<Box<dyn ForceDoctrine>>)
    ensures
        doctrines@.len() == 1,
        is_for(
            doctrines@,
            0,
            "sk-suppression"@,
            DoctrineObjective::Suppress,
            SquadRole::RangedDPS,
            false,
            SK_RETREAT_THRESHOLD,
        ),
{
    let sk: Box<dyn ForceDoctrine> = Box::new(SkSuppression);
    assert(forall|ctx: EngagementContext| #[trigger]
        sk.handles(ctx) == (ctx.objective == DoctrineObjective::Suppress));
    assert(sk.title() == "sk-suppression"@);
    assert(sk.killer() == SquadRole::RangedDPS);
    assert(sk.is_gated() == false);
    assert(sk.retreats_at() == SK_RETREAT_THRESHOLD);
    let list = alone(sk);
    assert(list@[0] == sk);
    list
}

/// The doctrines of defense: apart from offense, as both handle creeps.
pub fn defense_doctrines() -> (doctrines: Vec<Box<dyn ForceDoctrine>>)
    ensures
        doctrines@.len() == 1,
        is_for(
            doctrines@,
            0,
            "garrison-defense"@,
            DoctrineObjective::ClearCreeps,
            SquadRole::RangedDPS,
            false,
            DEFAULT_RETREAT_THRESHOLD,
        ),
{
    let garrison: Box<dyn ForceDoctrine> = Box::new(GarrisonDefense);
    assert(forall|ctx: EngagementContext| #[trigger]
        garrison.handles(ctx) == (ctx.objective == DoctrineObjective::ClearCreeps));
    assert(garrison.title() == "garrison-defense"@);
    assert(garrison.killer() == SquadRole::RangedDPS);
    assert(garrison.is_gated() == false);
    assert(garrison.retreats_at() == DEFAULT_RETREAT_THRESHOLD);
    let list = alone(garrison);
    assert(list@[0] == garrison);
    list
}

/// The first doctrine that handles the engagement.
pub fn decide_doctrine<'a>(ctx: &EngagementContext, doctrines: &'a [Box<dyn ForceDoctrine>]) -> (r:
    Option<&'a (dyn ForceDoctrine + 'static)>)
    ensures
        r is Some <==> first_doctrine(doctrines@, *ctx, 0) is Some,
        r matches Some(d) ==> {
            let chosen = doctrines@[first_doctrine(doctrines@, *ctx, 0)->0];
            &&& forall|other: EngagementContext| #[trigger]
                d.handles(other) == chosen.handles(other)
            &&& d.title() == chosen.title()
            &&& d.killer() == chosen.killer()
            &&& d.is_gated() == chosen.is_gated()
            &&& d.retreats_at() == chosen.retreats_at()
        },
{
    let mut i: usize = 0;
    while i < doctrines.len()
        invariant
            i <= doctrines@.len(),
            first_doctrine(doctrines@, *ctx, 0) == first_doctrine(doctrines@, *ctx, i as int),
        decreases doctrines@.len() - i,
    {
        if doctrines[i].applies(ctx) {
            let boxed: &'a Box<dyn ForceDoctrine> = &doctrines[i];
            assert(boxed == doctrines@[i as int]);
            let d = &**boxed;
            assert(forall|other: EngagementContext| #[trigger]
                d.handles(other) == doctrines@[i as int].handles(other));
            assert(d.title() == doctrines@[i as int].title());
            assert(d.killer() == doctrines@[i as int].killer());
            assert(d.is_gated() == doctrines@[i as int].is_gated());
            assert(d.retreats_at() == doctrines@[i as int].retreats_at());
            let r = Some(d);
            assert(r->0 == d);
            return r;
        }
        i = i + 1;
    }
    None
}

// ---------------------------------------------------------------------------------------------
// The plan.
// ---------------------------------------------------------------------------------------------

/// The least force of a doctrine that always fields: it survives to scout.
pub open spec fn floor_force() -> RequiredForce {
    RequiredForce {
        heal_parts: DEFAULT_FLOOR_PARTS,
        anti_creep_parts: DEFAULT_FLOOR_PARTS,
        ..crate::force_sizing::no_force()
    }
}

/// The least force of a doctrine that always fields.
fn default_floor_force() -> (force: RequiredForce)
    ensures
        force == floor_force(),
{
    RequiredForce {
        heal_parts: DEFAULT_FLOOR_PARTS,
        dismantle_parts: 0,
        immune_struct_parts: 0,
        anti_creep_parts: DEFAULT_FLOOR_PARTS,
        tough_parts: 0,
        claim_parts: 0,
    }
}

/// The force with no less HEAL, and no less against creeps, than `floor`.
pub open spec fn raised(force: RequiredForce, floor: RequiredForce) -> RequiredForce {
    RequiredForce {
        heal_parts: crate::fixed::max_of(force.heal_parts as int, floor.heal_parts as int) as u32,
        anti_creep_parts: crate::fixed::max_of(
            force.anti_creep_parts as int,
            floor.anti_creep_parts as int,
        ) as u32,
        ..force
    }
}

impl EngagementContext {
    /// Ticks on site.
    pub open spec fn window(&self) -> u32 {
        if self.onsite_window > 0 {
            self.onsite_window
        } else {
            CLEAR_ONSITE_TICKS
        }
    }

    /// The verdict and the force of the engagement, against the budget given or the largest squad.
    pub open spec fn asks(&self, budget: Option<ForceBudget>) -> (ForceAssessment, RequiredForce) {
        requirement(
            self.objective,
            self.defense,
            self.enemy_force,
            match budget {
                Some(budget) => budget,
                None => crate::composition::ceiling_of(
                    self.objective,
                    self.params.member_energy,
                    self.window(),
                ),
            },
            self.coordination,
            self.importance,
            self.params.hold_margin,
            self.params.over_power_margin,
        )
    }

    /// `best` is the composition with the best expected value.
    pub open spec fn is_best<F: Fn(i128, i128) -> Probability>(
        &self,
        curve: F,
        gated: bool,
        best: Option<SquadComposition>,
    ) -> bool {
        crate::composition::is_optimum(
            curve,
            crate::composition::search_base(
                self.objective,
                self.defense,
                self.enemy_force,
                self.window(),
                self.coordination,
                self.importance,
                gated,
                false,
                self.params,
            ),
            crate::composition::threat_of(
                self.defense,
                self.enemy_force,
                self.params.dynamic_margin,
            ),
            self.window(),
            self.target_value,
            gated,
            self.params,
            best,
        )
    }
}

/// `r` is the squad of the force, and retreats at `share`; none where it cannot be fielded.
pub open spec fn is_direct(
    r: Option<SquadComposition>,
    force: RequiredForce,
    member_energy: u32,
    share: Milli,
) -> bool {
    if crate::composition::is_fieldable(force, member_energy) {
        exists|squad: SquadComposition| #[trigger]
            crate::composition::is_squad_of(squad, force, member_energy) && r == Some(
                retreating(squad, share),
            )
    } else {
        r is None
    }
}

/// `r` is the squad of the force, and retreats at `share`. Where that force cannot be fielded, it is the
/// squad of the least force, unless the doctrine is gated.
pub open spec fn is_fallback(
    r: Option<SquadComposition>,
    force: RequiredForce,
    gated: bool,
    member_energy: u32,
    share: Milli,
) -> bool {
    if gated || crate::composition::is_fieldable(force, member_energy) {
        is_direct(r, force, member_energy, share)
    } else {
        is_direct(r, floor_force(), member_energy, share)
    }
}

/// The squad, retreating at `share`.
pub open spec fn retreating(squad: SquadComposition, share: Milli) -> SquadComposition {
    SquadComposition { retreat_threshold: share, ..squad }
}

/// The squad has no less HEAL and RANGED_ATTACK than the least that is always fielded.
pub open spec fn has_the_floor(squad: SquadComposition) -> bool {
    &&& crate::composition::fielded_parts(squad.slots@, crate::parts::Part::Heal)
        >= DEFAULT_FLOOR_PARTS
    &&& crate::composition::fielded_parts(squad.slots@, crate::parts::Part::RangedAttack)
        >= DEFAULT_FLOOR_PARTS
}

/// The best composition of a doctrine that always fields has the floor.
proof fn lemma_best_has_the_floor<F: Fn(i128, i128) -> Probability>(
    ctx: EngagementContext,
    curve: F,
    squad: SquadComposition,
)
    requires
        ctx.is_best(curve, false, Some(squad)),
    ensures
        has_the_floor(squad),
{
    let energy = ctx.params.member_energy;
    let asked = requirement(
        ctx.objective,
        ctx.defense,
        ctx.enemy_force,
        crate::composition::ceiling_of(ctx.objective, energy, ctx.window()),
        ctx.coordination,
        ctx.importance,
        ctx.params.hold_margin,
        ctx.params.over_power_margin,
    ).1;
    let base = crate::composition::floored(asked);
    let threat = crate::composition::threat_of(
        ctx.defense,
        ctx.enemy_force,
        ctx.params.dynamic_margin,
    );
    let evs = choose|evs: Seq<int>|
        {
            &&& #[trigger] crate::composition::are_evs_of(
                curve,
                base,
                threat,
                ctx.window(),
                ctx.target_value,
                ctx.params,
                evs,
            )
            &&& match crate::composition::best_candidate(base, energy, evs, 12) {
                None => false,
                Some(i) => crate::composition::is_squad_of(
                    squad,
                    crate::composition::candidate(base, i),
                    energy,
                ),
            }
        };
    crate::composition::lemma_best_is_fieldable(base, energy, evs, 12);
    let i = crate::composition::best_candidate(base, energy, evs, 12)->0;
    crate::composition::law_floor_is_kept(asked, energy, i);
}

/// The squad to field for an engagement under a doctrine. A keeper is met with the force that it asks
/// for; every other engagement with the composition of the best expected value. A gated doctrine
/// fields none where that is too low; a doctrine that always fields has a least force, falls back on the
/// force that the engagement asks for, and where nothing else can be fielded, on the least force. The
/// verdict is given against `budget`, or against the largest squad.
pub fn plan_engagement<F: Fn(i128, i128) -> Probability>(
    doctrine: &dyn ForceDoctrine,
    ctx: &EngagementContext,
    budget: Option<ForceBudget>,
    curve: &F,
) -> (plan: ForcePlan)
    requires
        forall|a: i128, b: i128| #[trigger] curve.requires((a, b)),
    ensures
        plan.assessment == ctx.asks(budget).0,
        plan.required == if ctx.objective == DoctrineObjective::Suppress || doctrine.is_gated() {
            ctx.asks(budget).1
        } else {
            raised(ctx.asks(budget).1, floor_force())
        },
        ctx.objective == DoctrineObjective::Suppress ==> is_fallback(
            plan.composition,
            ctx.asks(budget).1,
            doctrine.is_gated(),
            ctx.params.member_energy,
            doctrine.retreats_at(),
        ),
        ctx.objective != DoctrineObjective::Suppress ==> exists|best: Option<SquadComposition>|
            {
                &&& #[trigger] ctx.is_best(*curve, doctrine.is_gated(), best)
                &&& match best {
                    Some(squad) => plan.composition == Some(
                        retreating(squad, doctrine.retreats_at()),
                    ),
                    None => if doctrine.is_gated() {
                        plan.composition is None
                    } else {
                        is_fallback(
                            plan.composition,
                            plan.required,
                            false,
                            ctx.params.member_energy,
                            doctrine.retreats_at(),
                        )
                    },
                }
            },
        plan.composition matches Some(squad) ==> squad.retreat_threshold == doctrine.retreats_at(),
        !doctrine.is_gated() && crate::composition::is_fieldable(
            floor_force(),
            ctx.params.member_energy,
        ) ==> plan.composition is Some,
        !doctrine.is_gated() && ctx.objective != DoctrineObjective::Suppress ==> (
        plan.composition matches Some(squad) ==> has_the_floor(squad)),
{
    let params = ctx.params;
    let onsite_window: u32 = if ctx.onsite_window > 0 {
        ctx.onsite_window
    } else {
        CLEAR_ONSITE_TICKS
    };
    let report: ForceBudget = match budget {
        Some(budget) => budget,
        None => optimizer_ceiling_budget(ctx.objective, params.member_energy, onsite_window),
    };
    let (assessment, asked) = emit_requirement(
        ctx.objective,
        &ctx.defense,
        ctx.enemy_force,
        Some(&report),
        ctx.coordination,
        ctx.importance,
        params.hold_margin,
        params.over_power_margin,
    );
    let share: Milli = doctrine.retreat_threshold();
    let gated: bool = doctrine.honor_verdict();
    if matches!(ctx.objective, DoctrineObjective::Suppress) {
        let composition = field_or_fall_back(&asked, gated, params.member_energy, share);
        return ForcePlan { composition, assessment, required: asked };
    }
    let mut required = asked;
    if !gated {
        let floor = default_floor_force();
        if required.heal_parts < floor.heal_parts {
            required.heal_parts = floor.heal_parts;
        }
        if required.anti_creep_parts < floor.anti_creep_parts {
            required.anti_creep_parts = floor.anti_creep_parts;
        }
    }
    let best = optimize_composition(
        ctx.objective,
        &ctx.defense,
        ctx.enemy_force,
        ctx.target_value,
        onsite_window,
        ctx.coordination,
        ctx.importance,
        gated,
        false,
        &params,
        curve,
    );
    assert(ctx.is_best(*curve, gated, best));
    proof {
        if !gated {
            if best is Some {
                lemma_best_has_the_floor(*ctx, *curve, best->0);
            } else if crate::composition::is_fieldable(required, params.member_energy) {
                crate::composition::law_fielded_squad_meets_its_force(
                    required,
                    params.member_energy,
                );
            } else if crate::composition::is_fieldable(floor_force(), params.member_energy) {
                crate::composition::law_fielded_squad_meets_its_force(
                    floor_force(),
                    params.member_energy,
                );
            }
        }
    }
    let composition = match best {
        Some(squad) => {
            let mut squad = squad;
            squad.retreat_threshold = share;
            Some(squad)
        },
        None => if gated {
            None
        } else {
            field_or_fall_back(&required, false, params.member_energy, share)
        },
    };
    ForcePlan { composition, assessment, required }
}

/// The squad of a force, retreating at `share`; where there is none, that of the least force, unless the
/// doctrine is gated.
fn field_or_fall_back(force: &RequiredForce, gated: bool, member_energy: u32, share: Milli) -> (r:
    Option<SquadComposition>)
    ensures
        is_fallback(r, *force, gated, member_energy, share),
{
    let r = field(force, member_energy, share);
    if gated || r.is_some() {
        r
    } else {
        field(&default_floor_force(), member_energy, share)
    }
}

/// The squad of a force, retreating at `share`.
fn field(force: &RequiredForce, member_energy: u32, share: Milli) -> (r: Option<SquadComposition>)
    ensures
        is_direct(r, *force, member_energy, share),
{
    match assemble_force(force, member_energy) {
        None => None,
        Some(squad) => {
            let ghost plain = squad;
            let mut squad = squad;
            squad.retreat_threshold = share;
            assert(squad == retreating(plain, share));
            Some(squad)
        },
    }
}

// ---------------------------------------------------------------------------------------------
// Laws.
// ---------------------------------------------------------------------------------------------

/// Without guards that do damage, a structure asks for the same force as without guards at all.
pub proof fn law_harmless_guards_add_nothing(
    required: RequiredForce,
    defense: DefenseProfile,
    enemy: Option<EnemyForce>,
    budget: ForceBudget,
    coordination: EnemyCoordination,
    over_power_margin: Milli,
)
    requires
        enemies(enemy).dps <= 0,
    ensures
        guarded(required, defense, enemy, budget, coordination, over_power_margin) == required,
{
}

/// Guards add to a force and take nothing from it but what was there against creeps.
pub proof fn law_guards_only_add(
    required: RequiredForce,
    defense: DefenseProfile,
    enemy: Option<EnemyForce>,
    budget: ForceBudget,
    coordination: EnemyCoordination,
    over_power_margin: Milli,
)
    requires
        required.anti_creep_parts == 0,
    ensures
        ({
            let force = guarded(
                required,
                defense,
                enemy,
                budget,
                coordination,
                over_power_margin,
            );
            &&& force.heal_parts >= required.heal_parts
            &&& force.anti_creep_parts >= required.anti_creep_parts
            &&& force.dismantle_parts == required.dismantle_parts
            &&& force.immune_struct_parts == required.immune_struct_parts
            &&& force.tough_parts == required.tough_parts
            &&& force.claim_parts == required.claim_parts
        }),
{
}

/// No objective asks for both weapons against structures, for a weapon that does not work on it, or
/// for CLAIM.
pub proof fn law_one_weapon_for_structures(
    objective: DoctrineObjective,
    defense: DefenseProfile,
    enemy: Option<EnemyForce>,
    budget: ForceBudget,
    coordination: EnemyCoordination,
    importance: Milli,
    hold_margin: Milli,
    over_power_margin: Milli,
)
    ensures
        ({
            let force = requirement(
                objective,
                defense,
                enemy,
                budget,
                coordination,
                importance,
                hold_margin,
                over_power_margin,
            ).1;
            &&& objective != DoctrineObjective::DismantleStructure ==> force.dismantle_parts == 0
            &&& objective != DoctrineObjective::KillImmuneStructure ==> force.immune_struct_parts
                == 0
            &&& force.claim_parts == 0
        }),
{
    let factor = 1_000_000 + crate::fixed::within(importance as int, 0, 1000) * 500;
    crate::force_sizing::law_scaling_only_adds(0, factor);
}

/// The squad that is fielded for a verdict meets it: it heals what has to be healed, it does the damage
/// that has to be done, and where it drains, its TOUGH loses what has to be lost.
pub proof fn law_fielded_force_meets_the_verdict(
    objective: DoctrineObjective,
    defense: DefenseProfile,
    enemy: Option<EnemyForce>,
    budget: ForceBudget,
    coordination: EnemyCoordination,
    importance: Milli,
    hold_margin: Milli,
    over_power_margin: Milli,
    member_energy: u32,
)
    requires
        crate::composition::is_fieldable(
            requirement(
                objective,
                defense,
                enemy,
                budget,
                coordination,
                importance,
                hold_margin,
                over_power_margin,
            ).1,
            member_energy,
        ),
    ensures
        ({
            let (verdict, force) = requirement(
                objective,
                defense,
                enemy,
                budget,
                coordination,
                importance,
                hold_margin,
                over_power_margin,
            );
            let squad = crate::composition::strength(
                crate::composition::force_slots(force, member_energy),
            );
            &&& squad.heal_per_tick * 1000 >= verdict.required_heal_per_tick
            &&& squad.structure_dps * 1000 >= verdict.required_dismantle_dps
            &&& force.tough_parts * 100_000 >= verdict.required_tank_hp
        }),
{
    let (verdict, force) = requirement(
        objective,
        defense,
        enemy,
        budget,
        coordination,
        importance,
        hold_margin,
        over_power_margin,
    );
    crate::composition::law_fielded_squad_is_strong_enough(force, member_energy);
    crate::composition::lemma_fieldable_is_modest(force, member_energy);
    let heal = verdict.required_heal_per_tick as int;
    let rate = verdict.required_dismantle_dps as int;
    let tank = verdict.required_tank_hp as int;
    let factor = 1_000_000 + crate::fixed::within(importance as int, 0, 1000) * 500;
    let plain = crate::force_sizing::razing_force(verdict);
    crate::force_sizing::law_scaling_only_adds(plain.heal_parts, factor);
    crate::force_sizing::law_scaling_only_adds(plain.dismantle_parts, factor);
    crate::force_sizing::law_scaling_only_adds(plain.immune_struct_parts, factor);
    crate::force_sizing::law_scaling_only_adds(plain.tough_parts, factor);
    if heal > 0 {
        if heal > u32::MAX * 12_000 {
            crate::fixed::lemma_ceil_covers(heal, 12_000, u32::MAX as int);
        } else {
            crate::bodies::law_parts_cover_the_rate(heal, 12);
        }
    }
    if rate > 0 {
        if crate::force_sizing::parts_at(rate, 50) < u32::MAX {
            crate::force_sizing::law_parts_deliver_the_rate(rate, 50);
        }
        if crate::force_sizing::parts_at(rate, 10) < u32::MAX {
            crate::force_sizing::law_parts_deliver_the_rate(rate, 10);
        }
    }
    if tank > 0 && crate::force_sizing::parts_at(tank, 100) < u32::MAX {
        crate::force_sizing::law_parts_deliver_the_rate(tank, 100);
    }
}

/// The least force can be fielded wherever a single HEAL part can be paid for: a doctrine that always
/// fields then always does.
pub proof fn law_floor_can_be_fielded(member_energy: u32)
    ensures
        member_energy >= 300 <==> crate::composition::is_fieldable(floor_force(), member_energy),
{
    let demands = crate::composition::demands_of(floor_force());
    let probe = crate::composition::probe_of(member_energy);
    assert(demands[0] == (SquadRole::Healer, 4int));
    assert(demands[1] == (SquadRole::Dismantler, 0int));
    assert(demands[2] == (SquadRole::RangedDPS, 4int));
    assert(demands[3] == (SquadRole::Tank, 0int));
    assert(demands[4] == (SquadRole::Declaimer, 0int));
    reveal_with_fuel(crate::composition::slots_for, 6);
    assert(SquadRole::Healer.unit_energy() == 300 && SquadRole::RangedDPS.unit_energy() == 200);
    assert(SquadRole::Healer.cap(probe) == crate::fixed::min_of(probe / 300, 25));
    assert(SquadRole::RangedDPS.cap(probe) == crate::fixed::min_of(probe / 200, 25));
    if member_energy >= 300 {
        let heal = SquadRole::Healer.cap(probe);
        let ranged = SquadRole::RangedDPS.cap(probe);
        assert(heal >= 1 && ranged >= 1);
        crate::fixed::lemma_ceil_covers(4, heal, 4);
        crate::fixed::lemma_ceil_covers(4, heal, 0);
        crate::fixed::lemma_ceil_covers(4, ranged, 4);
        crate::fixed::lemma_ceil_covers(4, ranged, 0);
    } else {
        assert(SquadRole::Healer.cap(probe) < 1);
    }
}

/// An engagement that cannot be won asks for no force.
pub proof fn law_unwinnable_engagement_asks_for_nothing(
    ctx: EngagementContext,
    budget: Option<ForceBudget>,
)
    requires
        !ctx.asks(budget).0.winnable,
    ensures
        ctx.asks(budget).1 == crate::force_sizing::no_force(),
{
}

/// The doctrines of offense divide all engagements but those with keepers among them: the objective
/// alone decides which one comes first.
pub proof fn law_objective_decides_the_doctrine(
    doctrines: Seq<Box<dyn ForceDoctrine>>,
    ctx: EngagementContext,
)
    requires
        is_offense(doctrines),
    ensures
        first_doctrine(doctrines, ctx, 0) == match ctx.objective {
            DoctrineObjective::KillImmuneStructure => Some(0int),
            DoctrineObjective::DismantleStructure => Some(1int),
            DoctrineObjective::ClearCreeps => Some(2int),
            DoctrineObjective::RaidCreeps => Some(3int),
            DoctrineObjective::Harass => Some(4int),
            DoctrineObjective::Suppress => None,
        },
{
    reveal_with_fuel(first_doctrine, 6);
}

/// Creeps are fought under the fire of the towers that stand by: whether a room is cleared, raided or
/// harassed, the force heals 1.3 times that fire and the creeps' damage together, no less and no more, and
/// it does the damage that the margin over theirs asks for; on a raid also the damage that wears their hits
/// down in the time there is. What cannot be had is not winnable.
pub proof fn law_creeps_are_fought_under_the_towers(
    objective: DoctrineObjective,
    defense: DefenseProfile,
    enemy: Option<EnemyForce>,
    budget: ForceBudget,
    coordination: EnemyCoordination,
    importance: Milli,
    hold_margin: Milli,
    over_power_margin: Milli,
)
    requires
        objective == DoctrineObjective::ClearCreeps || objective == DoctrineObjective::RaidCreeps
            || objective == DoctrineObjective::Harass,
    ensures
        ({
            let (a, force) = requirement(
                objective,
                defense,
                enemy,
                budget,
                coordination,
                importance,
                hold_margin,
                over_power_margin,
            );
            let (dps, their_heal) = match enemy {
                Some(e) => (e.dps as int, e.heal as int),
                None => (0, 0),
            };
            let hits = if objective == DoctrineObjective::RaidCreeps && enemy is Some {
                enemy->0.hits as int
            } else {
                0
            };
            let margin = if over_power_margin >= 1000 {
                over_power_margin as int
            } else {
                1000
            };
            let life = if budget.onsite_budget_ticks >= 1 {
                budget.onsite_budget_ticks as int
            } else {
                1
            };
            let (heal, rate) = (a.required_heal_per_tick, a.required_dismantle_dps);
            let incoming = crate::force_sizing::tower_fire(defense.towers@) * 1000 + dps;
            let most = budget.max_dismantle_dps;
            &&& a.winnable <==> {
                &&& !defense.safe_mode
                &&& incoming * 1300 <= budget.max_heal_per_tick * 1000
                &&& most >= 1000
                &&& most * 1000 >= dps * margin
                &&& (most - their_heal) * life >= hits * 1000
                &&& hits > 0 || dps * margin > their_heal * 1000 || their_heal < 1000
            }
            &&& a.winnable ==> heal * 1000 >= incoming * 1300
            &&& a.winnable && incoming >= 0 ==> (heal - 1) * 1000 < incoming * 1300
            &&& a.winnable ==> {
                &&& rate >= 1000
                &&& rate > their_heal
                &&& rate * 1000 >= dps * margin
                &&& (rate - their_heal) * life >= hits * 1000
                &&& rate == 1000 || (rate - 1) * 1000 < dps * margin || (rate - 1 - their_heal) * life
                    < hits * 1000
            }
            &&& a.winnable && force.heal_parts < u32::MAX ==> force.heal_parts * 12_000 >= heal
            &&& a.winnable && force.anti_creep_parts < u32::MAX ==> force.anti_creep_parts * 10_000 >= rate
        }),
{
    let e = enemies(enemy);
    let hits = if objective == DoctrineObjective::RaidCreeps {
        e.hits
    } else {
        0
    };
    crate::force_sizing::law_clearing_out_heals_and_out_damages(
        defense.towers@,
        e.dps,
        hits,
        e.heal,
        budget,
        over_power_margin,
        defense.safe_mode,
    );
    let a = clearing(defense, e, hits, budget, over_power_margin).0;
    if a.winnable {
        crate::force_sizing::law_verdict_is_met_by_the_least_parts(a);
    }
}

/// One more tower never makes a room with creeps easier: what can be won with it can be won without it, and
/// never for more heal; and where it fires, it takes strictly more heal to win.
pub proof fn law_a_tower_costs_heal(
    objective: DoctrineObjective,
    defense: DefenseProfile,
    more: DefenseProfile,
    tower: crate::force_sizing::TowerThreat,
    enemy: Option<EnemyForce>,
    budget: ForceBudget,
    coordination: EnemyCoordination,
    importance: Milli,
    hold_margin: Milli,
    over_power_margin: Milli,
)
    requires
        objective == DoctrineObjective::ClearCreeps || objective == DoctrineObjective::RaidCreeps
            || objective == DoctrineObjective::Harass,
        more.towers@ == defense.towers@.push(tower),
        more.safe_mode == defense.safe_mode,
        enemies(enemy).dps >= 0,
    ensures
        ({
            let before = requirement(
                objective,
                defense,
                enemy,
                budget,
                coordination,
                importance,
                hold_margin,
                over_power_margin,
            ).0;
            let after = requirement(
                objective,
                more,
                enemy,
                budget,
                coordination,
                importance,
                hold_margin,
                over_power_margin,
            ).0;
            &&& after.winnable ==> before.winnable
            &&& after.winnable ==> after.required_heal_per_tick >= before.required_heal_per_tick
            &&& after.winnable && tower.energy >= 10 ==> after.required_heal_per_tick
                > before.required_heal_per_tick
        }),
{
    law_creeps_are_fought_under_the_towers(
        objective,
        defense,
        enemy,
        budget,
        coordination,
        importance,
        hold_margin,
        over_power_margin,
    );
    law_creeps_are_fought_under_the_towers(
        objective,
        more,
        enemy,
        budget,
        coordination,
        importance,
        hold_margin,
        over_power_margin,
    );
    crate::force_sizing::law_fire_is_not_negative(more.towers@);
    crate::force_sizing::law_fire_is_not_negative(defense.towers@);
    assert(more.towers@.drop_last() =~= defense.towers@);
}

/// More damage from the creeps never makes them easier to beat, and each point of it asks for 1.3 points of
/// heal.
pub proof fn law_stronger_creeps_cost_heal(
    objective: DoctrineObjective,
    defense: DefenseProfile,
    weak: EnemyForce,
    strong: EnemyForce,
    budget: ForceBudget,
    coordination: EnemyCoordination,
    importance: Milli,
    hold_margin: Milli,
    over_power_margin: Milli,
)
    requires
        objective == DoctrineObjective::ClearCreeps || objective == DoctrineObjective::RaidCreeps
            || objective == DoctrineObjective::Harass,
        0 <= weak.dps <= strong.dps,
    ensures
        ({
            let low = requirement(
                objective,
                defense,
                Some(weak),
                budget,
                coordination,
                importance,
                hold_margin,
                over_power_margin,
            ).0;
            let high = requirement(
                objective,
                defense,
                Some(strong),
                budget,
                coordination,
                importance,
                hold_margin,
                over_power_margin,
            ).0;
            let rise = high.required_heal_per_tick - low.required_heal_per_tick;
            low.winnable && high.winnable ==> (strong.dps - weak.dps) * 1300 - 1000 < rise * 1000 < (
            strong.dps - weak.dps) * 1300 + 1000
        }),
{
    law_creeps_are_fought_under_the_towers(
        objective,
        defense,
        Some(weak),
        budget,
        coordination,
        importance,
        hold_margin,
        over_power_margin,
    );
    law_creeps_are_fought_under_the_towers(
        objective,
        defense,
        Some(strong),
        budget,
        coordination,
        importance,
        hold_margin,
        over_power_margin,
    );
    crate::force_sizing::law_fire_is_not_negative(defense.towers@);
}

/// A structure is judged by its defense and the damage of the creeps by it. What can be won asks for the
/// parts of the verdict, each up to half as many again in proportion to the importance, the least that are;
/// of heal at least that many, and of CLAIM none.
pub proof fn law_importance_over_invests_in_structures(
    objective: DoctrineObjective,
    defense: DefenseProfile,
    enemy: Option<EnemyForce>,
    budget: ForceBudget,
    coordination: EnemyCoordination,
    importance: Milli,
    hold_margin: Milli,
    over_power_margin: Milli,
)
    requires
        objective == DoctrineObjective::KillImmuneStructure || objective
            == DoctrineObjective::DismantleStructure,
    ensures
        ({
            let (a, force) = requirement(
                objective,
                defense,
                enemy,
                budget,
                coordination,
                importance,
                hold_margin,
                over_power_margin,
            );
            let dps = if enemy is Some {
                enemy->0.dps as int
            } else {
                0
            };
            let extra = if importance < 0 {
                0
            } else if importance > 1000 {
                500_000
            } else {
                500 * importance
            };
            let plain = crate::force_sizing::razing_force(a);
            let (asked, base) = if objective == DoctrineObjective::DismantleStructure {
                (force.dismantle_parts as int, plain.dismantle_parts as int)
            } else {
                (force.immune_struct_parts as int, plain.immune_struct_parts as int)
            };
            &&& a == defense.verdict(dps, budget)
            &&& !a.winnable ==> force == crate::force_sizing::no_force()
            &&& a.winnable && asked < u32::MAX ==> (asked - 1) * 1_000_000 < base * (1_000_000 + extra)
                <= asked * 1_000_000
            &&& a.winnable && force.tough_parts < u32::MAX ==> (force.tough_parts - 1) * 1_000_000
                < plain.tough_parts * (1_000_000 + extra) <= force.tough_parts * 1_000_000
            &&& a.winnable && force.heal_parts < u32::MAX ==> plain.heal_parts * (1_000_000 + extra)
                <= force.heal_parts * 1_000_000
            &&& a.winnable && dps <= 0 && force.heal_parts < u32::MAX ==> (force.heal_parts - 1) * 1_000_000
                < plain.heal_parts * (1_000_000 + extra)
            &&& dps <= 0 ==> force.anti_creep_parts == 0
            &&& force.claim_parts == 0
        }),
{
    let a = defense.verdict(enemies(enemy).dps as int, budget);
    let factor = 1_000_000 + crate::fixed::within(importance as int, 0, 1000) * 500;
    let plain = crate::force_sizing::razing_force(a);
    let scaled = plain.scaled_by(factor);
    crate::force_sizing::law_scaling_only_adds(0, factor);
    if scaled.heal_parts < u32::MAX {
        crate::force_sizing::law_scaling_is_least(plain.heal_parts, factor);
    }
    if scaled.dismantle_parts < u32::MAX {
        crate::force_sizing::law_scaling_is_least(plain.dismantle_parts, factor);
    }
    if scaled.immune_struct_parts < u32::MAX {
        crate::force_sizing::law_scaling_is_least(plain.immune_struct_parts, factor);
    }
    if scaled.tough_parts < u32::MAX {
        crate::force_sizing::law_scaling_is_least(plain.tough_parts, factor);
    }
}

/// A structure whose guards fight, and can be beaten, asks for the parts that beat them as well: for the
/// damage that out-powers them by the margin where they act together, else one to one, and wears their hits
/// down in time, and for the heal that holds against them and the towers.
pub proof fn law_guards_are_beaten_too(
    required: RequiredForce,
    defense: DefenseProfile,
    guards: EnemyForce,
    budget: ForceBudget,
    coordination: EnemyCoordination,
    over_power_margin: Milli,
)
    requires
        guards.dps > 0,
    ensures
        ({
            let force = guarded(
                required,
                defense,
                Some(guards),
                budget,
                coordination,
                over_power_margin,
            );
            let margin = if coordination == EnemyCoordination::Coordinated && over_power_margin >= 1000 {
                over_power_margin as int
            } else {
                1000
            };
            let life = if budget.onsite_budget_ticks >= 1 {
                budget.onsite_budget_ticks as int
            } else {
                1
            };
            let incoming = crate::force_sizing::tower_fire(defense.towers@) * 1000 + guards.dps;
            let most = budget.max_dismantle_dps;
            let beatable = {
                &&& !defense.safe_mode
                &&& incoming * 1300 <= budget.max_heal_per_tick * 1000
                &&& most >= 1000
                &&& most * 1000 >= guards.dps * margin
                &&& (most - guards.heal) * life >= guards.hits * 1000
                &&& guards.hits > 0 || guards.dps * margin > guards.heal * 1000 || guards.heal < 1000
            };
            let damage = force.anti_creep_parts * 10_000;
            &&& !beatable ==> force == required
            &&& beatable && force.anti_creep_parts < u32::MAX ==> {
                &&& damage * 1000 >= guards.dps * margin
                &&& (damage - guards.heal) * life >= guards.hits * 1000
                &&& damage >= 1000
            }
            &&& beatable && force.heal_parts < u32::MAX ==> force.heal_parts * 12_000_000 >= incoming * 1300
            &&& force.heal_parts >= required.heal_parts
            &&& force.dismantle_parts == required.dismantle_parts
            &&& force.immune_struct_parts == required.immune_struct_parts
            &&& force.tough_parts == required.tough_parts
            &&& force.claim_parts == required.claim_parts
        }),
{
    let margin = if coordination == EnemyCoordination::Coordinated {
        over_power_margin
    } else {
        1000
    };
    crate::force_sizing::law_clearing_out_heals_and_out_damages(
        defense.towers@,
        guards.dps,
        guards.hits,
        guards.heal,
        budget,
        margin,
        defense.safe_mode,
    );
    let (a, clear) = clearing(defense, guards, guards.hits, budget, margin);
    if a.winnable {
        crate::force_sizing::law_verdict_is_met_by_the_least_parts(a);
        let life = crate::fixed::max_of(budget.onsite_budget_ticks as int, 1);
        let damage = clear.anti_creep_parts * 10_000;
        let rate = a.required_dismantle_dps as int;
        let heal = guards.heal as int;
        if damage >= rate {
            assert((damage - heal) * life >= (rate - heal) * life) by (nonlinear_arith)
                requires
                    damage >= rate,
                    life >= 1,
            ;
        }
    }
}

/// A keeper is always taken on: the force out-heals it by the hold margin, with the least heal that does,
/// and its shots take the keeper's hits off within thirty-four ticks, ten for each part, with the least
/// parts that do.
pub proof fn law_keeper_is_out_healed_and_killed_in_time(
    defense: DefenseProfile,
    keeper: EnemyForce,
    budget: ForceBudget,
    coordination: EnemyCoordination,
    importance: Milli,
    hold_margin: Milli,
    over_power_margin: Milli,
)
    ensures
        ({
            let (a, force) = requirement(
                DoctrineObjective::Suppress,
                defense,
                Some(keeper),
                budget,
                coordination,
                importance,
                hold_margin,
                over_power_margin,
            );
            let heal = a.required_heal_per_tick;
            let wanted = keeper.dps * hold_margin;
            &&& a.winnable
            &&& a.mode == AssaultMode::Breach
            &&& a.est_ticks == 34
            &&& a.required_dismantle_dps == 0
            &&& a.required_tank_hp == 0
            &&& i64::MIN < heal < i64::MAX ==> (heal - 1) * 1000 < wanted <= heal * 1000
            &&& heal <= 0 ==> force.heal_parts == 0
            &&& heal > 0 && force.heal_parts < u32::MAX ==> (force.heal_parts - 1) * 12_000 < heal
                <= force.heal_parts * 12_000
            &&& (force.anti_creep_parts - 1) * 340 < keeper.hits <= force.anti_creep_parts * 340
            &&& force.dismantle_parts == 0 && force.immune_struct_parts == 0
            &&& force.tough_parts == 0 && force.claim_parts == 0
        }),
{
    crate::fixed::law_ceiling_is_least(keeper.dps * hold_margin, 1000);
    crate::fixed::law_ceiling_is_least(keeper.hits as int, 340);
    crate::fixed::lemma_ceil_covers(keeper.hits as int, 340, u32::MAX as int);
    crate::fixed::lemma_ceil_covers(keeper.hits as int, 340, -1);
    let heal = by_margin(keeper.dps as int, hold_margin as int);
    crate::fixed::law_ceiling_is_least(heal, 12_000);
}

/// A force that is raised to a floor has of heal and of shots the more of the two, and the rest as it was;
/// the default floor is four of each.
pub proof fn law_raising_takes_the_more(force: RequiredForce, floor: RequiredForce)
    ensures
        ({
            let high = raised(force, floor);
            &&& high.heal_parts >= force.heal_parts && high.heal_parts >= floor.heal_parts
            &&& high.heal_parts == force.heal_parts || high.heal_parts == floor.heal_parts
            &&& high.anti_creep_parts >= force.anti_creep_parts && high.anti_creep_parts
                >= floor.anti_creep_parts
            &&& high.anti_creep_parts == force.anti_creep_parts || high.anti_creep_parts
                == floor.anti_creep_parts
            &&& high.dismantle_parts == force.dismantle_parts
            &&& high.immune_struct_parts == force.immune_struct_parts
            &&& high.tough_parts == force.tough_parts
            &&& high.claim_parts == force.claim_parts
        }),
        ({
            let high = raised(force, floor_force());
            high.heal_parts >= 4 && high.anti_creep_parts >= 4
        }),
        ({
            let low = raised(crate::force_sizing::no_force(), floor_force());
            low.heal_parts == 4 && low.anti_creep_parts == 4 && low == floor_force()
        }),
{
}

/// Each doctrine handles one objective. Structures and raids are gated by what they are worth; WORK goes
/// only to what can be dismantled; and squads fall back below three tenths of their hits, against a keeper
/// already below half.
pub proof fn law_each_doctrine_has_its_objective(ctx: EngagementContext)
    ensures
        NpcCore.handles(ctx) <==> ctx.objective == DoctrineObjective::KillImmuneStructure,
        SiegeBreach.handles(ctx) <==> ctx.objective == DoctrineObjective::DismantleStructure,
        PlayerRaid.handles(ctx) <==> ctx.objective == DoctrineObjective::ClearCreeps,
        GatedPlayerRaid.handles(ctx) <==> ctx.objective == DoctrineObjective::RaidCreeps,
        HarassRemote.handles(ctx) <==> ctx.objective == DoctrineObjective::Harass,
        GarrisonDefense.handles(ctx) <==> ctx.objective == DoctrineObjective::ClearCreeps,
        SkSuppression.handles(ctx) <==> ctx.objective == DoctrineObjective::Suppress,
        NpcCore.is_gated() && SiegeBreach.is_gated() && GatedPlayerRaid.is_gated(),
        !PlayerRaid.is_gated() && !HarassRemote.is_gated() && !GarrisonDefense.is_gated()
            && !SkSuppression.is_gated(),
        SiegeBreach.killer() == SquadRole::Dismantler,
        NpcCore.killer() == SquadRole::RangedDPS && PlayerRaid.killer() == SquadRole::RangedDPS,
        GatedPlayerRaid.killer() == SquadRole::RangedDPS && HarassRemote.killer()
            == SquadRole::RangedDPS,
        GarrisonDefense.killer() == SquadRole::RangedDPS && SkSuppression.killer()
            == SquadRole::RangedDPS,
        SkSuppression.retreats_at() == 500,
        NpcCore.retreats_at() == 300 && SiegeBreach.retreats_at() == 300 && PlayerRaid.retreats_at()
            == 300,
        GatedPlayerRaid.retreats_at() == 300 && HarassRemote.retreats_at() == 300
            && GarrisonDefense.retreats_at() == 300,
{
}

/// An engagement is judged against what it is given, or else against the most that one squad of its weapon
/// can bring in the time on site, a defender's life where none is given.
pub proof fn law_engagement_is_judged_as_it_stands(ctx: EngagementContext, budget: ForceBudget)
    ensures
        ctx.onsite_window > 0 ==> ctx.window() == ctx.onsite_window,
        ctx.onsite_window == 0 ==> ctx.window() == 1400,
        ctx.asks(Some(budget)) == requirement(
            ctx.objective,
            ctx.defense,
            ctx.enemy_force,
            budget,
            ctx.coordination,
            ctx.importance,
            ctx.params.hold_margin,
            ctx.params.over_power_margin,
        ),
        ctx.asks(None) == ctx.asks(
            Some(
                crate::composition::ceiling_of(ctx.objective, ctx.params.member_energy, ctx.window()),
            ),
        ),
{
}

/// Where the force is to be fielded as it is, and can be, the squad that comes out is one for it, with the
/// given share to retreat at; a doctrine that is not gated falls back to the floor, and one that is to
/// nothing.
pub proof fn law_falls_back_to_the_floor(
    r: Option<SquadComposition>,
    force: RequiredForce,
    gated: bool,
    member_energy: u32,
    share: Milli,
)
    requires
        is_fallback(r, force, gated, member_energy, share),
    ensures
        r is Some ==> r->0.retreat_threshold == share,
        r is None <==> !crate::composition::is_fieldable(force, member_energy) && (gated
            || member_energy < 300),
        crate::composition::is_fieldable(force, member_energy) ==> exists|squad: SquadComposition| #[trigger]
            crate::composition::is_squad_of(squad, force, member_energy) && r->0.slots == squad.slots,
        r is Some && !crate::composition::is_fieldable(force, member_energy) ==> exists|
            squad: SquadComposition,
        | #[trigger]
            crate::composition::is_squad_of(squad, floor_force(), member_energy) && r->0.slots
                == squad.slots,
{
    law_floor_can_be_fielded(member_energy);
}

/// Whatever the offense is for, the first doctrine that handles it is named for it: it shoots, or takes apart
/// what can be, is gated where it goes for structures or raids, and falls back at three tenths.
pub proof fn law_offense_has_a_doctrine_for_each_objective(
    doctrines: Seq<Box<dyn ForceDoctrine>>,
    ctx: EngagementContext,
)
    requires
        is_offense(doctrines),
        ctx.objective != DoctrineObjective::Suppress,
    ensures
        ({
            let i = first_doctrine(doctrines, ctx, 0)->0;
            let structure = ctx.objective == DoctrineObjective::KillImmuneStructure || ctx.objective
                == DoctrineObjective::DismantleStructure;
            &&& first_doctrine(doctrines, ctx, 0) is Some
            &&& 0 <= i < doctrines.len()
            &&& doctrines[i].handles(ctx)
            &&& doctrines[i].is_gated() <==> structure || ctx.objective == DoctrineObjective::RaidCreeps
            &&& doctrines[i].killer() == if ctx.objective == DoctrineObjective::DismantleStructure {
                SquadRole::Dismantler
            } else {
                SquadRole::RangedDPS
            }
            &&& doctrines[i].retreats_at() == 300
            &&& doctrines[i].title() == match ctx.objective {
                DoctrineObjective::KillImmuneStructure => "npc-core"@,
                DoctrineObjective::DismantleStructure => "siege-breach"@,
                DoctrineObjective::ClearCreeps => "player-raid"@,
                DoctrineObjective::RaidCreeps => "gated-player-raid"@,
                _ => "harass-remote"@,
            }
        }),
{
    law_objective_decides_the_doctrine(doctrines, ctx);
}

/// A list of one doctrine is for one objective, and is what it is said to be.
pub proof fn law_one_doctrine_is_as_it_says(
    doctrines: Seq<Box<dyn ForceDoctrine>>,
    ctx: EngagementContext,
    title: Seq<char>,
    objective: DoctrineObjective,
    killer: SquadRole,
    gated: bool,
    share: Milli,
)
    requires
        doctrines.len() == 1,
        is_for(doctrines, 0, title, objective, killer, gated, share),
    ensures
        first_doctrine(doctrines, ctx, 0) == if ctx.objective == objective {
            Some(0int)
        } else {
            None
        },
        doctrines[0].title() == title,
        doctrines[0].killer() == killer,
        doctrines[0].is_gated() <==> gated,
        doctrines[0].retreats_at() == share,
{
    reveal_with_fuel(first_doctrine, 2);
}

}
