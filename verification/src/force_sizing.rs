//! Whether one squad can take a defended target, how, and with how much force.
//!
//! [`assess`] weighs what a squad could bring against towers (a drained tower does no damage), the
//! hits of the way in and of the objective, repair, enemy creeps and the ticks that the squad has
//! on site. [`clear_force`] sizes a fight against creeps. Both are cautious: unboosted parts, towers
//! that fire all the time, and a single squad, so that a siege which outlasts one creep's life is
//! not winnable. [`RequiredForce`] turns a verdict into part counts. Rates and hits that are not
//! whole are in thousandths, rounded up where they are what a squad has to bring.
use crate::bodies::{defender_heal_parts_for_dps, CombatBodySpec};
use crate::constants::{
    DISMANTLE_POWER, PART_HITS, RANGED_ATTACK_POWER, TOWER_ENERGY_COST, TOWER_FALLOFF_RANGE,
};
use crate::damage::tower_attack_damage_at_range;
use crate::fixed::{div_up, to_i64, to_u32, Micro, Milli, Probability, CERTAIN};
use vstd::prelude::*;

verus! {

/// Heal is sized to this multiple of the incoming damage, so that a squad recovers under fire
/// instead of retreating at the first hit.
pub const HOLD_MARGIN: Milli = 1_300;

/// What the kill rate on an undefended target that nobody repairs is sized to, so that whole parts
/// still finish in time.
pub const UNDEFENDED_KILL_HEADROOM: Milli = 1_150;

/// Creeps that fight together, focusing fire and healing each other, are to be out-powered by this
/// factor. Against creeps met one at a time the factor is one.
pub const COORDINATED_DPS_MARGIN: Milli = 1_500;

/// How long an empty list of towers stays trustworthy, in ticks. A list older than this may have
/// been overtaken by towers that were energized since.
pub const SCOUT_RECONFIRM_TICKS: u32 = 40;

/// A tower with at least this much energy never runs dry within a fight.
pub const DRAIN_INFINITE_TOWER_ENERGY: u32 = 50_000;

/// Most that a fully important objective adds to the force, in thousandths.
pub const IMPORTANCE_MAX_EXTRA: Milli = 500;

/// How a list of towers is known.
#[derive(Clone, Copy, Debug, PartialEq, Eq, Structural)]
pub enum TowerIntel {
    /// The room was never scouted.
    NeverSeen,
    /// Towers were seen.
    Seen,
    /// The room was seen, and no tower in it.
    ScoutedEmpty,
}

impl Default for TowerIntel {
    /// Nothing is known.
    fn default() -> (intel: Self)
        ensures
            intel == TowerIntel::NeverSeen,
    {
        TowerIntel::NeverSeen
    }
}

/// Classifies what is known of a room's towers. How old the knowledge is does not matter here: see
/// [`should_defer_offense_commit`].
pub fn tower_intel_from(hostile_tower_positions_empty: bool, has_threat_data: bool) -> (intel: TowerIntel)
    ensures
        intel == TowerIntel::NeverSeen <==> !has_threat_data,
        intel == TowerIntel::ScoutedEmpty <==> has_threat_data && hostile_tower_positions_empty,
        intel == TowerIntel::Seen <==> has_threat_data && !hostile_tower_positions_empty,
{
    if !has_threat_data {
        TowerIntel::NeverSeen
    } else if hostile_tower_positions_empty {
        TowerIntel::ScoutedEmpty
    } else {
        TowerIntel::Seen
    }
}

/// Whether an attack has to wait for another look at the room: only where no tower was seen, and
/// longer ago than [`SCOUT_RECONFIRM_TICKS`]. A clock that went backwards counts as recent.
pub fn should_defer_offense_commit(intel: TowerIntel, last_seen: u32, now: u32) -> (defer: bool)
    ensures
        defer <==> intel == TowerIntel::ScoutedEmpty && now - last_seen > SCOUT_RECONFIRM_TICKS,
        defer ==> now > last_seen + 40,
        intel == TowerIntel::ScoutedEmpty && now > last_seen + 40 ==> defer,
{
    match intel {
        TowerIntel::ScoutedEmpty => now.saturating_sub(last_seen) > SCOUT_RECONFIRM_TICKS,
        _ => false,
    }
}

/// A hostile tower, as it bears on the planned assault.
#[derive(Clone, Copy, Debug)]
pub struct TowerThreat {
    /// Range from the tower to the assault tile.
    pub range_to_assault: u32,
    /// Stored energy. A tower with less than a shot takes does not fire.
    pub energy: u32,
}

/// The defense of a target, its creeps apart: those are an
/// [`EnemyForce`](crate::doctrine::EnemyForce).
#[derive(Clone, Debug)]
pub struct DefenseProfile {
    pub towers: Vec<TowerThreat>,
    /// Hits in the way to the objective; zero where it can be reached.
    pub breach_hits: u32,
    /// Hits of the objective itself.
    pub objective_hits: u32,
    /// What is repaired in the way per tick.
    pub repair_per_tick: Milli,
    /// Safe mode is on: nothing can be damaged.
    pub safe_mode: bool,
    /// How the list of towers is known.
    pub tower_intel: TowerIntel,
}

impl Default for DefenseProfile {
    /// Nothing stands in the way, and nothing is known.
    fn default() -> (profile: Self)
        ensures
            profile.towers@.len() == 0,
            profile.breach_hits == 0,
            profile.objective_hits == 0,
            profile.repair_per_tick == 0,
            !profile.safe_mode,
            profile.tower_intel == TowerIntel::NeverSeen,
    {
        DefenseProfile {
            towers: Vec::new(),
            breach_hits: 0,
            objective_hits: 0,
            repair_per_tick: 0,
            safe_mode: false,
            tower_intel: TowerIntel::NeverSeen,
        }
    }
}

/// What one squad brings, and how long it has on site.
#[derive(Clone, Copy, Debug, PartialEq, Eq, Structural)]
pub struct ForceBudget {
    pub max_heal_per_tick: Milli,
    pub max_dismantle_dps: Milli,
    /// The hits that the front member can lose.
    pub tank_effective_hp: Milli,
    /// A creep's life, less what spawning and travel take.
    pub onsite_budget_ticks: u32,
}

/// How a winnable target is taken.
#[derive(Clone, Copy, Debug, PartialEq, Eq, Structural)]
pub enum AssaultMode {
    /// Out-heal the towers and break straight through.
    Breach,
    /// Soak the towers' fire from afar until they run dry, then break through.
    Drain,
}

/// The verdict on one squad against one defense.
#[derive(Clone, Copy, Debug, PartialEq, Eq)]
pub struct ForceAssessment {
    pub winnable: bool,
    pub mode: AssaultMode,
    /// What the squad has to heal per tick.
    pub required_heal_per_tick: Milli,
    /// What the squad has to take off structures, or off creeps, per tick, before repair.
    pub required_dismantle_dps: Milli,
    /// The hits that the squad has to lose while it soaks; zero unless it drains.
    pub required_tank_hp: Milli,
    /// Ticks that winning takes.
    pub est_ticks: u32,
    /// Why it cannot be won, or how it is.
    pub reason: &'static str,
}

// ---------------------------------------------------------------------------------------------
// Towers.
// ---------------------------------------------------------------------------------------------

impl TowerThreat {
    /// The tower can fire.
    pub open spec fn fires(&self) -> bool {
        self.energy >= TOWER_ENERGY_COST
    }

    /// The tower can fire, and can be bled dry.
    pub open spec fn drainable(&self) -> bool {
        self.fires() && self.energy < DRAIN_INFINITE_TOWER_ENERGY
    }

    /// What the tower does per tick at the assault tile.
    pub open spec fn fire(&self) -> int {
        if self.fires() {
            crate::damage::tower_effect(600, self.range_to_assault as int)
        } else {
            0
        }
    }

    /// What the tower does per tick to a tank that keeps its distance.
    pub open spec fn standoff_fire(&self) -> int {
        if self.drainable() {
            crate::damage::tower_effect(
                600,
                crate::fixed::max_of(self.range_to_assault as int, TOWER_FALLOFF_RANGE as int),
            )
        } else {
            0
        }
    }

    /// Ticks of fire that the tower has energy for.
    pub open spec fn shots(&self) -> int {
        if self.drainable() {
            crate::fixed::ceil_quotient(self.energy as int, TOWER_ENERGY_COST as int)
        } else {
            0
        }
    }
}

/// What the towers do per tick at the assault tile.
pub open spec fn tower_fire(towers: Seq<TowerThreat>) -> int
    decreases towers.len(),
{
    if towers.len() == 0 {
        0
    } else {
        tower_fire(towers.drop_last()) + towers.last().fire()
    }
}

/// What the towers that can be bled do per tick to a tank that keeps its distance.
pub open spec fn standoff_fire(towers: Seq<TowerThreat>) -> int
    decreases towers.len(),
{
    if towers.len() == 0 {
        0
    } else {
        standoff_fire(towers.drop_last()) + towers.last().standoff_fire()
    }
}

/// Ticks until the last of the towers that can be bled runs dry.
pub open spec fn ticks_to_drain(towers: Seq<TowerThreat>) -> int
    decreases towers.len(),
{
    if towers.len() == 0 {
        0
    } else {
        crate::fixed::max_of(ticks_to_drain(towers.drop_last()), towers.last().shots())
    }
}

/// Some tower never runs dry.
pub open spec fn some_tower_is_endless(towers: Seq<TowerThreat>) -> bool {
    exists|i: int| 0 <= i < towers.len() && (#[trigger] towers[i]).energy >= DRAIN_INFINITE_TOWER_ENERGY
}

/// Whole hits per tick of the towers that have energy, at the assault tile.
fn fire_at_assault(towers: &[TowerThreat]) -> (dps: i128)
    ensures
        dps == tower_fire(towers@),
        0 <= dps <= 600 * usize::MAX,
{
    let mut dps: i128 = 0;
    let mut i: usize = 0;
    while i < towers.len()
        invariant
            i <= towers@.len(),
            dps == tower_fire(towers@.take(i as int)),
            0 <= dps <= 600 * i,
        decreases towers@.len() - i,
    {
        assert(towers@.take(i + 1).drop_last() =~= towers@.take(i as int));
        if towers[i].energy >= TOWER_ENERGY_COST {
            dps = dps + tower_attack_damage_at_range(towers[i].range_to_assault) as i128;
        }
        i = i + 1;
    }
    assert(towers@.take(i as int) =~= towers@);
    dps
}

/// Damage per tick of the towers that have energy, at the assault tile.
pub fn tower_dps_at_assault(towers: &[TowerThreat]) -> (dps: Milli)
    ensures
        dps == crate::fixed::nearest_i64(tower_fire(towers@) * 1000),
{
    to_i64(fire_at_assault(towers) * 1000)
}

/// Whole hits per tick of the towers that can be bled, on a tank at the falloff range: a drain
/// keeps that distance, so that towers closer than it count as if they were not.
fn tower_dps_at_drain_standoff(towers: &[TowerThreat]) -> (dps: i128)
    ensures
        dps == standoff_fire(towers@),
        0 <= dps <= 600 * usize::MAX,
{
    let mut dps: i128 = 0;
    let mut i: usize = 0;
    while i < towers.len()
        invariant
            i <= towers@.len(),
            dps == standoff_fire(towers@.take(i as int)),
            0 <= dps <= 600 * i,
        decreases towers@.len() - i,
    {
        assert(towers@.take(i + 1).drop_last() =~= towers@.take(i as int));
        if is_finite_drain_tower(&towers[i]) {
            let range: u32 = towers[i].range_to_assault;
            let held: u32 = if range > TOWER_FALLOFF_RANGE { range } else { TOWER_FALLOFF_RANGE };
            dps = dps + tower_attack_damage_at_range(held) as i128;
        }
        i = i + 1;
    }
    assert(towers@.take(i as int) =~= towers@);
    dps
}

/// Whether the tower can fire, and can be bled dry.
fn is_finite_drain_tower(t: &TowerThreat) -> (yes: bool)
    ensures
        yes == t.drainable(),
{
    t.energy >= TOWER_ENERGY_COST && t.energy < DRAIN_INFINITE_TOWER_ENERGY
}

/// Whether some tower never runs dry. Such a base cannot be drained, whatever else stands in it.
fn has_energized_infinite_tower(towers: &[TowerThreat]) -> (yes: bool)
    ensures
        yes == some_tower_is_endless(towers@),
{
    let mut i: usize = 0;
    while i < towers.len()
        invariant
            i <= towers@.len(),
            forall|k: int|
                0 <= k < i ==> (#[trigger] towers@[k]).energy < DRAIN_INFINITE_TOWER_ENERGY,
        decreases towers@.len() - i,
    {
        if towers[i].energy >= DRAIN_INFINITE_TOWER_ENERGY {
            return true;
        }
        i = i + 1;
    }
    false
}

/// Ticks until the towers that can be bled run dry: the slowest decides.
fn drain_ticks(towers: &[TowerThreat]) -> (ticks: u32)
    ensures
        ticks == ticks_to_drain(towers@),
        ticks <= 5000,
{
    let mut ticks: u32 = 0;
    let mut i: usize = 0;
    while i < towers.len()
        invariant
            i <= towers@.len(),
            ticks == ticks_to_drain(towers@.take(i as int)),
            ticks <= 5000,
        decreases towers@.len() - i,
    {
        assert(towers@.take(i + 1).drop_last() =~= towers@.take(i as int));
        if is_finite_drain_tower(&towers[i]) {
            let energy: u32 = towers[i].energy;
            let shots: u32 = (energy + TOWER_ENERGY_COST - 1) / TOWER_ENERGY_COST;
            if shots > ticks {
                ticks = shots;
            }
        }
        i = i + 1;
    }
    assert(towers@.take(i as int) =~= towers@);
    ticks
}

// ---------------------------------------------------------------------------------------------
// Structures.
// ---------------------------------------------------------------------------------------------

/// What has to be healed per tick to hold under `incoming` thousandths of damage.
pub open spec fn hold_heal(incoming: int) -> int {
    crate::fixed::ceil_quotient(incoming * HOLD_MARGIN, 1000)
}

/// Ticks that `hits` take at `rate` thousandths per tick, a rate below one counting as one.
pub open spec fn ticks_at(hits: int, rate: int) -> int {
    crate::fixed::ceil_quotient(hits * 1000, crate::fixed::max_of(rate, 1000))
}

/// `a` and `b` ticks, as far as a `u32` counts.
pub open spec fn both_ticks(a: int, b: int) -> int {
    crate::fixed::min_of(a + b, u32::MAX as int)
}

/// The verdict on a target that cannot be won.
pub open spec fn lost(reason: &'static str) -> ForceAssessment {
    ForceAssessment {
        winnable: false,
        mode: AssaultMode::Breach,
        required_heal_per_tick: 0,
        required_dismantle_dps: 0,
        required_tank_hp: 0,
        est_ticks: 0,
        reason,
    }
}

impl DefenseProfile {
    /// Thousandths of damage per tick at the assault tile, towers and creeps together.
    pub open spec fn incoming(&self, enemy_dps: int) -> int {
        tower_fire(self.towers@) * 1000 + enemy_dps
    }

    /// Ticks that breaking through takes a squad.
    pub open spec fn breach_ticks(&self, budget: ForceBudget) -> int {
        ticks_at(self.breach_hits as int, budget.max_dismantle_dps - self.repair_per_tick)
    }

    /// Ticks that destroying the objective takes a squad.
    pub open spec fn kill_ticks(&self, budget: ForceBudget) -> int {
        ticks_at(self.objective_hits as int, budget.max_dismantle_dps as int)
    }

    /// Repair makes the way in impassable for the squad.
    pub open spec fn is_walled(&self, budget: ForceBudget) -> bool {
        self.breach_hits > 0 && budget.max_dismantle_dps <= self.repair_per_tick
    }

    /// The rate that the squad has to bring for a breach: all that it can, so that repair does not
    /// stall it; where nothing shoots and nothing repairs, what finishes within the time on site.
    pub open spec fn breach_rate(&self, enemy_dps: int, budget: ForceBudget) -> int {
        let most = crate::fixed::max_of(budget.max_dismantle_dps as int, 1000);
        if self.incoming(enemy_dps) == 0 && self.repair_per_tick == 0 {
            crate::fixed::within(
                crate::fixed::ceil_quotient(
                    (self.objective_hits + self.breach_hits) * UNDEFENDED_KILL_HEADROOM,
                    crate::fixed::max_of(budget.onsite_budget_ticks as int, 1),
                ),
                1000,
                most,
            )
        } else {
            most
        }
    }

    /// The squad outlives the fire of the towers that can be bled until they are dry, and no other
    /// tower keeps firing.
    pub open spec fn can_be_drained(&self, budget: ForceBudget) -> bool {
        let ticks = ticks_to_drain(self.towers@);
        &&& ticks > 0
        &&& standoff_fire(self.towers@) * 1000 * ticks <= budget.tank_effective_hp
            + budget.max_heal_per_tick * ticks
        &&& !some_tower_is_endless(self.towers@)
    }

    /// What the squad has to heal per tick in a drain: as much of the towers' fire as it can, and
    /// enough to hold against the creeps that are left.
    pub open spec fn drain_heal(&self, enemy_dps: int, budget: ForceBudget) -> int {
        crate::fixed::max_of(
            crate::fixed::min_of(
                standoff_fire(self.towers@) * 1000,
                budget.max_heal_per_tick as int,
            ),
            hold_heal(crate::fixed::max_of(enemy_dps, 1000)),
        )
    }

    /// The verdict of [`assess`].
    pub open spec fn verdict(&self, enemy_dps: int, budget: ForceBudget) -> ForceAssessment {
        let heal = hold_heal(self.incoming(enemy_dps));
        let breach = both_ticks(self.breach_ticks(budget), self.kill_ticks(budget));
        let drain = ticks_to_drain(self.towers@);
        let slow = both_ticks(
            both_ticks(drain, self.breach_ticks(budget)),
            self.kill_ticks(budget),
        );
        let soak = self.drain_heal(enemy_dps, budget);
        if self.safe_mode {
            lost("enemy safe mode — zero damage possible")
        } else if self.is_walled(budget) {
            lost("repair out-paces our dismantle")
        } else if heal <= budget.max_heal_per_tick {
            if breach > budget.onsite_budget_ticks {
                lost("breach too slow for one creep lifetime")
            } else {
                ForceAssessment {
                    winnable: true,
                    mode: AssaultMode::Breach,
                    required_heal_per_tick: crate::fixed::nearest_i64(heal) as i64,
                    required_dismantle_dps: self.breach_rate(enemy_dps, budget) as i64,
                    required_tank_hp: 0,
                    est_ticks: breach as u32,
                    reason: "breach: out-heal the towers and dismantle through",
                }
            }
        } else if !self.can_be_drained(budget) {
            lost("towers out-damage a single squad — needs heavy assault (G4-HEAVY)")
        } else if soak > budget.max_heal_per_tick {
            lost("enemy creeps out-heal our damage after the drain")
        } else if slow > budget.onsite_budget_ticks {
            lost("drain + breach too slow for one creep lifetime")
        } else {
            ForceAssessment {
                winnable: true,
                mode: AssaultMode::Drain,
                required_heal_per_tick: soak as i64,
                required_dismantle_dps: crate::fixed::max_of(
                    budget.max_dismantle_dps as int,
                    1000,
                ) as i64,
                required_tank_hp: (crate::fixed::max_of(
                    standoff_fire(self.towers@) * 1000 - soak,
                    0,
                ) * drain) as i64,
                est_ticks: slow as u32,
                reason: "drain: soak the towers dry, then breach",
            }
        }
    }
}

/// The verdict on a target that cannot be won, and why.
fn unwinnable(reason: &'static str) -> (a: ForceAssessment)
    ensures
        a == lost(reason),
{
    ForceAssessment {
        winnable: false,
        mode: AssaultMode::Breach,
        required_heal_per_tick: 0,
        required_dismantle_dps: 0,
        required_tank_hp: 0,
        est_ticks: 0,
        reason,
    }
}

/// What has to be healed per tick to hold under `incoming`.
fn heal_to_hold(incoming: i128) -> (heal: i128)
    requires
        -0x1_0000_0000_0000_0000_0000_0000 < incoming < 0x1_0000_0000_0000_0000_0000_0000,
    ensures
        heal == hold_heal(incoming as int),
{
    let margin: i128 = HOLD_MARGIN as i128;
    assert(margin == 1_300);
    assert(incoming * margin == incoming * 1_300);
    div_up(incoming * margin, 1000)
}

/// Ticks that `hits` take at `rate`.
fn ticks_for(hits: u32, rate: i128) -> (ticks: u32)
    requires
        rate < 0x1000_0000_0000_0000_0000,
    ensures
        ticks == ticks_at(hits as int, rate as int),
{
    let rate: i128 = if rate > 1000 { rate } else { 1000 };
    let ticks: i128 = div_up(hits as i128 * 1000, rate);
    proof {
        crate::fixed::lemma_ceil_covers(hits * 1000, rate as int, hits as int);
        crate::fixed::lemma_ceil_covers(hits * 1000, rate as int, -1);
        assert(hits * 1000 <= hits * rate) by (nonlinear_arith)
            requires
                rate >= 1000,
                hits >= 0,
        ;
        assert(-1 * rate < 0);
    }
    ticks as u32
}

/// A rate, or one where it is less.
fn at_least_one(rate: Milli) -> (r: Milli)
    ensures
        r == crate::fixed::max_of(rate as int, 1000),
{
    if rate > 1000 {
        rate
    } else {
        1000
    }
}

/// Whether `budget` beats `profile`, and how. `enemy_dps` is what the hostile creeps at the
/// objective do per tick.
pub fn assess(profile: &DefenseProfile, enemy_dps: Milli, budget: &ForceBudget) -> (a: ForceAssessment)
    ensures
        a == profile.verdict(enemy_dps as int, *budget),
{
    if profile.safe_mode {
        return unwinnable("enemy safe mode — zero damage possible");
    }
    let max_heal: i128 = budget.max_heal_per_tick as i128;
    let net_dismantle: i128 = budget.max_dismantle_dps as i128 - profile.repair_per_tick as i128;
    if profile.breach_hits > 0 && net_dismantle <= 0 {
        return unwinnable("repair out-paces our dismantle");
    }
    let breach_ticks: u32 = ticks_for(profile.breach_hits, net_dismantle);
    let kill_ticks: u32 = ticks_for(profile.objective_hits, budget.max_dismantle_dps as i128);
    let incoming: i128 = fire_at_assault(&profile.towers) * 1000 + enemy_dps as i128;
    let required_heal: i128 = heal_to_hold(incoming);
    if required_heal <= max_heal {
        let total: u32 = breach_ticks.saturating_add(kill_ticks);
        if total > budget.onsite_budget_ticks {
            return unwinnable("breach too slow for one creep lifetime");
        }
        let most: Milli = at_least_one(budget.max_dismantle_dps);
        let required_dismantle_dps: Milli = if incoming == 0 && profile.repair_per_tick == 0 {
            let window: i128 = if budget.onsite_budget_ticks > 1 {
                budget.onsite_budget_ticks as i128
            } else {
                1
            };
            let hits: i128 = profile.objective_hits as i128 + profile.breach_hits as i128;
            let minimal: i128 = div_up(hits * UNDEFENDED_KILL_HEADROOM as i128, window);
            if minimal < 1000 {
                1000
            } else if minimal > most as i128 {
                most
            } else {
                minimal as i64
            }
        } else {
            most
        };
        return ForceAssessment {
            winnable: true,
            mode: AssaultMode::Breach,
            required_heal_per_tick: to_i64(required_heal),
            required_dismantle_dps,
            required_tank_hp: 0,
            est_ticks: total,
            reason: "breach: out-heal the towers and dismantle through",
        };
    }
    let dt: u32 = drain_ticks(&profile.towers);
    let standoff: i128 = tower_dps_at_drain_standoff(&profile.towers) * 1000;
    assert(-0x8000_0000_0000_0000 * 5000 <= max_heal * dt <= 0x7fff_ffff_ffff_ffff * 5000)
        by (nonlinear_arith)
        requires
            -0x8000_0000_0000_0000 <= max_heal <= 0x7fff_ffff_ffff_ffff,
            0 <= dt <= 5000,
    ;
    assert(0 <= standoff * dt <= standoff * 5000) by (nonlinear_arith)
        requires
            standoff >= 0,
            0 <= dt <= 5000,
    ;
    let tank_sustain: i128 = budget.tank_effective_hp as i128 + max_heal * dt as i128;
    let drain_damage: i128 = standoff * dt as i128;
    if !(dt > 0 && tank_sustain >= drain_damage && !has_energized_infinite_tower(&profile.towers)) {
        return unwinnable("towers out-damage a single squad — needs heavy assault (G4-HEAVY)");
    }
    let left: Milli = at_least_one(enemy_dps);
    let post_drain_heal: i128 = heal_to_hold(left as i128);
    let soak_heal: i128 = if standoff < max_heal { standoff } else { max_heal };
    let required_heal: i128 = if soak_heal > post_drain_heal { soak_heal } else { post_drain_heal };
    if required_heal > max_heal {
        return unwinnable("enemy creeps out-heal our damage after the drain");
    }
    let total: u32 = dt.saturating_add(breach_ticks).saturating_add(kill_ticks);
    if total > budget.onsite_budget_ticks {
        return unwinnable("drain + breach too slow for one creep lifetime");
    }
    let residual: i128 = if standoff > required_heal { standoff - required_heal } else { 0 };
    proof {
        crate::fixed::lemma_ceil_covers(left * HOLD_MARGIN, 1000, 0);
        // Where anything is left to soak, all heal is in use, and the tank outlasts the rest.
        assert(residual > 0 ==> required_heal == max_heal);
        assert(0 <= residual * dt <= 0x7fff_ffff_ffff_ffff) by (nonlinear_arith)
            requires
                0 <= residual,
                0 < dt,
                residual == 0 || residual == standoff - max_heal,
                standoff * dt <= budget.tank_effective_hp + max_heal * dt,
                budget.tank_effective_hp <= 0x7fff_ffff_ffff_ffff,
        ;
    }
    let required_tank_hp: i128 = residual * dt as i128;
    ForceAssessment {
        winnable: true,
        mode: AssaultMode::Drain,
        required_heal_per_tick: required_heal as i64,
        required_dismantle_dps: at_least_one(budget.max_dismantle_dps),
        required_tank_hp: required_tank_hp as i64,
        est_ticks: total,
        reason: "drain: soak the towers dry, then breach",
    }
}

// ---------------------------------------------------------------------------------------------
// Creeps.
// ---------------------------------------------------------------------------------------------

/// A fight against creeps: what they do and heal per tick, their hits, the ticks on site and the
/// factor by which they are to be out-powered.
pub struct CreepFight {
    pub dps: int,
    pub hits: int,
    pub heal: int,
    pub window: int,
    pub margin: int,
}

impl CreepFight {
    /// Millionths of the enemies' damage per tick, by the factor that out-powers them.
    pub open spec fn overmatch(&self) -> int {
        self.dps * crate::fixed::max_of(self.margin, 1000)
    }

    /// What has to be taken off the creeps per tick: enough to wear them down through their heal in
    /// the time on site, to out-power them, and to do anything at all.
    pub open spec fn kill_rate(&self) -> int {
        crate::fixed::max_of(
            crate::fixed::max_of(
                crate::fixed::ceil_quotient(self.hits * 1000, self.window) + self.heal,
                crate::fixed::ceil_quotient(self.overmatch(), 1000),
            ),
            1000,
        )
    }

    /// Ticks that this takes, net of their heal. The rate is the largest of three, so the ticks are
    /// the fewest that one of the three takes by itself: the whole time on site, what out-powering
    /// takes, and what one hit per tick takes.
    pub open spec fn ticks(&self) -> int {
        let overmatch = self.overmatch() - self.heal * 1000;
        let least = 1000 - self.heal;
        let by_overmatch = if overmatch > 0 {
            crate::fixed::ceil_quotient(self.hits * 1_000_000, overmatch)
        } else {
            self.window
        };
        let by_least = if least > 0 {
            crate::fixed::ceil_quotient(self.hits * 1000, least)
        } else {
            self.window
        };
        crate::fixed::min_of(self.window, crate::fixed::min_of(by_overmatch, by_least))
    }

    /// The verdict of [`clear_force`].
    pub open spec fn verdict(
        &self,
        towers: Seq<TowerThreat>,
        budget: ForceBudget,
        safe_mode: bool,
    ) -> ForceAssessment {
        let heal = hold_heal(tower_fire(towers) * 1000 + self.dps);
        if safe_mode {
            lost("enemy safe mode — zero damage possible")
        } else if heal > budget.max_heal_per_tick {
            lost("can't out-heal the incoming")
        } else if self.kill_rate() <= self.heal {
            lost("their heal out-paces a feasible kill")
        } else if self.kill_rate() > budget.max_dismantle_dps {
            lost("can't field enough kill dps for one squad")
        } else {
            ForceAssessment {
                winnable: true,
                mode: AssaultMode::Breach,
                required_heal_per_tick: crate::fixed::nearest_i64(heal) as i64,
                required_dismantle_dps: self.kill_rate() as i64,
                required_tank_hp: 0,
                est_ticks: self.ticks() as u32,
                reason: "clear: out-heal + out-power the enemy creeps",
            }
        }
    }
}

/// The parts that `rate` thousandths per tick take at `power` hits a part.
pub open spec fn parts_at(rate: int, power: int) -> int {
    if rate <= 0 || power == 0 {
        0
    } else {
        crate::fixed::nearest_u32(crate::fixed::ceil_quotient(rate, power * 1000))
    }
}

/// The HEAL parts that `rate` thousandths per tick take.
pub open spec fn heal_parts_at(rate: int) -> int {
    crate::bodies::wanted_heal(rate, false)
}

/// The fight that [`clear_force`] sizes.
pub open spec fn creep_fight(
    enemy_dps: Milli,
    enemy_hits: u32,
    enemy_heal: Milli,
    budget: ForceBudget,
    dps_margin: Milli,
) -> CreepFight {
    CreepFight {
        dps: enemy_dps as int,
        hits: enemy_hits as int,
        heal: enemy_heal as int,
        window: crate::fixed::max_of(budget.onsite_budget_ticks as int, 1),
        margin: dps_margin as int,
    }
}

/// Sizes a fight against creeps: heal to hold under their damage and that of the towers, and damage
/// to wear them down in the time on site and to out-power them by `dps_margin`. Against creeps met
/// one at a time, the worst of them is given and the margin is one; against creeps that fight
/// together, all of them and [`COORDINATED_DPS_MARGIN`]. The damage is anti-creep, and asks for
/// `anti_creep_parts`.
pub fn clear_force(
    towers: Vec<TowerThreat>,
    enemy_dps: Milli,
    enemy_hits: u32,
    enemy_heal: Milli,
    budget: &ForceBudget,
    dps_margin: Milli,
    safe_mode: bool,
) -> (r: (ForceAssessment, RequiredForce))
    ensures
        r.0 == creep_fight(enemy_dps, enemy_hits, enemy_heal, *budget, dps_margin).verdict(
            towers@,
            *budget,
            safe_mode,
        ),
        r.1 == clearing_force(r.0),
{
    let ghost fight = creep_fight(enemy_dps, enemy_hits, enemy_heal, *budget, dps_margin);
    if safe_mode {
        return (unwinnable("enemy safe mode — zero damage possible"), RequiredForce::default());
    }
    let incoming: i128 = fire_at_assault(&towers) * 1000 + enemy_dps as i128;
    let required_heal: i128 = heal_to_hold(incoming);
    if required_heal > budget.max_heal_per_tick as i128 {
        return (unwinnable("can't out-heal the incoming"), RequiredForce::default());
    }
    let window: i128 = if budget.onsite_budget_ticks > 1 {
        budget.onsite_budget_ticks as i128
    } else {
        1
    };
    let heal: i128 = enemy_heal as i128;
    let hits: i128 = enemy_hits as i128;
    let in_time: i128 = div_up(hits * 1000, window);
    let margin: i128 = at_least_one(dps_margin) as i128;
    let dps: i128 = enemy_dps as i128;
    assert(-0x8000_0000_0000_0000 * 0x7fff_ffff_ffff_ffff <= dps * margin <= 0x7fff_ffff_ffff_ffff
        * 0x7fff_ffff_ffff_ffff) by (nonlinear_arith)
        requires
            -0x8000_0000_0000_0000 <= dps <= 0x7fff_ffff_ffff_ffff,
            0 < margin <= 0x7fff_ffff_ffff_ffff,
    ;
    let overmatch: i128 = dps * margin;
    let to_overmatch: i128 = div_up(overmatch, 1000);
    proof {
        crate::fixed::lemma_ceil_covers(hits * 1000, window as int, hits * 1000);
        crate::fixed::lemma_ceil_covers(hits * 1000, window as int, -1);
        assert(hits * 1000 <= hits * 1000 * window) by (nonlinear_arith)
            requires
                hits >= 0,
                window >= 1,
        ;
        assert(overmatch == fight.overmatch());
    }
    let in_time: i128 = in_time + heal;
    let faster: i128 = if in_time > to_overmatch { in_time } else { to_overmatch };
    let kill: i128 = if faster > 1000 { faster } else { 1000 };
    assert(kill == fight.kill_rate());
    if kill <= heal {
        return (unwinnable("their heal out-paces a feasible kill"), RequiredForce::default());
    }
    if kill > budget.max_dismantle_dps as i128 {
        return (unwinnable("can't field enough kill dps for one squad"), RequiredForce::default());
    }
    proof {
        crate::fixed::lemma_ceil_covers(overmatch as int, 1000, 0x7fff_ffff_ffff_ffff);
    }
    let net_overmatch: i128 = overmatch - heal * 1000;
    let by_overmatch: i128 = if net_overmatch > 0 {
        div_up(hits * 1_000_000, net_overmatch)
    } else {
        window
    };
    let net_least: i128 = 1000 - heal;
    let by_least: i128 = if net_least > 0 { div_up(hits * 1000, net_least) } else { window };
    let sooner: i128 = if by_overmatch < by_least { by_overmatch } else { by_least };
    let ticks: i128 = if window < sooner { window } else { sooner };
    proof {
        assert(ticks == fight.ticks());
        if net_overmatch > 0 {
            crate::fixed::lemma_ceil_covers(hits * 1_000_000, net_overmatch as int, -1);
        }
        if net_least > 0 {
            crate::fixed::lemma_ceil_covers(hits * 1000, net_least as int, -1);
        }
        assert(0 <= ticks <= u32::MAX);
    }
    let a = ForceAssessment {
        winnable: true,
        mode: AssaultMode::Breach,
        required_heal_per_tick: to_i64(required_heal),
        required_dismantle_dps: kill as i64,
        required_tank_hp: 0,
        est_ticks: ticks as u32,
        reason: "clear: out-heal + out-power the enemy creeps",
    };
    let required = RequiredForce {
        heal_parts: defender_heal_parts_for_dps(a.required_heal_per_tick, false),
        dismantle_parts: 0,
        immune_struct_parts: 0,
        anti_creep_parts: parts_for_rate(a.required_dismantle_dps, RANGED_ATTACK_POWER),
        tough_parts: 0,
        claim_parts: 0,
    };
    (a, required)
}

// ---------------------------------------------------------------------------------------------
// From a verdict to parts.
// ---------------------------------------------------------------------------------------------

/// The parts that a squad has to field, all members together.
#[derive(Clone, Copy, Debug, PartialEq, Eq, Structural)]
pub struct RequiredForce {
    /// HEAL, to out-heal the incoming damage.
    pub heal_parts: u32,
    /// WORK, against structures that can be dismantled.
    pub dismantle_parts: u32,
    /// RANGED_ATTACK, against structures that cannot be dismantled; as much damage as
    /// `dismantle_parts` do.
    pub immune_struct_parts: u32,
    /// RANGED_ATTACK, against the creeps that defend. A guarded structure asks for both.
    pub anti_creep_parts: u32,
    /// TOUGH, the hits that a draining squad can lose.
    pub tough_parts: u32,
    /// CLAIM, against a controller. Verdicts never ask for it.
    pub claim_parts: u32,
}

/// No force at all.
pub open spec fn no_force() -> RequiredForce {
    RequiredForce {
        heal_parts: 0,
        dismantle_parts: 0,
        immune_struct_parts: 0,
        anti_creep_parts: 0,
        tough_parts: 0,
        claim_parts: 0,
    }
}

/// The force that a verdict on creeps asks for.
pub open spec fn clearing_force(a: ForceAssessment) -> RequiredForce {
    if a.winnable {
        RequiredForce {
            heal_parts: heal_parts_at(a.required_heal_per_tick as int) as u32,
            anti_creep_parts: parts_at(
                a.required_dismantle_dps as int,
                RANGED_ATTACK_POWER as int,
            ) as u32,
            ..no_force()
        }
    } else {
        no_force()
    }
}

/// The force that a verdict on structures asks for.
pub open spec fn razing_force(a: ForceAssessment) -> RequiredForce {
    if a.winnable {
        RequiredForce {
            heal_parts: heal_parts_at(a.required_heal_per_tick as int) as u32,
            dismantle_parts: parts_at(
                a.required_dismantle_dps as int,
                DISMANTLE_POWER as int,
            ) as u32,
            immune_struct_parts: parts_at(
                a.required_dismantle_dps as int,
                RANGED_ATTACK_POWER as int,
            ) as u32,
            tough_parts: if a.mode == AssaultMode::Drain {
                parts_at(a.required_tank_hp as int, PART_HITS as int) as u32
            } else {
                0
            },
            ..no_force()
        }
    } else {
        no_force()
    }
}

/// `parts`, scaled up by a factor in millionths that never shrinks them.
pub open spec fn scaled_parts(parts: int, factor: int) -> int {
    crate::fixed::nearest_u32(
        crate::fixed::ceil_quotient(parts * crate::fixed::max_of(factor, 1_000_000), 1_000_000),
    )
}

impl Default for RequiredForce {
    /// No force at all.
    fn default() -> (force: Self)
        ensures
            force == no_force(),
    {
        RequiredForce {
            heal_parts: 0,
            dismantle_parts: 0,
            immune_struct_parts: 0,
            anti_creep_parts: 0,
            tough_parts: 0,
            claim_parts: 0,
        }
    }
}

impl RequiredForce {
    /// The force scaled up, part by part.
    pub open spec fn scaled_by(&self, factor: int) -> RequiredForce {
        RequiredForce {
            heal_parts: scaled_parts(self.heal_parts as int, factor) as u32,
            dismantle_parts: scaled_parts(self.dismantle_parts as int, factor) as u32,
            immune_struct_parts: scaled_parts(self.immune_struct_parts as int, factor) as u32,
            anti_creep_parts: scaled_parts(self.anti_creep_parts as int, factor) as u32,
            tough_parts: scaled_parts(self.tough_parts as int, factor) as u32,
            claim_parts: scaled_parts(self.claim_parts as int, factor) as u32,
        }
    }

    /// The parts that a verdict on structures asks for; none where it cannot be won. TOUGH is asked
    /// for only by a drain.
    pub fn from_assessment(a: &ForceAssessment) -> (force: Self)
        ensures
            force == razing_force(*a),
    {
        if !a.winnable {
            return RequiredForce::default();
        }
        RequiredForce {
            heal_parts: defender_heal_parts_for_dps(a.required_heal_per_tick, false),
            dismantle_parts: parts_for_rate(a.required_dismantle_dps, DISMANTLE_POWER),
            immune_struct_parts: parts_for_rate(a.required_dismantle_dps, RANGED_ATTACK_POWER),
            anti_creep_parts: 0,
            tough_parts: match a.mode {
                AssaultMode::Drain => parts_for_rate(a.required_tank_hp, PART_HITS),
                AssaultMode::Breach => 0,
            },
            claim_parts: 0,
        }
    }

    /// The force as a single dismantler. The RANGED_ATTACK parts, the other weapon for the same
    /// damage, are not stacked on it.
    pub fn as_solo_spec(&self) -> (spec: CombatBodySpec)
        ensures
            spec == (CombatBodySpec {
                heal: self.heal_parts,
                work: self.dismantle_parts,
                tough: self.tough_parts,
                attack: 0,
                ranged_attack: 0,
                carry: 0,
                claim: 0,
            }),
    {
        CombatBodySpec {
            heal: self.heal_parts,
            work: self.dismantle_parts,
            tough: self.tough_parts,
            attack: 0,
            ranged_attack: 0,
            carry: 0,
            claim: 0,
        }
    }

    /// Every count scaled up by `factor`, rounded up. A factor below one counts as one.
    pub fn scaled(self, factor: Micro) -> (force: RequiredForce)
        ensures
            force == self.scaled_by(factor as int),
    {
        RequiredForce {
            heal_parts: scale(self.heal_parts, factor),
            dismantle_parts: scale(self.dismantle_parts, factor),
            immune_struct_parts: scale(self.immune_struct_parts, factor),
            anti_creep_parts: scale(self.anti_creep_parts, factor),
            tough_parts: scale(self.tough_parts, factor),
            claim_parts: scale(self.claim_parts, factor),
        }
    }
}

/// A count scaled up by a factor that never shrinks it.
fn scale(parts: u32, factor: Micro) -> (n: u32)
    ensures
        n == scaled_parts(parts as int, factor as int),
{
    let factor: i128 = if factor > 1_000_000 { factor as i128 } else { 1_000_000 };
    assert(0 <= parts * factor <= 0xffff_ffff * 0x7fff_ffff_ffff_ffff) by (nonlinear_arith)
        requires
            0 <= parts <= 0xffff_ffff,
            0 <= factor <= 0x7fff_ffff_ffff_ffff,
    ;
    to_u32(div_up(parts as i128 * factor, 1_000_000))
}

/// The parts that deliver `rate` per tick at `power` a part; none where nothing is asked for.
fn parts_for_rate(rate: Milli, power: u32) -> (parts: u32)
    ensures
        parts == parts_at(rate as int, power as int),
{
    if rate <= 0 || power == 0 {
        0
    } else {
        to_u32(div_up(rate as i128, power as i128 * 1000))
    }
}

/// `p` is what the curve gives for holding with `heal` under `incoming`, both in the same unit; it
/// is certain where nothing comes in.
pub open spec fn is_win_probability<F: Fn(i128, i128) -> Probability>(
    curve: F,
    heal: i128,
    incoming: i128,
    p: Probability,
) -> bool {
    if incoming <= 0 {
        p == CERTAIN
    } else {
        exists|q: Probability| #[trigger]
            curve.ensures((heal, incoming), q) && p == crate::fixed::min_of(
                q as int,
                CERTAIN as int,
            )
    }
}

/// The probability of holding with `heal` under `incoming`, both in the same unit, by a curve of the
/// two; holding is certain where nothing comes in.
pub fn win_probability<F: Fn(i128, i128) -> Probability>(heal: i128, incoming: i128, curve: &F) -> (p:
    Probability)
    requires
        curve.requires((heal, incoming)),
    ensures
        is_win_probability(*curve, heal, incoming, p),
        p <= CERTAIN,
{
    if incoming <= 0 {
        return CERTAIN;
    }
    let q: Probability = curve(heal, incoming);
    assert(curve.ensures((heal, incoming), q));
    if q < CERTAIN {
        q
    } else {
        CERTAIN
    }
}

/// The factor, in millionths, by which an objective of the given importance, from zero to one, is
/// over-invested in.
pub fn importance_margin(importance: Milli) -> (factor: Micro)
    ensures
        factor == 1_000_000 + crate::fixed::within(importance as int, 0, 1000)
            * IMPORTANCE_MAX_EXTRA,
        1_000_000 <= factor <= 1_500_000,
        0 <= importance <= 1000 ==> factor == 1_000_000 + 500 * importance,
        importance < 0 ==> factor == 1_000_000,
        importance > 1000 ==> factor == 1_500_000,
{
    let importance: i64 = if importance < 0 {
        0
    } else if importance > 1000 {
        1000
    } else {
        importance
    };
    1_000_000 + importance * IMPORTANCE_MAX_EXTRA
}

// ---------------------------------------------------------------------------------------------
// Laws.
// ---------------------------------------------------------------------------------------------

/// What is judged winnable stays within what the squad brings: its heal, its damage, its hits and
/// its time on site.
pub proof fn law_winnable_is_within_budget(
    profile: DefenseProfile,
    enemy_dps: int,
    budget: ForceBudget,
)
    requires
        i64::MIN <= enemy_dps <= i64::MAX,
        profile.verdict(enemy_dps, budget).winnable,
    ensures
        profile.verdict(enemy_dps, budget).required_heal_per_tick <= budget.max_heal_per_tick,
        1000 <= profile.verdict(enemy_dps, budget).required_dismantle_dps,
        profile.verdict(enemy_dps, budget).required_dismantle_dps <= crate::fixed::max_of(
            budget.max_dismantle_dps as int,
            1000,
        ),
        profile.verdict(enemy_dps, budget).required_tank_hp <= crate::fixed::max_of(
            budget.tank_effective_hp as int,
            0,
        ),
        profile.verdict(enemy_dps, budget).est_ticks <= budget.onsite_budget_ticks,
        !profile.safe_mode,
{
    let a = profile.verdict(enemy_dps, budget);
    lemma_ticks_are_counted(profile.breach_hits as int, budget.max_dismantle_dps - profile.repair_per_tick);
    lemma_ticks_are_counted(profile.objective_hits as int, budget.max_dismantle_dps as int);
    lemma_drain_ticks_are_counted(profile.towers@);
    crate::fixed::lemma_ceil_covers(
        crate::fixed::max_of(enemy_dps, 1000) * HOLD_MARGIN,
        1000,
        0,
    );
    if a.mode == AssaultMode::Drain {
        let fire = standoff_fire(profile.towers@) * 1000;
        let ticks = ticks_to_drain(profile.towers@);
        let heal = budget.max_heal_per_tick as int;
        let tank = budget.tank_effective_hp as int;
        let residual = crate::fixed::max_of(fire - profile.drain_heal(enemy_dps, budget), 0);
        assert(residual == 0 || residual == fire - heal);
        assert(0 <= residual * ticks <= crate::fixed::max_of(tank, 0)) by (nonlinear_arith)
            requires
                0 < ticks,
                0 <= residual,
                residual == 0 || residual == fire - heal,
                fire * ticks <= tank + heal * ticks,
        ;
    }
}

/// No number of hits takes less than no ticks.
proof fn lemma_ticks_are_counted(hits: int, rate: int)
    requires
        0 <= hits,
    ensures
        0 <= ticks_at(hits, rate),
{
    let rate = crate::fixed::max_of(rate, 1000);
    crate::fixed::lemma_ceil_covers(hits * 1000, rate, -1);
}

/// Towers that can be bled run dry within five thousand ticks.
proof fn lemma_drain_ticks_are_counted(towers: Seq<TowerThreat>)
    ensures
        0 <= ticks_to_drain(towers) <= 5000,
    decreases towers.len(),
{
    if towers.len() > 0 {
        lemma_drain_ticks_are_counted(towers.drop_last());
    }
}

/// Under safe mode nothing is winnable.
pub proof fn law_safe_mode_vetoes(
    profile: DefenseProfile,
    enemy_dps: int,
    fight: CreepFight,
    towers: Seq<TowerThreat>,
    budget: ForceBudget,
)
    ensures
        profile.safe_mode ==> !profile.verdict(enemy_dps, budget).winnable,
        !fight.verdict(towers, budget, true).winnable,
{
}

/// A base with a tower that never runs dry is never drained, and what can be breached is not
/// drained either.
pub proof fn law_drain_only_where_it_ends(
    profile: DefenseProfile,
    enemy_dps: int,
    budget: ForceBudget,
)
    requires
        profile.verdict(enemy_dps, budget).winnable,
        profile.verdict(enemy_dps, budget).mode == AssaultMode::Drain,
    ensures
        !some_tower_is_endless(profile.towers@),
        ticks_to_drain(profile.towers@) > 0,
        hold_heal(profile.incoming(enemy_dps)) > budget.max_heal_per_tick,
{
}

/// What cannot be won asks for no force.
pub proof fn law_unwinnable_asks_for_nothing(a: ForceAssessment)
    requires
        !a.winnable,
    ensures
        razing_force(a) == no_force(),
        clearing_force(a) == no_force(),
{
}

/// Scaling never shrinks a count, keeps none at none, and by one or less changes nothing.
pub proof fn law_scaling_only_adds(parts: u32, factor: int)
    ensures
        scaled_parts(parts as int, factor) >= parts,
        parts == 0 ==> scaled_parts(parts as int, factor) == 0,
        factor <= 1_000_000 ==> scaled_parts(parts as int, factor) == parts,
{
    let f = crate::fixed::max_of(factor, 1_000_000);
    let n = parts as int;
    crate::fixed::lemma_ceil_covers(n * f, 1_000_000, n - 1);
    assert(n * f >= n * 1_000_000) by (nonlinear_arith)
        requires
            f >= 1_000_000,
            n >= 0,
    ;
    if parts == 0 {
        assert(0 * f == 0) by (nonlinear_arith);
    }
}

/// The parts that a rate asks for deliver it, and one part fewer would not, as long as a `u32` counts
/// them.
pub proof fn law_parts_deliver_the_rate(rate: int, power: int)
    requires
        rate > 0,
        power > 0,
        parts_at(rate, power) < u32::MAX,
    ensures
        parts_at(rate, power) * (power * 1000) >= rate,
        (parts_at(rate, power) - 1) * (power * 1000) < rate,
{
    let d = power * 1000;
    let q = crate::fixed::ceil_quotient(rate, d);
    crate::fixed::lemma_ceil_covers(rate, d, 0);
    crate::fixed::lemma_ceil_covers(rate, d, q);
    crate::fixed::lemma_ceil_covers(rate, d, q - 1);
}

/// The damage that the kill rate does beyond the creeps' heal, over the ticks that it is said to
/// take, is their hits: no fewer ticks would do.
pub proof fn law_clear_ticks_wear_them_down(fight: CreepFight, ticks: int)
    requires
        fight.hits >= 1,
        fight.window >= 1,
        fight.kill_rate() > fight.heal,
        0 <= ticks,
    ensures
        fight.ticks() <= ticks <==> {
            ||| fight.window <= ticks
            ||| fight.hits * 1_000_000 <= ticks * (fight.overmatch() - fight.heal * 1000)
            ||| fight.hits * 1000 <= ticks * (1000 - fight.heal)
        },
{
    let overmatch = fight.overmatch() - fight.heal * 1000;
    let least = 1000 - fight.heal;
    if overmatch > 0 {
        crate::fixed::lemma_ceil_covers(fight.hits * 1_000_000, overmatch, ticks);
    } else {
        assert(ticks * overmatch <= 0) by (nonlinear_arith)
            requires
                overmatch <= 0,
                ticks >= 0,
        ;
    }
    if least > 0 {
        crate::fixed::lemma_ceil_covers(fight.hits * 1000, least, ticks);
    } else {
        assert(ticks * least <= 0) by (nonlinear_arith)
            requires
                least <= 0,
                ticks >= 0,
        ;
    }
}

/// A tower fires exactly when it holds the ten energy of a shot, with what a power of 600 does at its
/// range; and the fire of several adds up. Towers that can be bled each do 150 from afar.
pub proof fn law_fire_adds_up(towers: Seq<TowerThreat>, t: TowerThreat)
    ensures
        tower_fire(Seq::empty()) == 0,
        tower_fire(towers.push(t)) == tower_fire(towers) + if t.energy >= 10 {
            crate::damage::tower_effect(600, t.range_to_assault as int)
        } else {
            0
        },
        standoff_fire(Seq::empty()) == 0,
        standoff_fire(towers.push(t)) == standoff_fire(towers) + if 10 <= t.energy < 50_000 {
            150int
        } else {
            0
        },
        !some_tower_is_endless(Seq::empty()),
        some_tower_is_endless(towers.push(t)) <==> some_tower_is_endless(towers) || t.energy >= 50_000,
{
    let more = towers.push(t);
    assert(more.drop_last() =~= towers);
    if some_tower_is_endless(towers) {
        let i = choose|i: int|
            0 <= i < towers.len() && (#[trigger] towers[i]).energy >= DRAIN_INFINITE_TOWER_ENERGY;
        assert(more[i] == towers[i]);
    }
    assert(more[towers.len() as int] == t);
    if some_tower_is_endless(more) {
        let i = choose|i: int|
            0 <= i < more.len() && (#[trigger] more[i]).energy >= DRAIN_INFINITE_TOWER_ENERGY;
        assert(i < towers.len() ==> towers[i] == more[i]);
    }
}

/// Fire never takes hits back, and more towers never fire less.
pub proof fn law_fire_is_not_negative(towers: Seq<TowerThreat>)
    ensures
        0 <= tower_fire(towers),
        0 <= standoff_fire(towers),
        towers.len() > 0 ==> tower_fire(towers.drop_last()) <= tower_fire(towers),
        towers.len() > 0 && towers.last().energy >= 10 ==> tower_fire(towers.drop_last()) + 150
            <= tower_fire(towers),
    decreases towers.len(),
{
    if towers.len() > 0 {
        law_fire_is_not_negative(towers.drop_last());
        let range = towers.last().range_to_assault as int;
        crate::damage::law_falloff_is_monotone(600, range, range + 20);
    }
}

/// Bleeding the towers takes `ticks` at most exactly when none that can be bled holds more than ten energy
/// for each tick.
pub proof fn law_bleeding_empties_every_tower(towers: Seq<TowerThreat>, ticks: int)
    requires
        0 <= ticks,
    ensures
        ticks_to_drain(towers) <= ticks <==> forall|i: int|
            0 <= i < towers.len() && 10 <= (#[trigger] towers[i]).energy < 50_000 ==> towers[i].energy
                <= 10 * ticks,
    decreases towers.len(),
{
    if towers.len() > 0 {
        let rest = towers.drop_last();
        law_bleeding_empties_every_tower(rest, ticks);
        let last = towers.last();
        assert(last == towers[towers.len() - 1]);
        crate::fixed::lemma_ceil_covers(last.energy as int, 10, ticks);
        assert(forall|i: int| 0 <= i < rest.len() ==> rest[i] == #[trigger] towers[i]);
        if forall|i: int|
            0 <= i < towers.len() && 10 <= (#[trigger] towers[i]).energy < 50_000 ==> towers[i].energy
                <= 10 * ticks {
            assert forall|i: int|
                0 <= i < rest.len() && 10 <= (#[trigger] rest[i]).energy < 50_000 implies rest[i].energy
                <= 10 * ticks by {
                assert(towers[i] == rest[i]);
            }
        }
    }
}

/// A base that is to be breached is out-healed: what the verdict asks for heals 1.3 times the fire of the
/// towers and the damage of the creeps together, and one thousandth less would not.
pub proof fn law_breach_out_heals_towers_and_creeps(
    profile: DefenseProfile,
    enemy_dps: int,
    budget: ForceBudget,
)
    requires
        profile.verdict(enemy_dps, budget).winnable,
        profile.verdict(enemy_dps, budget).mode == AssaultMode::Breach,
    ensures
        ({
            let heal = profile.verdict(enemy_dps, budget).required_heal_per_tick;
            let incoming = tower_fire(profile.towers@) * 1000 + enemy_dps;
            &&& heal * 1000 >= incoming * 1300
            &&& incoming >= 0 ==> (heal - 1) * 1000 < incoming * 1300
            &&& incoming * 1300 <= budget.max_heal_per_tick * 1000
        }),
{
    let incoming = tower_fire(profile.towers@) * 1000 + enemy_dps;
    crate::fixed::law_ceiling_is_least(incoming * 1300, 1000);
    crate::fixed::lemma_ceil_covers(incoming * 1300, 1000, budget.max_heal_per_tick as int);
    if incoming >= 0 {
        crate::fixed::lemma_ceil_covers(incoming * 1300, 1000, -1);
    }
}

/// What the squad can out-heal it breaches, and what it cannot it drains or leaves alone; so where no tower
/// stands and the creeps alone do more than it can out-heal, nothing is winnable.
pub proof fn law_out_healing_decides_the_mode(
    profile: DefenseProfile,
    enemy_dps: int,
    budget: ForceBudget,
)
    ensures
        ({
            let a = profile.verdict(enemy_dps, budget);
            let incoming = tower_fire(profile.towers@) * 1000 + enemy_dps;
            &&& a.winnable ==> (a.mode == AssaultMode::Breach <==> incoming * 1300
                <= budget.max_heal_per_tick * 1000)
            &&& profile.towers@.len() == 0 && enemy_dps * 1300 > budget.max_heal_per_tick * 1000
                ==> !a.winnable
        }),
{
    let incoming = tower_fire(profile.towers@) * 1000 + enemy_dps;
    crate::fixed::lemma_ceil_covers(incoming * 1300, 1000, budget.max_heal_per_tick as int);
}

/// A squad that can out-heal the defense wins exactly where repair does not keep up with it and the walls
/// and the objective fall, one after the other, while it lives; `through` and `down` are the least ticks
/// for the two. They are what the verdict says that winning takes.
pub proof fn law_breach_takes_its_time(
    profile: DefenseProfile,
    enemy_dps: int,
    budget: ForceBudget,
    through: int,
    down: int,
)
    requires
        (tower_fire(profile.towers@) * 1000 + enemy_dps) * 1300 <= budget.max_heal_per_tick * 1000,
        through + down <= u32::MAX,
        ({
            let net = budget.max_dismantle_dps - profile.repair_per_tick;
            let rate = if net >= 1000 {
                net
            } else {
                1000
            };
            (through - 1) * rate < profile.breach_hits * 1000 <= through * rate
        }),
        ({
            let rate = if budget.max_dismantle_dps >= 1000 {
                budget.max_dismantle_dps as int
            } else {
                1000
            };
            (down - 1) * rate < profile.objective_hits * 1000 <= down * rate
        }),
    ensures
        ({
            let a = profile.verdict(enemy_dps, budget);
            &&& a.winnable <==> {
                &&& !profile.safe_mode
                &&& profile.breach_hits == 0 || budget.max_dismantle_dps > profile.repair_per_tick
                &&& through + down <= budget.onsite_budget_ticks
            }
            &&& a.winnable ==> a.est_ticks == through + down && a.required_tank_hp == 0
        }),
{
    lemma_least_ticks(
        profile.breach_hits as int,
        budget.max_dismantle_dps - profile.repair_per_tick,
        through,
    );
    lemma_least_ticks(profile.objective_hits as int, budget.max_dismantle_dps as int, down);
    let incoming = tower_fire(profile.towers@) * 1000 + enemy_dps;
    crate::fixed::lemma_ceil_covers(incoming * 1300, 1000, budget.max_heal_per_tick as int);
    lemma_ticks_are_counted(profile.breach_hits as int, budget.max_dismantle_dps - profile.repair_per_tick);
    lemma_ticks_are_counted(profile.objective_hits as int, budget.max_dismantle_dps as int);
}

/// The least ticks that cover the hits are the ticks that the verdicts count.
proof fn lemma_least_ticks(hits: int, rate: int, ticks: int)
    requires
        ({
            let rate = crate::fixed::max_of(rate, 1000);
            (ticks - 1) * rate < hits * 1000 <= ticks * rate
        }),
    ensures
        ticks_at(hits, rate) == ticks,
{
    let rate = crate::fixed::max_of(rate, 1000);
    crate::fixed::lemma_ceil_covers(hits * 1000, rate, ticks);
    crate::fixed::lemma_ceil_covers(hits * 1000, rate, ticks - 1);
}

/// A breach asks for all the damage that the squad has. Only where nothing fires, fights or repairs it asks
/// for as much as takes down what stands there, with 1.15 times the damage that one life needs, where that
/// is less.
pub proof fn law_breach_asks_for_enough_damage(
    profile: DefenseProfile,
    enemy_dps: int,
    budget: ForceBudget,
)
    requires
        profile.verdict(enemy_dps, budget).winnable,
        profile.verdict(enemy_dps, budget).mode == AssaultMode::Breach,
    ensures
        ({
            let rate = profile.verdict(enemy_dps, budget).required_dismantle_dps;
            let most = if budget.max_dismantle_dps >= 1000 {
                budget.max_dismantle_dps as int
            } else {
                1000
            };
            let life = if budget.onsite_budget_ticks >= 1 {
                budget.onsite_budget_ticks as int
            } else {
                1
            };
            let wanted = (profile.objective_hits + profile.breach_hits) * 1150;
            let harmless = tower_fire(profile.towers@) * 1000 + enemy_dps == 0
                && profile.repair_per_tick == 0;
            &&& !harmless ==> rate == most
            &&& harmless ==> 1000 <= rate <= most
            &&& harmless && rate < most ==> rate * life >= wanted
            &&& harmless && rate > 1000 ==> (rate - 1) * life < wanted
        }),
{
    let life = crate::fixed::max_of(budget.onsite_budget_ticks as int, 1);
    let wanted = (profile.objective_hits + profile.breach_hits) * 1150;
    let least = crate::fixed::ceil_quotient(wanted, life);
    crate::fixed::law_ceiling_is_least(wanted, life);
    let rate = profile.breach_rate(enemy_dps, budget);
    if rate <= least {
        assert((rate - 1) * life <= (least - 1) * life) by (nonlinear_arith)
            requires
                rate <= least,
                life >= 1,
        ;
    }
    if rate >= least {
        assert(rate * life >= least * life) by (nonlinear_arith)
            requires
                rate >= least,
                life >= 1,
        ;
    }
}

/// Where the defense cannot be out-healed, it is drained exactly where some tower can be bled and none is
/// endless, the front member and the heal last until the towers are dry, the creeps, at a damage of one at
/// least, can be out-healed after it by 1.3, and all is done while the squad lives.
pub proof fn law_drain_outlasts_the_towers(
    profile: DefenseProfile,
    enemy_dps: int,
    budget: ForceBudget,
    through: int,
    down: int,
)
    requires
        (tower_fire(profile.towers@) * 1000 + enemy_dps) * 1300 > budget.max_heal_per_tick * 1000,
        ticks_to_drain(profile.towers@) + through + down <= u32::MAX,
        ({
            let net = budget.max_dismantle_dps - profile.repair_per_tick;
            let rate = if net >= 1000 {
                net
            } else {
                1000
            };
            (through - 1) * rate < profile.breach_hits * 1000 <= through * rate
        }),
        ({
            let rate = if budget.max_dismantle_dps >= 1000 {
                budget.max_dismantle_dps as int
            } else {
                1000
            };
            (down - 1) * rate < profile.objective_hits * 1000 <= down * rate
        }),
    ensures
        ({
            let a = profile.verdict(enemy_dps, budget);
            let soak = ticks_to_drain(profile.towers@);
            let fire = standoff_fire(profile.towers@) * 1000;
            let after = if enemy_dps >= 1000 {
                enemy_dps
            } else {
                1000
            };
            &&& a.winnable <==> {
                &&& !profile.safe_mode
                &&& profile.breach_hits == 0 || budget.max_dismantle_dps > profile.repair_per_tick
                &&& soak > 0
                &&& !some_tower_is_endless(profile.towers@)
                &&& fire * soak <= budget.tank_effective_hp + budget.max_heal_per_tick * soak
                &&& after * 1300 <= budget.max_heal_per_tick * 1000
                &&& soak + through + down <= budget.onsite_budget_ticks
            }
            &&& a.winnable ==> a.est_ticks == soak + through + down
        }),
{
    lemma_least_ticks(
        profile.breach_hits as int,
        budget.max_dismantle_dps - profile.repair_per_tick,
        through,
    );
    lemma_least_ticks(profile.objective_hits as int, budget.max_dismantle_dps as int, down);
    let incoming = tower_fire(profile.towers@) * 1000 + enemy_dps;
    let after = crate::fixed::max_of(enemy_dps, 1000);
    crate::fixed::lemma_ceil_covers(incoming * 1300, 1000, budget.max_heal_per_tick as int);
    crate::fixed::lemma_ceil_covers(after * 1300, 1000, budget.max_heal_per_tick as int);
    lemma_ticks_are_counted(profile.breach_hits as int, budget.max_dismantle_dps - profile.repair_per_tick);
    lemma_ticks_are_counted(profile.objective_hits as int, budget.max_dismantle_dps as int);
    lemma_drain_ticks_are_counted(profile.towers@);
}

/// A drain asks for heal against the creeps that are left after it, 1.3 times their damage, and for heal
/// against the towers as far as the squad has it; the hits that the towers take off beyond that, tick by
/// tick until they are dry, are what the front member has to hold. It asks for all the damage there is.
pub proof fn law_drain_asks_for_heal_and_hits(
    profile: DefenseProfile,
    enemy_dps: int,
    budget: ForceBudget,
)
    requires
        i64::MIN <= enemy_dps <= i64::MAX,
        profile.verdict(enemy_dps, budget).winnable,
        profile.verdict(enemy_dps, budget).mode == AssaultMode::Drain,
    ensures
        ({
            let a = profile.verdict(enemy_dps, budget);
            let heal = a.required_heal_per_tick;
            let fire = standoff_fire(profile.towers@) * 1000;
            let after = if enemy_dps >= 1000 {
                enemy_dps
            } else {
                1000
            };
            &&& heal * 1000 >= after * 1300
            &&& heal >= fire || heal == budget.max_heal_per_tick
            &&& (heal - 1) * 1000 < after * 1300 || heal == fire || heal == budget.max_heal_per_tick
            &&& fire <= heal ==> a.required_tank_hp == 0
            &&& fire > heal ==> a.required_tank_hp == (fire - heal) * ticks_to_drain(profile.towers@)
            &&& a.required_dismantle_dps == budget.max_dismantle_dps || (a.required_dismantle_dps == 1000
                && budget.max_dismantle_dps < 1000)
            &&& a.required_dismantle_dps >= 1000
        }),
{
    let after = crate::fixed::max_of(enemy_dps, 1000);
    crate::fixed::law_ceiling_is_least(after * 1300, 1000);
    law_winnable_is_within_budget(profile, enemy_dps, budget);
    let fire = standoff_fire(profile.towers@) * 1000;
    let ticks = ticks_to_drain(profile.towers@);
    let soak = profile.drain_heal(enemy_dps, budget);
    let heal = budget.max_heal_per_tick as int;
    let tank = budget.tank_effective_hp as int;
    let residual = crate::fixed::max_of(fire - soak, 0);
    assert(0 <= residual * ticks <= crate::fixed::max_of(tank, 0)) by (nonlinear_arith)
        requires
            0 < ticks,
            0 <= residual,
            residual == 0 || residual == fire - heal,
            fire * ticks <= tank + heal * ticks,
    ;
    if fire <= soak {
        assert(0 * ticks == 0) by (nonlinear_arith);
    }
}

/// Creeps in the open are out-healed, together with the towers, by 1.3, and out-damaged: by the margin, and
/// by enough beyond their heal to wear their hits down in the time there is. Less of any would not do, and
/// what cannot be had is not winnable.
pub proof fn law_clearing_out_heals_and_out_damages(
    towers: Seq<TowerThreat>,
    enemy_dps: Milli,
    enemy_hits: u32,
    enemy_heal: Milli,
    budget: ForceBudget,
    dps_margin: Milli,
    safe_mode: bool,
)
    ensures
        ({
            let a = creep_fight(enemy_dps, enemy_hits, enemy_heal, budget, dps_margin).verdict(
                towers,
                budget,
                safe_mode,
            );
            let (heal, rate) = (a.required_heal_per_tick, a.required_dismantle_dps);
            let incoming = tower_fire(towers) * 1000 + enemy_dps;
            let margin = if dps_margin >= 1000 {
                dps_margin as int
            } else {
                1000
            };
            let life = if budget.onsite_budget_ticks >= 1 {
                budget.onsite_budget_ticks as int
            } else {
                1
            };
            let most = budget.max_dismantle_dps;
            &&& a.winnable <==> {
                &&& !safe_mode
                &&& incoming * 1300 <= budget.max_heal_per_tick * 1000
                &&& most >= 1000
                &&& most * 1000 >= enemy_dps * margin
                &&& (most - enemy_heal) * life >= enemy_hits * 1000
                &&& enemy_hits > 0 || enemy_dps * margin > enemy_heal * 1000 || enemy_heal < 1000
            }
            &&& a.winnable ==> a.mode == AssaultMode::Breach && a.required_tank_hp == 0
            &&& a.winnable ==> heal * 1000 >= incoming * 1300
            &&& a.winnable && incoming >= 0 ==> (heal - 1) * 1000 < incoming * 1300
            &&& a.winnable ==> {
                &&& rate >= 1000
                &&& rate > enemy_heal
                &&& rate * 1000 >= enemy_dps * margin
                &&& (rate - enemy_heal) * life >= enemy_hits * 1000
                &&& rate == 1000 || (rate - 1) * 1000 < enemy_dps * margin || (rate - 1 - enemy_heal)
                    * life < enemy_hits * 1000
            }
        }),
{
    let fight = creep_fight(enemy_dps, enemy_hits, enemy_heal, budget, dps_margin);
    let incoming = tower_fire(towers) * 1000 + enemy_dps;
    let margin = crate::fixed::max_of(dps_margin as int, 1000);
    let life = crate::fixed::max_of(budget.onsite_budget_ticks as int, 1);
    let most = budget.max_dismantle_dps as int;
    let heal = enemy_heal as int;
    let hits = enemy_hits * 1000;
    crate::fixed::law_ceiling_is_least(incoming * 1300, 1000);
    crate::fixed::lemma_ceil_covers(incoming * 1300, 1000, budget.max_heal_per_tick as int);
    if incoming >= 0 {
        crate::fixed::lemma_ceil_covers(incoming * 1300, 1000, -1);
    }
    let rate = fight.kill_rate();
    crate::fixed::lemma_ceil_covers(hits, life, rate - heal);
    crate::fixed::lemma_ceil_covers(hits, life, rate - 1 - heal);
    crate::fixed::lemma_ceil_covers(hits, life, most - heal);
    crate::fixed::lemma_ceil_covers(hits, life, 0);
    crate::fixed::lemma_ceil_covers(hits, life, -1);
    assert(0 * life == 0) by (nonlinear_arith);
    assert(-1 * life < 0) by (nonlinear_arith)
        requires
            life >= 1,
    ;
    crate::fixed::lemma_ceil_covers(fight.overmatch(), 1000, rate);
    crate::fixed::lemma_ceil_covers(fight.overmatch(), 1000, rate - 1);
    crate::fixed::lemma_ceil_covers(fight.overmatch(), 1000, most);
    crate::fixed::lemma_ceil_covers(fight.overmatch(), 1000, heal);
    assert(fight.overmatch() == enemy_dps * margin);
}

/// What clearing is said to take is the least time after which the creeps' hits are worn down, beyond their
/// heal, by the margin over their damage or by a damage of one; at most the time there is.
pub proof fn law_clearing_takes_its_time(
    towers: Seq<TowerThreat>,
    enemy_dps: Milli,
    enemy_hits: u32,
    enemy_heal: Milli,
    budget: ForceBudget,
    dps_margin: Milli,
    safe_mode: bool,
    ticks: int,
)
    requires
        0 <= ticks,
        enemy_hits >= 1,
        creep_fight(enemy_dps, enemy_hits, enemy_heal, budget, dps_margin).verdict(
            towers,
            budget,
            safe_mode,
        ).winnable,
    ensures
        creep_fight(enemy_dps, enemy_hits, enemy_heal, budget, dps_margin).verdict(
            towers,
            budget,
            safe_mode,
        ).est_ticks <= ticks <==> {
            let margin = if dps_margin >= 1000 {
                dps_margin as int
            } else {
                1000
            };
            ||| budget.onsite_budget_ticks <= ticks && 1 <= ticks
            ||| enemy_hits * 1_000_000 <= ticks * (enemy_dps * margin - enemy_heal * 1000)
            ||| enemy_hits * 1000 <= ticks * (1000 - enemy_heal)
        },
{
    let fight = creep_fight(enemy_dps, enemy_hits, enemy_heal, budget, dps_margin);
    law_clear_ticks_wear_them_down(fight, ticks);
    law_clear_ticks_wear_them_down(fight, 0);
}

/// A verdict that can be won asks for the least parts that deliver its rates: twelve hits a tick for each
/// HEAL, fifty for each WORK, ten for each RANGED_ATTACK, and, where it drains, a hundred hits for each
/// TOUGH; as long as a `u32` counts them.
pub proof fn law_verdict_is_met_by_the_least_parts(a: ForceAssessment)
    requires
        a.winnable,
    ensures
        ({
            let (raze, clear) = (razing_force(a), clearing_force(a));
            let heal = a.required_heal_per_tick;
            let rate = a.required_dismantle_dps;
            let tank = a.required_tank_hp;
            &&& raze.heal_parts == clear.heal_parts
            &&& heal <= 0 ==> raze.heal_parts == 0
            &&& heal > 0 && raze.heal_parts < u32::MAX ==> (raze.heal_parts - 1) * 12_000 < heal
                <= raze.heal_parts * 12_000
            &&& rate <= 0 ==> raze.dismantle_parts == 0 && raze.immune_struct_parts == 0
            &&& rate > 0 && raze.dismantle_parts < u32::MAX ==> (raze.dismantle_parts - 1) * 50_000 < rate
                <= raze.dismantle_parts * 50_000
            &&& rate > 0 && raze.immune_struct_parts < u32::MAX ==> (raze.immune_struct_parts - 1) * 10_000
                < rate <= raze.immune_struct_parts * 10_000
            &&& clear.anti_creep_parts == raze.immune_struct_parts
            &&& a.mode == AssaultMode::Breach || tank <= 0 ==> raze.tough_parts == 0
            &&& a.mode == AssaultMode::Drain && tank > 0 && raze.tough_parts < u32::MAX ==> (
            raze.tough_parts - 1) * 100_000 < tank <= raze.tough_parts * 100_000
            &&& raze.anti_creep_parts == 0 && raze.claim_parts == 0
            &&& clear.dismantle_parts == 0 && clear.immune_struct_parts == 0
            &&& clear.tough_parts == 0 && clear.claim_parts == 0
        }),
{
    let heal = a.required_heal_per_tick as int;
    let rate = a.required_dismantle_dps as int;
    let tank = a.required_tank_hp as int;
    crate::fixed::law_ceiling_is_least(heal, 12_000);
    crate::fixed::law_ceiling_is_least(rate, 50_000);
    crate::fixed::law_ceiling_is_least(rate, 10_000);
    crate::fixed::law_ceiling_is_least(tank, 100_000);
}

/// Scaling by a factor of one or more asks for the least parts that are that many times as many.
pub proof fn law_scaling_is_least(parts: u32, factor: int)
    requires
        factor >= 1_000_000,
        scaled_parts(parts as int, factor) < u32::MAX,
    ensures
        ({
            let n = scaled_parts(parts as int, factor);
            (n - 1) * 1_000_000 < parts * factor <= n * 1_000_000
        }),
{
    law_scaling_only_adds(parts, factor);
    crate::fixed::law_ceiling_is_least(parts * factor, 1_000_000);
}

/// Each kind of part is scaled by itself.
pub proof fn law_scaling_goes_by_kind(force: RequiredForce, factor: int)
    ensures
        ({
            let more = force.scaled_by(factor);
            &&& more.heal_parts == scaled_parts(force.heal_parts as int, factor)
            &&& more.dismantle_parts == scaled_parts(force.dismantle_parts as int, factor)
            &&& more.immune_struct_parts == scaled_parts(force.immune_struct_parts as int, factor)
            &&& more.anti_creep_parts == scaled_parts(force.anti_creep_parts as int, factor)
            &&& more.tough_parts == scaled_parts(force.tough_parts as int, factor)
            &&& more.claim_parts == scaled_parts(force.claim_parts as int, factor)
        }),
{
}

/// Where nothing comes in, holding is certain; else the curve of heal against it decides, up to certainty.
pub proof fn law_holding_follows_the_curve<F: Fn(i128, i128) -> Probability>(
    curve: F,
    heal: i128,
    incoming: i128,
    p: Probability,
)
    requires
        is_win_probability(curve, heal, incoming, p),
    ensures
        incoming <= 0 ==> p == 1_000_000_000,
        incoming > 0 && p < 1_000_000_000 ==> curve.ensures((heal, incoming), p),
        incoming > 0 && p >= 1_000_000_000 ==> p == 1_000_000_000 && exists|q: Probability| #[trigger]
            curve.ensures((heal, incoming), q) && q >= 1_000_000_000,
{
}

/// What is lost asks for nothing, and says why: safe mode before all, then walls that are repaired faster
/// than they fall, then, where the defense can be out-healed, that it takes too long, and else that the
/// towers cannot be drained, that the creeps cannot be out-healed after it, or that it takes too long.
pub proof fn law_what_is_lost_says_why(profile: DefenseProfile, enemy_dps: int, budget: ForceBudget)
    ensures
        ({
            let a = profile.verdict(enemy_dps, budget);
            let heal = budget.max_heal_per_tick;
            let soak = ticks_to_drain(profile.towers@);
            let walled = profile.breach_hits > 0 && budget.max_dismantle_dps <= profile.repair_per_tick;
            let held = (tower_fire(profile.towers@) * 1000 + enemy_dps) * 1300 <= heal * 1000;
            let dry = {
                &&& soak > 0
                &&& !some_tower_is_endless(profile.towers@)
                &&& standoff_fire(profile.towers@) * 1000 * soak <= budget.tank_effective_hp + heal * soak
            };
            let after = if enemy_dps >= 1000 {
                enemy_dps
            } else {
                1000
            };
            &&& !a.winnable ==> {
                &&& a.required_heal_per_tick == 0 && a.required_dismantle_dps == 0
                &&& a.required_tank_hp == 0 && a.est_ticks == 0 && a.mode == AssaultMode::Breach
                &&& a.reason == if profile.safe_mode {
                    "enemy safe mode — zero damage possible"
                } else if walled {
                    "repair out-paces our dismantle"
                } else if held {
                    "breach too slow for one creep lifetime"
                } else if !dry {
                    "towers out-damage a single squad — needs heavy assault (G4-HEAVY)"
                } else if after * 1300 > heal * 1000 {
                    "enemy creeps out-heal our damage after the drain"
                } else {
                    "drain + breach too slow for one creep lifetime"
                }
            }
            &&& a.winnable ==> a.reason == if a.mode == AssaultMode::Breach {
                "breach: out-heal the towers and dismantle through"
            } else {
                "drain: soak the towers dry, then breach"
            }
        }),
{
    let incoming = tower_fire(profile.towers@) * 1000 + enemy_dps;
    let after = crate::fixed::max_of(enemy_dps, 1000);
    crate::fixed::lemma_ceil_covers(incoming * 1300, 1000, budget.max_heal_per_tick as int);
    crate::fixed::lemma_ceil_covers(after * 1300, 1000, budget.max_heal_per_tick as int);
}

/// A fight with creeps that is lost asks for nothing, and says why: safe mode before all, then that the
/// incoming damage cannot be out-healed, that their heal is more than the damage that is asked for, or that
/// the damage cannot be had.
pub proof fn law_a_lost_fight_says_why(
    fight: CreepFight,
    towers: Seq<TowerThreat>,
    budget: ForceBudget,
    safe_mode: bool,
)
    ensures
        ({
            let a = fight.verdict(towers, budget, safe_mode);
            let held = (tower_fire(towers) * 1000 + fight.dps) * 1300 <= budget.max_heal_per_tick * 1000;
            &&& !a.winnable ==> {
                &&& a.required_heal_per_tick == 0 && a.required_dismantle_dps == 0
                &&& a.required_tank_hp == 0 && a.est_ticks == 0 && a.mode == AssaultMode::Breach
                &&& a.reason == if safe_mode {
                    "enemy safe mode — zero damage possible"
                } else if !held {
                    "can't out-heal the incoming"
                } else if fight.kill_rate() <= fight.heal {
                    "their heal out-paces a feasible kill"
                } else {
                    "can't field enough kill dps for one squad"
                }
            }
            &&& a.winnable ==> a.reason == "clear: out-heal + out-power the enemy creeps"
        }),
{
    let incoming = tower_fire(towers) * 1000 + fight.dps;
    crate::fixed::lemma_ceil_covers(incoming * 1300, 1000, budget.max_heal_per_tick as int);
}

}
