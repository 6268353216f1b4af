//! Combat bodies, and how many parts a threat asks for.
//!
//! A [`CombatBodySpec`] counts the parts that a fight needs; [`build_combat_body`] orders them into
//! a body with the MOVE that the terrain asks for. The sizing functions turn a threat into part
//! counts, and [`sized_defender_body`] and [`sized_healer_body`] build defenders matched to it.
//! Rates are in thousandths.
use crate::constants::{HEAL_POWER, MAX_CREEP_SIZE};
use crate::fixed::{div_up, to_u32, Milli};
use crate::parts::{part_cost, push_copies, Part};
use vstd::prelude::*;

verus! {

/// How many parts of each kind a combat creep is to have, before MOVE, which follows from the
/// [`MoveProfile`].
#[derive(Clone, Copy, Debug, PartialEq, Eq, Structural)]
pub struct CombatBodySpec {
    pub tough: u32,
    pub attack: u32,
    pub ranged_attack: u32,
    pub work: u32,
    pub carry: u32,
    pub heal: u32,
    pub claim: u32,
}

impl Default for CombatBodySpec {
    fn default() -> (spec: Self)
        ensures
            forall|p: Part| spec.parts_of(p) == 0,
    {
        CombatBodySpec {
            tough: 0,
            attack: 0,
            ranged_attack: 0,
            work: 0,
            carry: 0,
            heal: 0,
            claim: 0,
        }
    }
}

impl CombatBodySpec {
    /// How many of the parts are `part`; MOVE is not among them.
    pub open spec fn parts_of(&self, part: Part) -> int {
        match part {
            Part::Tough => self.tough as int,
            Part::Attack => self.attack as int,
            Part::RangedAttack => self.ranged_attack as int,
            Part::Work => self.work as int,
            Part::Carry => self.carry as int,
            Part::Heal => self.heal as int,
            Part::Claim => self.claim as int,
            Part::Move => 0,
        }
    }

    /// The parts that tire the creep: all but MOVE.
    pub open spec fn weight(&self) -> int {
        self.tough + self.attack + self.ranged_attack + self.work + self.carry + self.heal
            + self.claim
    }

    /// The energy of the parts, with `moves` MOVE parts.
    pub open spec fn energy(&self, moves: int) -> int {
        self.tough * 10 + self.attack * 80 + self.ranged_attack * 150 + self.work * 100 + self.carry
            * 50 + self.heal * 250 + self.claim * 600 + moves * 50
    }

    /// The parts that tire the creep: all but MOVE. CARRY counts, as it may be laden on the way.
    pub fn non_move_parts(&self) -> (n: u32)
        requires
            self.weight() <= u32::MAX,
        ensures
            n == self.weight(),
    {
        self.tough + self.attack + self.ranged_attack + self.work + self.carry + self.heal
            + self.claim
    }
}

/// The terrain that a body is to cross at one tile per tick. Each part but MOVE tires the creep by
/// 1 on a road, 2 on a plain and 10 in a swamp; each MOVE rests it by 2.
#[derive(Clone, Copy, Debug, PartialEq, Eq, Structural)]
pub enum MoveProfile {
    Plains,
    Road,
    Swamp,
}

impl MoveProfile {
    /// How much one part tires the creep on each tile.
    pub open spec fn fatigue(&self) -> int {
        match self {
            MoveProfile::Plains => 2,
            MoveProfile::Road => 1,
            MoveProfile::Swamp => 10,
        }
    }

    /// The fewest MOVE parts that rest a creep as fast as `weight` parts tire it.
    pub open spec fn moves_for(&self, weight: int) -> int {
        crate::fixed::ceil_quotient(weight * self.fatigue(), 2)
    }

    /// The MOVE parts that move `non_move` other parts over this terrain at one tile per tick.
    pub fn move_parts(&self, non_move: u32) -> (n: u32)
        requires
            self.moves_for(non_move as int) <= u32::MAX,
        ensures
            n == self.moves_for(non_move as int),
    {
        match self {
            MoveProfile::Plains => non_move,
            MoveProfile::Road => non_move / 2 + non_move % 2,
            MoveProfile::Swamp => non_move * 5,
        }
    }
}

/// One round of dealing out the buckets: one part from each that still holds more than `k`.
pub open spec fn deal(buckets: Seq<(Part, u32)>, k: int) -> Seq<Part>
    decreases buckets.len(),
{
    if buckets.len() == 0 {
        Seq::empty()
    } else if buckets.last().1 > k {
        deal(buckets.drop_last(), k).push(buckets.last().0)
    } else {
        deal(buckets.drop_last(), k)
    }
}

/// The first `k` rounds of dealing out the buckets.
pub open spec fn deals(buckets: Seq<(Part, u32)>, k: int) -> Seq<Part>
    decreases k,
{
    if k <= 0 {
        Seq::empty()
    } else {
        deals(buckets, k - 1) + deal(buckets, k - 1)
    }
}

/// The buckets that stand behind the TOUGH, in the order in which they are dealt.
pub open spec fn buckets_of(spec: CombatBodySpec, moves: int) -> Seq<(Part, u32)> {
    seq![
        (Part::Move, moves as u32),
        (Part::RangedAttack, spec.ranged_attack),
        (Part::Attack, spec.attack),
        (Part::Work, spec.work),
        (Part::Carry, spec.carry),
        (Part::Heal, spec.heal),
        (Part::Claim, spec.claim),
    ]
}

/// The body of a spec: TOUGH in front, then the rest dealt out round by round.
pub open spec fn combat_body(spec: CombatBodySpec, profile: MoveProfile) -> Seq<Part> {
    crate::parts::copies(Part::Tough, spec.tough as int) + deals(
        buckets_of(spec, profile.moves_for(spec.weight())),
        MAX_CREEP_SIZE as int,
    )
}

/// The spec, with its MOVE, is a creep that exists and that `max_energy` can pay for.
pub open spec fn fits(spec: CombatBodySpec, profile: MoveProfile, max_energy: int) -> bool {
    let moves = profile.moves_for(spec.weight());
    &&& 1 <= spec.weight() + moves <= MAX_CREEP_SIZE
    &&& spec.energy(moves) <= max_energy
}

/// Builds the body of a spec with the MOVE that `move_profile` asks for, or none where it does not
/// fit one creep or costs more than `max_energy`: nothing is scaled to fit.
///
/// TOUGH stands in front, where damage is taken first; behind it the other parts take turns, MOVE
/// among them, so that under fire every ability fades evenly.
pub fn build_combat_body(
    spec: &CombatBodySpec,
    move_profile: MoveProfile,
    max_energy: u32,
) -> (r: Option<Vec<Part>>)
    ensures
        r is Some <==> fits(*spec, move_profile, max_energy as int),
        r matches Some(body) ==> body@ == combat_body(*spec, move_profile),
{
    let size: u64 = MAX_CREEP_SIZE as u64;
    let weight: u64 = spec.tough as u64 + spec.attack as u64 + spec.ranged_attack as u64
        + spec.work as u64 + spec.carry as u64 + spec.heal as u64 + spec.claim as u64;
    if weight > size {
        return None;
    }
    let moves: u32 = move_profile.move_parts(spec.non_move_parts());
    let total: u32 = spec.non_move_parts() + moves;
    if total == 0 || total > MAX_CREEP_SIZE {
        return None;
    }
    let cost: u32 = spec.tough * part_cost(Part::Tough) + spec.attack * part_cost(Part::Attack)
        + spec.ranged_attack * part_cost(Part::RangedAttack) + spec.work * part_cost(Part::Work)
        + spec.carry * part_cost(Part::Carry) + spec.heal * part_cost(Part::Heal) + spec.claim
        * part_cost(Part::Claim) + moves * part_cost(Part::Move);
    if cost > max_energy {
        return None;
    }
    let mut body: Vec<Part> = Vec::new();
    push_copies(&mut body, Part::Tough, spec.tough);
    let ghost front = body@;
    let buckets: [(Part, u32); 7] = [
        (Part::Move, moves),
        (Part::RangedAttack, spec.ranged_attack),
        (Part::Attack, spec.attack),
        (Part::Work, spec.work),
        (Part::Carry, spec.carry),
        (Part::Heal, spec.heal),
        (Part::Claim, spec.claim),
    ];
    assert(buckets@ =~= buckets_of(*spec, moves as int));
    let mut k: u32 = 0;
    while k < MAX_CREEP_SIZE
        invariant
            k <= MAX_CREEP_SIZE,
            body@ =~= front + deals(buckets@, k as int),
        decreases MAX_CREEP_SIZE - k,
    {
        let ghost dealt = body@;
        let mut b: usize = 0;
        while b < 7
            invariant
                b <= 7,
                buckets@.len() == 7,
                body@ =~= dealt + deal(buckets@.take(b as int), k as int),
            decreases 7 - b,
        {
            let (part, n) = buckets[b];
            assert(buckets@.take(b + 1).drop_last() =~= buckets@.take(b as int));
            if n > k {
                body.push(part);
            }
            b = b + 1;
        }
        assert(buckets@.take(7) =~= buckets@);
        k = k + 1;
    }
    assert(body@ =~= combat_body(*spec, move_profile));
    Some(body)
}

/// What the buckets give in the first `k` rounds, each part weighed by `f`.
spec fn bucket_sum(buckets: Seq<(Part, u32)>, k: int, f: spec_fn(Part) -> int) -> int
    decreases buckets.len(),
{
    if buckets.len() == 0 {
        0
    } else {
        bucket_sum(buckets.drop_last(), k, f) + crate::fixed::min_of(buckets.last().1 as int, k)
            * f(buckets.last().0)
    }
}

/// A round weighs what it adds to the rounds before.
proof fn lemma_deal_weight(buckets: Seq<(Part, u32)>, k: int, f: spec_fn(Part) -> int)
    requires
        k >= 0,
    ensures
        crate::parts::weigh(deal(buckets, k), f) == bucket_sum(buckets, k + 1, f) - bucket_sum(
            buckets,
            k,
            f,
        ),
    decreases buckets.len(),
{
    if buckets.len() > 0 {
        let rest = deal(buckets.drop_last(), k);
        let (part, n) = buckets.last();
        lemma_deal_weight(buckets.drop_last(), k, f);
        let more = crate::fixed::min_of(n as int, k + 1);
        let less = crate::fixed::min_of(n as int, k);
        assert(more * f(part) == less * f(part) + (more - less) * f(part)) by (nonlinear_arith);
        if n > k {
            assert(rest.push(part).drop_last() =~= rest);
            assert((more - less) * f(part) == f(part)) by (nonlinear_arith)
                requires
                    more - less == 1,
            ;
        } else {
            assert((more - less) * f(part) == 0) by (nonlinear_arith)
                requires
                    more - less == 0,
            ;
        }
    }
}

/// The rounds weigh what the buckets give in them.
proof fn lemma_deals_weight(buckets: Seq<(Part, u32)>, k: int, f: spec_fn(Part) -> int)
    requires
        k >= 0,
    ensures
        crate::parts::weigh(deals(buckets, k), f) == bucket_sum(buckets, k, f),
    decreases k,
{
    if k > 0 {
        lemma_deals_weight(buckets, k - 1, f);
        lemma_deal_weight(buckets, k - 1, f);
        crate::parts::lemma_weigh_concat(deals(buckets, k - 1), deal(buckets, k - 1), f);
    } else {
        lemma_no_rounds(buckets, f);
    }
}

/// Without rounds the buckets give nothing.
proof fn lemma_no_rounds(buckets: Seq<(Part, u32)>, f: spec_fn(Part) -> int)
    ensures
        bucket_sum(buckets, 0, f) == 0,
    decreases buckets.len(),
{
    if buckets.len() > 0 {
        lemma_no_rounds(buckets.drop_last(), f);
        let w = f(buckets.last().0);
        assert(0 * w == 0) by (nonlinear_arith);
    }
}

/// The parts of a body that fits, weighed by `f`.
proof fn lemma_combat_body_weight(
    spec: CombatBodySpec,
    profile: MoveProfile,
    max_energy: int,
    f: spec_fn(Part) -> int,
)
    requires
        fits(spec, profile, max_energy),
    ensures
        crate::parts::weigh(combat_body(spec, profile), f) == scaled(
            spec.tough as int,
            f(Part::Tough),
        ) + scaled(profile.moves_for(spec.weight()), f(Part::Move)) + scaled(
            spec.ranged_attack as int,
            f(Part::RangedAttack),
        ) + scaled(spec.attack as int, f(Part::Attack)) + scaled(spec.work as int, f(Part::Work))
            + scaled(spec.carry as int, f(Part::Carry)) + scaled(spec.heal as int, f(Part::Heal))
            + scaled(spec.claim as int, f(Part::Claim)),
{
    let moves = profile.moves_for(spec.weight());
    let b = buckets_of(spec, moves);
    let size = MAX_CREEP_SIZE as int;
    crate::parts::lemma_weigh_copies(Part::Tough, spec.tough as int, f);
    crate::parts::lemma_weigh_concat(
        crate::parts::copies(Part::Tough, spec.tough as int),
        deals(b, size),
        f,
    );
    lemma_deals_weight(b, size, f);
    assert(b.take(7) =~= b);
    assert(b.take(7).drop_last() =~= b.take(6));
    assert(b.take(6).drop_last() =~= b.take(5));
    assert(b.take(5).drop_last() =~= b.take(4));
    assert(b.take(4).drop_last() =~= b.take(3));
    assert(b.take(3).drop_last() =~= b.take(2));
    assert(b.take(2).drop_last() =~= b.take(1));
    assert(b.take(1).drop_last() =~= b.take(0));
    reveal_with_fuel(bucket_sum, 8);
    lemma_scaled(spec.tough as int, f(Part::Tough));
    lemma_scaled(moves, f(Part::Move));
    lemma_scaled(spec.ranged_attack as int, f(Part::RangedAttack));
    lemma_scaled(spec.attack as int, f(Part::Attack));
    lemma_scaled(spec.work as int, f(Part::Work));
    lemma_scaled(spec.carry as int, f(Part::Carry));
    lemma_scaled(spec.heal as int, f(Part::Heal));
    lemma_scaled(spec.claim as int, f(Part::Claim));
}

/// `n` times `w`.
spec fn scaled(n: int, w: int) -> int {
    if w == 0 {
        0
    } else if w == 1 {
        n
    } else {
        n * w
    }
}

/// A number of parts weighs the number times the part.
proof fn lemma_scaled(n: int, w: int)
    ensures
        n * w == scaled(n, w),
{
    assert(n * 0 == 0) by (nonlinear_arith);
    assert(n * 1 == n) by (nonlinear_arith);
}

/// A built body holds exactly the parts of its spec and the MOVE of its terrain: it costs what they
/// cost, within the energy, it is no larger than a creep can be, and all TOUGH stands in front.
pub proof fn law_built_body_holds_its_spec(
    spec: CombatBodySpec,
    profile: MoveProfile,
    max_energy: int,
    part: Part,
)
    requires
        fits(spec, profile, max_energy),
    ensures
        crate::parts::count_of(combat_body(spec, profile), part) == if part == Part::Move {
            profile.moves_for(spec.weight())
        } else {
            spec.parts_of(part)
        },
        combat_body(spec, profile).len() == spec.weight() + profile.moves_for(spec.weight()),
        combat_body(spec, profile).len() <= MAX_CREEP_SIZE,
        crate::parts::body_energy(combat_body(spec, profile)) == spec.energy(
            profile.moves_for(spec.weight()),
        ),
        crate::parts::body_energy(combat_body(spec, profile)) <= max_energy,
        forall|i: int| 0 <= i < spec.tough ==> #[trigger] combat_body(spec, profile)[i] == Part::Tough,
{
    let body = combat_body(spec, profile);
    lemma_combat_body_weight(spec, profile, max_energy, crate::parts::only(part));
    lemma_combat_body_weight(spec, profile, max_energy, crate::parts::each());
    lemma_combat_body_weight(spec, profile, max_energy, crate::parts::by_energy());
    crate::parts::lemma_weigh_ones(body);
}

/// Enough MOVE to keep up, and none to spare: the creep rests as fast as it tires, and one MOVE
/// fewer would not do.
pub proof fn law_moves_are_enough_and_needed(profile: MoveProfile, weight: int)
    requires
        weight >= 0,
    ensures
        2 * profile.moves_for(weight) >= weight * profile.fatigue(),
        weight > 0 ==> 2 * (profile.moves_for(weight) - 1) < weight * profile.fatigue(),
{
    assert(weight * profile.fatigue() >= 0) by (nonlinear_arith)
        requires
            weight >= 0,
            profile.fatigue() >= 0,
    ;
}

// ---------------------------------------------------------------------------------------------
// From a threat to part counts.
// ---------------------------------------------------------------------------------------------

/// The least number of parts, at least one, that make up `rate` thousandths at `per_part` whole
/// units each, as far as a `u32` counts.
pub open spec fn parts_to_cover(rate: int, per_part: int) -> int {
    crate::fixed::nearest_u32(
        crate::fixed::max_of(crate::fixed::ceil_quotient(rate, 1000 * per_part), 1),
    )
}

/// The HEAL parts that sustain `incoming_dps` on an adjacent creep; none where nothing comes in, so
/// that no part is wasted on an unarmed threat. Boosted parts heal four times as much.
pub fn defender_heal_parts_for_dps(incoming_dps: Milli, boosted: bool) -> (parts: u32)
    ensures
        parts == if incoming_dps <= 0 {
            0
        } else {
            parts_to_cover(
                incoming_dps as int,
                if boosted {
                    HEAL_POWER * 4
                } else {
                    HEAL_POWER as int
                },
            )
        },
{
    if incoming_dps <= 0 {
        return 0;
    }
    let per: i128 = if boosted { HEAL_POWER as i128 * 4 } else { HEAL_POWER as i128 };
    cover(incoming_dps, per)
}

/// What a HEAL part restores to an adjacent creep per tick.
pub const HEAL_PER_PART_ADJACENT: Milli = 12_000;

/// The least HEAL parts, at least one, that sustain tower damage of `dps`.
pub fn drain_heal_parts_for_dps(dps: Milli) -> (parts: u32)
    ensures
        parts == parts_to_cover(dps as int, HEAL_PER_PART_ADJACENT as int / 1000),
        dps <= 0 ==> parts == 1,
        dps > 0 && parts < u32::MAX ==> (parts - 1) * 12_000 < dps <= parts * 12_000,
{
    cover(dps, HEAL_PER_PART_ADJACENT as i128 / 1000)
}

/// The parts that cover a rate, at least one.
fn cover(rate: Milli, per_part: i128) -> (parts: u32)
    requires
        0 < per_part <= 1_000_000,
    ensures
        parts == parts_to_cover(rate as int, per_part as int),
{
    let needed: i128 = div_up(rate as i128, 1000 * per_part);
    to_u32(if needed > 1 { needed } else { 1 })
}

/// Ticks within which one defender is to kill its worst target.
pub const KILL_WINDOW_TICKS: u32 = 25;

/// The most offense parts that one defender is sized to. Beyond this more defenders stack their
/// damage on one target.
pub const MAX_OFFENSE_PARTS: u32 = 25;

/// The thousandths of damage that kill a target within a window through the heal focused on it.
pub open spec fn damage_to_kill(target_hp: int, enemy_focus_heal: int, window_ticks: int) -> int {
    crate::fixed::max_of(target_hp, 0) + crate::fixed::max_of(enemy_focus_heal, 0) * window_ticks
}

/// The offense parts with which one defender kills a hostile of `target_hp` within `window_ticks`,
/// through `enemy_focus_heal`: all that the enemies heal together, as they heal the one under fire.
/// None where there is no time or no damage, or where it takes more than [`MAX_OFFENSE_PARTS`].
pub fn attack_parts_to_kill(
    target_hp: Milli,
    enemy_focus_heal: Milli,
    window_ticks: u32,
    dmg_per_part: Milli,
) -> (r: Option<u32>)
    ensures
        r == kill_parts(
            target_hp as int,
            enemy_focus_heal as int,
            window_ticks as int,
            dmg_per_part as int,
        ),
{
    if window_ticks == 0 || dmg_per_part <= 0 {
        return None;
    }
    let hp: i128 = if target_hp > 0 { target_hp as i128 } else { 0 };
    let heal: i128 = if enemy_focus_heal > 0 { enemy_focus_heal as i128 } else { 0 };
    let window: i128 = window_ticks as i128;
    assert(0 <= heal * window <= 0x7fff_ffff_ffff_ffff * 0xffff_ffff) by (nonlinear_arith)
        requires
            0 <= heal <= 0x7fff_ffff_ffff_ffff,
            0 <= window <= 0xffff_ffff,
    ;
    assert(0 < window * dmg_per_part <= 0xffff_ffff * 0x7fff_ffff_ffff_ffff) by (nonlinear_arith)
        requires
            0 < dmg_per_part <= 0x7fff_ffff_ffff_ffff,
            0 < window <= 0xffff_ffff,
    ;
    let total: i128 = hp + heal * window;
    let per_part: i128 = window * dmg_per_part as i128;
    let needed: i128 = div_up(total, per_part);
    let parts: i128 = if needed > 1 { needed } else { 1 };
    if parts <= MAX_OFFENSE_PARTS as i128 {
        Some(parts as u32)
    } else {
        None
    }
}

/// The least number of parts, at least one, that land the damage within the window.
pub open spec fn kill_parts(target_hp: int, heal: int, window: int, dmg_per_part: int) -> Option<u32> {
    if window == 0 || dmg_per_part <= 0 {
        None
    } else {
        let parts = crate::fixed::max_of(
            crate::fixed::ceil_quotient(
                damage_to_kill(target_hp, heal, window),
                window * dmg_per_part,
            ),
            1,
        );
        if parts <= MAX_OFFENSE_PARTS {
            Some(parts as u32)
        } else {
            None
        }
    }
}

/// The parts that cover a rate are enough, and one part fewer is not, as long as a `u32` counts them.
pub proof fn law_parts_cover_the_rate(rate: int, per_part: int)
    requires
        0 < rate <= u32::MAX * (1000 * per_part),
        per_part > 0,
    ensures
        parts_to_cover(rate, per_part) * (1000 * per_part) >= rate,
        (parts_to_cover(rate, per_part) - 1) * (1000 * per_part) < rate,
{
    let d = 1000 * per_part;
    let q = crate::fixed::ceil_quotient(rate, d);
    crate::fixed::lemma_ceil_covers(rate, d, 0);
    crate::fixed::lemma_ceil_covers(rate, d, u32::MAX as int);
    crate::fixed::lemma_ceil_covers(rate, d, q);
    crate::fixed::lemma_ceil_covers(rate, d, q - 1);
}

/// The offense parts kill the target in time through its heal, and one part fewer would not. Where
/// there are none, though there is time and damage, even the most that one defender may have would
/// not.
pub proof fn law_offense_kills_in_time(target_hp: int, heal: int, window: int, dmg_per_part: int)
    requires
        window > 0,
        dmg_per_part > 0,
    ensures
        match kill_parts(target_hp, heal, window, dmg_per_part) {
            Some(parts) => {
                &&& 1 <= parts <= MAX_OFFENSE_PARTS
                &&& damage_to_kill(target_hp, heal, window) <= parts * (window * dmg_per_part)
                &&& parts > 1 ==> (parts - 1) * (window * dmg_per_part) < damage_to_kill(
                    target_hp,
                    heal,
                    window,
                )
            },
            None => MAX_OFFENSE_PARTS * (window * dmg_per_part) < damage_to_kill(
                target_hp,
                heal,
                window,
            ),
        },
{
    let n = damage_to_kill(target_hp, heal, window);
    let d = window * dmg_per_part;
    assert(d > 0) by (nonlinear_arith)
        requires
            window > 0,
            dmg_per_part > 0,
            d == window * dmg_per_part,
    ;
    let q = crate::fixed::ceil_quotient(n, d);
    crate::fixed::lemma_ceil_covers(n, d, 1);
    crate::fixed::lemma_ceil_covers(n, d, q);
    crate::fixed::lemma_ceil_covers(n, d, q - 1);
    crate::fixed::lemma_ceil_covers(n, d, MAX_OFFENSE_PARTS as int);
}

// ---------------------------------------------------------------------------------------------
// Defenders matched to a threat.
// ---------------------------------------------------------------------------------------------

/// The parts of a defender before MOVE.
pub struct DefenderParts {
    pub offense: int,
    pub heal: int,
    pub tough: int,
}

impl DefenderParts {
    /// One MOVE for every two other parts, and at least one.
    pub open spec fn moves(&self) -> int {
        crate::fixed::max_of(
            crate::fixed::ceil_quotient(self.offense + self.heal + self.tough, 2),
            1,
        )
    }

    /// The energy of the body.
    pub open spec fn energy(&self, offense_kind: Part) -> int {
        self.offense * crate::parts::energy_of(offense_kind) + self.heal * 250 + self.tough * 10
            + self.moves() * 50
    }

    /// The body is within the budget, and fits one creep.
    pub open spec fn fits(&self, budget: int, offense_kind: Part) -> bool {
        &&& self.energy(offense_kind) <= budget
        &&& self.offense + self.heal + self.tough + self.moves() <= MAX_CREEP_SIZE
    }

    /// TOUGH first, then offense, HEAL and MOVE.
    pub open spec fn body(&self, offense_kind: Part) -> Seq<Part> {
        crate::parts::copies(Part::Tough, self.tough) + crate::parts::copies(
            offense_kind,
            self.offense,
        ) + crate::parts::copies(Part::Heal, self.heal) + crate::parts::copies(
            Part::Move,
            self.moves(),
        )
    }
}

/// The fewest offense parts that the role can do with.
pub open spec fn offense_floor(offense: int) -> int {
    if offense > 0 {
        1
    } else {
        0
    }
}

/// The fewest HEAL parts that the role can do with: a creep without offense is a healer.
pub open spec fn heal_floor(offense: int) -> int {
    if offense == 0 {
        1
    } else {
        0
    }
}

/// What is wanted at first: the parts asked for, and two TOUGH where there is HEAL.
pub open spec fn wanted_parts(offense: int, heal: int) -> DefenderParts {
    let heal = crate::fixed::min_of(
        crate::fixed::max_of(heal, heal_floor(offense)),
        MAX_CREEP_SIZE as int,
    );
    DefenderParts {
        offense: crate::fixed::min_of(offense, MAX_CREEP_SIZE as int),
        heal,
        tough: if heal > 0 {
            2
        } else {
            0
        },
    }
}

/// What is left of the wanted parts after giving up `k` of them: TOUGH goes first, then HEAL down
/// to the floor of the role, then offense down to its floor.
pub open spec fn degraded(offense: int, heal: int, k: int) -> DefenderParts {
    let full = wanted_parts(offense, heal);
    let spare_heal = full.heal - heal_floor(offense);
    let spare_offense = full.offense - offense_floor(offense);
    DefenderParts {
        tough: full.tough - crate::fixed::within(k, 0, full.tough),
        heal: full.heal - crate::fixed::within(k - full.tough, 0, spare_heal),
        offense: full.offense - crate::fixed::within(k - full.tough - spare_heal, 0, spare_offense),
    }
}

/// How many parts can be given up before the floor of the role is reached.
pub open spec fn spare_parts(offense: int, heal: int) -> int {
    let full = wanted_parts(offense, heal);
    full.tough + full.heal - heal_floor(offense) + full.offense - offense_floor(offense)
}

/// `body` gives up as few parts as makes it fit; where nothing fits it is the floor of the role.
pub open spec fn is_best_effort(
    body: Seq<Part>,
    budget: int,
    offense: int,
    offense_kind: Part,
    heal: int,
) -> bool {
    exists|k: int|
        {
            &&& 0 <= k <= spare_parts(offense, heal)
            &&& body == (#[trigger] degraded(offense, heal, k)).body(offense_kind)
            &&& k == spare_parts(offense, heal) || degraded(offense, heal, k).fits(
                budget,
                offense_kind,
            )
            &&& forall|j: int|
                0 <= j < k ==> !(#[trigger] degraded(offense, heal, j)).fits(budget, offense_kind)
        }
}

/// The body of a defender or healer with the offense and HEAL asked for, within `budget`.
fn assemble_combat_body(
    budget: u32,
    offense_parts: u32,
    offense_kind: Part,
    heal_parts: u32,
) -> (body: Vec<Part>)
    ensures
        is_best_effort(
            body@,
            budget as int,
            offense_parts as int,
            offense_kind,
            heal_parts as int,
        ),
{
    let off_floor: u32 = if offense_parts > 0 { 1 } else { 0 };
    let heal_floor: u32 = if offense_parts == 0 { 1 } else { 0 };
    let mut off: u32 = if offense_parts < MAX_CREEP_SIZE { offense_parts } else { MAX_CREEP_SIZE };
    let wanted: u32 = if heal_parts > heal_floor { heal_parts } else { heal_floor };
    let mut heal: u32 = if wanted < MAX_CREEP_SIZE { wanted } else { MAX_CREEP_SIZE };
    let mut tough: u32 = if heal > 0 { 2 } else { 0 };
    let ghost asked = (offense_parts as int, heal_parts as int);
    let ghost mut k: int = 0;
    let kind_cost: u32 = part_cost(offense_kind);
    loop
        invariant
            off <= MAX_CREEP_SIZE,
            heal <= MAX_CREEP_SIZE,
            tough <= 2,
            asked == (offense_parts as int, heal_parts as int),
            kind_cost == crate::parts::energy_of(offense_kind),
            off_floor == crate::bodies::offense_floor(asked.0),
            heal_floor == crate::bodies::heal_floor(asked.0),
            0 <= k <= spare_parts(asked.0, asked.1),
            degraded(asked.0, asked.1, k) == (DefenderParts {
                offense: off as int,
                heal: heal as int,
                tough: tough as int,
            }),
            forall|j: int|
                0 <= j < k ==> !(#[trigger] degraded(asked.0, asked.1, j)).fits(
                    budget as int,
                    offense_kind,
                ),
        ensures
            degraded(asked.0, asked.1, k) == (DefenderParts {
                offense: off as int,
                heal: heal as int,
                tough: tough as int,
            }),
            k == spare_parts(asked.0, asked.1) || degraded(asked.0, asked.1, k).fits(
                budget as int,
                offense_kind,
            ),
        decreases off + heal + tough,
    {
        let others: u32 = off + heal + tough;
        let half: u32 = others / 2 + others % 2;
        let moves: u32 = if half > 1 { half } else { 1 };
        assert(0 <= off * kind_cost <= 50 * 600) by (nonlinear_arith)
            requires
                0 <= off <= 50,
                0 <= kind_cost <= 600,
        ;
        let cost: u32 = off * kind_cost + heal * part_cost(Part::Heal) + tough * part_cost(
            Part::Tough,
        ) + moves * part_cost(Part::Move);
        if cost <= budget && others + moves <= MAX_CREEP_SIZE {
            break;
        }
        assert(!degraded(asked.0, asked.1, k).fits(budget as int, offense_kind));
        if tough > 0 {
            tough = tough - 1;
        } else if heal > heal_floor {
            heal = heal - 1;
        } else if off > off_floor {
            off = off - 1;
        } else {
            break;
        }
        proof {
            k = k + 1;
        }
    }
    let others: u32 = off + heal + tough;
    let half: u32 = others / 2 + others % 2;
    let moves: u32 = if half > 1 { half } else { 1 };
    let mut body: Vec<Part> = Vec::new();
    push_copies(&mut body, Part::Tough, tough);
    push_copies(&mut body, offense_kind, off);
    push_copies(&mut body, Part::Heal, heal);
    push_copies(&mut body, Part::Move, moves);
    assert(body@ =~= degraded(asked.0, asked.1, k).body(offense_kind));
    body
}

/// The offense that a defender is sized to: what kills the worst target in time, or the most that
/// one defender carries.
pub open spec fn wanted_offense(target_hp: int, enemy_focus_heal: int, boosted: bool) -> int {
    match kill_parts(
        target_hp,
        enemy_focus_heal,
        KILL_WINDOW_TICKS as int,
        if boosted {
            40_000
        } else {
            10_000
        },
    ) {
        Some(parts) => parts as int,
        None => MAX_OFFENSE_PARTS as int,
    }
}

/// The HEAL that a creep is sized to under `incoming_dps`.
pub open spec fn wanted_heal(incoming_dps: int, boosted: bool) -> int {
    if incoming_dps <= 0 {
        0
    } else {
        parts_to_cover(
            incoming_dps,
            if boosted {
                48
            } else {
                12
            },
        )
    }
}

/// A ranged defender matched to a threat, within an energy `budget`: offense to kill the worst
/// target within [`KILL_WINDOW_TICKS`] through the enemies' heal, and HEAL to survive
/// `incoming_dps` as far as it fits. Never less than one RANGED_ATTACK and one MOVE. `boosted` says
/// whether this creep is boosted.
pub fn sized_defender_body(
    budget: u32,
    incoming_dps: Milli,
    target_hp: Milli,
    enemy_focus_heal: Milli,
    boosted: bool,
) -> (body: Vec<Part>)
    ensures
        is_best_effort(
            body@,
            budget as int,
            wanted_offense(target_hp as int, enemy_focus_heal as int, boosted),
            Part::RangedAttack,
            wanted_heal(incoming_dps as int, boosted),
        ),
{
    let damage: Milli = if boosted { 40_000 } else { 10_000 };
    let want_off: u32 = match attack_parts_to_kill(
        target_hp,
        enemy_focus_heal,
        KILL_WINDOW_TICKS,
        damage,
    ) {
        Some(parts) => parts,
        None => MAX_OFFENSE_PARTS,
    };
    let want_heal: u32 = defender_heal_parts_for_dps(incoming_dps, boosted);
    assemble_combat_body(budget, want_off, Part::RangedAttack, want_heal)
}

/// A healer matched to a threat, within an energy `budget`: HEAL to sustain `incoming_dps`, and
/// TOUGH in front as far as it fits. Never less than one HEAL and one MOVE.
pub fn sized_healer_body(budget: u32, incoming_dps: Milli, boosted: bool) -> (body: Vec<Part>)
    ensures
        is_best_effort(
            body@,
            budget as int,
            0,
            Part::RangedAttack,
            crate::fixed::max_of(wanted_heal(incoming_dps as int, boosted), 1),
        ),
{
    let parts: u32 = defender_heal_parts_for_dps(incoming_dps, boosted);
    let want_heal: u32 = if parts > 1 { parts } else { 1 };
    assemble_combat_body(budget, 0, Part::RangedAttack, want_heal)
}

/// A defender is never larger than a creep can be, keeps the floor of its role, and costs no more
/// than the budget wherever the floor of its role does not.
pub proof fn law_best_effort_is_usable(
    body: Seq<Part>,
    budget: int,
    offense: int,
    offense_kind: Part,
    heal: int,
)
    requires
        is_best_effort(body, budget, offense, offense_kind, heal),
        offense_kind != Part::Heal,
        offense_kind != Part::Tough,
        offense_kind != Part::Move,
        0 <= offense,
        0 <= heal,
    ensures
        body.len() <= MAX_CREEP_SIZE,
        offense > 0 ==> crate::parts::count_of(body, offense_kind) >= 1,
        offense == 0 ==> crate::parts::count_of(body, Part::Heal) >= 1,
        crate::parts::count_of(body, Part::Move) >= 1,
        degraded(offense, heal, spare_parts(offense, heal)).energy(offense_kind) <= budget
            ==> crate::parts::body_energy(body) <= budget,
{
    let k = choose|k: int|
        {
            &&& 0 <= k <= spare_parts(offense, heal)
            &&& body == (#[trigger] degraded(offense, heal, k)).body(offense_kind)
            &&& k == spare_parts(offense, heal) || degraded(offense, heal, k).fits(
                budget,
                offense_kind,
            )
            &&& forall|j: int|
                0 <= j < k ==> !(#[trigger] degraded(offense, heal, j)).fits(budget, offense_kind)
        };
    let parts = degraded(offense, heal, k);
    lemma_defender_weight(parts, offense_kind, crate::parts::each());
    lemma_defender_weight(parts, offense_kind, crate::parts::by_energy());
    lemma_defender_weight(parts, offense_kind, crate::parts::only(offense_kind));
    lemma_defender_weight(parts, offense_kind, crate::parts::only(Part::Heal));
    lemma_defender_weight(parts, offense_kind, crate::parts::only(Part::Move));
    crate::parts::lemma_weigh_ones(body);
}

/// The body weighs what its parts weigh.
proof fn lemma_defender_weight(parts: DefenderParts, offense_kind: Part, f: spec_fn(Part) -> int)
    requires
        parts.offense >= 0,
        parts.heal >= 0,
        parts.tough >= 0,
    ensures
        crate::parts::weigh(parts.body(offense_kind), f) == scaled(parts.tough, f(Part::Tough))
            + scaled(parts.offense, f(offense_kind)) + scaled(parts.heal, f(Part::Heal)) + scaled(
            parts.moves(),
            f(Part::Move),
        ),
{
    lemma_scaled(parts.tough, f(Part::Tough));
    lemma_scaled(parts.offense, f(offense_kind));
    lemma_scaled(parts.heal, f(Part::Heal));
    lemma_scaled(parts.moves(), f(Part::Move));
    let tough = crate::parts::copies(Part::Tough, parts.tough);
    let offense = crate::parts::copies(offense_kind, parts.offense);
    let heal = crate::parts::copies(Part::Heal, parts.heal);
    let moves = crate::parts::copies(Part::Move, parts.moves());
    crate::parts::lemma_weigh_copies(Part::Tough, parts.tough, f);
    crate::parts::lemma_weigh_copies(offense_kind, parts.offense, f);
    crate::parts::lemma_weigh_copies(Part::Heal, parts.heal, f);
    crate::parts::lemma_weigh_copies(Part::Move, parts.moves(), f);
    crate::parts::lemma_weigh_concat(tough, offense, f);
    crate::parts::lemma_weigh_concat(tough + offense, heal, f);
    crate::parts::lemma_weigh_concat(tough + offense + heal, moves, f);
}

/// On plains each part needs a move of its own, on roads two parts share one, and in swamps each needs five.
pub proof fn law_moves_go_by_the_ground(weight: int)
    requires
        0 <= weight,
    ensures
        MoveProfile::Plains.moves_for(weight) == weight,
        weight <= 2 * MoveProfile::Road.moves_for(weight) <= weight + 1,
        MoveProfile::Swamp.moves_for(weight) == 5 * weight,
{
}

/// A body can be built exactly where it has from one to fifty parts, moves included, and costs no more than
/// there is: 10 for each TOUGH, 80 for ATTACK, 150 for RANGED_ATTACK, 100 for WORK, 50 for CARRY and MOVE,
/// 250 for HEAL and 600 for CLAIM.
pub proof fn law_body_can_be_built_within_its_limits(
    spec: CombatBodySpec,
    profile: MoveProfile,
    max_energy: int,
)
    ensures
        ({
            let others = spec.tough + spec.attack + spec.ranged_attack + spec.work + spec.carry + spec.heal
                + spec.claim;
            let moves = match profile {
                MoveProfile::Plains => others,
                MoveProfile::Road => (others + 1) / 2,
                MoveProfile::Swamp => 5 * others,
            };
            let price = 10 * spec.tough + 80 * spec.attack + 150 * spec.ranged_attack + 100 * spec.work + 50
                * spec.carry + 250 * spec.heal + 600 * spec.claim + 50 * moves;
            fits(spec, profile, max_energy) <==> 1 <= others + moves <= 50 && price <= max_energy
        }),
{
}

/// A body is dealt in rounds after its TOUGH: in each round every kind that has a part left gives one, moves
/// first, then RANGED_ATTACK, ATTACK, WORK, CARRY, HEAL and CLAIM.
pub proof fn law_parts_are_dealt_in_rounds(spec: CombatBodySpec, moves: u32, k: int)
    requires
        0 <= k,
    ensures
        ({
            let buckets = buckets_of(spec, moves as int);
            let one = |part: Part, n: u32|
                if n > k {
                    seq![part]
                } else {
                    Seq::empty()
                };
            &&& deal(buckets, k) == one(Part::Move, moves) + one(Part::RangedAttack, spec.ranged_attack)
                + one(Part::Attack, spec.attack) + one(Part::Work, spec.work) + one(
                Part::Carry,
                spec.carry,
            ) + one(Part::Heal, spec.heal) + one(Part::Claim, spec.claim)
            &&& deals(buckets, 0) == Seq::<Part>::empty()
            &&& deals(buckets, k + 1) == deals(buckets, k) + deal(buckets, k)
        }),
{
    let b = buckets_of(spec, moves as int);
    reveal_with_fuel(deal, 8);
    let b6 = b.drop_last();
    let b5 = b6.drop_last();
    let b4 = b5.drop_last();
    let b3 = b4.drop_last();
    let b2 = b3.drop_last();
    let b1 = b2.drop_last();
    assert(b1.drop_last().len() == 0);
    let one = |part: Part, n: u32|
        if n > k {
            seq![part]
        } else {
            Seq::empty()
        };
    assert(deal(b1, k) =~= one(Part::Move, moves));
    assert(deal(b2, k) =~= deal(b1, k) + one(Part::RangedAttack, spec.ranged_attack));
    assert(deal(b3, k) =~= deal(b2, k) + one(Part::Attack, spec.attack));
    assert(deal(b4, k) =~= deal(b3, k) + one(Part::Work, spec.work));
    assert(deal(b5, k) =~= deal(b4, k) + one(Part::Carry, spec.carry));
    assert(deal(b6, k) =~= deal(b5, k) + one(Part::Heal, spec.heal));
    assert(deal(b, k) =~= deal(b6, k) + one(Part::Claim, spec.claim));
}

/// A defender heals what comes in: with the least parts that do, twelve hits each or, boosted, forty-eight,
/// as long as a `u32` counts them; and with none where nothing comes in.
pub proof fn law_defender_heals_what_comes_in(incoming: int, boosted: bool)
    ensures
        incoming <= 0 ==> wanted_heal(incoming, boosted) == 0,
        0 < incoming && wanted_heal(incoming, false) < u32::MAX ==> (wanted_heal(incoming, false) - 1)
            * 12_000 < incoming <= wanted_heal(incoming, false) * 12_000,
        0 < incoming && wanted_heal(incoming, true) < u32::MAX ==> (wanted_heal(incoming, true) - 1)
            * 48_000 < incoming <= wanted_heal(incoming, true) * 48_000,
{
    crate::fixed::law_ceiling_is_least(incoming, 12_000);
    crate::fixed::law_ceiling_is_least(incoming, 48_000);
}

/// A defender kills its target within twenty-five ticks, whatever heals it meanwhile: with the least parts
/// that do, ten hits a tick each or, boosted, forty; from one to twenty-five, and with twenty-five where
/// those are not enough.
pub proof fn law_defender_kills_in_time(target_hp: int, heal: int, boosted: bool)
    ensures
        ({
            let parts = wanted_offense(target_hp, heal, boosted);
            let each = if boosted {
                40_000int
            } else {
                10_000
            };
            let hits = if target_hp > 0 {
                target_hp
            } else {
                0
            };
            let back = if heal > 0 {
                heal
            } else {
                0
            };
            &&& 1 <= parts <= 25
            &&& parts < 25 ==> parts * each * 25 >= hits + 25 * back
            &&& parts > 1 ==> (parts - 1) * each * 25 < hits + 25 * back
        }),
{
    let each = if boosted {
        40_000int
    } else {
        10_000
    };
    law_offense_kills_in_time(target_hp, heal, 25, each);
    let parts = wanted_offense(target_hp, heal, boosted);
    assert(parts * (25 * each) == parts * each * 25 && (parts - 1) * (25 * each) == (parts - 1) * each * 25)
        by (nonlinear_arith);
    assert(parts == 25 ==> (parts - 1) * (25 * each) < 25 * (25 * each)) by (nonlinear_arith)
        requires
            each > 0,
    ;
}

/// A defender wants what was asked for, fifty of each at most; where it does not fight, one HEAL at least;
/// and two TOUGH where it heals. It moves with one part for two, and one at least.
pub proof fn law_defender_wants_what_it_needs(offense: int, heal: int)
    requires
        0 <= offense,
        0 <= heal,
    ensures
        ({
            let parts = wanted_parts(offense, heal);
            let others = parts.offense + parts.heal + parts.tough;
            &&& offense <= 50 ==> parts.offense == offense
            &&& offense > 50 ==> parts.offense == 50
            &&& heal > 50 ==> parts.heal == 50
            &&& 1 <= heal <= 50 || offense > 0 && heal == 0 ==> parts.heal == heal
            &&& offense == 0 && heal == 0 ==> parts.heal == 1
            &&& parts.heal > 0 ==> parts.tough == 2
            &&& parts.heal == 0 ==> parts.tough == 0
            &&& parts.moves() >= 1
            &&& others <= 2 * parts.moves()
            &&& others >= 1 ==> 2 * parts.moves() <= others + 1
        }),
{
}

/// What a defender cannot afford goes part by part: first TOUGH, then HEAL down to what it must have, then
/// what it fights with, down to one.
pub proof fn law_defender_gives_up_tough_first(offense: int, heal: int, k: int)
    requires
        0 <= offense,
        0 <= heal,
        0 <= k < spare_parts(offense, heal),
    ensures
        degraded(offense, heal, 0) == wanted_parts(offense, heal),
        ({
            let before = degraded(offense, heal, k);
            let after = degraded(offense, heal, k + 1);
            let must = if offense == 0 {
                1int
            } else {
                0
            };
            &&& before.tough > 0 ==> after == (DefenderParts { tough: before.tough - 1, ..before })
            &&& before.tough == 0 && before.heal > must ==> after == (DefenderParts {
                heal: before.heal - 1,
                ..before
            })
            &&& before.tough == 0 && before.heal == must ==> before.offense > 1 && after == (
            DefenderParts { offense: before.offense - 1, ..before })
        }),
{
}

/// The parts of a defender stand in this order: TOUGH, what it fights with, HEAL and MOVE; and cost their
/// price.
pub proof fn law_defender_stands_in_order(parts: DefenderParts, kind: Part, i: int)
    requires
        0 <= parts.offense,
        0 <= parts.heal,
        0 <= parts.tough,
        0 <= i < parts.body(kind).len(),
    ensures
        ({
            let body = parts.body(kind);
            let front = parts.tough + parts.offense;
            &&& body.len() == front + parts.heal + parts.moves()
            &&& body[i] == if i < parts.tough {
                Part::Tough
            } else if i < front {
                kind
            } else if i < front + parts.heal {
                Part::Heal
            } else {
                Part::Move
            }
        }),
        parts.energy(kind) == crate::parts::body_energy(parts.body(kind)),
{
    lemma_defender_weight(parts, kind, crate::parts::by_energy());
}

/// A defender can be had exactly where its body costs no more than there is and has fifty parts at most.
pub proof fn law_defender_fits_its_budget(parts: DefenderParts, kind: Part, budget: int)
    requires
        0 <= parts.offense,
        0 <= parts.heal,
        0 <= parts.tough,
    ensures
        parts.fits(budget, kind) <==> {
            let body = parts.body(kind);
            crate::parts::body_energy(body) <= budget && body.len() <= 50
        },
{
    lemma_defender_weight(parts, kind, crate::parts::by_energy());
    lemma_defender_weight(parts, kind, crate::parts::each());
    crate::parts::lemma_weigh_ones(parts.body(kind));
}

/// The best effort gives up as little as it can: it is the whole defender where that can be had; else what is
/// given up is such that giving up one part less could not be had.
pub proof fn law_best_effort_gives_up_the_least(
    body: Seq<Part>,
    budget: int,
    offense: int,
    kind: Part,
    heal: int,
)
    requires
        is_best_effort(body, budget, offense, kind, heal),
        0 <= offense,
        0 <= heal,
    ensures
        wanted_parts(offense, heal).fits(budget, kind) ==> body == wanted_parts(offense, heal).body(kind),
        exists|k: int|
            {
                &&& 0 <= k <= spare_parts(offense, heal)
                &&& body == (#[trigger] degraded(offense, heal, k)).body(kind)
                &&& k > 0 ==> !degraded(offense, heal, k - 1).fits(budget, kind)
                &&& k < spare_parts(offense, heal) ==> degraded(offense, heal, k).fits(budget, kind)
            },
{
    let k = choose|k: int|
        {
            &&& 0 <= k <= spare_parts(offense, heal)
            &&& body == (#[trigger] degraded(offense, heal, k)).body(kind)
            &&& k == spare_parts(offense, heal) || degraded(offense, heal, k).fits(budget, kind)
            &&& forall|j: int|
                0 <= j < k ==> !(#[trigger] degraded(offense, heal, j)).fits(budget, kind)
        };
    assert(degraded(offense, heal, 0) == wanted_parts(offense, heal));
    assert(body == degraded(offense, heal, k).body(kind));
}

}
