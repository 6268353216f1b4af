//! What an objective is worth, in energy.
//!
//! Every objective is valued in one currency, so that defending a base can be weighed against
//! farming a core or denying a neighbour a remote. A defense is worth what the threat puts at risk:
//! a harmless intruder in an owned room is worth next to nothing. Values are in thousandths, rounded
//! down.
use crate::fixed::{to_i64, Milli, Probability, CERTAIN};
use vstd::prelude::*;

verus! {

/// The class of an objective that its value depends on.
#[derive(Clone, Copy, Debug, PartialEq, Eq, Structural)]
pub enum ObjectiveValueKind {
    /// Defend a room: worth more the more dangerous the threat is.
    Defend,
    /// Remove an invader core that reserves a remote: worth the income that it denies.
    FarmCore,
    /// Farm a source keeper room: worth its net income.
    FarmSourceKeeper,
    /// Farm a power bank: worth its estimated return.
    FarmPowerBank,
    /// Destroy or harass to deny resources: worth less than having them.
    Denial,
}

/// What is known of an objective. Each kind reads only its own fields.
#[derive(Clone, Copy, Debug, PartialEq, Eq, Structural)]
pub struct ObjectiveIntel {
    /// Defense: what the room is worth.
    pub asset_value: Milli,
    /// Defense: the damage per tick of the threat.
    pub threat_danger: Milli,
    /// Farm: income per tick.
    pub income_per_tick: Milli,
    /// Farm: ticks that the income lasts.
    pub horizon: Milli,
    /// Source keeper: what holding the keepers down costs per tick.
    pub upkeep_per_tick: Milli,
    /// Power bank: the estimated return.
    pub roi: Milli,
    /// Denial: what the enemy is denied.
    pub denial_value: Milli,
}

impl Default for ObjectiveIntel {
    fn default() -> (intel: Self)
        ensures
            intel == (ObjectiveIntel {
                asset_value: 0,
                threat_danger: 0,
                income_per_tick: 0,
                horizon: 0,
                upkeep_per_tick: 0,
                roi: 0,
                denial_value: 0,
            }),
    {
        ObjectiveIntel {
            asset_value: 0,
            threat_danger: 0,
            income_per_tick: 0,
            horizon: 0,
            upkeep_per_tick: 0,
            roi: 0,
            denial_value: 0,
        }
    }
}

/// What denying a resource is worth, of what having it is worth.
pub const DENIAL_DISCOUNT: Milli = 500;

/// The damage per tick that puts half of a room's worth at risk.
pub const DEFENSE_DANGER_HALF: Milli = 30_000;

/// The share of a room's worth that a threat puts at risk: `d / (d + HALF)`, in billionths.
pub open spec fn risk_of(threat_danger: int) -> int {
    if threat_danger <= 0 {
        0
    } else {
        threat_danger * CERTAIN / (threat_danger + DEFENSE_DANGER_HALF)
    }
}

/// The share of a room's worth that a threat of `threat_danger` damage per tick puts at risk:
/// nothing at zero, half at [`DEFENSE_DANGER_HALF`], and never all of it.
pub fn defense_risk(threat_danger: Milli) -> (risk: Probability)
    ensures
        risk == risk_of(threat_danger as int),
        risk < CERTAIN,
{
    if threat_danger <= 0 {
        return 0;
    }
    let d: i128 = threat_danger as i128;
    let certain: i128 = CERTAIN as i128;
    assert(d * certain == d * 1_000_000_000);
    let all: i128 = d * certain;
    let half: i128 = DEFENSE_DANGER_HALF as i128;
    let risk: i128 = all / (d + half);
    proof {
        lemma_risk_is_partial(threat_danger as int);
    }
    risk as u64
}

/// A threat never puts all at risk.
proof fn lemma_risk_is_partial(d: int)
    requires
        d > 0,
    ensures
        0 <= risk_of(d) < CERTAIN,
{
    let n = d * CERTAIN;
    let m = d + DEFENSE_DANGER_HALF;
    let q = n / m;
    vstd::arithmetic::div_mod::lemma_fundamental_div_mod(n, m);
    vstd::arithmetic::div_mod::lemma_div_pos_is_pos(n, m);
    let r = n % m;
    assert(q < 1_000_000_000) by (nonlinear_arith)
        requires
            d * 1_000_000_000 == m * q + r,
            m == d + 30_000,
            r >= 0,
            d > 0,
    ;
}

/// The value of an objective.
pub open spec fn worth(kind: ObjectiveValueKind, intel: ObjectiveIntel) -> int {
    let horizon = crate::fixed::max_of(intel.horizon as int, 0);
    match kind {
        ObjectiveValueKind::Defend => crate::fixed::max_of(
            intel.asset_value * risk_of(intel.threat_danger as int) / CERTAIN as int,
            0,
        ),
        ObjectiveValueKind::FarmCore => crate::fixed::min_of(
            crate::fixed::max_of(intel.income_per_tick as int, 0) * horizon / 1000,
            i64::MAX as int,
        ),
        ObjectiveValueKind::FarmSourceKeeper => crate::fixed::min_of(
            crate::fixed::max_of(intel.income_per_tick - intel.upkeep_per_tick, 0) * horizon / 1000,
            i64::MAX as int,
        ),
        ObjectiveValueKind::FarmPowerBank => crate::fixed::max_of(intel.roi as int, 0),
        ObjectiveValueKind::Denial => crate::fixed::max_of(intel.denial_value as int, 0)
            * DENIAL_DISCOUNT / 1000,
    }
}

/// The value of an objective, never negative:
/// - a defense, the share of the room's worth that the threat puts at risk;
/// - a core, its income over the horizon;
/// - a source keeper room, its income less the upkeep over the horizon;
/// - a power bank, its return;
/// - a denial, what is denied, discounted.
pub fn value_e(kind: ObjectiveValueKind, intel: &ObjectiveIntel) -> (value: Milli)
    ensures
        value == worth(kind, *intel),
        value >= 0,
{
    match kind {
        ObjectiveValueKind::Defend => {
            let risk: i128 = defense_risk(intel.threat_danger) as i128;
            if intel.asset_value <= 0 {
                proof {
                    lemma_no_asset(intel.asset_value as int, risk as int);
                }
                return 0;
            }
            let asset: i128 = intel.asset_value as i128;
            assert(0 <= asset * risk <= asset * 1_000_000_000) by (nonlinear_arith)
                requires
                    0 <= risk <= 1_000_000_000,
                    0 <= asset,
            ;
            (asset * risk / CERTAIN as i128) as i64
        },
        ObjectiveValueKind::FarmCore => over_horizon(intel.income_per_tick as i128, intel.horizon),
        ObjectiveValueKind::FarmSourceKeeper => over_horizon(
            intel.income_per_tick as i128 - intel.upkeep_per_tick as i128,
            intel.horizon,
        ),
        ObjectiveValueKind::FarmPowerBank => if intel.roi > 0 {
            intel.roi
        } else {
            0
        },
        ObjectiveValueKind::Denial => {
            let denied: i128 = if intel.denial_value > 0 { intel.denial_value as i128 } else { 0 };
            let discount: i128 = DENIAL_DISCOUNT as i128;
            assert(denied * discount == denied * 500);
            (denied * discount / 1000) as i64
        },
    }
}

/// A room that is worth nothing has nothing at risk.
proof fn lemma_no_asset(asset: int, risk: int)
    requires
        asset <= 0,
        0 <= risk,
    ensures
        asset * risk / CERTAIN as int <= 0,
{
    assert(asset * risk <= 0) by (nonlinear_arith)
        requires
            asset <= 0,
            0 <= risk,
    ;
}

/// What `income` per tick yields over a horizon.
fn over_horizon(income: i128, horizon: Milli) -> (total: Milli)
    requires
        -0x1_0000_0000_0000_0000 < income < 0x1_0000_0000_0000_0000,
    ensures
        total == crate::fixed::min_of(
            crate::fixed::max_of(income as int, 0) * crate::fixed::max_of(horizon as int, 0) / 1000,
            i64::MAX as int,
        ),
        total >= 0,
{
    if income <= 0 || horizon <= 0 {
        assert(crate::fixed::max_of(income as int, 0) * crate::fixed::max_of(horizon as int, 0)
            == 0) by (nonlinear_arith)
            requires
                income <= 0 || horizon <= 0,
        ;
        return 0;
    }
    let horizon: i128 = horizon as i128;
    assert(0 <= income * horizon <= 0xffff_ffff_ffff_ffff * 0x7fff_ffff_ffff_ffff)
        by (nonlinear_arith)
        requires
            0 <= income <= 0xffff_ffff_ffff_ffff,
            0 <= horizon <= 0x7fff_ffff_ffff_ffff,
    ;
    to_i64(income * horizon / 1000)
}

/// A threat that does no damage puts nothing at risk: defending against it is worth nothing.
pub proof fn law_harmless_threat_is_worth_nothing(intel: ObjectiveIntel)
    requires
        intel.threat_danger <= 0,
    ensures
        worth(ObjectiveValueKind::Defend, intel) == 0,
{
    let asset = intel.asset_value as int;
    assert(asset * 0 == 0) by (nonlinear_arith);
}

/// A more dangerous threat puts no less at risk, and is worth no less to defend against; but never
/// more than the room is worth.
pub proof fn law_defense_grows_with_danger(mild: ObjectiveIntel, severe: ObjectiveIntel)
    requires
        mild.asset_value == severe.asset_value,
        mild.asset_value >= 0,
        mild.threat_danger <= severe.threat_danger,
    ensures
        risk_of(mild.threat_danger as int) <= risk_of(severe.threat_danger as int),
        worth(ObjectiveValueKind::Defend, mild) <= worth(ObjectiveValueKind::Defend, severe),
        worth(ObjectiveValueKind::Defend, severe) <= severe.asset_value,
{
    let a = mild.threat_danger as int;
    let b = severe.threat_danger as int;
    let asset = mild.asset_value as int;
    if b > 0 {
        lemma_risk_is_partial(b);
    }
    if a > 0 {
        lemma_risk_is_partial(a);
        let half: int = 30_000;
        let pa = a * 1_000_000_000;
        let pb = b * 1_000_000_000;
        let qa = pa / (a + half);
        let qb = pb / (b + half);
        vstd::arithmetic::div_mod::lemma_fundamental_div_mod(pa, a + half);
        vstd::arithmetic::div_mod::lemma_fundamental_div_mod(pb, b + half);
        let ra = pa % (a + half);
        let rb = pb % (b + half);
        assert(qa * (b + half) <= pb) by (nonlinear_arith)
            requires
                0 < a <= b,
                half == 30_000,
                a * 1_000_000_000 == (a + half) * qa + ra,
                ra >= 0,
                pb == b * 1_000_000_000,
                0 <= qa < 1_000_000_000,
        ;
        assert(qa <= qb) by (nonlinear_arith)
            requires
                qa * (b + half) <= pb,
                pb == (b + half) * qb + rb,
                0 <= rb < b + half,
        ;
    }
    let x = risk_of(a);
    let y = risk_of(b);
    assert(0 <= asset * x <= asset * y <= asset * 1_000_000_000) by (nonlinear_arith)
        requires
            0 <= x <= y <= 1_000_000_000,
            asset >= 0,
    ;
}

/// A threat of the half-way danger puts half at risk.
pub proof fn law_half_risk_at_half_danger()
    ensures
        2 * risk_of(DEFENSE_DANGER_HALF as int) == CERTAIN,
{
}

/// What a threat puts at risk is its share of itself and thirty, in billionths rounded down.
pub proof fn law_risk_is_a_share(danger: int)
    requires
        0 < danger,
    ensures
        ({
            let risk = risk_of(danger);
            risk * (danger + 30_000) <= danger * 1_000_000_000 < (risk + 1) * (danger + 30_000)
        }),
        risk_of(0) == 0,
        risk_of(-danger) == 0,
{
    let n = danger * 1_000_000_000;
    let d = danger + 30_000;
    let q = n / d;
    let r = n % d;
    vstd::arithmetic::div_mod::lemma_fundamental_div_mod(n, d);
    assert(q * d <= n < (q + 1) * d) by (nonlinear_arith)
        requires
            n == d * q + r,
            0 <= r < d,
    ;
}

/// A defense is worth the share of the room that is at risk; a core its income over the horizon and a keeper
/// room its income beyond the upkeep; a power bank its return; and a denial half of what is denied. Each is
/// rounded down, nothing is worth less than nothing, and all fits in an `i64`.
pub proof fn law_each_kind_is_worth_what_it_brings(intel: ObjectiveIntel)
    ensures
        ({
            let value = worth(ObjectiveValueKind::Defend, intel);
            let risk = risk_of(intel.threat_danger as int);
            &&& intel.asset_value >= 0 ==> value * 1_000_000_000 <= intel.asset_value * risk < (value + 1)
                * 1_000_000_000
            &&& intel.asset_value < 0 ==> value == 0
        }),
        ({
            let value = worth(ObjectiveValueKind::FarmCore, intel);
            let whole = intel.income_per_tick * intel.horizon;
            &&& intel.income_per_tick <= 0 || intel.horizon <= 0 ==> value == 0
            &&& intel.income_per_tick > 0 && intel.horizon > 0 ==> value * 1000 <= whole && (value
                == i64::MAX || whole < (value + 1) * 1000)
        }),
        ({
            let value = worth(ObjectiveValueKind::FarmSourceKeeper, intel);
            let net = intel.income_per_tick - intel.upkeep_per_tick;
            &&& net <= 0 || intel.horizon <= 0 ==> value == 0
            &&& net > 0 && intel.horizon > 0 ==> value * 1000 <= net * intel.horizon && (value == i64::MAX
                || net * intel.horizon < (value + 1) * 1000)
        }),
        intel.roi >= 0 ==> worth(ObjectiveValueKind::FarmPowerBank, intel) == intel.roi,
        intel.roi < 0 ==> worth(ObjectiveValueKind::FarmPowerBank, intel) == 0,
        intel.denial_value >= 0 ==> 2 * worth(ObjectiveValueKind::Denial, intel) <= intel.denial_value
            <= 2 * worth(ObjectiveValueKind::Denial, intel) + 1,
        intel.denial_value < 0 ==> worth(ObjectiveValueKind::Denial, intel) == 0,
{
    let (asset, danger) = (intel.asset_value as int, intel.threat_danger as int);
    let risk = risk_of(danger);
    assert(risk >= 0) by {
        if danger > 0 {
            vstd::arithmetic::div_mod::lemma_div_pos_is_pos(danger * 1_000_000_000, danger + 30_000);
        }
    }
    if asset >= 0 {
        assert(asset * risk >= 0) by (nonlinear_arith)
            requires
                asset >= 0,
                risk >= 0,
        ;
    } else {
        lemma_no_asset(asset, risk);
    }
    let income = crate::fixed::max_of(intel.income_per_tick as int, 0);
    let net = crate::fixed::max_of(intel.income_per_tick - intel.upkeep_per_tick, 0);
    let horizon = crate::fixed::max_of(intel.horizon as int, 0);
    assert(income * horizon >= 0 && net * horizon >= 0 && 0 * horizon == 0 && income * 0 == 0 && net * 0
        == 0) by (nonlinear_arith)
        requires
            income >= 0,
            net >= 0,
            horizon >= 0,
    ;
}

}
