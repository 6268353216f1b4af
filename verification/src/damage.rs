//! How the effect of a tower falls off with range.
use crate::constants::{
    TOWER_FALLOFF_RANGE, TOWER_OPTIMAL_RANGE, TOWER_POWER_ATTACK, TOWER_POWER_HEAL,
    TOWER_POWER_REPAIR,
};
use vstd::prelude::*;

verus! {

/// The effect of a tower of the given power at `range`: whole up to the optimal range, three
/// quarters less from the falloff range on, and linear in between.
pub open spec fn tower_effect(power: int, range: int) -> int {
    if range <= TOWER_OPTIMAL_RANGE {
        power
    } else if range >= TOWER_FALLOFF_RANGE {
        power - power * 3 / 4
    } else {
        power - power * 3 * (range - TOWER_OPTIMAL_RANGE) / (4 * (TOWER_FALLOFF_RANGE
            - TOWER_OPTIMAL_RANGE))
    }
}

/// Hits that one shot of a tower takes off a creep at `range`.
pub fn tower_attack_damage_at_range(range: u32) -> (hits: u32)
    ensures
        hits == tower_effect(TOWER_POWER_ATTACK as int, range as int),
        150 <= hits <= 600,
{
    falloff(TOWER_POWER_ATTACK, range)
}

/// Hits that one shot of a tower heals at `range`.
pub fn tower_heal_at_range(range: u32) -> (hits: u32)
    ensures
        hits == tower_effect(TOWER_POWER_HEAL as int, range as int),
        100 <= hits <= 400,
{
    falloff(TOWER_POWER_HEAL, range)
}

/// Hits that one shot of a tower repairs at `range`.
pub fn tower_repair_at_range(range: u32) -> (hits: u32)
    ensures
        hits == tower_effect(TOWER_POWER_REPAIR as int, range as int),
        200 <= hits <= 800,
{
    falloff(TOWER_POWER_REPAIR, range)
}

/// The effect of a tower of the given power at `range`.
fn falloff(power: u32, range: u32) -> (effect: u32)
    requires
        power <= 1_000_000,
    ensures
        effect == tower_effect(power as int, range as int),
        power % 4 == 0 ==> power / 4 <= effect <= power,
{
    if range <= TOWER_OPTIMAL_RANGE {
        power
    } else if range >= TOWER_FALLOFF_RANGE {
        power - power * 3 / 4
    } else {
        let beyond: u32 = range - TOWER_OPTIMAL_RANGE;
        let span: u32 = 4 * (TOWER_FALLOFF_RANGE - TOWER_OPTIMAL_RANGE);
        assert(0 <= power * 3 * beyond <= power * 3 * 15) by (nonlinear_arith)
            requires
                0 <= beyond <= 15,
                0 <= power,
        ;
        let lost: u32 = power * 3 * beyond / span;
        assert(lost <= power * 3 * 15 / 60) by {
            assert(span == 60);
        }
        power - lost
    }
}

/// A tower never does more from farther away.
pub proof fn law_falloff_is_monotone(power: int, near: int, far: int)
    requires
        0 <= power,
        near <= far,
    ensures
        tower_effect(power, far) <= tower_effect(power, near),
{
    let span: int = 60;
    if TOWER_OPTIMAL_RANGE < far && near < TOWER_FALLOFF_RANGE {
        let a = if near <= TOWER_OPTIMAL_RANGE { 0 } else { near - TOWER_OPTIMAL_RANGE };
        let b = if far >= TOWER_FALLOFF_RANGE { 15 } else { far - TOWER_OPTIMAL_RANGE };
        assert(0 <= power * 3 * a <= power * 3 * b) by (nonlinear_arith)
            requires
                0 <= power,
                0 <= a <= b,
        ;
        assert(power * 3 * a / span <= power * 3 * b / span);
        assert(power * 3 * 15 / span == power * 3 / 4);
    }
}

/// Up to five tiles away a tower does all that it can, from twenty tiles on a quarter of it, rounded up;
/// and on each of the fifteen tiles between it loses a twentieth, the loss rounded down.
pub proof fn law_three_quarters_are_lost_over_fifteen_tiles(power: int, range: int)
    requires
        0 <= power,
        0 <= range,
    ensures
        range <= 5 ==> tower_effect(power, range) == power,
        range >= 20 ==> power <= 4 * tower_effect(power, range) < power + 4,
        5 <= range <= 20 ==> {
            let lost = power - tower_effect(power, range);
            20 * lost <= power * (range - 5) < 20 * (lost + 1)
        },
{
    if 5 < range < 20 {
        let n = power * 3 * (range - 5);
        assert(n == 3 * (power * (range - 5))) by (nonlinear_arith)
            requires
                n == power * 3 * (range - 5),
        ;
        assert(4 * (TOWER_FALLOFF_RANGE - TOWER_OPTIMAL_RANGE) == 60);
        let lost = n / 60;
        assert(60 * lost <= n < 60 * lost + 60);
        assert(20 * lost <= power * (range - 5) < 20 * (lost + 1));
    } else if range == 5 {
        assert(power * 0 == 0) by (nonlinear_arith);
    } else if range == 20 {
        assert(power * 15 == 15 * power);
    }
}

}
