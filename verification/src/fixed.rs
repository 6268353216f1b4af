//! Fixed-point numbers.
//!
//! Rates, margins and values carry three decimals: they are counted in thousandths, as [`Milli`].
//! Probabilities are counted in billionths, out of [`CERTAIN`]. What divides rounds in a stated
//! direction, so that the same inputs give the same decision on every machine.
use vstd::prelude::*;

verus! {

/// A number with three decimals, counted in thousandths: `1_300` is 1.3.
pub type Milli = i64;

/// A factor with six decimals, counted in millionths: `1_250_000` is 1.25.
pub type Micro = i64;

/// A probability, counted in billionths.
pub type Probability = u64;

/// The probability of what is sure to happen.
pub const CERTAIN: Probability = 1_000_000_000;

/// The quotient, rounded up.
pub open spec fn ceil_quotient(n: int, d: int) -> int {
    (n + d - 1) / d
}

/// The larger of two numbers.
pub open spec fn max_of(a: int, b: int) -> int {
    if a >= b {
        a
    } else {
        b
    }
}

/// The smaller of two numbers.
pub open spec fn min_of(a: int, b: int) -> int {
    if a <= b {
        a
    } else {
        b
    }
}

/// `x`, kept within `lo..=hi`.
pub open spec fn within(x: int, lo: int, hi: int) -> int {
    if x < lo {
        lo
    } else if x > hi {
        hi
    } else {
        x
    }
}

/// The `i64` nearest to `x`.
pub open spec fn nearest_i64(x: int) -> int {
    within(x, i64::MIN as int, i64::MAX as int)
}

/// The `u32` nearest to `x`.
pub open spec fn nearest_u32(x: int) -> int {
    within(x, 0, u32::MAX as int)
}

/// The bound that the operands of a division keep, so that rounding cannot overflow.
pub const DIV_BOUND: i128 = 0x7000_0000_0000_0000_0000_0000_0000_0000;

/// The quotient of two numbers, rounded up.
pub fn div_up(n: i128, d: i128) -> (q: i128)
    requires
        -DIV_BOUND < n < DIV_BOUND,
        0 < d < 0x1000_0000_0000_0000_0000_0000_0000_0000,
    ensures
        q == ceil_quotient(n as int, d as int),
{
    if n > 0 {
        (n + d - 1) / d
    } else {
        let whole: i128 = (-n) / d;
        proof {
            lemma_ceil_of_negative(n as int, d as int);
        }
        -whole
    }
}

/// The `i64` nearest to `x`.
pub fn to_i64(x: i128) -> (r: i64)
    ensures
        r == nearest_i64(x as int),
{
    if x > i64::MAX as i128 {
        i64::MAX
    } else if x < i64::MIN as i128 {
        i64::MIN
    } else {
        x as i64
    }
}

/// The `i64` nearest to `a + b`.
pub fn plus(a: i64, b: i64) -> (r: i64)
    ensures
        r == nearest_i64(a + b),
{
    to_i64(a as i128 + b as i128)
}

/// The `i64` nearest to `a - b`.
pub fn minus(a: i64, b: i64) -> (r: i64)
    ensures
        r == nearest_i64(a - b),
{
    to_i64(a as i128 - b as i128)
}

/// The `i64` nearest to `a * b`.
pub fn times(a: i64, b: i64) -> (r: i64)
    ensures
        r == nearest_i64(a * b),
{
    let (x, y): (i128, i128) = (a as i128, b as i128);
    assert(-0x4000_0000_0000_0000_0000_0000_0000_0000 <= x * y
        <= 0x4000_0000_0000_0000_0000_0000_0000_0000) by (nonlinear_arith)
        requires
            -0x8000_0000_0000_0000 <= x <= 0x7fff_ffff_ffff_ffff,
            -0x8000_0000_0000_0000 <= y <= 0x7fff_ffff_ffff_ffff,
    ;
    to_i64(x * y)
}

/// The `u32` nearest to `x`.
pub fn to_u32(x: i128) -> (r: u32)
    ensures
        r == nearest_u32(x as int),
{
    if x > u32::MAX as i128 {
        u32::MAX
    } else if x < 0 {
        0
    } else {
        x as u32
    }
}

/// Below zero, rounding up is truncating.
proof fn lemma_ceil_of_negative(n: int, d: int)
    requires
        n <= 0,
        d > 0,
    ensures
        ceil_quotient(n, d) == -((-n) / d),
        0 <= (-n) / d <= -n,
{
    let q = (-n) / d;
    let r = (-n) % d;
    vstd::arithmetic::div_mod::lemma_fundamental_div_mod(-n, d);
    vstd::arithmetic::div_mod::lemma_div_pos_is_pos(-n, d);
    assert(n + d - 1 == (-q) * d + (d - 1 - r)) by (nonlinear_arith)
        requires
            -n == d * q + r,
    ;
    vstd::arithmetic::div_mod::lemma_fundamental_div_mod_converse(n + d - 1, d, -q, d - 1 - r);
    assert(q <= -n) by (nonlinear_arith)
        requires
            -n == d * q + r,
            r >= 0,
            d >= 1,
            q >= 0,
    ;
}

/// A quotient rounded up is the smallest number that covers the dividend.
pub proof fn lemma_ceil_covers(n: int, d: int, k: int)
    requires
        d > 0,
    ensures
        ceil_quotient(n, d) <= k <==> n <= k * d,
{
    let q = ceil_quotient(n, d);
    let r = (n + d - 1) % d;
    vstd::arithmetic::div_mod::lemma_fundamental_div_mod(n + d - 1, d);
    assert(q <= k <==> n <= k * d) by (nonlinear_arith)
        requires
            n + d - 1 == d * q + r,
            0 <= r < d,
    ;
}

/// A quotient rounded up covers the dividend, and one less does not.
pub proof fn law_ceiling_is_least(n: int, d: int)
    requires
        d > 0,
    ensures
        (ceil_quotient(n, d) - 1) * d < n <= ceil_quotient(n, d) * d,
{
    lemma_ceil_covers(n, d, ceil_quotient(n, d));
    lemma_ceil_covers(n, d, ceil_quotient(n, d) - 1);
}

/// The larger and the smaller of two numbers are the two numbers, in order; and what is kept within bounds
/// is changed only where it lies outside, to the bound that it passed.
pub proof fn law_bounds_hold(a: int, b: int, x: int, lo: int, hi: int)
    requires
        lo <= hi,
    ensures
        min_of(a, b) <= a <= max_of(a, b),
        min_of(a, b) <= b <= max_of(a, b),
        min_of(a, b) + max_of(a, b) == a + b,
        min_of(a, b) == a || min_of(a, b) == b,
        lo <= within(x, lo, hi) <= hi,
        lo <= x <= hi ==> within(x, lo, hi) == x,
        x < lo ==> within(x, lo, hi) == lo,
        x > hi ==> within(x, lo, hi) == hi,
        -0x8000_0000_0000_0000 <= x <= 0x7fff_ffff_ffff_ffff ==> nearest_i64(x) == x,
        x > 0x7fff_ffff_ffff_ffff ==> nearest_i64(x) == 0x7fff_ffff_ffff_ffff,
        x < -0x8000_0000_0000_0000 ==> nearest_i64(x) == -0x8000_0000_0000_0000,
        0 <= x <= 0xffff_ffff ==> nearest_u32(x) == x,
        x > 0xffff_ffff ==> nearest_u32(x) == 0xffff_ffff,
        x < 0 ==> nearest_u32(x) == 0,
{
}

}
