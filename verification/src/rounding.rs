//! Rounding of fractional cent quotients to whole cents.
//!
//! Every division the allocation engine performs is a division of one
//! cent amount by a positive quantity, rounded half away from zero.
//! Since all amounts here are non-negative, that is round-half-up.

use vstd::prelude::*;

verus! {

/// The quotient `a / b` rounded half up, for `a >= 0` and `b > 0`:
/// `floor(a / b + 1/2)` written over integers.
pub open spec fn round_half_up(a: int, b: int) -> int {
    (2 * a + b) / (2 * b)
}

/// Round-half-up of `p * w / t` stays between `0` and `p` whenever the
/// weight `w` does not exceed the total `t`.
pub proof fn lemma_round_half_up_bounds(p: int, w: int, t: int)
    requires
        0 <= p,
        0 <= w <= t,
        0 < t,
    ensures
        0 <= round_half_up(p * w, t),
        round_half_up(p * w, t) <= p,
{
    let num = 2 * (p * w) + t;
    let den = 2 * t;
    vstd::arithmetic::div_mod::lemma_fundamental_div_mod(num, den);
    let q = num / den;
    let r = num % den;
    assert(num == den * q + r);
    assert(0 <= r < den);
    assert(num <= 2 * (p * t) + t) by (nonlinear_arith)
        requires
            0 <= p,
            w <= t,
            num == 2 * (p * w) + t,
    ;
    assert(den * q <= 2 * (p * t) + t);
    assert(q <= p) by (nonlinear_arith)
        requires
            den == 2 * t,
            0 < t,
            den * q <= 2 * (p * t) + t,
    ;
    assert(0 <= num) by (nonlinear_arith)
        requires
            0 <= p,
            0 <= w,
            0 < t,
            num == 2 * (p * w) + t,
    ;
    assert(0 <= q) by (nonlinear_arith)
        requires
            den * q + r == num,
            0 <= num,
            0 <= r < den,
            0 < den,
    ;
}

/// The tentative equal share: `amount / n` cents, rounded half up.
pub fn div_round_half_up(amount: i64, n: usize) -> (r: i64)
    requires
        0 <= amount,
        0 < n,
    ensures
        r == round_half_up(amount as int, n as int),
        0 <= r <= amount,
{
    proof {
        lemma_round_half_up_bounds(amount as int, 1int, n as int);
        assert(amount as int * 1int == amount as int) by (nonlinear_arith);
    }
    let a: u128 = amount as u128;
    let d: u128 = n as u128;
    let q: u128 = (2 * a + d) / (2 * d);
    q as i64
}

/// The tentative proportional share: `pool * weight / total` cents,
/// rounded half up.
pub fn mul_div_round_half_up(pool: i64, weight: i64, total: i64) -> (r: i64)
    requires
        0 <= pool,
        0 <= weight <= total,
        0 < total,
    ensures
        r == round_half_up(pool as int * weight as int, total as int),
        0 <= r <= pool,
{
    proof {
        lemma_round_half_up_bounds(pool as int, weight as int, total as int);
        assert(pool as int * weight as int <= i64::MAX as int * i64::MAX as int)
            by (nonlinear_arith)
            requires
                0 <= pool <= i64::MAX,
                0 <= weight <= i64::MAX,
        ;
    }
    let p: u128 = pool as u128;
    let w: u128 = weight as u128;
    let t: u128 = total as u128;
    let q: u128 = (2 * (p * w) + t) / (2 * t);
    q as i64
}

} // verus!
