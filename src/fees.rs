use vstd::prelude::*;
use vstd::arithmetic::div_mod::{
    lemma_div_is_ordered, lemma_div_multiples_vanish_fancy, lemma_fundamental_div_mod,
    lemma_hoist_over_denominator,
};
use crate::model::{Rate, MAX_TOTAL};

verus! {

/// `n / m` rounded up, for `n >= 0` and `m > 0`.
pub open spec fn ceil_div(n: int, m: int) -> int {
    (n + m - 1) / m
}

/// The fee that `rate` puts on the amount `v` on its own: `ceil(v * rate)`.
pub open spec fn fee_on(v: int, rate: Rate) -> int {
    ceil_div(v * rate.numerator, rate.denominator as int)
}

/// The part of the fee `base * rate` owed by a contributor of `part` out of
/// `whole`: `ceil(base * rate * part / whole)`, and nothing when `whole` is zero.
pub open spec fn share(base: int, part: int, whole: int, rate: Rate) -> int {
    if whole == 0 {
        0
    } else {
        ceil_div(base * rate.numerator * part, rate.denominator * whole)
    }
}

/// `ceil_div` is the ceiling: the least `c` with `c * m >= n`.
pub proof fn lemma_ceil_div_is_ceiling(n: int, m: int)
    requires
        0 <= n,
        0 < m,
    ensures
        0 <= ceil_div(n, m),
        ceil_div(n, m) * m >= n,
        (ceil_div(n, m) - 1) * m < n,
{
    let c = ceil_div(n, m);
    lemma_fundamental_div_mod(n + m - 1, m);
    let r = (n + m - 1) % m;
    assert(n + m - 1 == m * c + r);
    assert(0 <= r < m);
    assert(c * m == m * c) by (nonlinear_arith);
    assert((c - 1) * m == m * c - m) by (nonlinear_arith);
    assert(0 <= c) by (nonlinear_arith)
        requires
            n + m - 1 == m * c + r,
            0 <= n,
            0 < m,
            r < m,
    ;
}

/// A ceiling of at most `h * m` over `m` is at most `h`.
pub proof fn lemma_ceil_div_at_most(n: int, m: int, h: int)
    requires
        0 <= n <= h * m,
        0 < m,
        0 <= h,
    ensures
        0 <= ceil_div(n, m) <= h,
{
    lemma_ceil_div_is_ceiling(n, m);
    lemma_div_is_ordered(n + m - 1, h * m + m - 1, m);
    lemma_div_multiples_vanish_fancy(h, m - 1, m);
    assert(m * h == h * m) by (nonlinear_arith);
}

/// The fee that `rate` puts on `v` on its own.
pub fn fee_on_amount(v: i128, rate: Rate) -> (r: i128)
    requires
        0 <= v <= MAX_TOTAL,
        rate.wf(),
    ensures
        r == fee_on(v as int, rate),
        0 <= r <= v,
{
    let num = rate.numerator as i128;
    let den = rate.denominator as i128;
    assert(0 <= v * num <= v * den) by (nonlinear_arith)
        requires
            0 <= v,
            0 <= num <= den,
    ;
    assert(v * den <= MAX_TOTAL * 0x1_0000_0000_0000_0000) by (nonlinear_arith)
        requires
            0 <= v <= MAX_TOTAL,
            0 <= den < 0x1_0000_0000_0000_0000,
    ;
    let n = v * num;
    proof {
        lemma_ceil_div_at_most(n as int, den as int, v as int);
        assert(v * den == den * v) by (nonlinear_arith);
    }
    (n + den - 1) / den
}

/// The part of `base * rate` owed by a contributor of `part` out of `whole`.
pub fn proportional_share(base: i128, part: i128, whole: i128, rate: Rate) -> (r: i128)
    requires
        0 <= base <= whole,
        0 <= part <= whole,
        whole <= MAX_TOTAL,
        rate.wf(),
    ensures
        r == share(base as int, part as int, whole as int, rate),
        0 <= r <= part,
{
    if whole == 0 {
        return 0;
    }
    let num = rate.numerator as i128;
    let den = rate.denominator as i128;
    let ghost big: int = 0x1_0000_0000_0000_0000;
    assert(0 <= base * part <= whole * part <= MAX_TOTAL * MAX_TOTAL) by (nonlinear_arith)
        requires
            0 <= base <= whole <= MAX_TOTAL,
            0 <= part <= MAX_TOTAL,
    ;
    let x = base * part;
    let q = x / whole;
    let rr = x % whole;
    proof {
        lemma_fundamental_div_mod(x as int, whole as int);
        lemma_div_is_ordered(x as int, whole * part, whole as int);
        lemma_div_multiples_vanish_fancy(part as int, 0, whole as int);
        assert(whole * part == whole * part + 0);
    }
    assert(0 <= q <= part);
    assert(0 <= q * num <= MAX_TOTAL * big) by (nonlinear_arith)
        requires
            0 <= q <= MAX_TOTAL,
            0 <= num < big,
    ;
    let y = q * num;
    let q1 = y / den;
    let r1 = y % den;
    proof {
        lemma_fundamental_div_mod(y as int, den as int);
    }
    assert(0 < den * whole <= big * MAX_TOTAL) by (nonlinear_arith)
        requires
            0 < den < big,
            0 < whole <= MAX_TOTAL,
    ;
    let m = den * whole;
    assert(0 <= r1 * whole < den * whole) by (nonlinear_arith)
        requires
            0 <= r1 < den,
            0 < whole,
    ;
    assert(0 <= rr * num <= whole * den) by (nonlinear_arith)
        requires
            0 <= rr < whole,
            0 <= num <= den,
    ;
    assert(whole * den == den * whole) by (nonlinear_arith);
    let z = r1 * whole + rr * num;
    let c = (z + m - 1) / m;
    proof {
        assert(base * num * part == x * num) by (nonlinear_arith)
            requires
                x == base * part,
        ;
        assert(x * num == q1 * m + z) by (nonlinear_arith)
            requires
                x == whole * q + rr,
                y == q * num,
                y == den * q1 + r1,
                m == den * whole,
                z == r1 * whole + rr * num,
        ;
        lemma_hoist_over_denominator(z + m - 1, q1 as int, m as nat);
        assert(0 <= base * num * part <= part * m) by (nonlinear_arith)
            requires
                0 <= base <= whole,
                0 <= num <= den,
                0 <= part,
                m == den * whole,
        ;
        lemma_ceil_div_at_most(base * num * part, m as int, part as int);
    }
    q1 + c
}

} // verus!
