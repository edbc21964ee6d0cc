//! Integer helpers used by the bound calculations.

use vstd::arithmetic::power;
use vstd::math::abs;
use vstd::prelude::*;

verus! {

/// Sum of the integers `1..=n`, written in closed form.
pub open spec fn triangle(n: int) -> int {
    n * (n + 1) / 2
}

/// Returns `n * (n + 1) / 2`.
pub fn sum_n_2(n: i32) -> (r: i32)
    requires
        n * (n + 1) <= i32::MAX,
    ensures
        r == triangle(n as int),
{
    proof {
        assert(n * (n + 1) >= 0) by (nonlinear_arith);
        if n >= 46341 {
            assert(n * (n + 1) >= 46341 * 46342) by (nonlinear_arith)
                requires
                    n >= 46341,
            ;
        }
    }
    n * (n + 1) / 2
}

/// `|b^e| == |b|^e`.
proof fn lemma_pow_abs(b: int, e: nat)
    ensures
        abs(power::pow(b, e)) == power::pow(abs(b) as int, e),
    decreases e,
{
    reveal(power::pow);
    if e > 0 {
        lemma_pow_abs(b, (e - 1) as nat);
        let p = power::pow(b, (e - 1) as nat);
        assert(abs(b * p) == (abs(b) as int) * (abs(p) as int)) by (nonlinear_arith);
    }
}

/// Returns `base` raised to `exp`; an `exp` of zero or less gives 1.
pub fn pow(base: i32, exp: i32) -> (r: i32)
    requires
        exp > 0 ==> power::pow(abs(base as int) as int, exp as nat) <= i32::MAX,
    ensures
        r == power::pow(base as int, if exp > 0 { exp as nat } else { 0 }),
{
    proof {
        reveal(power::pow);
    }
    let mut result: i32 = 1;
    let mut i: i32 = 0;
    while i < exp
        invariant
            0 <= i,
            exp > 0 ==> i <= exp,
            exp <= 0 ==> i == 0,
            exp > 0 ==> power::pow(abs(base as int) as int, exp as nat) <= i32::MAX,
            result == power::pow(base as int, i as nat),
        decreases exp - i,
    {
        proof {
            reveal(power::pow);
            lemma_pow_abs(base as int, (i + 1) as nat);
            if base != 0 {
                power::lemma_pow_increases(abs(base as int), (i + 1) as nat, exp as nat);
            }
            assert(power::pow(base as int, (i + 1) as nat) == base * result);
            assert(abs(base * result) <= i32::MAX);
        }
        result = result * base;
        i = i + 1;
    }
    result
}

} // verus!
