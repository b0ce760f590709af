//! Logarithms of fixed-point numbers to an integer base, rounded down to a whole number.

use vstd::prelude::*;
use vstd::arithmetic::div_mod::{lemma_basic_div, lemma_div_non_zero, lemma_fundamental_div_mod};
use vstd::arithmetic::power::{lemma_pow0, lemma_pow_positive, pow};
use vstd::arithmetic::power2::{
    lemma_pow2_adds, lemma_pow2_pos, lemma_pow2_strictly_increases, pow2,
};
use crate::bits::{lemma_pow2_values, pow2_128, shr_unbounded_u128};
use crate::int256::wide_mul_u128;

verus! {

/// Whether `r` is the logarithm to `base`, rounded down, of the number with the stored
/// integer `a` and `frac` fractional bits: whether the number lies between `base^r` and
/// `base^(r + 1)`.
pub open spec fn is_int_log(a: int, frac: nat, base: int, r: int) -> bool {
    if r >= 0 {
        pow(base, r as nat) * pow2(frac) <= a < pow(base, (r + 1) as nat) * pow2(frac)
    } else {
        pow2(frac) <= a * pow(base, (-r) as nat) && a * pow(base, (-r - 1) as nat) < pow2(frac)
    }
}

/// The next power of `base`.
proof fn lemma_pow_next(base: int, e: nat)
    ensures
        pow(base, e + 1) == base * pow(base, e),
{
    reveal(pow);
}

/// An exponent whose power of two is below 2^128 is below 128.
proof fn lemma_exponent_below_128(e: nat, bound: int)
    requires
        pow2(e) <= bound < pow2_128(),
    ensures
        e < 128,
{
    lemma_pow2_values();
    if e > 128 {
        lemma_pow2_strictly_increases(128, e);
    }
}

/// The logarithm to `base`, rounded down, of the number above zero with the stored integer
/// `a` and `frac` fractional bits.
///
/// A number that is not below one has the logarithm of its whole part, which is found by
/// dividing by the base until nothing is left to divide. A number below one is multiplied by
/// the base until it is not below one any more.
pub fn int_log_u128(a: u128, frac: u32, base: u32) -> (r: i32)
    requires
        a > 0,
        frac <= 128,
        base >= 2,
    ensures
        is_int_log(a as int, frac as nat, base as int, r as int),
        -128 <= r < 128,
{
    let ghost p = pow2(frac as nat) as int;
    let ghost fraction = a as int % p;
    proof {
        lemma_pow2_pos(frac as nat);
        lemma_pow2_values();
        if frac < 128 {
            lemma_pow2_strictly_increases(frac as nat, 128);
        }
        lemma_pow0(base as int);
        lemma_fundamental_div_mod(a as int, p);
    }
    let whole = shr_unbounded_u128(a, frac);
    if whole >= 1 {
        let mut rest = whole;
        let mut log: u32 = 0;
        proof {
            assert(pow(base as int, 0) * rest == rest && rest * pow2(0) == rest)
                by (nonlinear_arith)
                requires
                    pow(base as int, 0) == 1,
                    pow2(0) == 1,
            ;
        }
        while rest >= base as u128
            invariant
                base >= 2,
                rest >= 1,
                whole < pow2_128(),
                pow(base as int, log as nat) * rest <= whole < pow(base as int, log as nat) * (rest
                    + 1),
                rest * pow2(log as nat) <= whole,
                log < 128,
            decreases rest,
        {
            let ghost power = pow(base as int, log as nat);
            let next = rest / base as u128;
            let ghost digit = rest as int % base as int;
            proof {
                lemma_pow2_values();
                lemma_pow_next(base as int, log as nat);
                lemma_pow_positive(base as int, log as nat);
                lemma_fundamental_div_mod(rest as int, base as int);
                lemma_pow2_adds(log as nat, 1);
                lemma_pow2_pos(log as nat);
                assert(1 <= next < rest) by (nonlinear_arith)
                    requires
                        rest == base * next + digit,
                        0 <= digit < base,
                        rest >= base,
                        base >= 2,
                ;
                assert((base * power) * next <= whole < (base * power) * (next + 1) && next * (pow2(
                    log as nat,
                ) * 2) <= whole) by (nonlinear_arith)
                    requires
                        power * rest <= whole < power * (rest + 1),
                        rest * pow2(log as nat) <= whole,
                        rest == base * next + digit,
                        0 <= digit < base,
                        power > 0,
                        pow2(log as nat) > 0,
                        base >= 2,
                        next >= 0,
                ;
                lemma_pow2_pos((log + 1) as nat);
                assert(pow2((log + 1) as nat) <= next * pow2((log + 1) as nat)) by (nonlinear_arith)
                    requires
                        next >= 1,
                        pow2((log + 1) as nat) > 0,
                ;
                lemma_exponent_below_128((log + 1) as nat, whole as int);
            }
            rest = next;
            log = log + 1;
        }
        proof {
            let power = pow(base as int, log as nat);
            lemma_pow_next(base as int, log as nat);
            lemma_pow_positive(base as int, log as nat);
            assert(power * p <= a < (base * power) * p) by (nonlinear_arith)
                requires
                    power * rest <= whole < power * (rest + 1),
                    1 <= rest < base,
                    a == p * whole + fraction,
                    0 <= fraction < p,
                    power > 0,
            ;
        }
        log as i32
    } else {
        let mut raised = a;
        let mut steps: u32 = 0;
        proof {
            assert(a * pow(base as int, 0) == a && a * pow2(0) == a) by (nonlinear_arith)
                requires
                    pow(base as int, 0) == 1,
                    pow2(0) == 1,
            ;
            assert(a < p) by (nonlinear_arith)
                requires
                    a == p * whole + fraction,
                    0 <= fraction < p,
                    whole == 0,
            ;
        }
        loop
            invariant
                a > 0,
                base >= 2,
                frac <= 128,
                p == pow2(frac as nat),
                0 < p <= pow2_128(),
                raised == a * pow(base as int, steps as nat),
                raised < p,
                a * pow2(steps as nat) <= raised,
                steps < 128,
            decreases p - raised,
        {
            let product = wide_mul_u128(raised, base as u128);
            proof {
                lemma_pow2_values();
                lemma_pow_next(base as int, steps as nat);
                lemma_pow2_adds(steps as nat, 1);
                lemma_pow2_pos(steps as nat);
                assert(product@ == a * (base * pow(base as int, steps as nat)) && a * (pow2(
                    steps as nat,
                ) * 2) <= product@ && product@ > raised) by (nonlinear_arith)
                    requires
                        product@ == raised * base,
                        raised == a * pow(base as int, steps as nat),
                        a * pow2(steps as nat) <= raised,
                        base >= 2,
                        a > 0,
                        pow2(steps as nat) > 0,
                ;
                lemma_fundamental_div_mod(product.lo as int, p);
            }
            let reached = product.hi != 0 || shr_unbounded_u128(product.lo, frac) != 0;
            proof {
                if product.hi == 0 {
                    if product.lo < p {
                        lemma_basic_div(product.lo as int, p);
                    } else {
                        lemma_div_non_zero(product.lo as int, p);
                    }
                }
            }
            if reached {
                return -((steps + 1) as i32);
            }
            proof {
                lemma_pow2_pos((steps + 1) as nat);
                assert(pow2((steps + 1) as nat) <= a * pow2((steps + 1) as nat)) by (nonlinear_arith)
                    requires
                        a >= 1,
                        pow2((steps + 1) as nat) > 0,
                ;
                lemma_exponent_below_128((steps + 1) as nat, product.lo as int);
            }
            raised = product.lo;
            steps = steps + 1;
        }
    }
}

} // verus!
