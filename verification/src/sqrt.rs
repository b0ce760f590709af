//! Square roots of 256-bit numbers, rounded down.

use vstd::prelude::*;
use vstd::arithmetic::div_mod::lemma_small_mod;
use vstd::arithmetic::power2::{lemma_pow2_pos, lemma_pow2_unfold, pow2};
use crate::bits::{lemma_pow2_values, lemma_u128_shl, pow2_128};
use crate::int256::{lemma_wide_powers, wide_mul_u128, U256};
use crate::lemmas::lemma_pow2_below_128;

verus! {

/// Whether `r` is the square root of `n` rounded down: the greatest number whose square is
/// not above `n`.
pub open spec fn is_sqrt_floor(n: int, r: int) -> bool {
    0 <= r && r * r <= n < (r + 1) * (r + 1)
}

/// The square root of `n` rounded down, for an `n` that is not negative.
pub open spec fn sqrt_floor(n: int) -> int {
    choose|r: int| is_sqrt_floor(n, r)
}

/// Every number that is not negative has a square root rounded down.
pub proof fn lemma_sqrt_floor_exists(n: nat)
    ensures
        is_sqrt_floor(n as int, sqrt_floor(n as int)),
    decreases n,
{
    if n == 0 {
        assert(is_sqrt_floor(0, 0));
    } else {
        lemma_sqrt_floor_exists((n - 1) as nat);
        let r = sqrt_floor(n - 1);
        if (r + 1) * (r + 1) <= n {
            assert(is_sqrt_floor(n as int, r + 1)) by (nonlinear_arith)
                requires
                    0 <= r,
                    r * r <= n - 1 < (r + 1) * (r + 1),
                    (r + 1) * (r + 1) <= n,
            ;
        } else {
            assert(is_sqrt_floor(n as int, r));
        }
    }
}

/// There is only one square root rounded down.
pub proof fn lemma_sqrt_floor_unique(n: int, r: int)
    requires
        is_sqrt_floor(n, r),
    ensures
        sqrt_floor(n) == r,
{
    let s = sqrt_floor(n);
    assert(is_sqrt_floor(n, s));
    assert(s == r) by (nonlinear_arith)
        requires
            0 <= r,
            r * r <= n < (r + 1) * (r + 1),
            0 <= s,
            s * s <= n < (s + 1) * (s + 1),
    ;
}

/// The square root of a number that is not below 2^256 is not below 2^128.
pub proof fn lemma_sqrt_floor_of_large(n: int)
    requires
        n >= pow2_128() * pow2_128(),
    ensures
        sqrt_floor(n) >= pow2_128(),
{
    lemma_sqrt_floor_exists(n as nat);
    let s = sqrt_floor(n);
    assert(s >= pow2_128()) by (nonlinear_arith)
        requires
            0 <= s,
            n < (s + 1) * (s + 1),
            n >= pow2_128() * pow2_128(),
            pow2_128() > 0,
    ;
}

/// Whether `a` is not above `b`.
fn le_u256(a: U256, b: U256) -> (r: bool)
    ensures
        r == (a@ <= b@),
{
    a.hi < b.hi || (a.hi == b.hi && a.lo <= b.lo)
}

/// The square root of a 256-bit number, rounded down.
///
/// The root is built bit by bit from the top: a bit stays set where the square of the root so
/// far, with that bit, is not above the number.
pub fn sqrt_u256(n: U256) -> (r: u128)
    ensures
        is_sqrt_floor(n@, r as int),
        r == sqrt_floor(n@),
{
    let mut root: u128 = 0;
    let mut bits: u32 = 128;
    proof {
        lemma_pow2_values();
        lemma_wide_powers();
    }
    while bits > 0
        invariant
            bits <= 128,
            root + pow2(bits as nat) <= pow2_128(),
            root * root <= n@ < (root + pow2(bits as nat)) * (root + pow2(bits as nat)),
        decreases bits,
    {
        proof {
            lemma_pow2_unfold(bits as nat);
            lemma_pow2_pos((bits - 1) as nat);
            lemma_pow2_below_128((bits - 1) as nat);
            lemma_u128_shl(1, (bits - 1) as u32);
            assert(1 * pow2((bits - 1) as nat) == pow2((bits - 1) as nat)) by (nonlinear_arith);
            lemma_small_mod(pow2((bits - 1) as nat), pow2_128() as nat);
        }
        let candidate = root + (1u128 << (bits - 1));
        if le_u256(wide_mul_u128(candidate, candidate), n) {
            root = candidate;
        }
        bits = bits - 1;
    }
    proof {
        lemma_pow2_values();
        lemma_sqrt_floor_unique(n@, root as int);
    }
    root
}

} // verus!
