//! Rounding to whole numbers, on 256-bit values wide enough that no rounding overflows.

use vstd::prelude::*;
use vstd::arithmetic::div_mod::{
    lemma_fundamental_div_mod, lemma_fundamental_div_mod_converse, lemma_small_mod,
};
use vstd::arithmetic::power2::{lemma_pow2_pos, lemma_pow2_unfold, pow2};
use crate::bits::{
    clear_low_bits_u128, lemma_mod_near, lemma_pow2_split_128, lemma_pow2_values,
    lemma_two_limbs_div, lemma_u128_shl, lemma_u128_shr, pow2_128,
};
use crate::int256::{
    i256_wrapping_as_u256, overflowing_add_u256, pow2_255, pow2_256, u256_wrapping_as_i256,
    widening_shl_u128, wrapping_neg_u256, I256,
};
use crate::lemmas::lemma_pow2_below_128;
use crate::traits::{ceil_to, floor_to, round_ties_even_to, round_to, trunc_to};

verus! {

/// Whether `x` is small enough to be rounded: no further from zero than 2^129.
pub open spec fn roundable(x: I256) -> bool {
    -2 * pow2_128() <= x@ <= 2 * pow2_128()
}

/// The remainder of a two-limb number by 2^frac is that of its low limb.
pub proof fn lemma_rest_is_of_low_limb(hi: int, lo: int, frac: nat)
    requires
        frac <= 128,
        0 <= lo < pow2_128(),
    ensures
        (hi * pow2_128() + lo) % (pow2(frac) as int) == lo % (pow2(frac) as int),
{
    let p = pow2(frac) as int;
    let s = pow2((128 - frac) as nat) as int;
    lemma_pow2_split_128((128 - frac) as nat, frac);
    lemma_fundamental_div_mod(lo, p);
    let lq = lo / p;
    let lr = lo % p;
    assert(hi * pow2_128() + lo == (hi * s + lq) * p + lr) by (nonlinear_arith)
        requires
            lo == p * lq + lr,
            s * p == pow2_128(),
    ;
    lemma_fundamental_div_mod_converse(hi * pow2_128() + lo, p, hi * s + lq, lr);
}

/// The least whole number not below `v` is `v` itself where `v` is whole, and else one step
/// above the greatest whole number not above `v`.
proof fn lemma_ceil_from_floor(v: int, frac: nat)
    ensures
        ceil_to(v, frac) == if v % (pow2(frac) as int) == 0 {
            v
        } else {
            floor_to(v, frac) + pow2(frac)
        },
{
    let p = pow2(frac) as int;
    lemma_pow2_pos(frac);
    lemma_fundamental_div_mod(v, p);
    let q = v / p;
    let r = v % p;
    if r == 0 {
        assert(-v == (-q) * p + 0) by (nonlinear_arith)
            requires
                v == p * q + r,
                r == 0,
        ;
        lemma_fundamental_div_mod_converse(-v, p, -q, 0);
    } else {
        assert(-v == (-q - 1) * p + (p - r)) by (nonlinear_arith)
            requires
                v == p * q + r,
        ;
        lemma_fundamental_div_mod_converse(-v, p, -q - 1, p - r);
    }
}

/// The greatest whole number that is not above `x`.
pub fn floor_i256(x: I256, frac: u32) -> (r: I256)
    requires
        frac <= 128,
    ensures
        r@ == floor_to(x@, frac as nat),
        r.hi == x.hi,
        x.lo - r.lo == x@ % (pow2(frac as nat) as int),
{
    proof {
        lemma_rest_is_of_low_limb(x.hi as int, x.lo as int, frac as nat);
    }
    I256 { lo: clear_low_bits_u128(x.lo, frac), hi: x.hi }
}

/// `x` plus 2^e.
fn add_pow2(x: I256, e: u32) -> (r: I256)
    requires
        e <= 128,
        -pow2_255() <= x@,
        x@ + pow2(e as nat) < pow2_255(),
    ensures
        r@ == x@ + pow2(e as nat),
{
    let step = widening_shl_u128(1, e);
    proof {
        assert(1 * pow2(e as nat) == pow2(e as nat)) by (nonlinear_arith);
        lemma_pow2_pos(e as nat);
    }
    let bits = i256_wrapping_as_u256(x);
    proof {
        lemma_mod_near(bits@ + step@, pow2_256());
    }
    let (sum, carry) = overflowing_add_u256(bits, step);
    u256_wrapping_as_i256(sum)
}

/// `x` negated.
fn neg_i256(x: I256) -> (r: I256)
    requires
        x@ != -pow2_255(),
    ensures
        r@ == -x@,
{
    u256_wrapping_as_i256(wrapping_neg_u256(i256_wrapping_as_u256(x)))
}

/// The least whole number that is not below `x`.
pub fn ceil_i256(x: I256, frac: u32) -> (r: I256)
    requires
        frac <= 128,
        roundable(x),
    ensures
        r@ == ceil_to(x@, frac as nat),
{
    let below = floor_i256(x, frac);
    proof {
        lemma_ceil_from_floor(x@, frac as nat);
        lemma_pow2_pos(frac as nat);
        lemma_pow2_values();
        if frac < 128 {
            lemma_pow2_below_128(frac as nat);
        }
    }
    if x.lo == below.lo {
        x
    } else {
        add_pow2(below, frac)
    }
}

/// The whole number next to `x` in the direction of zero.
pub fn trunc_i256(x: I256, frac: u32) -> (r: I256)
    requires
        frac <= 128,
        roundable(x),
    ensures
        r@ == trunc_to(x@, frac as nat),
{
    if x.hi >= 0 {
        floor_i256(x, frac)
    } else {
        ceil_i256(x, frac)
    }
}

/// The whole number nearest to `x`; of two that are equally near, the one further from zero.
pub fn round_i256(x: I256, frac: u32) -> (r: I256)
    requires
        frac <= 128,
        roundable(x),
    ensures
        r@ == round_to(x@, frac as nat),
{
    proof {
        lemma_pow2_values();
        lemma_pow2_pos(frac as nat);
        if frac > 0 {
            lemma_pow2_unfold(frac as nat);
            lemma_pow2_pos((frac - 1) as nat);
            if frac < 128 {
                lemma_pow2_below_128(frac as nat);
            }
        }
    }
    if frac == 0 {
        proof {
            assert(x@ % 1 == 0 && (-x@) % 1 == 0);
        }
        x
    } else if x.hi >= 0 {
        floor_i256(add_pow2(x, frac - 1), frac)
    } else {
        neg_i256(floor_i256(add_pow2(neg_i256(x), frac - 1), frac))
    }
}

/// The whole number nearest to `x`; of two that are equally near, the even one.
pub fn round_ties_even_i256(x: I256, frac: u32) -> (r: I256)
    requires
        frac <= 128,
        roundable(x),
    ensures
        r@ == round_ties_even_to(x@, frac as nat),
{
    let below = floor_i256(x, frac);
    proof {
        lemma_pow2_values();
        lemma_pow2_pos(frac as nat);
        if frac > 0 {
            lemma_pow2_unfold(frac as nat);
            lemma_pow2_pos((frac - 1) as nat);
            if frac < 128 {
                lemma_pow2_below_128(frac as nat);
            }
            lemma_pow2_below_128((frac - 1) as nat);
            lemma_u128_shl(1, (frac - 1) as u32);
            assert(1 * pow2((frac - 1) as nat) == pow2((frac - 1) as nat)) by (nonlinear_arith);
            lemma_small_mod(
                pow2((frac - 1) as nat),
                pow2_128() as nat,
            );
        }
    }
    if frac == 0 {
        proof {
            assert(x@ % 1 == 0);
        }
        x
    } else {
        let rest = x.lo - below.lo;
        let half = 1u128 << (frac - 1);
        let up = if rest > half {
            true
        } else if rest < half {
            false
        } else if frac == 128 {
            proof {
                lemma_whole_part_of_high_limb(below.hi as int);
            }
            // The whole part is the high limb, which is even in two's complement where its
            // lowest bit is clear.
            below.hi % 2 != 0
        } else {
            proof {
                lemma_whole_part_parity(below.hi as int, below.lo as int, frac as nat);
                lemma_u128_shr(below.lo, frac);
            }
            (below.lo >> frac) % 2 != 0
        };
        if up {
            add_pow2(below, frac)
        } else {
            below
        }
    }
}

/// With 128 fractional bits the whole part of a two-limb whole number is its high limb.
proof fn lemma_whole_part_of_high_limb(hi: int)
    ensures
        (hi * pow2_128()) / pow2_128() == hi,
{
}

/// With fewer than 128 fractional bits the whole part of a two-limb number is odd exactly
/// when the whole part of its low limb is, since the high limb adds an even number to it.
proof fn lemma_whole_part_parity(hi: int, lo: int, frac: nat)
    requires
        frac < 128,
        0 <= lo < pow2_128(),
    ensures
        ((hi * pow2_128() + lo) / (pow2(frac) as int)) % 2 == (lo / (pow2(frac) as int)) % 2,
{
    let p = pow2(frac) as int;
    let s = pow2((128 - frac) as nat) as int;
    lemma_two_limbs_div(hi, lo, (128 - frac) as nat, frac);
    lemma_pow2_unfold((128 - frac) as nat);
    let h = pow2((127 - frac) as nat) as int;
    assert(hi * s == (hi * h) * 2) by (nonlinear_arith)
        requires
            s == 2 * h,
    ;
    let k = hi * h;
    let w = lo / p;
    assert((k * 2 + w) % 2 == w % 2);
}

} // verus!
