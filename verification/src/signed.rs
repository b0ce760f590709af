//! Signed fixed-point numbers of 128 bits.

use vstd::prelude::*;
use vstd::arithmetic::div_mod::{
    lemma_div_by_multiple, lemma_div_is_ordered_by_denominator, lemma_fundamental_div_mod,
    lemma_small_mod,
};
use vstd::arithmetic::power2::{
    lemma_pow2_adds, lemma_pow2_pos, lemma_pow2_strictly_increases, pow2,
};
use crate::bits::{
    clear_low_bits_u128, count_ones_u128, leading_zeros_u128, lemma_i128_as_u128, lemma_i128_not,
    lemma_i128_shr, lemma_mod_near, lemma_pow2_values, lemma_u128_as_i128, lemma_u128_not,
    lemma_u128_shl, low_ones, pow2_127, pow2_128, reverse_bits_u128, rotate_left_u128,
    shl_unbounded_u128, shr_unbounded_i128, swap_bytes_u128, trailing_zeros_u128,
};
use crate::bytes::{
    from_be_bytes_u128, from_le_bytes_u128, from_ne_bytes_u128, to_be_bytes_u128, to_be_u128,
    to_le_bytes_u128, to_le_u128, to_ne_bytes_u128,
};
use crate::convert::{parts_of_i128, rescale_magnitude};
use crate::int256::{
    abs, div_rem_i256_i128_no_overflow, div_rem_u256_u128, lemma_shift_right_zero,
    lemma_wide_powers, overflowing_add_i256_i128, overflowing_add_u256,
    overflowing_shl_i256_into_i128, pow2_255, pow2_256, shl_i256_max_128, shl_u256_max_128,
    u256_wrapping_as_i256, wide_mul_i128, wide_mul_u128, widening_shl_i128, widening_shl_u128,
    wrap_u128, wrapping_add_u256_u128, wrapping_neg_u256, I256, U256,
};
use crate::lemmas::{
    lemma_abs_mul, lemma_descale_bound, lemma_descale_negated, lemma_euclid_by_integer,
    lemma_euclid_from_magnitudes, lemma_neg_mod, lemma_pow2_below_128,
    lemma_trunc_div_from_magnitudes, lemma_trunc_div_unique, lemma_trunc_is_nearer_zero,
    lemma_trunc_rem_from_magnitudes,
};
use crate::log::int_log_u128;
use crate::nonzero::{NonZeroI128, NonZeroU128};
use crate::rounding::{
    ceil_i256, floor_i256, lemma_rest_is_of_low_limb, round_i256, round_ties_even_i256, roundable,
    trunc_i256,
};
use crate::sqrt::{lemma_sqrt_floor_of_large, sqrt_u256};
use crate::traits::{
    descale, euclid_div, euclid_rem, rescale, saturate, Fixed, FixedSigned, FromFixed, ToFixed,
};
use crate::unsigned::FixedU128;

verus! {

/// A signed fixed-point number of 128 bits, `FRAC` of them fractional: the stored integer, in
/// two's complement, divided by 2^FRAC. `FRAC` is at most 128.
#[derive(Clone, Copy, Debug, PartialEq, Eq, PartialOrd, Ord, Hash)]
pub struct FixedI128<const FRAC: u32> {
    bits: i128,
}

/// The bits of a signed number read as an unsigned number.
fn pattern(x: i128) -> (r: u128)
    ensures
        r == wrap_u128(x as int),
        r as int == if x < 0 { x + pow2_128() } else { x as int },
{
    proof {
        lemma_i128_as_u128(x);
        lemma_mod_near(x as int, pow2_128());
    }
    #[verifier::truncate]
    (x as u128)
}

/// The bits of an unsigned number read as a signed number.
fn from_pattern(p: u128) -> (r: i128)
    ensures
        wrap_u128(r as int) == p,
        r as int == if p < pow2_127() { p as int } else { p - pow2_128() },
{
    proof {
        lemma_u128_as_i128(p);
        lemma_mod_near(p as int - pow2_128(), pow2_128());
        lemma_mod_near(p as int, pow2_128());
    }
    #[verifier::truncate]
    (p as i128)
}

/// The distance between two signed numbers.
fn distance(a: i128, b: i128) -> (r: u128)
    ensures
        r == abs(a - b),
{
    if a >= b {
        pattern(a).wrapping_sub(pattern(b))
    } else {
        pattern(b).wrapping_sub(pattern(a))
    }
}

/// The distance of a signed number from zero.
fn magnitude(x: i128) -> (r: u128)
    ensures
        r == abs(x as int),
{
    if x < 0 {
        ((-(x + 1)) as u128) + 1
    } else {
        x as u128
    }
}

impl<const FRAC: u32> FixedI128<FRAC> {
    /// The fractional bits are among the 128 bits of the number.
    #[verifier::type_invariant]
    spec fn frac_fits(self) -> bool {
        FRAC <= 128
    }

    /// The stored integer as a 256-bit number.
    fn widened(self) -> (r: I256)
        ensures
            r@ == self.as_int(),
            roundable(r),
    {
        proof {
            lemma_pow2_values();
            assert(self.bits * pow2(0) == self.bits) by (nonlinear_arith)
                requires
                    pow2(0) == 1,
            ;
        }
        widening_shl_i128(self.bits, 0)
    }

    /// The number with the given distance from zero on the given side of it, or the bound on
    /// that side where it lies outside the range.
    fn held_signed(distance: U256, negative: bool) -> (r: Self)
        requires
            FRAC <= 128,
        ensures
            r.as_int() == saturate(
                if negative { -distance@ } else { distance@ },
                i128::MIN as int,
                i128::MAX as int,
            ),
    {
        if negative {
            if distance.hi != 0 || distance.lo >= 0x8000_0000_0000_0000_0000_0000_0000_0000u128 {
                FixedI128 { bits: i128::MIN }
            } else {
                FixedI128 { bits: -(distance.lo as i128) }
            }
        } else {
            if distance.hi != 0 || distance.lo > i128::MAX as u128 {
                FixedI128 { bits: i128::MAX }
            } else {
                FixedI128 { bits: distance.lo as i128 }
            }
        }
    }

    /// A stored integer that is not negative, or the upper bound where it lies above it.
    fn held_above(v: u128) -> (r: Self)
        requires
            FRAC <= 128,
        ensures
            r.as_int() == saturate(v as int, i128::MIN as int, i128::MAX as int),
    {
        if v > i128::MAX as u128 {
            FixedI128 { bits: i128::MAX }
        } else {
            FixedI128 { bits: v as i128 }
        }
    }

    /// The whole number with the given distance from zero, on the given side of it, as a
    /// number of the type, or the bound on that side where it lies outside the range.
    fn scaled(whole: u128, negative: bool) -> (r: Self)
        requires
            FRAC <= 128,
        ensures
            r.as_int() == saturate(
                rescale(if negative { -(whole as int) } else { whole as int }, FRAC as nat),
                i128::MIN as int,
                i128::MAX as int,
            ),
    {
        let wide = widening_shl_u128(whole, FRAC);
        proof {
            assert((-(whole as int)) * pow2(FRAC as nat) == -(whole * pow2(FRAC as nat)))
                by (nonlinear_arith);
        }
        Self::held_signed(wide, negative)
    }

    /// The low 128 bits of a 256-bit result where it fits them, and else the bound on its
    /// side of zero.
    fn saturated(wide: I256) -> (r: Self)
        requires
            FRAC <= 128,
        ensures
            r.as_int() == saturate(wide@, i128::MIN as int, i128::MAX as int),
    {
        proof {
            lemma_shift_right_zero(wide@);
            if -pow2_127() <= wide@ < pow2_127() {
                lemma_mod_near(wide@, pow2_128());
            }
        }
        let (bits, overflow) = overflowing_shl_i256_into_i128(wide, 0);
        if !overflow {
            FixedI128 { bits }
        } else if wide.hi < 0 {
            FixedI128 { bits: i128::MIN }
        } else {
            FixedI128 { bits: i128::MAX }
        }
    }
}

impl<const FRAC: u32> Fixed for FixedI128<FRAC> {
    type Bits = i128;

    type Bytes = [u8; 16];

    open spec fn seq_of_bytes(bytes: [u8; 16]) -> Seq<u8> {
        bytes@
    }

    open spec fn frac_nbits() -> nat {
        FRAC as nat
    }

    open spec fn min_int() -> int {
        i128::MIN as int
    }

    open spec fn max_int() -> int {
        i128::MAX as int
    }

    open spec fn int_of_bits(bits: i128) -> int {
        bits as int
    }

    closed spec fn as_int(self) -> int {
        self.bits as int
    }

    closed spec fn of_int(v: int) -> Self {
        FixedI128 { bits: v as i128 }
    }

    proof fn lemma_in_range(self) {
    }

    proof fn lemma_zero_in_range() {
    }

    proof fn lemma_of_int(v: int) {
    }

    proof fn lemma_same_int(self, other: Self) {
    }

    fn from_bits(bits: i128) -> (r: Self) {
        FixedI128 { bits }
    }

    fn to_bits(self) -> (r: i128) {
        self.bits
    }

    fn frac_count() -> (r: u32) {
        FRAC
    }

    fn frac_bits(self) -> (r: u32) {
        proof {
            use_type_invariant(&self);
        }
        FRAC
    }

    fn to_parts(self) -> (r: (u128, bool)) {
        parts_of_i128(self.bits)
    }

    fn saturating_from_parts(magnitude: u128, negative: bool, frac: u32) -> (r: Self) {
        Self::held_signed(rescale_magnitude(magnitude, negative, frac, FRAC), negative)
    }

    fn from_be_bytes(bytes: [u8; 16]) -> (r: Self) {
        FixedI128 { bits: from_pattern(from_be_bytes_u128(bytes)) }
    }

    fn from_le_bytes(bytes: [u8; 16]) -> (r: Self) {
        FixedI128 { bits: from_pattern(from_le_bytes_u128(bytes)) }
    }

    fn from_ne_bytes(bytes: [u8; 16]) -> (r: Self) {
        FixedI128 { bits: from_pattern(from_ne_bytes_u128(bytes)) }
    }

    fn to_ne_bytes(self) -> (r: [u8; 16]) {
        to_ne_bytes_u128(pattern(self.bits))
    }

    fn from_be(x: Self) -> (r: Self) {
        x.to_be()
    }

    fn from_le(x: Self) -> (r: Self) {
        x.to_le()
    }

    fn to_be(self) -> (r: Self) {
        proof {
            use_type_invariant(&self);
        }
        let p = pattern(self.bits);
        let swapped = to_be_u128(p);
        let r = FixedI128 { bits: from_pattern(swapped) };
        proof {
            if swapped == p {
            }
        }
        r
    }

    fn to_le(self) -> (r: Self) {
        proof {
            use_type_invariant(&self);
        }
        let p = pattern(self.bits);
        let swapped = to_le_u128(p);
        let r = FixedI128 { bits: from_pattern(swapped) };
        proof {
            if swapped == p {
                r.lemma_same_int(self);
            }
        }
        r
    }

    fn to_be_bytes(self) -> (r: [u8; 16]) {
        to_be_bytes_u128(pattern(self.bits))
    }

    fn to_le_bytes(self) -> (r: [u8; 16]) {
        to_le_bytes_u128(pattern(self.bits))
    }

    fn is_zero(self) -> (r: bool) {
        self.bits == 0
    }

    fn leading_zeros(self) -> (r: u32) {
        leading_zeros_u128(pattern(self.bits))
    }

    fn leading_ones(self) -> (r: u32) {
        let p = pattern(self.bits);
        proof {
            lemma_u128_not(p);
        }
        leading_zeros_u128(!p)
    }

    fn count_ones(self) -> (r: u32) {
        count_ones_u128(pattern(self.bits))
    }

    fn count_zeros(self) -> (r: u32) {
        128 - count_ones_u128(pattern(self.bits))
    }

    fn trailing_zeros(self) -> (r: u32) {
        trailing_zeros_u128(pattern(self.bits))
    }

    fn trailing_ones(self) -> (r: u32) {
        let p = pattern(self.bits);
        proof {
            lemma_u128_not(p);
        }
        trailing_zeros_u128(!p)
    }

    fn int_log2(self) -> (r: i32) {
        proof {
            use_type_invariant(&self);
        }
        (127 - leading_zeros_u128(self.bits as u128)) as i32 - FRAC as i32
    }

    fn int_log10(self) -> (r: i32) {
        proof {
            use_type_invariant(&self);
        }
        int_log_u128(self.bits as u128, FRAC, 10)
    }

    fn int_log(self, base: u32) -> (r: i32) {
        proof {
            use_type_invariant(&self);
        }
        int_log_u128(self.bits as u128, FRAC, base)
    }

    fn reverse_bits(self) -> (r: Self) {
        proof {
            use_type_invariant(&self);
        }
        FixedI128 { bits: from_pattern(reverse_bits_u128(pattern(self.bits))) }
    }

    fn swap_bytes(self) -> (r: Self) {
        proof {
            use_type_invariant(&self);
        }
        FixedI128 { bits: from_pattern(swap_bytes_u128(pattern(self.bits))) }
    }

    fn rotate_left(self, n: u32) -> (r: Self) {
        proof {
            use_type_invariant(&self);
        }
        FixedI128 { bits: from_pattern(rotate_left_u128(pattern(self.bits), n)) }
    }

    fn rotate_right(self, n: u32) -> (r: Self) {
        proof {
            use_type_invariant(&self);
        }
        FixedI128 { bits: from_pattern(rotate_left_u128(pattern(self.bits), 128 - n % 128)) }
    }

    fn int_part(self) -> (r: Self) {
        proof {
            use_type_invariant(&self);
        }
        FixedI128 { bits: from_pattern(clear_low_bits_u128(pattern(self.bits), FRAC)) }
    }

    fn frac(self) -> (r: Self) {
        proof {
            use_type_invariant(&self);
            lemma_pow2_pos(FRAC as nat);
        }
        let p = pattern(self.bits);
        FixedI128 { bits: from_pattern(p - clear_low_bits_u128(p, FRAC)) }
    }

    fn round_to_zero(self) -> (r: Self) {
        proof {
            use_type_invariant(&self);
            lemma_trunc_is_nearer_zero(self.bits as int, FRAC as nat);
        }
        Self::saturated(trunc_i256(self.widened(), FRAC))
    }

    fn saturating_ceil(self) -> (r: Self) {
        proof {
            use_type_invariant(&self);
        }
        Self::saturated(ceil_i256(self.widened(), FRAC))
    }

    fn saturating_floor(self) -> (r: Self) {
        proof {
            use_type_invariant(&self);
        }
        Self::saturated(floor_i256(self.widened(), FRAC))
    }

    fn saturating_round(self) -> (r: Self) {
        proof {
            use_type_invariant(&self);
        }
        Self::saturated(round_i256(self.widened(), FRAC))
    }

    fn saturating_round_ties_even(self) -> (r: Self) {
        proof {
            use_type_invariant(&self);
        }
        Self::saturated(round_ties_even_i256(self.widened(), FRAC))
    }

    fn saturating_add(self, rhs: Self) -> (r: Self) {
        proof {
            use_type_invariant(&self);
        }
        let bits = match self.bits.checked_add(rhs.bits) {
            Some(sum) => sum,
            None => if rhs.bits < 0 {
                i128::MIN
            } else {
                i128::MAX
            },
        };
        FixedI128 { bits }
    }

    fn saturating_sub(self, rhs: Self) -> (r: Self) {
        proof {
            use_type_invariant(&self);
        }
        let bits = match self.bits.checked_sub(rhs.bits) {
            Some(difference) => difference,
            None => if rhs.bits > 0 {
                i128::MIN
            } else {
                i128::MAX
            },
        };
        FixedI128 { bits }
    }

    fn saturating_neg(self) -> (r: Self) {
        proof {
            use_type_invariant(&self);
        }
        if self.bits == i128::MIN {
            FixedI128 { bits: i128::MAX }
        } else {
            FixedI128 { bits: -self.bits }
        }
    }

    fn saturating_mul(self, rhs: Self) -> (r: Self) {
        proof {
            use_type_invariant(&self);
        }
        let product = wide_mul_i128(self.bits, rhs.bits);
        proof {
            lemma_product_bound(self.bits as int, rhs.bits as int);
            lemma_descale_bound(product@, FRAC as nat, pow2_255());
        }
        Self::saturated(shl_i256_max_128(product, FRAC))
    }

    fn saturating_div(self, rhs: Self) -> (r: Self) {
        proof {
            use_type_invariant(&self);
            lemma_pow2_values();
        }
        if FRAC == 128 && self.bits == i128::MIN && rhs.bits == -1 {
            // 2^255 does not fit 256 bits with a sign, let alone 128.
            proof {
                lemma_small_mod(0, 1);
                assert(pow2_255() / 1 == pow2_255());
            }
            FixedI128 { bits: i128::MAX }
        } else {
            let dividend = widening_shl_i128(self.bits, FRAC);
            proof {
                lemma_pow2_pos(FRAC as nat);
                if FRAC < 128 {
                    lemma_pow2_below_128(FRAC as nat);
                }
                assert(dividend@ == -pow2_255() ==> self.bits == i128::MIN && FRAC == 128)
                    by (nonlinear_arith)
                    requires
                        dividend@ == self.bits * pow2(FRAC as nat),
                        -pow2_127() <= self.bits,
                        0 < pow2(FRAC as nat) <= pow2_128(),
                        FRAC != 128 ==> pow2(FRAC as nat) < pow2_128(),
                        pow2_255() == pow2_127() * pow2_128(),
                ;
            }
            let divisor = NonZeroI128::new(rhs.bits).unwrap();
            let (quotient, remainder) = div_rem_i256_i128_no_overflow(dividend, divisor);
            proof {
                lemma_trunc_div_unique(
                    dividend@,
                    rhs.bits as int,
                    quotient@,
                    remainder as int,
                );
            }
            Self::saturated(quotient)
        }
    }

    fn rem(self, rhs: Self) -> (r: Self) {
        proof {
            use_type_invariant(&self);
            lemma_trunc_rem_from_magnitudes(self.bits as int, rhs.bits as int);
        }
        let rest = magnitude(self.bits) % magnitude(rhs.bits);
        if self.bits < 0 {
            FixedI128 { bits: -(rest as i128) }
        } else {
            FixedI128 { bits: rest as i128 }
        }
    }

    fn saturating_dist(self, other: Self) -> (r: Self) {
        proof {
            use_type_invariant(&self);
        }
        Self::held_above(distance(self.bits, other.bits))
    }

    fn mean(self, other: Self) -> (r: Self) {
        proof {
            use_type_invariant(&self);
            lemma_i128_shr(self.bits, 1);
            lemma_i128_shr(other.bits, 1);
            lemma_pow2_values();
        }
        let half_a = self.bits >> 1;
        let half_b = other.bits >> 1;
        let odd_a = self.bits - 2 * half_a;
        let odd_b = other.bits - 2 * half_b;
        let carry: i128 = if odd_a == 1 && odd_b == 1 {
            1
        } else {
            0
        };
        FixedI128 { bits: half_a + half_b + carry }
    }

    fn rem_euclid(self, divisor: Self) -> (r: Self) {
        proof {
            use_type_invariant(&self);
        }
        let (whole, negative, rest) = euclid_parts(self.bits, divisor.bits);
        FixedI128 { bits: rest as i128 }
    }

    fn saturating_sqrt(self) -> (r: Self) {
        proof {
            use_type_invariant(&self);
        }
        Self::held_above(sqrt_u256(widening_shl_u128(self.bits as u128, FRAC)))
    }

    fn saturating_hypot(self, other: Self) -> (r: Self) {
        proof {
            use_type_invariant(&self);
            lemma_wide_powers();
            assert(self.bits * self.bits == abs(self.bits as int) * abs(
                self.bits as int,
            ) && other.bits * other.bits == abs(other.bits as int) * abs(
                other.bits as int,
            )) by (nonlinear_arith);
        }
        let a = magnitude(self.bits);
        let b = magnitude(other.bits);
        let square = wide_mul_u128(a, a);
        let other_square = wide_mul_u128(b, b);
        let (sum, carry) = overflowing_add_u256(square, other_square);
        if carry {
            proof {
                lemma_sqrt_floor_of_large(square@ + other_square@);
            }
            FixedI128 { bits: i128::MAX }
        } else {
            proof {
                lemma_mod_near(square@ + other_square@, pow2_256());
            }
            Self::held_above(sqrt_u256(sum))
        }
    }

    fn saturating_next_multiple_of(self, other: Self) -> (r: Self) {
        proof {
            use_type_invariant(&self);
            lemma_neg_mod(self.bits as int, abs(other.bits as int));
        }
        let (whole, negative, rest) = euclid_parts(self.bits, other.bits);
        let bits = if rest == 0 {
            self.bits
        } else if other.bits > 0 {
            match self.bits.checked_add_unsigned(other.bits as u128 - rest) {
                Some(sum) => sum,
                None => i128::MAX,
            }
        } else {
            match self.bits.checked_sub_unsigned(rest) {
                Some(difference) => difference,
                None => i128::MIN,
            }
        };
        FixedI128 { bits }
    }

    fn saturating_div_euclid_int(self, divisor: i128) -> (r: Self) {
        proof {
            use_type_invariant(&self);
            lemma_pow2_pos(FRAC as nat);
            lemma_euclid_by_integer(self.bits as int, pow2(FRAC as nat) as int, divisor as int);
            assert(divisor * pow2(FRAC as nat) == divisor as int * (pow2(FRAC as nat) as int));
        }
        let (whole, negative, rest) = euclid_parts(shr_unbounded_i128(self.bits, FRAC), divisor);
        Self::scaled(whole, negative)
    }

    fn saturating_rem_euclid_int(self, divisor: i128) -> (r: Self) {
        proof {
            use_type_invariant(&self);
            lemma_pow2_values();
            lemma_pow2_pos(FRAC as nat);
            lemma_euclid_by_integer(self.bits as int, pow2(FRAC as nat) as int, divisor as int);
            assert(divisor * pow2(FRAC as nat) == divisor as int * (pow2(FRAC as nat) as int));
            lemma_fundamental_div_mod(wrap_u128(self.bits as int), pow2(FRAC as nat) as int);
            lemma_rest_is_of_low_limb(
                if self.bits < 0 { -1int } else { 0 },
                wrap_u128(self.bits as int),
                FRAC as nat,
            );
        }
        let (whole, negative, rest) = euclid_parts(shr_unbounded_i128(self.bits, FRAC), divisor);
        let p = pattern(self.bits);
        let fraction = p - clear_low_bits_u128(p, FRAC);
        let raised = widening_shl_u128(rest, FRAC);
        proof {
            if FRAC < 128 {
                lemma_pow2_below_128(FRAC as nat);
            }
            assert(raised@ + fraction < pow2_256()) by (nonlinear_arith)
                requires
                    raised@ == rest * pow2(FRAC as nat),
                    0 <= rest < pow2_128(),
                    0 < pow2(FRAC as nat) <= pow2_128(),
                    0 <= fraction < pow2_128(),
                    pow2_256() == pow2_128() * pow2_128(),
            ;
            lemma_mod_near(raised@ + fraction, pow2_256());
        }
        let (sum, carry) = overflowing_add_u256(raised, U256 { lo: fraction, hi: 0 });
        if sum.hi != 0 || sum.lo > i128::MAX as u128 {
            FixedI128 { bits: i128::MAX }
        } else {
            FixedI128 { bits: sum.lo as i128 }
        }
    }

    fn unbounded_shl(self, rhs: u32) -> (r: Self) {
        proof {
            use_type_invariant(&self);
        }
        FixedI128 { bits: from_pattern(shl_unbounded_u128(pattern(self.bits), rhs)) }
    }

    fn unbounded_shr(self, rhs: u32) -> (r: Self) {
        proof {
            use_type_invariant(&self);
        }
        FixedI128 { bits: shr_unbounded_i128(self.bits, rhs) }
    }

    fn saturating_mul_add(self, mul: Self, add: Self) -> (r: Self) {
        proof {
            use_type_invariant(&self);
        }
        let product = wide_mul_i128(self.bits, mul.bits);
        let scaled = shl_i256_max_128(product, FRAC);
        proof {
            lemma_product_bound(self.bits as int, mul.bits as int);
            lemma_descale_bound(product@, FRAC as nat, pow2_127() * pow2_127());
            lemma_mod_near(scaled@ + add.bits, pow2_256());
        }
        let (sum, overflow) = overflowing_add_i256_i128(scaled, add.bits);
        Self::saturated(sum)
    }

    fn saturating_add_prod(self, a: Self, b: Self) -> (r: Self) {
        a.saturating_mul_add(b, self)
    }

    fn saturating_mul_acc(&mut self, a: Self, b: Self) {
        *self = self.saturating_add_prod(a, b);
    }

    #[verifier::rlimit(40)]
    fn saturating_lerp(self, start: Self, end: Self) -> (r: Self) {
        proof {
            use_type_invariant(&self);
            lemma_pow2_values();
            lemma_pow2_pos(FRAC as nat);
            lemma_wide_powers();
        }
        let share = magnitude(self.bits);
        let range = distance(start.bits, end.bits);
        let negative = (self.bits < 0) != (end.bits < start.bits);
        let product = wide_mul_u128(share, range);
        proof {
            lemma_abs_mul(self.bits as int, end.bits - start.bits);
            assert(product@ <= pow2_255() - pow2_127()) by (nonlinear_arith)
                requires
                    product@ == share * range,
                    0 <= share <= pow2_127(),
                    0 <= range <= pow2_128() - 1,
                    pow2_255() == pow2_127() * pow2_128(),
            ;
            lemma_descale_bound(product@, FRAC as nat, pow2_255() - pow2_127());
        }
        let ghost exact = self.bits * (end.bits - start.bits);
        let step = if negative {
            // Rounding a negative product down rounds its magnitude up.
            let round_up = low_ones(FRAC);
            proof {
                lemma_descale_negated(product@, FRAC as nat);
                lemma_mod_near(product@ + round_up, pow2_256());
            }
            let rounded = shl_u256_max_128(wrapping_add_u256_u128(product, round_up), FRAC);
            u256_wrapping_as_i256(wrapping_neg_u256(rounded))
        } else {
            u256_wrapping_as_i256(shl_u256_max_128(product, FRAC))
        };
        proof {
            assert(step@ == descale(exact, FRAC as nat));
            lemma_mod_near(step@ + start.bits, pow2_256());
        }
        let (sum, overflow) = overflowing_add_i256_i128(step, start.bits);
        Self::saturated(sum)
    }

    fn saturating_inv_lerp(self, start: Self, end: Self) -> (r: Self) {
        proof {
            use_type_invariant(&self);
        }
        let numerator = distance(start.bits, self.bits);
        let denominator = distance(start.bits, end.bits);
        let negative = (self.bits < start.bits) != (end.bits < start.bits);
        let dividend = widening_shl_u128(numerator, FRAC);
        let divisor = NonZeroU128::new(denominator).unwrap();
        let (quotient, remainder) = div_rem_u256_u128(dividend, divisor);
        proof {
            lemma_abs_mul(self.bits - start.bits, pow2(FRAC as nat) as int);
            lemma_trunc_div_from_magnitudes(
                (self.bits - start.bits) * pow2(FRAC as nat),
                end.bits - start.bits,
                quotient@,
                remainder as int,
            );
        }
        Self::held_signed(quotient, negative)
    }

    fn saturating_recip(self) -> (r: Self) {
        proof {
            use_type_invariant(&self);
            lemma_pow2_values();
            lemma_pow2_adds(FRAC as nat, FRAC as nat);
        }
        if FRAC == 128 {
            proof {
                let top = pow2(256) as int;
                let a = abs(self.bits as int);
                assert(top == pow2_128() * pow2_128());
                lemma_div_is_ordered_by_denominator(top, a, pow2_128());
                lemma_div_by_multiple(pow2_128(), pow2_128());
            }
            if self.bits < 0 {
                FixedI128 { bits: i128::MIN }
            } else {
                FixedI128 { bits: i128::MAX }
            }
        } else {
            proof {
                lemma_u128_shl(1, FRAC);
                lemma_pow2_below_128(FRAC as nat);
                assert(1 * pow2(FRAC as nat) == pow2(FRAC as nat)) by (nonlinear_arith);
                lemma_small_mod(pow2(FRAC as nat), pow2_128() as nat);
                lemma_pow2_adds(127, 127);
                if FRAC < 127 {
                    lemma_pow2_strictly_increases(
                        2 * (FRAC as nat),
                        254,
                    );
                }
                assert(pow2(254) < pow2_255()) by {
                    assert(pow2_127() * pow2_127() < pow2_255());
                }
            }
            let one = 1u128 << FRAC;
            let dividend = u256_wrapping_as_i256(widening_shl_u128(one, FRAC));
            let divisor = NonZeroI128::new(self.bits).unwrap();
            let (quotient, remainder) = div_rem_i256_i128_no_overflow(dividend, divisor);
            proof {
                lemma_trunc_div_unique(
                    dividend@,
                    self.bits as int,
                    quotient@,
                    remainder as int,
                );
            }
            Self::saturated(quotient)
        }
    }

    fn saturating_div_euclid(self, divisor: Self) -> (r: Self) {
        proof {
            use_type_invariant(&self);
        }
        let (whole, negative, rest) = euclid_parts(self.bits, divisor.bits);
        Self::scaled(whole, negative)
    }
}

/// The division of `a` by `d` that leaves a remainder that is never negative: the whole
/// number, as its distance from zero and whether it lies below zero, and the remainder.
///
/// Both numbers are divided as magnitudes; for a negative `a` that leaves a remainder, the
/// whole number moves one further from zero and the remainder is taken from the divisor.
fn euclid_parts(a: i128, d: i128) -> (r: (u128, bool, u128))
    requires
        d != 0,
    ensures
        euclid_div(a as int, d as int) == if r.1 { -(r.0 as int) } else { r.0 as int },
        r.0 <= pow2_127(),
        r.2 == euclid_rem(a as int, d as int),
        r.2 < abs(d as int),
{
    let ua = magnitude(a);
    let ud = magnitude(d);
    let uq = ua / ud;
    let um = ua % ud;
    proof {
        lemma_fundamental_div_mod(ua as int, ud as int);
        assert((ua / ud) * ud == ud * (ua / ud)) by (nonlinear_arith);
        lemma_euclid_from_magnitudes(a as int, d as int, uq as int, um as int);
        assert(uq <= ua && (um != 0 ==> uq + 1 <= ua)) by (nonlinear_arith)
            requires
                ua == uq * ud + um,
                0 <= um < ud,
                0 <= uq,
        ;
    }
    let whole = if a < 0 && um != 0 {
        uq + 1
    } else {
        uq
    };
    let rest = if a >= 0 || um == 0 {
        um
    } else {
        ud - um
    };
    (whole, whole != 0 && ((a < 0) != (d < 0)), rest)
}

/// The product of two signed 128-bit numbers is no further from zero than 2^254.
proof fn lemma_product_bound(a: int, b: int)
    requires
        -pow2_127() <= a < pow2_127(),
        -pow2_127() <= b < pow2_127(),
    ensures
        -(pow2_127() * pow2_127()) <= a * b <= pow2_127() * pow2_127(),
        pow2_127() * pow2_127() < pow2_255(),
{
    assert(-(pow2_127() * pow2_127()) <= a * b <= pow2_127() * pow2_127()) by (nonlinear_arith)
        requires
            -pow2_127() <= a < pow2_127(),
            -pow2_127() <= b < pow2_127(),
    ;
}

impl<const FRAC: u32> FixedSigned for FixedI128<FRAC> {
    type Unsigned = FixedU128<FRAC>;

    fn cast_unsigned(self) -> (r: FixedU128<FRAC>) {
        proof {
            use_type_invariant(&self);
        }
        FixedU128::from_bits(pattern(self.bits))
    }

    fn signed_bits(self) -> (r: u32) {
        proof {
            lemma_i128_not(self.bits);
        }
        let unsigned_part = if self.bits < 0 {
            !self.bits
        } else {
            self.bits
        };
        129 - leading_zeros_u128(unsigned_part as u128)
    }

    fn is_positive(self) -> (r: bool) {
        self.bits > 0
    }

    fn is_negative(self) -> (r: bool) {
        self.bits < 0
    }

    fn saturating_abs(self) -> (r: Self) {
        proof {
            use_type_invariant(&self);
        }
        if self.bits == i128::MIN {
            FixedI128 { bits: i128::MAX }
        } else if self.bits < 0 {
            FixedI128 { bits: -self.bits }
        } else {
            self
        }
    }

    fn saturating_signum(self) -> (r: Self) {
        proof {
            use_type_invariant(&self);
            lemma_pow2_values();
            if FRAC < 127 {
                lemma_pow2_strictly_increases(FRAC as nat, 127);
                lemma_u128_shl(1, FRAC);
                assert(1 * pow2(FRAC as nat) == pow2(FRAC as nat)) by (nonlinear_arith);
            }
            assert(1 * pow2(FRAC as nat) == pow2(FRAC as nat) && -1 * pow2(FRAC as nat) == -pow2(
                FRAC as nat,
            ) && 0 * pow2(FRAC as nat) == 0) by (nonlinear_arith);
        }
        if self.bits == 0 {
            self
        } else if FRAC >= 127 {
            if self.bits < 0 {
                FixedI128 { bits: i128::MIN }
            } else {
                FixedI128 { bits: i128::MAX }
            }
        } else {
            let one = (1u128 << FRAC) as i128;
            if self.bits < 0 {
                FixedI128 { bits: -one }
            } else {
                FixedI128 { bits: one }
            }
        }
    }

    fn saturating_add_unsigned(self, rhs: FixedU128<FRAC>) -> (r: Self) {
        proof {
            use_type_invariant(&self);
        }
        let bits = match self.bits.checked_add_unsigned(rhs.to_bits()) {
            Some(sum) => sum,
            None => i128::MAX,
        };
        FixedI128 { bits }
    }

    fn saturating_sub_unsigned(self, rhs: FixedU128<FRAC>) -> (r: Self) {
        proof {
            use_type_invariant(&self);
        }
        let bits = match self.bits.checked_sub_unsigned(rhs.to_bits()) {
            Some(difference) => difference,
            None => i128::MIN,
        };
        FixedI128 { bits }
    }
}

impl<const FRAC: u32> ToFixed for FixedI128<FRAC> {
    open spec fn stored(self) -> int {
        self.as_int()
    }

    open spec fn frac_of() -> nat {
        FRAC as nat
    }

    fn saturating_to_fixed<F: Fixed>(self) -> (r: F) {
        proof {
            use_type_invariant(&self);
        }
        let (magnitude, negative) = parts_of_i128(self.bits);
        F::saturating_from_parts(magnitude, negative, FRAC)
    }
}

impl<const FRAC: u32> FromFixed for FixedI128<FRAC> {
    open spec fn stored(self) -> int {
        self.as_int()
    }

    open spec fn frac_of() -> nat {
        FRAC as nat
    }

    open spec fn least() -> int {
        i128::MIN as int
    }

    open spec fn greatest() -> int {
        i128::MAX as int
    }

    fn saturating_from_fixed<F: Fixed>(src: F) -> (r: Self) {
        let (magnitude, negative) = src.to_parts();
        Self::saturating_from_parts(magnitude, negative, src.frac_bits())
    }
}

} // verus!
