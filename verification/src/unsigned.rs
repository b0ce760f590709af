//! Unsigned fixed-point numbers of 128 bits.

use vstd::prelude::*;
use vstd::arithmetic::div_mod::{
    lemma_div_is_ordered_by_denominator, lemma_fundamental_div_mod_converse, lemma_mod_decreases,
    lemma_small_mod,
};
use vstd::arithmetic::power2::{lemma_pow2_adds, lemma_pow2_pos, lemma_pow2_subtracts, pow2};
use crate::bits::{
    clear_low_bits_u128, count_ones_u128, leading_zeros_u128, lemma_mod_near, lemma_pow2_values,
    lemma_u128_as_i128, lemma_u128_not, lemma_u128_shl, lemma_u128_shr, low_ones, pow2_128,
    reverse_bits_u128, rotate_left_u128, shl_unbounded_u128, shr_unbounded_u128, swap_bytes_u128,
    trailing_zeros_u128,
};
use crate::bytes::{
    from_be_bytes_u128, from_le_bytes_u128, from_ne_bytes_u128, to_be_bytes_u128, to_be_u128,
    to_le_bytes_u128, to_le_u128, to_ne_bytes_u128,
};
use crate::convert::rescale_magnitude;
use crate::int256::{
    div_rem_u256_u128, lemma_wide_powers, overflowing_add_u128_u256, overflowing_add_u256,
    overflowing_shl_u256_into_u128, overflowing_sub_u128_u256, pow2_256, shl_u256_max_128,
    wide_mul_u128, widening_shl_u128, wrapping_add_u256_u128, I256,
};
use crate::lemmas::{
    lemma_abs_mul, lemma_descale_negated, lemma_div_mod_by_product, lemma_neg_mod,
    lemma_pow2_below_128, lemma_trunc_div_from_magnitudes, lemma_trunc_is_nearer_zero,
    lemma_trunc_rem_from_magnitudes,
};
use crate::log::int_log_u128;
use crate::nonzero::NonZeroU128;
use crate::rounding::{
    ceil_i256, floor_i256, round_i256, round_ties_even_i256, roundable, trunc_i256,
};
use crate::signed::FixedI128;
use crate::sqrt::{lemma_sqrt_floor_of_large, sqrt_u256};
use crate::traits::{saturate, Fixed, FixedUnsigned, FromFixed, ToFixed};

verus! {

/// An unsigned fixed-point number of 128 bits, `FRAC` of them fractional: the stored integer
/// divided by 2^FRAC. `FRAC` is at most 128.
#[derive(Clone, Copy, Debug, PartialEq, Eq, PartialOrd, Ord, Hash)]
pub struct FixedU128<const FRAC: u32> {
    bits: u128,
}

impl<const FRAC: u32> FixedU128<FRAC> {
    /// The fractional bits are among the 128 bits of the number.
    #[verifier::type_invariant]
    spec fn frac_fits(self) -> bool {
        FRAC <= 128
    }

    /// The stored integer as a 256-bit number.
    fn widened(self) -> (r: I256)
        ensures
            r@ == self.as_int(),
            roundable(r),
    {
        I256 { lo: self.bits, hi: 0 }
    }

    /// A 256-bit result where it fits the type, and else the bound on its side.
    fn narrowed(wide: I256) -> (r: Self)
        requires
            FRAC <= 128,
        ensures
            r.as_int() == saturate(wide@, 0, u128::MAX as int),
    {
        if wide.hi < 0 {
            FixedU128 { bits: 0 }
        } else if wide.hi > 0 {
            FixedU128 { bits: u128::MAX }
        } else {
            FixedU128 { bits: wide.lo }
        }
    }

    /// The sum of two stored integers, or the upper bound where the sum lies above it.
    fn saturated_sum(a: u128, b: u128) -> (r: Self)
        requires
            FRAC <= 128,
        ensures
            r.as_int() == saturate(a + b, 0, u128::MAX as int),
    {
        FixedU128 { bits: a.saturating_add(b) }
    }

    /// The stored integer held to the range: itself, or the upper bound after an overflow.
    fn saturated(bits: u128, overflow: bool) -> (r: Self)
        requires
            FRAC <= 128,
        ensures
            r.as_int() == if overflow { u128::MAX as int } else { bits as int },
    {
        FixedU128 { bits: if overflow { u128::MAX } else { bits } }
    }
}

impl<const FRAC: u32> Fixed for FixedU128<FRAC> {
    type Bits = u128;

    type Bytes = [u8; 16];

    open spec fn seq_of_bytes(bytes: [u8; 16]) -> Seq<u8> {
        bytes@
    }

    open spec fn frac_nbits() -> nat {
        FRAC as nat
    }

    open spec fn min_int() -> int {
        0
    }

    open spec fn max_int() -> int {
        u128::MAX as int
    }

    open spec fn int_of_bits(bits: u128) -> int {
        bits as int
    }

    closed spec fn as_int(self) -> int {
        self.bits as int
    }

    closed spec fn of_int(v: int) -> Self {
        FixedU128 { bits: v as u128 }
    }

    proof fn lemma_in_range(self) {
    }

    proof fn lemma_zero_in_range() {
    }

    proof fn lemma_of_int(v: int) {
    }

    proof fn lemma_same_int(self, other: Self) {
    }

    fn from_bits(bits: u128) -> (r: Self) {
        FixedU128 { bits }
    }

    fn to_bits(self) -> (r: u128) {
        self.bits
    }

    fn frac_count() -> (r: u32) {
        FRAC
    }

    fn frac_bits(self) -> (r: u32) {
        proof {
            use_type_invariant(&self);
        }
        FRAC
    }

    fn to_parts(self) -> (r: (u128, bool)) {
        (self.bits, false)
    }

    fn saturating_from_parts(magnitude: u128, negative: bool, frac: u32) -> (r: Self) {
        let wide = rescale_magnitude(magnitude, negative, frac, FRAC);
        if negative {
            FixedU128 { bits: 0 }
        } else {
            Self::saturated(wide.lo, wide.hi != 0)
        }
    }

    fn from_be_bytes(bytes: [u8; 16]) -> (r: Self) {
        let bits = from_be_bytes_u128(bytes);
        FixedU128 { bits }
    }

    fn from_le_bytes(bytes: [u8; 16]) -> (r: Self) {
        let bits = from_le_bytes_u128(bytes);
        FixedU128 { bits }
    }

    fn from_ne_bytes(bytes: [u8; 16]) -> (r: Self) {
        let bits = from_ne_bytes_u128(bytes);
        FixedU128 { bits }
    }

    fn to_ne_bytes(self) -> (r: [u8; 16]) {
        to_ne_bytes_u128(self.bits)
    }

    fn from_be(x: Self) -> (r: Self) {
        x.to_be()
    }

    fn from_le(x: Self) -> (r: Self) {
        x.to_le()
    }

    fn to_be(self) -> (r: Self) {
        proof {
            use_type_invariant(&self);
        }
        let bits = to_be_u128(self.bits);
        FixedU128 { bits }
    }

    fn to_le(self) -> (r: Self) {
        proof {
            use_type_invariant(&self);
        }
        let bits = to_le_u128(self.bits);
        FixedU128 { bits }
    }

    fn to_be_bytes(self) -> (r: [u8; 16]) {
        to_be_bytes_u128(self.bits)
    }

    fn to_le_bytes(self) -> (r: [u8; 16]) {
        to_le_bytes_u128(self.bits)
    }

    fn is_zero(self) -> (r: bool) {
        self.bits == 0
    }

    fn leading_zeros(self) -> (r: u32) {
        leading_zeros_u128(self.bits)
    }

    fn leading_ones(self) -> (r: u32) {
        proof {
            lemma_u128_not(self.bits);
        }
        leading_zeros_u128(!self.bits)
    }

    fn count_ones(self) -> (r: u32) {
        count_ones_u128(self.bits)
    }

    fn count_zeros(self) -> (r: u32) {
        128 - count_ones_u128(self.bits)
    }

    fn trailing_zeros(self) -> (r: u32) {
        trailing_zeros_u128(self.bits)
    }

    fn trailing_ones(self) -> (r: u32) {
        proof {
            lemma_u128_not(self.bits);
        }
        trailing_zeros_u128(!self.bits)
    }

    fn int_log2(self) -> (r: i32) {
        proof {
            use_type_invariant(&self);
        }
        (127 - leading_zeros_u128(self.bits)) as i32 - FRAC as i32
    }

    fn int_log10(self) -> (r: i32) {
        proof {
            use_type_invariant(&self);
        }
        int_log_u128(self.bits, FRAC, 10)
    }

    fn int_log(self, base: u32) -> (r: i32) {
        proof {
            use_type_invariant(&self);
        }
        int_log_u128(self.bits, FRAC, base)
    }

    fn reverse_bits(self) -> (r: Self) {
        proof {
            use_type_invariant(&self);
        }
        let bits = reverse_bits_u128(self.bits);
        FixedU128 { bits }
    }

    fn swap_bytes(self) -> (r: Self) {
        proof {
            use_type_invariant(&self);
        }
        let bits = swap_bytes_u128(self.bits);
        FixedU128 { bits }
    }

    fn rotate_left(self, n: u32) -> (r: Self) {
        proof {
            use_type_invariant(&self);
        }
        let bits = rotate_left_u128(self.bits, n);
        FixedU128 { bits }
    }

    fn rotate_right(self, n: u32) -> (r: Self) {
        proof {
            use_type_invariant(&self);
        }
        let bits = rotate_left_u128(self.bits, 128 - n % 128);
        FixedU128 { bits }
    }

    fn int_part(self) -> (r: Self) {
        proof {
            use_type_invariant(&self);
        }
        let bits = clear_low_bits_u128(self.bits, FRAC);
        FixedU128 { bits }
    }

    fn frac(self) -> (r: Self) {
        proof {
            use_type_invariant(&self);
            lemma_pow2_pos(FRAC as nat);
        }
        let bits = self.bits - clear_low_bits_u128(self.bits, FRAC);
        FixedU128 { bits }
    }

    fn round_to_zero(self) -> (r: Self) {
        proof {
            use_type_invariant(&self);
            lemma_trunc_is_nearer_zero(self.bits as int, FRAC as nat);
        }
        Self::narrowed(trunc_i256(self.widened(), FRAC))
    }

    fn saturating_ceil(self) -> (r: Self) {
        proof {
            use_type_invariant(&self);
        }
        Self::narrowed(ceil_i256(self.widened(), FRAC))
    }

    fn saturating_floor(self) -> (r: Self) {
        proof {
            use_type_invariant(&self);
        }
        Self::narrowed(floor_i256(self.widened(), FRAC))
    }

    fn saturating_round(self) -> (r: Self) {
        proof {
            use_type_invariant(&self);
        }
        Self::narrowed(round_i256(self.widened(), FRAC))
    }

    fn saturating_round_ties_even(self) -> (r: Self) {
        proof {
            use_type_invariant(&self);
        }
        Self::narrowed(round_ties_even_i256(self.widened(), FRAC))
    }

    fn saturating_add(self, rhs: Self) -> (r: Self) {
        proof {
            use_type_invariant(&self);
        }
        FixedU128 { bits: self.bits.saturating_add(rhs.bits) }
    }

    fn saturating_sub(self, rhs: Self) -> (r: Self) {
        proof {
            use_type_invariant(&self);
        }
        FixedU128 { bits: self.bits.saturating_sub(rhs.bits) }
    }

    fn saturating_neg(self) -> (r: Self) {
        proof {
            use_type_invariant(&self);
        }
        FixedU128 { bits: 0 }
    }

    fn saturating_mul(self, rhs: Self) -> (r: Self) {
        proof {
            use_type_invariant(&self);
        }
        let product = wide_mul_u128(self.bits, rhs.bits);
        let (bits, overflow) = overflowing_shl_u256_into_u128(product, FRAC);
        proof {
            if !overflow {
            }
        }
        Self::saturated(bits, overflow)
    }

    fn saturating_div(self, rhs: Self) -> (r: Self) {
        proof {
            use_type_invariant(&self);
        }
        let dividend = widening_shl_u128(self.bits, FRAC);
        let divisor = NonZeroU128::new(rhs.bits).unwrap();
        let (quotient, remainder) = div_rem_u256_u128(dividend, divisor);
        proof {
            lemma_fundamental_div_mod_converse(
                dividend@,
                rhs.bits as int,
                quotient@,
                remainder as int,
            );
        }
        Self::saturated(quotient.lo, quotient.hi != 0)
    }

    fn rem(self, rhs: Self) -> (r: Self) {
        proof {
            use_type_invariant(&self);
            lemma_trunc_rem_from_magnitudes(self.bits as int, rhs.bits as int);
        }
        FixedU128 { bits: self.bits % rhs.bits }
    }

    fn saturating_dist(self, other: Self) -> (r: Self) {
        proof {
            use_type_invariant(&self);
        }
        let bits = if self.bits >= other.bits {
            self.bits - other.bits
        } else {
            other.bits - self.bits
        };
        FixedU128 { bits }
    }

    fn mean(self, other: Self) -> (r: Self) {
        proof {
            use_type_invariant(&self);
        }
        let carry = (self.bits % 2 + other.bits % 2) / 2;
        FixedU128 { bits: self.bits / 2 + other.bits / 2 + carry }
    }

    fn rem_euclid(self, divisor: Self) -> (r: Self) {
        proof {
            use_type_invariant(&self);
        }
        FixedU128 { bits: self.bits % divisor.bits }
    }

    fn saturating_sqrt(self) -> (r: Self) {
        proof {
            use_type_invariant(&self);
        }
        FixedU128 { bits: sqrt_u256(widening_shl_u128(self.bits, FRAC)) }
    }

    fn saturating_hypot(self, other: Self) -> (r: Self) {
        proof {
            use_type_invariant(&self);
            lemma_wide_powers();
        }
        let square = wide_mul_u128(self.bits, self.bits);
        let other_square = wide_mul_u128(other.bits, other.bits);
        let (sum, carry) = overflowing_add_u256(square, other_square);
        if carry {
            proof {
                lemma_sqrt_floor_of_large(square@ + other_square@);
            }
            FixedU128 { bits: u128::MAX }
        } else {
            proof {
                lemma_mod_near(square@ + other_square@, pow2_256());
            }
            FixedU128 { bits: sqrt_u256(sum) }
        }
    }

    fn saturating_next_multiple_of(self, other: Self) -> (r: Self) {
        proof {
            use_type_invariant(&self);
            lemma_neg_mod(self.bits as int, other.bits as int);
        }
        let rest = self.bits % other.bits;
        if rest == 0 {
            self
        } else {
            Self::saturated_sum(self.bits, other.bits - rest)
        }
    }

    fn saturating_div_euclid_int(self, divisor: u128) -> (r: Self) {
        proof {
            use_type_invariant(&self);
            lemma_pow2_pos(FRAC as nat);
            lemma_div_mod_by_product(self.bits as int, pow2(FRAC as nat) as int, divisor as int);
            assert(divisor * pow2(FRAC as nat) == divisor as int * (pow2(FRAC as nat) as int));
        }
        let whole = shr_unbounded_u128(self.bits, FRAC) / divisor;
        let wide = widening_shl_u128(whole, FRAC);
        Self::saturated(wide.lo, wide.hi != 0)
    }

    fn saturating_rem_euclid_int(self, divisor: u128) -> (r: Self) {
        proof {
            use_type_invariant(&self);
            lemma_pow2_pos(FRAC as nat);
            lemma_div_mod_by_product(self.bits as int, pow2(FRAC as nat) as int, divisor as int);
            assert(divisor * pow2(FRAC as nat) == divisor as int * (pow2(FRAC as nat) as int));
            lemma_mod_decreases(
                self.bits as nat,
                (divisor * pow2(FRAC as nat)) as nat,
            );
        }
        let rest = shr_unbounded_u128(self.bits, FRAC) % divisor;
        let fraction = self.bits - clear_low_bits_u128(self.bits, FRAC);
        let wide = widening_shl_u128(rest, FRAC);
        FixedU128 { bits: wide.lo + fraction }
    }

    fn unbounded_shl(self, rhs: u32) -> (r: Self) {
        proof {
            use_type_invariant(&self);
        }
        let bits = shl_unbounded_u128(self.bits, rhs);
        FixedU128 { bits }
    }

    fn unbounded_shr(self, rhs: u32) -> (r: Self) {
        proof {
            use_type_invariant(&self);
        }
        FixedU128 { bits: shr_unbounded_u128(self.bits, rhs) }
    }

    fn saturating_mul_add(self, mul: Self, add: Self) -> (r: Self) {
        proof {
            use_type_invariant(&self);
        }
        let product = wide_mul_u128(self.bits, mul.bits);
        let scaled = shl_u256_max_128(product, FRAC);
        let (bits, overflow) = overflowing_add_u128_u256(add.bits, scaled);
        proof {
            if !overflow {
            }
        }
        Self::saturated(bits, overflow)
    }

    fn saturating_add_prod(self, a: Self, b: Self) -> (r: Self) {
        a.saturating_mul_add(b, self)
    }

    fn saturating_mul_acc(&mut self, a: Self, b: Self) {
        *self = self.saturating_add_prod(a, b);
    }

    fn saturating_lerp(self, start: Self, end: Self) -> (r: Self) {
        proof {
            use_type_invariant(&self);
            lemma_pow2_values();
            lemma_pow2_pos(FRAC as nat);
            lemma_wide_powers();
        }
        if end.bits >= start.bits {
            let product = wide_mul_u128(self.bits, end.bits - start.bits);
            let step = shl_u256_max_128(product, FRAC);
            let (bits, overflow) = overflowing_add_u128_u256(start.bits, step);
            proof {
                if !overflow {
                    lemma_small_mod((start.bits + step@) as nat, pow2_128() as nat);
                }
            }
            Self::saturated(bits, overflow)
        } else {
            // The product is negative: rounding it down rounds its magnitude up.
            let product = wide_mul_u128(self.bits, start.bits - end.bits);
            let round_up = low_ones(FRAC);
            proof {
                lemma_descale_negated(product@, FRAC as nat);
                assert(self.bits * (end.bits - start.bits) == -(self.bits * (start.bits
                    - end.bits))) by (nonlinear_arith);
                assert(product@ <= (pow2_128() - 1) * (pow2_128() - 1)) by (nonlinear_arith)
                    requires
                        product@ == self.bits * (start.bits - end.bits),
                        0 <= self.bits <= pow2_128() - 1,
                        0 <= start.bits - end.bits <= pow2_128() - 1,
                ;
                lemma_mod_near(product@ + round_up, pow2_256());
            }
            let step = shl_u256_max_128(wrapping_add_u256_u128(product, round_up), FRAC);
            let (bits, underflow) = overflowing_sub_u128_u256(start.bits, step);
            proof {
                if !underflow {
                    lemma_small_mod((start.bits - step@) as nat, pow2_128() as nat);
                }
            }
            if underflow {
                FixedU128 { bits: 0 }
            } else {
                FixedU128 { bits }
            }
        }
    }

    fn saturating_inv_lerp(self, start: Self, end: Self) -> (r: Self) {
        proof {
            use_type_invariant(&self);
        }
        let (numerator, numerator_negative) = if self.bits >= start.bits {
            (self.bits - start.bits, false)
        } else {
            (start.bits - self.bits, true)
        };
        let (denominator, denominator_negative) = if end.bits >= start.bits {
            (end.bits - start.bits, false)
        } else {
            (start.bits - end.bits, true)
        };
        let dividend = widening_shl_u128(numerator, FRAC);
        let divisor = NonZeroU128::new(denominator).unwrap();
        let (quotient, remainder) = div_rem_u256_u128(dividend, divisor);
        proof {
            lemma_abs_mul(self.bits - start.bits, pow2(FRAC as nat) as int);
            lemma_trunc_div_from_magnitudes(
                (self.bits - start.bits) * pow2(FRAC as nat),
                end.bits - start.bits,
                quotient@,
                remainder as int,
            );
        }
        if numerator_negative != denominator_negative {
            FixedU128 { bits: 0 }
        } else {
            Self::saturated(quotient.lo, quotient.hi != 0)
        }
    }

    fn saturating_recip(self) -> (r: Self) {
        proof {
            use_type_invariant(&self);
            lemma_pow2_values();
            lemma_pow2_adds(FRAC as nat, FRAC as nat);
        }
        if FRAC == 128 {
            proof {
                let top = pow2(256) as int;
                assert(top == pow2_128() * pow2_128());
                lemma_div_is_ordered_by_denominator(top, self.bits as int, pow2_128());
            }
            FixedU128 { bits: u128::MAX }
        } else {
            proof {
                lemma_u128_shl(1, FRAC);
                lemma_pow2_below_128(FRAC as nat);
                assert(1 * pow2(FRAC as nat) == pow2(FRAC as nat)) by (nonlinear_arith);
            }
            let one = 1u128 << FRAC;
            let dividend = widening_shl_u128(one, FRAC);
            let divisor = NonZeroU128::new(self.bits).unwrap();
            let (quotient, remainder) = div_rem_u256_u128(dividend, divisor);
            proof {
                lemma_fundamental_div_mod_converse(
                    dividend@,
                    self.bits as int,
                    quotient@,
                    remainder as int,
                );
            }
            Self::saturated(quotient.lo, quotient.hi != 0)
        }
    }

    fn saturating_div_euclid(self, divisor: Self) -> (r: Self) {
        proof {
            use_type_invariant(&self);
        }
        let whole = widening_shl_u128(self.bits / divisor.bits, FRAC);
        Self::saturated(whole.lo, whole.hi != 0)
    }
}

impl<const FRAC: u32> FixedUnsigned for FixedU128<FRAC> {
    type Signed = FixedI128<FRAC>;

    fn cast_signed(self) -> (r: FixedI128<FRAC>) {
        proof {
            use_type_invariant(&self);
            lemma_u128_as_i128(self.bits);
        }
        FixedI128::from_bits(#[verifier::truncate] (self.bits as i128))
    }

    fn significant_bits(self) -> (r: u32) {
        128 - leading_zeros_u128(self.bits)
    }

    fn is_power_of_two(self) -> (r: bool) {
        self.bits != 0 && self.highest_one().bits == self.bits
    }

    fn highest_one(self) -> (r: Self) {
        proof {
            use_type_invariant(&self);
        }
        if self.bits == 0 {
            FixedU128 { bits: 0 }
        } else {
            let zeros = leading_zeros_u128(self.bits);
            proof {
                lemma_pow2_values();
                lemma_u128_shr(0x8000_0000_0000_0000_0000_0000_0000_0000u128, zeros);
                lemma_pow2_subtracts(zeros as nat, 127);
            }
            FixedU128 { bits: 0x8000_0000_0000_0000_0000_0000_0000_0000u128 >> zeros }
        }
    }

    fn saturating_add_signed(self, rhs: FixedI128<FRAC>) -> (r: Self) {
        proof {
            use_type_invariant(&self);
        }
        let rhs_bits = rhs.to_bits();
        let bits = match self.bits.checked_add_signed(rhs_bits) {
            Some(sum) => sum,
            None => if rhs_bits < 0 {
                0
            } else {
                u128::MAX
            },
        };
        FixedU128 { bits }
    }

    fn saturating_sub_signed(self, rhs: FixedI128<FRAC>) -> (r: Self) {
        proof {
            use_type_invariant(&self);
        }
        let rhs_bits = rhs.to_bits();
        let bits = if rhs_bits < 0 {
            let magnitude = ((-(rhs_bits + 1)) as u128) + 1;
            self.bits.saturating_add(magnitude)
        } else {
            self.bits.saturating_sub(rhs_bits as u128)
        };
        FixedU128 { bits }
    }
}

impl<const FRAC: u32> ToFixed for FixedU128<FRAC> {
    open spec fn stored(self) -> int {
        self.as_int()
    }

    open spec fn frac_of() -> nat {
        FRAC as nat
    }

    fn saturating_to_fixed<F: Fixed>(self) -> (r: F) {
        proof {
            use_type_invariant(&self);
        }
        F::saturating_from_parts(self.bits, false, FRAC)
    }
}

impl<const FRAC: u32> FromFixed for FixedU128<FRAC> {
    open spec fn stored(self) -> int {
        self.as_int()
    }

    open spec fn frac_of() -> nat {
        FRAC as nat
    }

    open spec fn least() -> int {
        0
    }

    open spec fn greatest() -> int {
        u128::MAX as int
    }

    fn saturating_from_fixed<F: Fixed>(src: F) -> (r: Self) {
        let (magnitude, negative) = src.to_parts();
        Self::saturating_from_parts(magnitude, negative, src.frac_bits())
    }
}

} // verus!
