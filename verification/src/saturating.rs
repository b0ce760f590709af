//! Fixed-point arithmetic that stops at the bounds of the type instead of wrapping around.

use vstd::prelude::*;
use vstd::arithmetic::power2::pow2;
use vstd::std_specs::convert::FromSpecImpl;
use vstd::std_specs::ops::{
    AddSpecImpl, DivSpecImpl, MulSpecImpl, NegSpecImpl, RemSpecImpl, SubSpecImpl,
};
use crate::bits::{
    bit_length, count_ones_of, pow2_128, reversed_bits, rotated_left, swapped_bytes,
    trailing_zeros_of,
};
use crate::bytes::{be_value, byte_at, le_value};
use crate::int256::{abs, wrap_i128, wrap_u128};
use crate::log::is_int_log;
use crate::sqrt::sqrt_floor;
use crate::traits::{
    ceil_to, descale, euclid_div, euclid_rem, floor_to, next_multiple, rescale, rescaled,
    round_ties_even_to, round_to, saturate, sign, trunc_div, trunc_rem, trunc_to, Fixed,
    FixedSigned, FixedUnsigned, FromFixed, ToFixed,
};

verus! {

/// A fixed-point number whose arithmetic saturates: a result outside the range of the type
/// becomes the nearest bound of the range.
///
/// The number itself is the field `0`.
#[derive(Clone, Copy, Debug, PartialEq, Eq, PartialOrd, Ord, Hash)]
pub struct Saturating<F>(pub F);

impl<F: Fixed> View for Saturating<F> {
    type V = int;

    /// The stored integer of the number inside.
    open spec fn view(&self) -> int {
        self.0.as_int()
    }
}

impl<F: Fixed> Saturating<F> {
    /// The value `v` held to the range of `F`.
    pub open spec fn held(v: int) -> int {
        saturate(v, F::min_int(), F::max_int())
    }

    /// The saturating number whose stored integer is `v` held to the range of `F`.
    pub open spec fn of_held(v: int) -> Saturating<F> {
        Saturating(F::of_int(Self::held(v)))
    }

    /// A result whose stored integer is `v` held to the range is `of_held(v)`.
    proof fn lemma_is_of_held(self, v: int)
        requires
            self@ == Self::held(v),
        ensures
            self == Self::of_held(v),
    {
        self.0.lemma_in_range();
        F::lemma_of_int(Self::held(v));
        self.0.lemma_same_int(F::of_int(Self::held(v)));
    }

    /// The sum of the numbers, added one after the other from the first on, each sum held to
    /// the range: zero for no numbers.
    pub open spec fn sum_of(items: Seq<Saturating<F>>) -> int
        decreases items.len(),
    {
        if items.len() == 0 {
            0
        } else {
            Self::held(Self::sum_of(items.drop_last()) + items.last()@)
        }
    }

    /// The product of the numbers, multiplied one after the other from the first on, each
    /// product rounded down to a step of the type and held to the range: one for no numbers,
    /// or the upper bound where the type cannot hold one.
    pub open spec fn product_of(items: Seq<Saturating<F>>) -> int
        decreases items.len(),
    {
        if items.len() == 0 {
            Self::held(rescale(1, F::frac_nbits()))
        } else if items.len() == 1 {
            items[0]@
        } else {
            Self::held(
                descale(Self::product_of(items.drop_last()) * items.last()@, F::frac_nbits()),
            )
        }
    }

    /// Adds up the numbers, from the first on; the sum stops at a bound that it reaches, and
    /// may leave it again with the next number.
    pub fn sum(items: &[Saturating<F>]) -> (r: Saturating<F>)
        requires
            F::frac_nbits() <= 128,
        ensures
            r@ == Self::sum_of(items@),
    {
        let mut total: Saturating<F> = Saturating(0u8.saturating_to_fixed());
        let mut i: usize = 0;
        proof {
            F::lemma_zero_in_range();
            assert(0 * pow2(F::frac_nbits()) == 0) by (nonlinear_arith);
            assert(items@.subrange(0, 0) =~= Seq::empty());
        }
        while i < items.len()
            invariant
                i <= items.len(),
                total@ == Self::sum_of(items@.subrange(0, i as int)),
            decreases items.len() - i,
        {
            proof {
                assert(items@.subrange(0, i as int + 1).drop_last() =~= items@.subrange(
                    0,
                    i as int,
                ));
            }
            total = Saturating(total.0.saturating_add(items[i].0));
            i = i + 1;
        }
        proof {
            assert(items@.subrange(0, items@.len() as int) =~= items@);
        }
        total
    }

    /// Multiplies the numbers, from the first on; the product of no numbers is one.
    pub fn product(items: &[Saturating<F>]) -> (r: Saturating<F>)
        requires
            F::frac_nbits() <= 128,
        ensures
            r@ == Self::product_of(items@),
    {
        if items.len() == 0 {
            proof {
                assert(items@ =~= Seq::empty());
            }
            return Saturating(1u8.saturating_to_fixed());
        }
        let mut total: Saturating<F> = items[0];
        let mut i: usize = 1;
        proof {
            assert(items@.subrange(0, 1).len() == 1);
        }
        while i < items.len()
            invariant
                1 <= i <= items.len(),
                total@ == Self::product_of(items@.subrange(0, i as int)),
            decreases items.len() - i,
        {
            proof {
                assert(items@.subrange(0, i as int + 1).drop_last() =~= items@.subrange(
                    0,
                    i as int,
                ));
            }
            total = Saturating(total.0.saturating_mul(items[i].0));
            i = i + 1;
        }
        proof {
            assert(items@.subrange(0, items@.len() as int) =~= items@);
        }
        total
    }

    /// The number whose stored integer is `bits`.
    pub fn from_bits(bits: F::Bits) -> (r: Saturating<F>)
        requires
            F::frac_nbits() <= 128,
        ensures
            r@ == F::int_of_bits(bits),
    {
        Saturating(F::from_bits(bits))
    }

    /// The stored integer.
    pub fn to_bits(self) -> (r: F::Bits)
        ensures
            F::int_of_bits(r) == self@,
    {
        self.0.to_bits()
    }

    /// The number of this machine that `w` is where `w` was stored highest byte first: `w`
    /// itself or `w` with its bytes swapped, as this machine stores numbers.
    pub fn from_be(w: Self) -> (r: Self)
        ensures
            r == w || wrap_u128(r@) == swapped_bytes(wrap_u128(w@) as nat, 16),
    {
        Saturating(F::from_be(w.0))
    }

    /// The number of this machine that `w` is where `w` was stored lowest byte first: `w`
    /// itself or `w` with its bytes swapped, as this machine stores numbers.
    pub fn from_le(w: Self) -> (r: Self)
        ensures
            r == w || wrap_u128(r@) == swapped_bytes(wrap_u128(w@) as nat, 16),
    {
        Saturating(F::from_le(w.0))
    }

    /// The number that is stored highest byte first as this machine stores `self`: `self` or
    /// `self` with its bytes swapped.
    pub fn to_be(self) -> (r: Self)
        ensures
            r == self || wrap_u128(r@) == swapped_bytes(wrap_u128(self@) as nat, 16),
    {
        Saturating(self.0.to_be())
    }

    /// The number that is stored lowest byte first as this machine stores `self`: `self` or
    /// `self` with its bytes swapped.
    pub fn to_le(self) -> (r: Self)
        ensures
            r == self || wrap_u128(r@) == swapped_bytes(wrap_u128(self@) as nat, 16),
    {
        Saturating(self.0.to_le())
    }

    /// The number whose bit pattern is written by `bytes` in the order in which this machine
    /// stores them: lowest byte first or highest byte first.
    pub fn from_ne_bytes(bytes: F::Bytes) -> (r: Saturating<F>)
        requires
            F::frac_nbits() <= 128,
        ensures
            wrap_u128(r@) == le_value(F::seq_of_bytes(bytes)) || wrap_u128(r@) == be_value(
                F::seq_of_bytes(bytes),
            ),
    {
        Saturating(F::from_ne_bytes(bytes))
    }

    /// The 16 bytes of the bit pattern in the order in which this machine stores them: lowest
    /// byte first or highest byte first.
    pub fn to_ne_bytes(self) -> (r: F::Bytes)
        ensures
            F::seq_of_bytes(r).len() == 16,
            le_value(F::seq_of_bytes(r)) == wrap_u128(self@) || be_value(F::seq_of_bytes(r))
                == wrap_u128(self@),
    {
        self.0.to_ne_bytes()
    }

    /// The number whose bit pattern is written by `bytes`, highest byte first.
    pub fn from_be_bytes(bytes: F::Bytes) -> (r: Saturating<F>)
        requires
            F::frac_nbits() <= 128,
        ensures
            wrap_u128(r@) == be_value(F::seq_of_bytes(bytes)),
    {
        Saturating(F::from_be_bytes(bytes))
    }

    /// The number whose bit pattern is written by `bytes`, lowest byte first.
    pub fn from_le_bytes(bytes: F::Bytes) -> (r: Saturating<F>)
        requires
            F::frac_nbits() <= 128,
        ensures
            wrap_u128(r@) == le_value(F::seq_of_bytes(bytes)),
    {
        Saturating(F::from_le_bytes(bytes))
    }

    /// The 16 bytes of the bit pattern, highest byte first.
    pub fn to_be_bytes(self) -> (r: F::Bytes)
        ensures
            F::seq_of_bytes(r).len() == 16,
            forall|j: int|
                0 <= j < 16 ==> F::seq_of_bytes(r)[j] as nat == byte_at(
                    wrap_u128(self@) as nat,
                    (15 - j) as nat,
                ),
            be_value(F::seq_of_bytes(r)) == wrap_u128(self@),
    {
        self.0.to_be_bytes()
    }

    /// The 16 bytes of the bit pattern, lowest byte first.
    pub fn to_le_bytes(self) -> (r: F::Bytes)
        ensures
            F::seq_of_bytes(r).len() == 16,
            forall|j: int|
                0 <= j < 16 ==> F::seq_of_bytes(r)[j] as nat == byte_at(
                    wrap_u128(self@) as nat,
                    j as nat,
                ),
            le_value(F::seq_of_bytes(r)) == wrap_u128(self@),
    {
        self.0.to_le_bytes()
    }

    /// The number nearest below `src`, which is an integer or another fixed-point number, or
    /// the nearest bound where `src` lies outside the range.
    pub fn from_num<Src: ToFixed>(src: Src) -> (r: Saturating<F>)
        requires
            F::frac_nbits() <= 128,
        ensures
            r@ == Self::held(rescaled(src.stored(), Src::frac_of(), F::frac_nbits())),
    {
        Saturating(src.saturating_to_fixed())
    }

    /// The number of the type `Dst`, which is an integer type or another fixed-point type,
    /// nearest below `self`, or the nearest bound of `Dst` where `self` lies outside its
    /// range.
    pub fn to_num<Dst: FromFixed>(self) -> (r: Dst)
        requires
            Dst::frac_of() <= 128,
        ensures
            r.stored() == saturate(
                rescaled(self@, F::frac_nbits(), Dst::frac_of()),
                Dst::least(),
                Dst::greatest(),
            ),
    {
        Dst::saturating_from_fixed(self.0)
    }

    /// The integer part: the bit pattern with its fractional bits cleared. A negative number
    /// is therefore rounded down, unless the type has no integer bits: then the result is
    /// zero.
    pub fn int_part(self) -> (r: Saturating<F>)
        ensures
            wrap_u128(r@) == wrap_u128(self@) - wrap_u128(self@) % (pow2(F::frac_nbits()) as int),
    {
        Saturating(self.0.int_part())
    }

    /// The fractional part: the bit pattern with its integer bits cleared. It is never
    /// negative, unless the type has no integer bits: then the result is the number itself.
    pub fn frac(self) -> (r: Saturating<F>)
        ensures
            wrap_u128(r@) == wrap_u128(self@) % (pow2(F::frac_nbits()) as int),
    {
        Saturating(self.0.frac())
    }

    /// Rounds to the next whole number towards zero.
    pub fn round_to_zero(self) -> (r: Saturating<F>)
        ensures
            r@ == trunc_to(self@, F::frac_nbits()),
    {
        Saturating(self.0.round_to_zero())
    }

    /// Rounds to the next whole number upwards, or to the upper bound where that number lies
    /// above it.
    pub fn ceil(self) -> (r: Saturating<F>)
        ensures
            r@ == Self::held(ceil_to(self@, F::frac_nbits())),
    {
        Saturating(self.0.saturating_ceil())
    }

    /// Rounds to the next whole number downwards, or to the lower bound where that number
    /// lies below it, which it does only for a negative number of a type without integer
    /// bits.
    pub fn floor(self) -> (r: Saturating<F>)
        ensures
            r@ == Self::held(floor_to(self@, F::frac_nbits())),
    {
        Saturating(self.0.saturating_floor())
    }

    /// Rounds to the nearest whole number, away from zero where two are equally near, or to
    /// the nearest bound where that number lies outside the range.
    pub fn round(self) -> (r: Saturating<F>)
        ensures
            r@ == Self::held(round_to(self@, F::frac_nbits())),
    {
        Saturating(self.0.saturating_round())
    }

    /// Rounds to the nearest whole number, to the even one where two are equally near, or to
    /// the nearest bound where that number lies outside the range.
    pub fn round_ties_even(self) -> (r: Saturating<F>)
        ensures
            r@ == Self::held(round_ties_even_to(self@, F::frac_nbits())),
    {
        Saturating(self.0.saturating_round_ties_even())
    }

    /// The older name of `round_ties_even`.
    pub fn round_ties_to_even(self) -> (r: Saturating<F>)
        ensures
            r@ == Self::held(round_ties_even_to(self@, F::frac_nbits())),
    {
        self.round_ties_even()
    }

    /// The number of one bits in the bit pattern.
    pub fn count_ones(self) -> (r: u32)
        ensures
            r == count_ones_of(wrap_u128(self@) as nat),
    {
        self.0.count_ones()
    }

    /// The number of zero bits in the bit pattern.
    pub fn count_zeros(self) -> (r: u32)
        ensures
            r == 128 - count_ones_of(wrap_u128(self@) as nat),
    {
        self.0.count_zeros()
    }

    /// The number of zero bits below the lowest one bit of the bit pattern.
    pub fn trailing_zeros(self) -> (r: u32)
        ensures
            r == trailing_zeros_of(wrap_u128(self@) as nat),
    {
        self.0.trailing_zeros()
    }

    /// The number of one bits below the lowest zero bit of the bit pattern.
    pub fn trailing_ones(self) -> (r: u32)
        ensures
            r == trailing_zeros_of((pow2_128() - 1 - wrap_u128(self@)) as nat),
    {
        self.0.trailing_ones()
    }

    /// The whole part of the logarithm to base 2, rounded down. The number is above zero.
    pub fn int_log2(self) -> (r: i32)
        requires
            self@ > 0,
        ensures
            r == bit_length(self@ as nat) - 1 - F::frac_nbits(),
    {
        self.0.int_log2()
    }

    /// The whole part of the logarithm to base 10, rounded down. The number is above zero.
    pub fn int_log10(self) -> (r: i32)
        requires
            self@ > 0,
        ensures
            is_int_log(self@, F::frac_nbits(), 10, r as int),
    {
        self.0.int_log10()
    }

    /// The whole part of the logarithm to `base`, rounded down. The number is above zero and
    /// the base is at least 2.
    pub fn int_log(self, base: u32) -> (r: i32)
        requires
            self@ > 0,
            base >= 2,
        ensures
            is_int_log(self@, F::frac_nbits(), base as int, r as int),
    {
        self.0.int_log(base)
    }

    /// Reverses the order of the bits of the bit pattern.
    pub fn reverse_bits(self) -> (r: Saturating<F>)
        ensures
            wrap_u128(r@) == reversed_bits(wrap_u128(self@) as nat, 128),
    {
        Saturating(self.0.reverse_bits())
    }

    /// Reverses the order of the bytes of the bit pattern.
    pub fn swap_bytes(self) -> (r: Saturating<F>)
        ensures
            wrap_u128(r@) == swapped_bytes(wrap_u128(self@) as nat, 16),
    {
        Saturating(self.0.swap_bytes())
    }

    /// The number of zero bits above the highest one bit of the bit pattern.
    pub fn leading_zeros(self) -> (r: u32)
        ensures
            r == 128 - bit_length(wrap_u128(self@) as nat),
    {
        self.0.leading_zeros()
    }

    /// The number of one bits above the highest zero bit of the bit pattern.
    pub fn leading_ones(self) -> (r: u32)
        ensures
            r == 128 - bit_length((pow2_128() - 1 - wrap_u128(self@)) as nat),
    {
        self.0.leading_ones()
    }

    /// Moves the bit pattern `n` places to the left; the bits that leave at the top come back
    /// in at the bottom.
    pub fn rotate_left(self, n: u32) -> (r: Saturating<F>)
        ensures
            wrap_u128(r@) == rotated_left(wrap_u128(self@), (n % 128) as nat),
    {
        Saturating(self.0.rotate_left(n))
    }

    /// Moves the bit pattern `n` places to the right; the bits that leave at the bottom come
    /// back in at the top.
    pub fn rotate_right(self, n: u32) -> (r: Saturating<F>)
        ensures
            wrap_u128(r@) == rotated_left(wrap_u128(self@), ((128 - n % 128) % 128) as nat),
    {
        Saturating(self.0.rotate_right(n))
    }

    /// Whether the number is zero.
    pub fn is_zero(self) -> (r: bool)
        ensures
            r == (self@ == 0),
    {
        self.0.is_zero()
    }

    /// The distance between two numbers, or the upper bound where the distance lies above it.
    pub fn dist(self, other: Saturating<F>) -> (r: Saturating<F>)
        ensures
            r@ == Self::held(abs(self@ - other@)),
    {
        Saturating(self.0.saturating_dist(other.0))
    }

    /// The mean of two numbers, rounded down to a step of the type.
    pub fn mean(self, other: Saturating<F>) -> (r: Saturating<F>)
        ensures
            r@ == (self@ + other@) / 2,
    {
        Saturating(self.0.mean(other.0))
    }

    /// One divided by the number, rounded towards zero to a step of the type, or the nearest
    /// bound where that lies outside the range. The number is not zero.
    pub fn recip(self) -> (r: Saturating<F>)
        requires
            self@ != 0,
        ensures
            r@ == Self::held(trunc_div(pow2(2 * F::frac_nbits()) as int, self@)),
    {
        Saturating(self.0.saturating_recip())
    }

    /// The square root, rounded down to a step of the type, or the upper bound where the root
    /// lies above it, as it does only in a signed type without integer bits. The number is
    /// not negative.
    pub fn sqrt(self) -> (r: Saturating<F>)
        requires
            self@ >= 0,
        ensures
            r@ == Self::held(sqrt_floor(rescale(self@, F::frac_nbits()))),
    {
        Saturating(self.0.saturating_sqrt())
    }

    /// The length of the longest side of a right triangle with the two shorter sides `self`
    /// and `other`, rounded down to a step of the type, or the upper bound where the length
    /// lies above it.
    pub fn hypot(self, other: Saturating<F>) -> (r: Saturating<F>)
        ensures
            r@ == Self::held(sqrt_floor(self@ * self@ + other@ * other@)),
    {
        Saturating(self.0.saturating_hypot(other.0))
    }

    /// The multiple of `other` next to the number: the least one that is not below it where
    /// `other` is positive, the greatest one that is not above it where `other` is negative;
    /// the nearest bound where that multiple lies outside the range. `other` is not zero.
    pub fn next_multiple_of(self, other: Saturating<F>) -> (r: Saturating<F>)
        requires
            other@ != 0,
        ensures
            r@ == Self::held(next_multiple(self@, other@)),
    {
        Saturating(self.0.saturating_next_multiple_of(other.0))
    }

    /// `self * mul + add`, with the product rounded down to a step of the type; only the
    /// final sum is held to the range.
    pub fn mul_add(self, mul: Saturating<F>, add: Saturating<F>) -> (r: Saturating<F>)
        ensures
            r@ == Self::held(descale(self@ * mul@, F::frac_nbits()) + add@),
    {
        Saturating(self.0.saturating_mul_add(mul.0, add.0))
    }

    /// `self + a * b`, with the product rounded down to a step of the type; only the final
    /// sum is held to the range.
    pub fn add_prod(self, a: Saturating<F>, b: Saturating<F>) -> (r: Saturating<F>)
        ensures
            r@ == Self::held(descale(a@ * b@, F::frac_nbits()) + self@),
    {
        Saturating(self.0.saturating_add_prod(a.0, b.0))
    }

    /// Adds `a * b` to `self`, as `add_prod` does.
    pub fn mul_acc(&mut self, a: Saturating<F>, b: Saturating<F>)
        ensures
            final(self)@ == Self::held(descale(a@ * b@, F::frac_nbits()) + old(self)@),
    {
        self.0.saturating_mul_acc(a.0, b.0);
    }

    /// The whole number of the division that leaves a remainder that is never negative, or
    /// the nearest bound where that number lies outside the range. The divisor is not zero.
    pub fn div_euclid(self, divisor: Saturating<F>) -> (r: Saturating<F>)
        requires
            divisor@ != 0,
        ensures
            r@ == Self::held(rescale(euclid_div(self@, divisor@), F::frac_nbits())),
    {
        Saturating(self.0.saturating_div_euclid(divisor.0))
    }

    /// The remainder of the division that leaves a remainder that is never negative. The
    /// divisor is not zero.
    pub fn rem_euclid(self, divisor: Saturating<F>) -> (r: Saturating<F>)
        requires
            divisor@ != 0,
        ensures
            r@ == euclid_rem(self@, divisor@),
    {
        Saturating(self.0.rem_euclid(divisor.0))
    }

    /// The whole number of the division by an integer that leaves a remainder that is never
    /// negative, or the nearest bound where that number lies outside the range. The divisor
    /// is not zero.
    pub fn div_euclid_int(self, divisor: F::Bits) -> (r: Saturating<F>)
        requires
            F::int_of_bits(divisor) != 0,
        ensures
            r@ == Self::held(
                rescale(
                    euclid_div(self@, rescale(F::int_of_bits(divisor), F::frac_nbits())),
                    F::frac_nbits(),
                ),
            ),
    {
        Saturating(self.0.saturating_div_euclid_int(divisor))
    }

    /// The remainder of the division by an integer that is never negative, or the upper
    /// bound where the remainder lies above it. The divisor is not zero.
    pub fn rem_euclid_int(self, divisor: F::Bits) -> (r: Saturating<F>)
        requires
            F::int_of_bits(divisor) != 0,
        ensures
            r@ == Self::held(euclid_rem(self@, rescale(F::int_of_bits(divisor), F::frac_nbits()))),
    {
        Saturating(self.0.saturating_rem_euclid_int(divisor))
    }

    /// The point between `start` and `end` at the share `self` of the way:
    /// `start + self * (end - start)`, with the product rounded down to a step of the type,
    /// or the nearest bound where that point lies outside the range. A share below zero or
    /// above one gives a point outside `start` and `end`.
    pub fn lerp(self, start: Saturating<F>, end: Saturating<F>) -> (r: Saturating<F>)
        ensures
            r@ == Self::held(start@ + descale(self@ * (end@ - start@), F::frac_nbits())),
    {
        Saturating(self.0.saturating_lerp(start.0, end.0))
    }

    /// The share of the way from `start` to `end` at which `self` lies:
    /// `(self - start) / (end - start)`, rounded towards zero to a step of the type, or the
    /// nearest bound where that share lies outside the range. `start` and `end` differ.
    pub fn inv_lerp(self, start: Saturating<F>, end: Saturating<F>) -> (r: Saturating<F>)
        requires
            start@ != end@,
        ensures
            r@ == Self::held(trunc_div(rescale(self@ - start@, F::frac_nbits()), end@ - start@)),
    {
        Saturating(self.0.saturating_inv_lerp(start.0, end.0))
    }

    /// Shifts the bit pattern left by `rhs` bits; the result is zero from 128 bits on.
    pub fn unbounded_shl(self, rhs: u32) -> (r: Saturating<F>)
        ensures
            wrap_u128(r@) == (wrap_u128(self@) * pow2(rhs as nat)) % pow2_128(),
    {
        Saturating(self.0.unbounded_shl(rhs))
    }

    /// Shifts the number right by `rhs` bits, rounding down; from 128 bits on only the sign is
    /// left: zero, or for a negative number the step below zero.
    pub fn unbounded_shr(self, rhs: u32) -> (r: Saturating<F>)
        ensures
            r@ == self@ / (pow2(rhs as nat) as int),
    {
        Saturating(self.0.unbounded_shr(rhs))
    }
}

impl<F: FixedSigned> Saturating<F> {
    /// The number with the same bits read as an unsigned number.
    pub fn cast_unsigned(self) -> (r: Saturating<F::Unsigned>)
        ensures
            r@ == wrap_u128(self@),
    {
        Saturating(self.0.cast_unsigned())
    }

    /// The number of bits that it takes to write the number in two's complement, the sign
    /// bit included.
    pub fn signed_bits(self) -> (r: u32)
        ensures
            self@ >= 0 ==> r == bit_length(self@ as nat) + 1,
            self@ < 0 ==> r == bit_length((-1 - self@) as nat) + 1,
    {
        self.0.signed_bits()
    }

    /// Whether the number is above zero.
    pub fn is_positive(self) -> (r: bool)
        ensures
            r == (self@ > 0),
    {
        self.0.is_positive()
    }

    /// Whether the number is below zero.
    pub fn is_negative(self) -> (r: bool)
        ensures
            r == (self@ < 0),
    {
        self.0.is_negative()
    }

    /// The distance from zero; the upper bound for the lower bound, whose distance from zero
    /// lies one step above the range.
    pub fn abs(self) -> (r: Saturating<F>)
        ensures
            r@ == Self::held(abs(self@)),
    {
        Saturating(self.0.saturating_abs())
    }

    /// Minus one, zero or one, as the number is negative, zero or positive; the nearest bound
    /// where the type cannot hold one or minus one.
    pub fn signum(self) -> (r: Saturating<F>)
        ensures
            r@ == Self::held(rescale(sign(self@), F::frac_nbits())),
    {
        Saturating(self.0.saturating_signum())
    }

    /// The sum with an unsigned number, or the upper bound where the sum lies above it.
    pub fn add_unsigned(self, rhs: F::Unsigned) -> (r: Saturating<F>)
        ensures
            r@ == Self::held(self@ + rhs.as_int()),
    {
        Saturating(self.0.saturating_add_unsigned(rhs))
    }

    /// The difference from an unsigned number, or the lower bound where the difference lies
    /// below it.
    pub fn sub_unsigned(self, rhs: F::Unsigned) -> (r: Saturating<F>)
        ensures
            r@ == Self::held(self@ - rhs.as_int()),
    {
        Saturating(self.0.saturating_sub_unsigned(rhs))
    }
}

impl<F: FixedUnsigned> Saturating<F> {
    /// The number with the same bits read as a signed number.
    pub fn cast_signed(self) -> (r: Saturating<F::Signed>)
        ensures
            r@ == wrap_i128(self@),
    {
        Saturating(self.0.cast_signed())
    }

    /// The number of bits that it takes to write the number in binary.
    pub fn significant_bits(self) -> (r: u32)
        ensures
            r == bit_length(self@ as nat),
    {
        self.0.significant_bits()
    }

    /// Whether the number is a power of two: whether exactly one bit is set.
    pub fn is_power_of_two(self) -> (r: bool)
        ensures
            r == (self@ > 0 && self@ == pow2((bit_length(self@ as nat) - 1) as nat)),
    {
        self.0.is_power_of_two()
    }

    /// The greatest power of two that is not above the number: its highest set bit alone.
    /// Zero for zero.
    pub fn highest_one(self) -> (r: Saturating<F>)
        ensures
            self@ <= 0 ==> r@ == 0,
            self@ > 0 ==> r@ == pow2((bit_length(self@ as nat) - 1) as nat),
    {
        Saturating(self.0.highest_one())
    }

    /// The sum with a signed number, or the nearest bound where the sum lies outside the
    /// range.
    pub fn add_signed(self, rhs: F::Signed) -> (r: Saturating<F>)
        ensures
            r@ == Self::held(self@ + rhs.as_int()),
    {
        Saturating(self.0.saturating_add_signed(rhs))
    }

    /// The difference from a signed number, or the nearest bound where the difference lies
    /// outside the range.
    pub fn sub_signed(self, rhs: F::Signed) -> (r: Saturating<F>)
        ensures
            r@ == Self::held(self@ - rhs.as_int()),
    {
        Saturating(self.0.saturating_sub_signed(rhs))
    }
}

impl<F: Fixed> core::ops::Add for Saturating<F> {
    type Output = Saturating<F>;

    /// The sum, or the nearest bound where the sum lies outside the range.
    fn add(self, rhs: Saturating<F>) -> (r: Saturating<F>) {
        let r = Saturating(self.0.saturating_add(rhs.0));
        proof {
            r.lemma_is_of_held(self@ + rhs@);
        }
        r
    }
}

impl<F: Fixed> AddSpecImpl for Saturating<F> {
    open spec fn obeys_add_spec() -> bool {
        true
    }

    open spec fn add_req(self, rhs: Saturating<F>) -> bool {
        true
    }

    open spec fn add_spec(self, rhs: Saturating<F>) -> Saturating<F> {
        Self::of_held(self@ + rhs@)
    }
}

impl<F: Fixed> core::ops::Sub for Saturating<F> {
    type Output = Saturating<F>;

    /// The difference, or the nearest bound where the difference lies outside the range.
    fn sub(self, rhs: Saturating<F>) -> (r: Saturating<F>) {
        let r = Saturating(self.0.saturating_sub(rhs.0));
        proof {
            r.lemma_is_of_held(self@ - rhs@);
        }
        r
    }
}

impl<F: Fixed> SubSpecImpl for Saturating<F> {
    open spec fn obeys_sub_spec() -> bool {
        true
    }

    open spec fn sub_req(self, rhs: Saturating<F>) -> bool {
        true
    }

    open spec fn sub_spec(self, rhs: Saturating<F>) -> Saturating<F> {
        Self::of_held(self@ - rhs@)
    }
}

impl<F: Fixed> core::ops::Mul for Saturating<F> {
    type Output = Saturating<F>;

    /// The product, rounded down to a step of the type, or the nearest bound where the
    /// product lies outside the range.
    fn mul(self, rhs: Saturating<F>) -> (r: Saturating<F>) {
        let r = Saturating(self.0.saturating_mul(rhs.0));
        proof {
            r.lemma_is_of_held(descale(self@ * rhs@, F::frac_nbits()));
        }
        r
    }
}

impl<F: Fixed> MulSpecImpl for Saturating<F> {
    open spec fn obeys_mul_spec() -> bool {
        true
    }

    open spec fn mul_req(self, rhs: Saturating<F>) -> bool {
        true
    }

    open spec fn mul_spec(self, rhs: Saturating<F>) -> Saturating<F> {
        Self::of_held(descale(self@ * rhs@, F::frac_nbits()))
    }
}

impl<F: Fixed> core::ops::Div for Saturating<F> {
    type Output = Saturating<F>;

    /// The quotient, rounded towards zero to a step of the type, or the nearest bound where
    /// the quotient lies outside the range. The divisor is not zero.
    fn div(self, rhs: Saturating<F>) -> (r: Saturating<F>) {
        let r = Saturating(self.0.saturating_div(rhs.0));
        proof {
            r.lemma_is_of_held(trunc_div(rescale(self@, F::frac_nbits()), rhs@));
        }
        r
    }
}

impl<F: Fixed> DivSpecImpl for Saturating<F> {
    open spec fn obeys_div_spec() -> bool {
        true
    }

    open spec fn div_req(self, rhs: Saturating<F>) -> bool {
        rhs@ != 0
    }

    open spec fn div_spec(self, rhs: Saturating<F>) -> Saturating<F> {
        Self::of_held(trunc_div(rescale(self@, F::frac_nbits()), rhs@))
    }
}

impl<F: Fixed> core::ops::Rem for Saturating<F> {
    type Output = Saturating<F>;

    /// The remainder of the division whose quotient is rounded towards zero. The divisor is
    /// not zero.
    fn rem(self, rhs: Saturating<F>) -> (r: Saturating<F>) {
        let r = Saturating(self.0.rem(rhs.0));
        proof {
            r.0.lemma_in_range();
            r.lemma_is_of_held(trunc_rem(self@, rhs@));
        }
        r
    }
}

impl<F: Fixed> RemSpecImpl for Saturating<F> {
    open spec fn obeys_rem_spec() -> bool {
        true
    }

    open spec fn rem_req(self, rhs: Saturating<F>) -> bool {
        rhs@ != 0
    }

    open spec fn rem_spec(self, rhs: Saturating<F>) -> Saturating<F> {
        Self::of_held(trunc_rem(self@, rhs@))
    }
}

impl<F: Fixed> core::ops::Neg for Saturating<F> {
    type Output = Saturating<F>;

    /// The number negated, or the nearest bound where that lies outside the range.
    fn neg(self) -> (r: Saturating<F>) {
        let r = Saturating(self.0.saturating_neg());
        proof {
            r.lemma_is_of_held(-self@);
        }
        r
    }
}

impl<F: Fixed> NegSpecImpl for Saturating<F> {
    open spec fn obeys_neg_spec() -> bool {
        true
    }

    open spec fn neg_req(self) -> bool {
        true
    }

    open spec fn neg_spec(self) -> Saturating<F> {
        Self::of_held(-self@)
    }
}

impl<F: Fixed> From<F> for Saturating<F> {
    /// Wraps a fixed-point number.
    fn from(src: F) -> (r: Saturating<F>) {
        Saturating(src)
    }
}

impl<F: Fixed> FromSpecImpl<F> for Saturating<F> {
    open spec fn obeys_from_spec() -> bool {
        true
    }

    open spec fn from_spec(src: F) -> Saturating<F> {
        Saturating(src)
    }
}

} // verus!
