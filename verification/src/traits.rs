//! What every fixed-point number of this library can do.
//!
//! A fixed-point number with f fractional bits is a whole number of steps of 2^-f. The
//! contracts speak of that whole number, `as_int`: the value times 2^f. Where an operation is
//! defined on the bits alone, they speak of the bit pattern, which is `as_int` modulo 2^128.

use vstd::prelude::*;
use vstd::arithmetic::power2::pow2;
use crate::bits::{
    bit_length, count_ones_of, pow2_128, reversed_bits, rotated_left, swapped_bytes,
    trailing_zeros_of,
};
use crate::bytes::{be_value, byte_at, le_value};
use crate::int256::{abs, wrap_i128, wrap_u128};
use crate::log::is_int_log;
use crate::sqrt::sqrt_floor;

verus! {

/// `v` where it lies within `lo ..= hi`, else the nearer of the two bounds.
pub open spec fn saturate(v: int, lo: int, hi: int) -> int {
    if v < lo {
        lo
    } else if v > hi {
        hi
    } else {
        v
    }
}

/// The quotient of `a` by `b` rounded towards zero.
pub open spec fn trunc_div(a: int, b: int) -> int {
    if (a < 0) == (b < 0) {
        abs(a) / abs(b)
    } else {
        -(abs(a) / abs(b))
    }
}

/// The remainder that the division of `a` by `b` leaves where its quotient is rounded towards
/// zero: it has the sign of `a`, or is zero.
pub open spec fn trunc_rem(a: int, b: int) -> int {
    a - trunc_div(a, b) * b
}

/// The whole number of the division of `a` by `d` that leaves a remainder that is never
/// negative.
pub open spec fn euclid_div(a: int, d: int) -> int {
    if d < 0 {
        -(a / (-d))
    } else {
        a / d
    }
}

/// The remainder of the division of `a` by `d` that is never negative.
pub open spec fn euclid_rem(a: int, d: int) -> int {
    a % abs(d)
}

/// The multiple of `b` next to `a`: the least one that is not below `a` where `b` is positive,
/// the greatest one that is not above `a` where `b` is negative.
pub open spec fn next_multiple(a: int, b: int) -> int {
    if b > 0 {
        a + euclid_rem(-a, b)
    } else {
        a - euclid_rem(a, b)
    }
}

/// -1, 0 or 1, as `v` is negative, zero or positive.
pub open spec fn sign(v: int) -> int {
    if v < 0 {
        -1
    } else if v > 0 {
        1
    } else {
        0
    }
}

/// `v` brought from twice `frac` fractional bits back to `frac`, rounding down; a product of
/// two stored integers is brought back to a stored integer this way.
pub open spec fn descale(v: int, frac: nat) -> int {
    v / (pow2(frac) as int)
}

/// `v` raised by `frac` fractional bits; a dividend is raised this way before it is divided
/// by a stored integer.
pub open spec fn rescale(v: int, frac: nat) -> int {
    v * pow2(frac)
}

/// The stored integer `n` brought from `from` fractional bits to `to`: raised where `to` is
/// more, and where it is less, lowered and rounded down.
pub open spec fn rescaled(n: int, from: nat, to: nat) -> int {
    if to >= from {
        n * pow2((to - from) as nat)
    } else {
        n / (pow2((from - to) as nat) as int)
    }
}

/// The integer with the given distance from zero on the given side of it.
pub open spec fn signed(magnitude: int, negative: bool) -> int {
    if negative {
        -magnitude
    } else {
        magnitude
    }
}

/// The greatest whole number, as a stored integer with `frac` fractional bits, that is not
/// above `v`.
pub open spec fn floor_to(v: int, frac: nat) -> int {
    v - v % (pow2(frac) as int)
}

/// The least whole number, as a stored integer with `frac` fractional bits, that is not
/// below `v`.
pub open spec fn ceil_to(v: int, frac: nat) -> int {
    v + (-v) % (pow2(frac) as int)
}

/// The whole number next to `v` in the direction of zero.
pub open spec fn trunc_to(v: int, frac: nat) -> int {
    if v >= 0 {
        floor_to(v, frac)
    } else {
        ceil_to(v, frac)
    }
}

/// The whole number nearest to `v`; of two that are equally near, the one further from zero.
pub open spec fn round_to(v: int, frac: nat) -> int {
    if v >= 0 {
        floor_to(v + pow2(frac) / 2, frac)
    } else {
        -floor_to(-v + pow2(frac) / 2, frac)
    }
}

/// The whole number nearest to `v`; of two that are equally near, the even one.
pub open spec fn round_ties_even_to(v: int, frac: nat) -> int {
    let below = floor_to(v, frac);
    let rest = v - below;
    let step = pow2(frac) as int;
    if 2 * rest < step || (2 * rest == step && (below / step) % 2 == 0) {
        below
    } else {
        below + step
    }
}

/// A fixed-point number of 128 bits.
pub trait Fixed: Sized + Copy {
    /// The integer type that holds the bits.
    type Bits: Copy;

    /// The array that holds the bytes.
    type Bytes;

    /// The number of fractional bits.
    spec fn frac_nbits() -> nat;

    /// The bytes that `bytes` holds, in their order.
    spec fn seq_of_bytes(bytes: Self::Bytes) -> Seq<u8>;

    /// The least stored integer.
    spec fn min_int() -> int;

    /// The greatest stored integer.
    spec fn max_int() -> int;

    /// The mathematical integer that `bits` holds.
    spec fn int_of_bits(bits: Self::Bits) -> int;

    /// The stored integer: the number's value times 2^f.
    spec fn as_int(self) -> int;

    /// The number whose stored integer is `v`, for `v` within the type's range.
    spec fn of_int(v: int) -> Self;

    /// The stored integer lies within the type's range.
    proof fn lemma_in_range(self)
        ensures
            Self::min_int() <= self.as_int() <= Self::max_int(),
    ;

    /// Zero lies within the type's range.
    proof fn lemma_zero_in_range()
        ensures
            Self::min_int() <= 0 <= Self::max_int(),
    ;

    /// Every integer within the type's range is the stored integer of a number.
    proof fn lemma_of_int(v: int)
        requires
            Self::min_int() <= v <= Self::max_int(),
        ensures
            Self::of_int(v).as_int() == v,
    ;

    /// Two numbers with the same stored integer are the same number.
    proof fn lemma_same_int(self, other: Self)
        requires
            self.as_int() == other.as_int(),
        ensures
            self == other,
    ;

    /// The number of fractional bits of the type.
    fn frac_count() -> (r: u32)
        ensures
            r == Self::frac_nbits(),
    ;

    /// The number of fractional bits of a number, which is at most 128.
    fn frac_bits(self) -> (r: u32)
        ensures
            r == Self::frac_nbits(),
            r <= 128,
    ;

    /// The stored integer as its distance from zero and whether it lies below zero.
    fn to_parts(self) -> (r: (u128, bool))
        ensures
            r.0 == abs(self.as_int()),
            r.1 == (self.as_int() < 0),
    ;

    /// The number nearest below a number with `frac` fractional bits, which is given by the
    /// distance of its stored integer from zero and by whether it lies below zero; the
    /// nearest bound where that number lies outside the range.
    fn saturating_from_parts(magnitude: u128, negative: bool, frac: u32) -> (r: Self)
        requires
            frac <= 128,
            Self::frac_nbits() <= 128,
        ensures
            r.as_int() == saturate(
                rescaled(signed(magnitude as int, negative), frac as nat, Self::frac_nbits()),
                Self::min_int(),
                Self::max_int(),
            ),
    ;

    /// The number whose stored integer is `bits`.
    fn from_bits(bits: Self::Bits) -> (r: Self)
        requires
            Self::frac_nbits() <= 128,
        ensures
            r.as_int() == Self::int_of_bits(bits),
    ;

    /// The stored integer.
    fn to_bits(self) -> (r: Self::Bits)
        ensures
            Self::int_of_bits(r) == self.as_int(),
    ;

    /// The number whose bit pattern is written by `bytes`, highest byte first.
    fn from_be_bytes(bytes: Self::Bytes) -> (r: Self)
        requires
            Self::frac_nbits() <= 128,
        ensures
            wrap_u128(r.as_int()) == be_value(Self::seq_of_bytes(bytes)),
    ;

    /// The number whose bit pattern is written by `bytes`, lowest byte first.
    fn from_le_bytes(bytes: Self::Bytes) -> (r: Self)
        requires
            Self::frac_nbits() <= 128,
        ensures
            wrap_u128(r.as_int()) == le_value(Self::seq_of_bytes(bytes)),
    ;

    /// The number whose bit pattern is written by `bytes` in the order in which this machine
    /// stores them: lowest byte first or highest byte first.
    fn from_ne_bytes(bytes: Self::Bytes) -> (r: Self)
        requires
            Self::frac_nbits() <= 128,
        ensures
            wrap_u128(r.as_int()) == le_value(Self::seq_of_bytes(bytes)) || wrap_u128(r.as_int())
                == be_value(Self::seq_of_bytes(bytes)),
    ;

    /// The 16 bytes of the bit pattern in the order in which this machine stores them: lowest
    /// byte first or highest byte first.
    fn to_ne_bytes(self) -> (r: Self::Bytes)
        ensures
            Self::seq_of_bytes(r).len() == 16,
            le_value(Self::seq_of_bytes(r)) == wrap_u128(self.as_int()) || be_value(
                Self::seq_of_bytes(r),
            ) == wrap_u128(self.as_int()),
    ;

    /// The number of this machine that `x` is where `x` was stored highest byte first: `x`
    /// itself or `x` with its bytes swapped, as this machine stores numbers.
    fn from_be(x: Self) -> (r: Self)
        ensures
            r == x || wrap_u128(r.as_int()) == swapped_bytes(wrap_u128(x.as_int()) as nat, 16),
    ;

    /// The number of this machine that `x` is where `x` was stored lowest byte first: `x`
    /// itself or `x` with its bytes swapped, as this machine stores numbers.
    fn from_le(x: Self) -> (r: Self)
        ensures
            r == x || wrap_u128(r.as_int()) == swapped_bytes(wrap_u128(x.as_int()) as nat, 16),
    ;

    /// The number that is stored highest byte first as this machine stores `self`: `self` or
    /// `self` with its bytes swapped.
    fn to_be(self) -> (r: Self)
        ensures
            r == self || wrap_u128(r.as_int()) == swapped_bytes(
                wrap_u128(self.as_int()) as nat,
                16,
            ),
    ;

    /// The number that is stored lowest byte first as this machine stores `self`: `self` or
    /// `self` with its bytes swapped.
    fn to_le(self) -> (r: Self)
        ensures
            r == self || wrap_u128(r.as_int()) == swapped_bytes(
                wrap_u128(self.as_int()) as nat,
                16,
            ),
    ;

    /// The 16 bytes of the bit pattern, highest byte first.
    fn to_be_bytes(self) -> (r: Self::Bytes)
        ensures
            Self::seq_of_bytes(r).len() == 16,
            forall|j: int|
                0 <= j < 16 ==> Self::seq_of_bytes(r)[j] as nat == byte_at(
                    wrap_u128(self.as_int()) as nat,
                    (15 - j) as nat,
                ),
            be_value(Self::seq_of_bytes(r)) == wrap_u128(self.as_int()),
    ;

    /// The 16 bytes of the bit pattern, lowest byte first.
    fn to_le_bytes(self) -> (r: Self::Bytes)
        ensures
            Self::seq_of_bytes(r).len() == 16,
            forall|j: int|
                0 <= j < 16 ==> Self::seq_of_bytes(r)[j] as nat == byte_at(
                    wrap_u128(self.as_int()) as nat,
                    j as nat,
                ),
            le_value(Self::seq_of_bytes(r)) == wrap_u128(self.as_int()),
    ;

    /// Whether the number is zero.
    fn is_zero(self) -> (r: bool)
        ensures
            r == (self.as_int() == 0),
    ;

    /// The number of zero bits above the highest one bit of the bit pattern.
    fn leading_zeros(self) -> (r: u32)
        ensures
            r == 128 - bit_length(wrap_u128(self.as_int()) as nat),
    ;

    /// The number of one bits above the highest zero bit of the bit pattern.
    fn leading_ones(self) -> (r: u32)
        ensures
            r == 128 - bit_length((pow2_128() - 1 - wrap_u128(self.as_int())) as nat),
    ;

    /// The number of one bits in the bit pattern.
    fn count_ones(self) -> (r: u32)
        ensures
            r == count_ones_of(wrap_u128(self.as_int()) as nat),
    ;

    /// The number of zero bits in the bit pattern.
    fn count_zeros(self) -> (r: u32)
        ensures
            r == 128 - count_ones_of(wrap_u128(self.as_int()) as nat),
    ;

    /// The number of zero bits below the lowest one bit of the bit pattern.
    fn trailing_zeros(self) -> (r: u32)
        ensures
            r == trailing_zeros_of(wrap_u128(self.as_int()) as nat),
    ;

    /// The number of one bits below the lowest zero bit of the bit pattern.
    fn trailing_ones(self) -> (r: u32)
        ensures
            r == trailing_zeros_of((pow2_128() - 1 - wrap_u128(self.as_int())) as nat),
    ;

    /// The whole part of the logarithm to base 2 of a number above zero.
    fn int_log2(self) -> (r: i32)
        requires
            self.as_int() > 0,
        ensures
            r == bit_length(self.as_int() as nat) - 1 - Self::frac_nbits(),
    ;

    /// The whole part of the logarithm to base 10 of a number above zero.
    fn int_log10(self) -> (r: i32)
        requires
            self.as_int() > 0,
        ensures
            is_int_log(self.as_int(), Self::frac_nbits(), 10, r as int),
    ;

    /// The whole part of the logarithm to `base`, which is at least 2, of a number above
    /// zero.
    fn int_log(self, base: u32) -> (r: i32)
        requires
            self.as_int() > 0,
            base >= 2,
        ensures
            is_int_log(self.as_int(), Self::frac_nbits(), base as int, r as int),
    ;

    /// The number whose bit pattern is that of `self` with its 128 bits in the opposite
    /// order.
    fn reverse_bits(self) -> (r: Self)
        ensures
            wrap_u128(r.as_int()) == reversed_bits(wrap_u128(self.as_int()) as nat, 128),
    ;

    /// The number whose bit pattern is that of `self` with its 16 bytes in the opposite
    /// order.
    fn swap_bytes(self) -> (r: Self)
        ensures
            wrap_u128(r.as_int()) == swapped_bytes(wrap_u128(self.as_int()) as nat, 16),
    ;

    /// The number whose bit pattern is that of `self` moved `n` places to the left, with the
    /// bits that leave at the top coming back in at the bottom.
    fn rotate_left(self, n: u32) -> (r: Self)
        ensures
            wrap_u128(r.as_int()) == rotated_left(wrap_u128(self.as_int()), (n % 128) as nat),
    ;

    /// The number whose bit pattern is that of `self` moved `n` places to the right, with the
    /// bits that leave at the bottom coming back in at the top.
    fn rotate_right(self, n: u32) -> (r: Self)
        ensures
            wrap_u128(r.as_int()) == rotated_left(
                wrap_u128(self.as_int()),
                ((128 - n % 128) % 128) as nat,
            ),
    ;

    /// The integer part: the bit pattern with its fractional bits cleared.
    fn int_part(self) -> (r: Self)
        ensures
            wrap_u128(r.as_int()) == wrap_u128(self.as_int()) - wrap_u128(self.as_int()) % (pow2(
                Self::frac_nbits(),
            ) as int),
    ;

    /// The fractional part: the bit pattern with its integer bits cleared.
    fn frac(self) -> (r: Self)
        ensures
            wrap_u128(r.as_int()) == wrap_u128(self.as_int()) % (pow2(Self::frac_nbits()) as int),
    ;

    /// The whole number next to the number in the direction of zero.
    fn round_to_zero(self) -> (r: Self)
        ensures
            r.as_int() == trunc_to(self.as_int(), Self::frac_nbits()),
    ;

    /// The least whole number that is not below the number, or the upper bound where that
    /// lies above it.
    fn saturating_ceil(self) -> (r: Self)
        ensures
            r.as_int() == saturate(
                ceil_to(self.as_int(), Self::frac_nbits()),
                Self::min_int(),
                Self::max_int(),
            ),
    ;

    /// The greatest whole number that is not above the number, or the lower bound where that
    /// lies below it.
    fn saturating_floor(self) -> (r: Self)
        ensures
            r.as_int() == saturate(
                floor_to(self.as_int(), Self::frac_nbits()),
                Self::min_int(),
                Self::max_int(),
            ),
    ;

    /// The nearest whole number, the one further from zero where two are equally near, or
    /// the nearest bound where that lies outside the range.
    fn saturating_round(self) -> (r: Self)
        ensures
            r.as_int() == saturate(
                round_to(self.as_int(), Self::frac_nbits()),
                Self::min_int(),
                Self::max_int(),
            ),
    ;

    /// The nearest whole number, the even one where two are equally near, or the nearest
    /// bound where that lies outside the range.
    fn saturating_round_ties_even(self) -> (r: Self)
        ensures
            r.as_int() == saturate(
                round_ties_even_to(self.as_int(), Self::frac_nbits()),
                Self::min_int(),
                Self::max_int(),
            ),
    ;

    /// The sum, or the nearest bound where the sum lies outside the range.
    fn saturating_add(self, rhs: Self) -> (r: Self)
        ensures
            r.as_int() == saturate(self.as_int() + rhs.as_int(), Self::min_int(), Self::max_int()),
    ;

    /// The difference, or the nearest bound where the difference lies outside the range.
    fn saturating_sub(self, rhs: Self) -> (r: Self)
        ensures
            r.as_int() == saturate(self.as_int() - rhs.as_int(), Self::min_int(), Self::max_int()),
    ;

    /// The number negated, or the nearest bound where that lies outside the range.
    fn saturating_neg(self) -> (r: Self)
        ensures
            r.as_int() == saturate(-self.as_int(), Self::min_int(), Self::max_int()),
    ;

    /// The product, rounded down to a step of the type, or the nearest bound where the
    /// product lies outside the range.
    fn saturating_mul(self, rhs: Self) -> (r: Self)
        ensures
            r.as_int() == saturate(
                descale(self.as_int() * rhs.as_int(), Self::frac_nbits()),
                Self::min_int(),
                Self::max_int(),
            ),
    ;

    /// The quotient, rounded towards zero to a step of the type, or the nearest bound where
    /// the quotient lies outside the range.
    fn saturating_div(self, rhs: Self) -> (r: Self)
        requires
            rhs.as_int() != 0,
        ensures
            r.as_int() == saturate(
                trunc_div(rescale(self.as_int(), Self::frac_nbits()), rhs.as_int()),
                Self::min_int(),
                Self::max_int(),
            ),
    ;

    /// The remainder of the division whose quotient is rounded towards zero: it has the sign
    /// of the number, or is zero.
    fn rem(self, rhs: Self) -> (r: Self)
        requires
            rhs.as_int() != 0,
        ensures
            r.as_int() == trunc_rem(self.as_int(), rhs.as_int()),
    ;

    /// The distance between two numbers, or the upper bound where the distance lies above it.
    fn saturating_dist(self, other: Self) -> (r: Self)
        ensures
            r.as_int() == saturate(
                abs(self.as_int() - other.as_int()),
                Self::min_int(),
                Self::max_int(),
            ),
    ;

    /// The mean of two numbers, rounded down to a step of the type.
    fn mean(self, other: Self) -> (r: Self)
        ensures
            r.as_int() == (self.as_int() + other.as_int()) / 2,
    ;

    /// The remainder of the division that leaves a remainder that is never negative.
    fn rem_euclid(self, divisor: Self) -> (r: Self)
        requires
            divisor.as_int() != 0,
        ensures
            r.as_int() == euclid_rem(self.as_int(), divisor.as_int()),
    ;

    /// The square root of a number that is not negative, rounded down to a step of the type,
    /// or the upper bound where the root lies above it.
    fn saturating_sqrt(self) -> (r: Self)
        requires
            self.as_int() >= 0,
        ensures
            r.as_int() == saturate(
                sqrt_floor(rescale(self.as_int(), Self::frac_nbits())),
                Self::min_int(),
                Self::max_int(),
            ),
    ;

    /// The length of the longest side of a right triangle with the two shorter sides `self`
    /// and `other`, rounded down to a step of the type, or the upper bound where the length
    /// lies above it.
    fn saturating_hypot(self, other: Self) -> (r: Self)
        ensures
            r.as_int() == saturate(
                sqrt_floor(self.as_int() * self.as_int() + other.as_int() * other.as_int()),
                Self::min_int(),
                Self::max_int(),
            ),
    ;

    /// The multiple of `other` next to the number, or the nearest bound where that multiple
    /// lies outside the range.
    fn saturating_next_multiple_of(self, other: Self) -> (r: Self)
        requires
            other.as_int() != 0,
        ensures
            r.as_int() == saturate(
                next_multiple(self.as_int(), other.as_int()),
                Self::min_int(),
                Self::max_int(),
            ),
    ;

    /// The whole number of the division by an integer that leaves a remainder that is never
    /// negative, or the nearest bound where that number lies outside the range.
    fn saturating_div_euclid_int(self, divisor: Self::Bits) -> (r: Self)
        requires
            Self::int_of_bits(divisor) != 0,
        ensures
            r.as_int() == saturate(
                rescale(
                    euclid_div(
                        self.as_int(),
                        rescale(Self::int_of_bits(divisor), Self::frac_nbits()),
                    ),
                    Self::frac_nbits(),
                ),
                Self::min_int(),
                Self::max_int(),
            ),
    ;

    /// The remainder of the division by an integer that is never negative, or the upper
    /// bound where the remainder lies above it.
    fn saturating_rem_euclid_int(self, divisor: Self::Bits) -> (r: Self)
        requires
            Self::int_of_bits(divisor) != 0,
        ensures
            r.as_int() == saturate(
                euclid_rem(self.as_int(), rescale(Self::int_of_bits(divisor), Self::frac_nbits())),
                Self::min_int(),
                Self::max_int(),
            ),
    ;

    /// The number whose bit pattern is that of `self` shifted left by `rhs` bits; zero from
    /// 128 bits on.
    fn unbounded_shl(self, rhs: u32) -> (r: Self)
        ensures
            wrap_u128(r.as_int()) == (wrap_u128(self.as_int()) * pow2(rhs as nat)) % pow2_128(),
    ;

    /// The number shifted right by `rhs` bits, rounding down; from 128 bits on only the sign
    /// is left.
    fn unbounded_shr(self, rhs: u32) -> (r: Self)
        ensures
            r.as_int() == self.as_int() / (pow2(rhs as nat) as int),
    ;

    /// `self * mul + add`, with the product rounded down to a step of the type; only the
    /// final sum is held to the range.
    fn saturating_mul_add(self, mul: Self, add: Self) -> (r: Self)
        ensures
            r.as_int() == saturate(
                descale(self.as_int() * mul.as_int(), Self::frac_nbits()) + add.as_int(),
                Self::min_int(),
                Self::max_int(),
            ),
    ;

    /// `self + a * b`, with the product rounded down to a step of the type; only the final
    /// sum is held to the range.
    fn saturating_add_prod(self, a: Self, b: Self) -> (r: Self)
        ensures
            r.as_int() == saturate(
                descale(a.as_int() * b.as_int(), Self::frac_nbits()) + self.as_int(),
                Self::min_int(),
                Self::max_int(),
            ),
    ;

    /// Adds `a * b` to `self`, as `saturating_add_prod` does.
    fn saturating_mul_acc(&mut self, a: Self, b: Self)
        ensures
            final(self).as_int() == saturate(
                descale(a.as_int() * b.as_int(), Self::frac_nbits()) + old(self).as_int(),
                Self::min_int(),
                Self::max_int(),
            ),
    ;

    /// The point between `start` and `end` at the share `self` of the way:
    /// `start + self * (end - start)`, with the product rounded down to a step of the type,
    /// or the nearest bound where that point lies outside the range. A share below zero or
    /// above one gives a point outside `start` and `end`.
    fn saturating_lerp(self, start: Self, end: Self) -> (r: Self)
        ensures
            r.as_int() == saturate(
                start.as_int() + descale(
                    self.as_int() * (end.as_int() - start.as_int()),
                    Self::frac_nbits(),
                ),
                Self::min_int(),
                Self::max_int(),
            ),
    ;

    /// The share of the way from `start` to `end` at which `self` lies:
    /// `(self - start) / (end - start)`, rounded towards zero to a step of the type, or the
    /// nearest bound where that share lies outside the range.
    fn saturating_inv_lerp(self, start: Self, end: Self) -> (r: Self)
        requires
            start.as_int() != end.as_int(),
        ensures
            r.as_int() == saturate(
                trunc_div(
                    rescale(self.as_int() - start.as_int(), Self::frac_nbits()),
                    end.as_int() - start.as_int(),
                ),
                Self::min_int(),
                Self::max_int(),
            ),
    ;

    /// One divided by the number, rounded towards zero to a step of the type, or the nearest
    /// bound where that lies outside the range.
    fn saturating_recip(self) -> (r: Self)
        requires
            self.as_int() != 0,
        ensures
            r.as_int() == saturate(
                trunc_div(pow2(2 * Self::frac_nbits()) as int, self.as_int()),
                Self::min_int(),
                Self::max_int(),
            ),
    ;

    /// The whole number of the division that leaves a remainder that is never negative, or
    /// the nearest bound where that number lies outside the range.
    fn saturating_div_euclid(self, divisor: Self) -> (r: Self)
        requires
            divisor.as_int() != 0,
        ensures
            r.as_int() == saturate(
                rescale(euclid_div(self.as_int(), divisor.as_int()), Self::frac_nbits()),
                Self::min_int(),
                Self::max_int(),
            ),
    ;
}

/// A signed fixed-point number.
pub trait FixedSigned: Fixed {
    /// The unsigned number of the same size and with the same number of fractional bits.
    type Unsigned: Fixed;

    /// The number with the same bits read as an unsigned number.
    fn cast_unsigned(self) -> (r: Self::Unsigned)
        ensures
            r.as_int() == wrap_u128(self.as_int()),
    ;

    /// The number of bits that it takes to write the number in two's complement, the sign
    /// bit included.
    fn signed_bits(self) -> (r: u32)
        ensures
            self.as_int() >= 0 ==> r == bit_length(self.as_int() as nat) + 1,
            self.as_int() < 0 ==> r == bit_length((-1 - self.as_int()) as nat) + 1,
    ;

    /// Whether the number is above zero.
    fn is_positive(self) -> (r: bool)
        ensures
            r == (self.as_int() > 0),
    ;

    /// Whether the number is below zero.
    fn is_negative(self) -> (r: bool)
        ensures
            r == (self.as_int() < 0),
    ;

    /// The distance from zero, or the upper bound where the distance lies above it.
    fn saturating_abs(self) -> (r: Self)
        ensures
            r.as_int() == saturate(abs(self.as_int()), Self::min_int(), Self::max_int()),
    ;

    /// Minus one, zero or one, as the number is negative, zero or positive; the nearest bound
    /// where the type cannot hold one or minus one.
    fn saturating_signum(self) -> (r: Self)
        ensures
            r.as_int() == saturate(
                rescale(sign(self.as_int()), Self::frac_nbits()),
                Self::min_int(),
                Self::max_int(),
            ),
    ;

    /// The sum with an unsigned number, or the upper bound where the sum lies above it.
    fn saturating_add_unsigned(self, rhs: Self::Unsigned) -> (r: Self)
        ensures
            r.as_int() == saturate(self.as_int() + rhs.as_int(), Self::min_int(), Self::max_int()),
    ;

    /// The difference from an unsigned number, or the lower bound where the difference lies
    /// below it.
    fn saturating_sub_unsigned(self, rhs: Self::Unsigned) -> (r: Self)
        ensures
            r.as_int() == saturate(self.as_int() - rhs.as_int(), Self::min_int(), Self::max_int()),
    ;
}

/// An unsigned fixed-point number.
pub trait FixedUnsigned: Fixed {
    /// The signed number of the same size and with the same number of fractional bits.
    type Signed: Fixed;

    /// The number with the same bits read as a signed number.
    fn cast_signed(self) -> (r: Self::Signed)
        ensures
            r.as_int() == wrap_i128(self.as_int()),
    ;

    /// The number of bits that it takes to write the number in binary.
    fn significant_bits(self) -> (r: u32)
        ensures
            r == bit_length(self.as_int() as nat),
    ;

    /// Whether the number is a power of two: whether exactly one bit is set.
    fn is_power_of_two(self) -> (r: bool)
        ensures
            r == (self.as_int() > 0 && self.as_int() == pow2(
                (bit_length(self.as_int() as nat) - 1) as nat,
            )),
    ;

    /// The greatest power of two that is not above the number: its highest set bit alone.
    /// Zero for zero.
    fn highest_one(self) -> (r: Self)
        ensures
            self.as_int() <= 0 ==> r.as_int() == 0,
            self.as_int() > 0 ==> r.as_int() == pow2((bit_length(self.as_int() as nat) - 1) as nat),
    ;

    /// The sum with a signed number, or the nearest bound where the sum lies outside the
    /// range.
    fn saturating_add_signed(self, rhs: Self::Signed) -> (r: Self)
        ensures
            r.as_int() == saturate(self.as_int() + rhs.as_int(), Self::min_int(), Self::max_int()),
    ;

    /// The difference from a signed number, or the nearest bound where the difference lies
    /// outside the range.
    fn saturating_sub_signed(self, rhs: Self::Signed) -> (r: Self)
        ensures
            r.as_int() == saturate(self.as_int() - rhs.as_int(), Self::min_int(), Self::max_int()),
    ;
}

/// A number that can be made into a fixed-point number.
///
/// Such a number is a whole number of steps of 2^-f for some f: an integer, with f zero, or a
/// fixed-point number.
pub trait ToFixed: Sized {
    /// The number of steps that the number is: its value times 2^f.
    spec fn stored(self) -> int;

    /// The number f of fractional bits.
    spec fn frac_of() -> nat;

    /// The fixed-point number nearest below the number, or the nearest bound of the type
    /// where the number lies outside its range.
    fn saturating_to_fixed<F: Fixed>(self) -> (r: F)
        requires
            F::frac_nbits() <= 128,
        ensures
            r.as_int() == saturate(
                rescaled(self.stored(), Self::frac_of(), F::frac_nbits()),
                F::min_int(),
                F::max_int(),
            ),
    ;
}

/// A number that can be made from a fixed-point number.
///
/// Such a number is a whole number of steps of 2^-f for some f: an integer, with f zero, or a
/// fixed-point number.
pub trait FromFixed: Sized {
    /// The number of steps that the number is: its value times 2^f.
    spec fn stored(self) -> int;

    /// The number f of fractional bits.
    spec fn frac_of() -> nat;

    /// The least number of steps that the type holds.
    spec fn least() -> int;

    /// The greatest number of steps that the type holds.
    spec fn greatest() -> int;

    /// The number nearest below the fixed-point number, or the nearest bound of the type
    /// where the fixed-point number lies outside its range.
    fn saturating_from_fixed<F: Fixed>(src: F) -> (r: Self)
        requires
            Self::frac_of() <= 128,
        ensures
            r.stored() == saturate(
                rescaled(src.as_int(), F::frac_nbits(), Self::frac_of()),
                Self::least(),
                Self::greatest(),
            ),
    ;
}

} // verus!
