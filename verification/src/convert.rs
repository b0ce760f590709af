//! Bringing a number from one count of fractional bits to another.

use vstd::prelude::*;
use vstd::arithmetic::power2::pow2;
use crate::bits::{lemma_mod_near, lemma_pow2_values, low_ones};
use crate::int256::{
    abs, lemma_wide_powers, pow2_256, shl_u256_max_128, widening_shl_u128, wrapping_add_u256_u128,
    U256,
};
use crate::lemmas::lemma_descale_negated;
use crate::traits::{rescaled, saturate, signed, Fixed, FromFixed, ToFixed};

verus! {

/// The distance from zero of a stored integer brought from `from` fractional bits to `to`,
/// both at most 128. The integer is given by its distance from zero and by whether it lies
/// below zero, and the result lies on the same side of zero.
///
/// Lowering a negative number rounds it down, and so rounds its distance from zero up.
pub fn rescale_magnitude(magnitude: u128, negative: bool, from: u32, to: u32) -> (r: U256)
    requires
        from <= 128,
        to <= 128,
    ensures
        signed(r@, negative) == rescaled(signed(magnitude as int, negative), from as nat, to as nat),
{
    if to >= from {
        proof {
            assert((-(magnitude as int)) * pow2((to - from) as nat) == -(magnitude * pow2(
                (to - from) as nat,
            ))) by (nonlinear_arith);
        }
        widening_shl_u128(magnitude, to - from)
    } else {
        let wide = U256 { lo: magnitude, hi: 0 };
        if negative {
            let round_up = low_ones(from - to);
            proof {
                lemma_pow2_values();
                lemma_wide_powers();
                lemma_descale_negated(magnitude as int, (from - to) as nat);
                lemma_mod_near(wide@ + round_up, pow2_256());
            }
            shl_u256_max_128(wrapping_add_u256_u128(wide, round_up), from - to)
        } else {
            shl_u256_max_128(wide, from - to)
        }
    }
}

/// The distance of a signed number from zero and whether it lies below zero.
pub fn parts_of_i128(x: i128) -> (r: (u128, bool))
    ensures
        r.0 == abs(x as int),
        r.1 == (x < 0),
{
    if x < 0 {
        (((-(x + 1)) as u128) + 1, true)
    } else {
        (x as u128, false)
    }
}

impl ToFixed for i8 {
    open spec fn stored(self) -> int {
        self as int
    }

    open spec fn frac_of() -> nat {
        0
    }

    fn saturating_to_fixed<F: Fixed>(self) -> (r: F) {
        let (magnitude, negative) = parts_of_i128(self as i128);
        F::saturating_from_parts(magnitude, negative, 0)
    }
}

impl ToFixed for i16 {
    open spec fn stored(self) -> int {
        self as int
    }

    open spec fn frac_of() -> nat {
        0
    }

    fn saturating_to_fixed<F: Fixed>(self) -> (r: F) {
        let (magnitude, negative) = parts_of_i128(self as i128);
        F::saturating_from_parts(magnitude, negative, 0)
    }
}

impl ToFixed for i32 {
    open spec fn stored(self) -> int {
        self as int
    }

    open spec fn frac_of() -> nat {
        0
    }

    fn saturating_to_fixed<F: Fixed>(self) -> (r: F) {
        let (magnitude, negative) = parts_of_i128(self as i128);
        F::saturating_from_parts(magnitude, negative, 0)
    }
}

impl ToFixed for i64 {
    open spec fn stored(self) -> int {
        self as int
    }

    open spec fn frac_of() -> nat {
        0
    }

    fn saturating_to_fixed<F: Fixed>(self) -> (r: F) {
        let (magnitude, negative) = parts_of_i128(self as i128);
        F::saturating_from_parts(magnitude, negative, 0)
    }
}

impl ToFixed for i128 {
    open spec fn stored(self) -> int {
        self as int
    }

    open spec fn frac_of() -> nat {
        0
    }

    fn saturating_to_fixed<F: Fixed>(self) -> (r: F) {
        let (magnitude, negative) = parts_of_i128(self);
        F::saturating_from_parts(magnitude, negative, 0)
    }
}

impl ToFixed for u8 {
    open spec fn stored(self) -> int {
        self as int
    }

    open spec fn frac_of() -> nat {
        0
    }

    fn saturating_to_fixed<F: Fixed>(self) -> (r: F) {
        F::saturating_from_parts(self as u128, false, 0)
    }
}

impl ToFixed for u16 {
    open spec fn stored(self) -> int {
        self as int
    }

    open spec fn frac_of() -> nat {
        0
    }

    fn saturating_to_fixed<F: Fixed>(self) -> (r: F) {
        F::saturating_from_parts(self as u128, false, 0)
    }
}

impl ToFixed for u32 {
    open spec fn stored(self) -> int {
        self as int
    }

    open spec fn frac_of() -> nat {
        0
    }

    fn saturating_to_fixed<F: Fixed>(self) -> (r: F) {
        F::saturating_from_parts(self as u128, false, 0)
    }
}

impl ToFixed for u64 {
    open spec fn stored(self) -> int {
        self as int
    }

    open spec fn frac_of() -> nat {
        0
    }

    fn saturating_to_fixed<F: Fixed>(self) -> (r: F) {
        F::saturating_from_parts(self as u128, false, 0)
    }
}

impl ToFixed for u128 {
    open spec fn stored(self) -> int {
        self as int
    }

    open spec fn frac_of() -> nat {
        0
    }

    fn saturating_to_fixed<F: Fixed>(self) -> (r: F) {
        F::saturating_from_parts(self, false, 0)
    }
}

/// The whole part of a fixed-point number, rounded down, held to the range of `i128`.
fn whole_part_i128<F: Fixed>(src: F) -> (r: i128)
    ensures
        r == saturate(
            rescaled(src.as_int(), F::frac_nbits(), 0),
            i128::MIN as int,
            i128::MAX as int,
        ),
{
    let (magnitude, negative) = src.to_parts();
    let wide = rescale_magnitude(magnitude, negative, src.frac_bits(), 0);
    if negative {
        if wide.hi != 0 || wide.lo >= 0x8000_0000_0000_0000_0000_0000_0000_0000u128 {
            i128::MIN
        } else {
            -(wide.lo as i128)
        }
    } else {
        if wide.hi != 0 || wide.lo > i128::MAX as u128 {
            i128::MAX
        } else {
            wide.lo as i128
        }
    }
}

/// The whole part of a fixed-point number, rounded down, held to the range of `u128`.
fn whole_part_u128<F: Fixed>(src: F) -> (r: u128)
    ensures
        r == saturate(rescaled(src.as_int(), F::frac_nbits(), 0), 0, u128::MAX as int),
{
    let (magnitude, negative) = src.to_parts();
    let wide = rescale_magnitude(magnitude, negative, src.frac_bits(), 0);
    if negative {
        0
    } else if wide.hi != 0 {
        u128::MAX
    } else {
        wide.lo
    }
}

impl FromFixed for i8 {
    open spec fn stored(self) -> int {
        self as int
    }

    open spec fn frac_of() -> nat {
        0
    }

    open spec fn least() -> int {
        i8::MIN as int
    }

    open spec fn greatest() -> int {
        i8::MAX as int
    }

    fn saturating_from_fixed<F: Fixed>(src: F) -> (r: i8) {
        let whole = whole_part_i128(src);
        if whole < i8::MIN as i128 {
            i8::MIN
        } else if whole > i8::MAX as i128 {
            i8::MAX
        } else {
            whole as i8
        }
    }
}

impl FromFixed for i16 {
    open spec fn stored(self) -> int {
        self as int
    }

    open spec fn frac_of() -> nat {
        0
    }

    open spec fn least() -> int {
        i16::MIN as int
    }

    open spec fn greatest() -> int {
        i16::MAX as int
    }

    fn saturating_from_fixed<F: Fixed>(src: F) -> (r: i16) {
        let whole = whole_part_i128(src);
        if whole < i16::MIN as i128 {
            i16::MIN
        } else if whole > i16::MAX as i128 {
            i16::MAX
        } else {
            whole as i16
        }
    }
}

impl FromFixed for i32 {
    open spec fn stored(self) -> int {
        self as int
    }

    open spec fn frac_of() -> nat {
        0
    }

    open spec fn least() -> int {
        i32::MIN as int
    }

    open spec fn greatest() -> int {
        i32::MAX as int
    }

    fn saturating_from_fixed<F: Fixed>(src: F) -> (r: i32) {
        let whole = whole_part_i128(src);
        if whole < i32::MIN as i128 {
            i32::MIN
        } else if whole > i32::MAX as i128 {
            i32::MAX
        } else {
            whole as i32
        }
    }
}

impl FromFixed for i64 {
    open spec fn stored(self) -> int {
        self as int
    }

    open spec fn frac_of() -> nat {
        0
    }

    open spec fn least() -> int {
        i64::MIN as int
    }

    open spec fn greatest() -> int {
        i64::MAX as int
    }

    fn saturating_from_fixed<F: Fixed>(src: F) -> (r: i64) {
        let whole = whole_part_i128(src);
        if whole < i64::MIN as i128 {
            i64::MIN
        } else if whole > i64::MAX as i128 {
            i64::MAX
        } else {
            whole as i64
        }
    }
}

impl FromFixed for i128 {
    open spec fn stored(self) -> int {
        self as int
    }

    open spec fn frac_of() -> nat {
        0
    }

    open spec fn least() -> int {
        i128::MIN as int
    }

    open spec fn greatest() -> int {
        i128::MAX as int
    }

    fn saturating_from_fixed<F: Fixed>(src: F) -> (r: i128) {
        whole_part_i128(src)
    }
}

impl FromFixed for u8 {
    open spec fn stored(self) -> int {
        self as int
    }

    open spec fn frac_of() -> nat {
        0
    }

    open spec fn least() -> int {
        0
    }

    open spec fn greatest() -> int {
        u8::MAX as int
    }

    fn saturating_from_fixed<F: Fixed>(src: F) -> (r: u8) {
        let whole = whole_part_u128(src);
        if whole > u8::MAX as u128 {
            u8::MAX
        } else {
            whole as u8
        }
    }
}

impl FromFixed for u16 {
    open spec fn stored(self) -> int {
        self as int
    }

    open spec fn frac_of() -> nat {
        0
    }

    open spec fn least() -> int {
        0
    }

    open spec fn greatest() -> int {
        u16::MAX as int
    }

    fn saturating_from_fixed<F: Fixed>(src: F) -> (r: u16) {
        let whole = whole_part_u128(src);
        if whole > u16::MAX as u128 {
            u16::MAX
        } else {
            whole as u16
        }
    }
}

impl FromFixed for u32 {
    open spec fn stored(self) -> int {
        self as int
    }

    open spec fn frac_of() -> nat {
        0
    }

    open spec fn least() -> int {
        0
    }

    open spec fn greatest() -> int {
        u32::MAX as int
    }

    fn saturating_from_fixed<F: Fixed>(src: F) -> (r: u32) {
        let whole = whole_part_u128(src);
        if whole > u32::MAX as u128 {
            u32::MAX
        } else {
            whole as u32
        }
    }
}

impl FromFixed for u64 {
    open spec fn stored(self) -> int {
        self as int
    }

    open spec fn frac_of() -> nat {
        0
    }

    open spec fn least() -> int {
        0
    }

    open spec fn greatest() -> int {
        u64::MAX as int
    }

    fn saturating_from_fixed<F: Fixed>(src: F) -> (r: u64) {
        let whole = whole_part_u128(src);
        if whole > u64::MAX as u128 {
            u64::MAX
        } else {
            whole as u64
        }
    }
}

impl FromFixed for u128 {
    open spec fn stored(self) -> int {
        self as int
    }

    open spec fn frac_of() -> nat {
        0
    }

    open spec fn least() -> int {
        0
    }

    open spec fn greatest() -> int {
        u128::MAX as int
    }

    fn saturating_from_fixed<F: Fixed>(src: F) -> (r: u128) {
        whole_part_u128(src)
    }
}

} // verus!
