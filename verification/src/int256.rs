//! 256-bit integers made of two 128-bit limbs.

use vstd::prelude::*;
use vstd::arithmetic::div_mod::{
    lemma_basic_div, lemma_div_by_multiple, lemma_fundamental_div_mod,
    lemma_fundamental_div_mod_converse, lemma_small_mod,
};
use vstd::arithmetic::power2::{
    lemma_pow2_adds, lemma_pow2_pos, lemma_pow2_strictly_increases, pow2,
};
use crate::bits::{
    leading_zeros_u128, lemma_div_twice, lemma_i128_as_u128, lemma_i128_halves, lemma_i128_shr,
    lemma_pow2_values, lemma_raise_signed, lemma_two_limbs_div, lemma_u128_as_i128,
    lemma_u128_funnel, lemma_u128_halves, lemma_u128_join, lemma_u128_not, lemma_u128_shl,
    lemma_u128_shl_64, lemma_u128_shr, lemma_u64_as_i64, pow2_127, pow2_128, pow2_64,
};
use crate::nonzero::{NonZeroI128, NonZeroU128};

verus! {

/// An unsigned 256-bit integer: `hi * 2^128 + lo`.
#[derive(Clone, Copy, Debug)]
pub struct U256 {
    pub lo: u128,
    pub hi: u128,
}

/// A signed 256-bit integer in two's complement: `hi * 2^128 + lo`.
#[derive(Clone, Copy, Debug)]
pub struct I256 {
    pub lo: u128,
    pub hi: i128,
}

impl View for U256 {
    type V = int;

    open spec fn view(&self) -> int {
        self.hi * pow2_128() + self.lo
    }
}

impl View for I256 {
    type V = int;

    open spec fn view(&self) -> int {
        self.hi * pow2_128() + self.lo
    }
}

/// 2^255 as a mathematical integer.
pub open spec fn pow2_255() -> int {
    0x8000_0000_0000_0000_0000_0000_0000_0000_0000_0000_0000_0000_0000_0000_0000_0000int
}

/// 2^256 as a mathematical integer.
pub open spec fn pow2_256() -> int {
    0x1_0000_0000_0000_0000_0000_0000_0000_0000_0000_0000_0000_0000_0000_0000_0000_0000int
}

/// The powers of two of the wide numbers are products of those of their limbs.
pub proof fn lemma_wide_powers()
    ensures
        pow2_128() * pow2_128() == pow2_256(),
        pow2_127() * pow2_128() == pow2_255(),
        2 * pow2_255() == pow2_256(),
        pow2_127() * pow2_127() * 2 == pow2_255(),
{
    let a = pow2_127();
    let b = pow2_128();
    assert(b * b == pow2_256() && a * b == pow2_255() && a * a * 2 == pow2_255())
        by (nonlinear_arith)
        requires
            a == 0x8000_0000_0000_0000_0000_0000_0000_0000int,
            b == 0x1_0000_0000_0000_0000_0000_0000_0000_0000int,
            pow2_256()
                == 0x1_0000_0000_0000_0000_0000_0000_0000_0000_0000_0000_0000_0000_0000_0000_0000_0000int,
            pow2_255()
                == 0x8000_0000_0000_0000_0000_0000_0000_0000_0000_0000_0000_0000_0000_0000_0000_0000int,
    ;
}

/// The unsigned 128-bit number that has the low 128 bits of `v`.
pub open spec fn wrap_u128(v: int) -> int {
    v % pow2_128()
}

/// The unsigned 256-bit number that has the low 256 bits of `v`.
pub open spec fn wrap_u256(v: int) -> int {
    v % pow2_256()
}

/// The signed 128-bit number that has the low 128 bits of `v`.
pub open spec fn wrap_i128(v: int) -> int {
    if v % pow2_128() >= pow2_127() {
        v % pow2_128() - pow2_128()
    } else {
        v % pow2_128()
    }
}

/// The signed 256-bit number that has the low 256 bits of `v`.
pub open spec fn wrap_i256(v: int) -> int {
    if v % pow2_256() >= pow2_255() {
        v % pow2_256() - pow2_256()
    } else {
        v % pow2_256()
    }
}

/// `v` shifted right by `sh` bits: the quotient of `v` by 2^sh, rounded down.
pub open spec fn shift_right(v: int, sh: u32) -> int {
    v / (pow2(sh as nat) as int)
}

/// What stands above the low 128 bits of `v`: for a number of 256 bits, its high limb.
pub open spec fn bits_above(v: int) -> int {
    v / pow2_128()
}

/// The distance of `v` from zero.
pub open spec fn abs(v: int) -> int {
    if v < 0 {
        -v
    } else {
        v
    }
}

/// What a carry or a borrow is worth: one where the flag is set, else nothing.
pub open spec fn bit(flag: bool) -> int {
    if flag {
        1
    } else {
        0
    }
}

/// The sum of two 128-bit numbers and a carry, as the low 128 bits and the carry out.
fn add_with_carry(a: u128, b: u128, carry: bool) -> (r: (u128, bool))
    ensures
        a + b + bit(carry) == r.0 + bit(r.1) * pow2_128(),
{
    let s = a.wrapping_add(b);
    let c1 = s < a;
    let t = s.wrapping_add(if carry { 1 } else { 0 });
    let c2 = t < s;
    (t, c1 || c2)
}

/// The difference of two 128-bit numbers and a borrow, as the low 128 bits and the borrow out.
fn sub_with_borrow(a: u128, b: u128, borrow: bool) -> (r: (u128, bool))
    ensures
        a - b - bit(borrow) == r.0 - bit(r.1) * pow2_128(),
{
    let s = a.wrapping_sub(b);
    let b1 = a < b;
    let t = s.wrapping_sub(if borrow { 1 } else { 0 });
    let b2 = s < t;
    (t, b1 || b2)
}

/// Reinterprets the bits of an unsigned 256-bit number as a signed one.
pub fn u256_wrapping_as_i256(a: U256) -> (r: I256)
    ensures
        r.lo == a.lo,
        r@ == wrap_i256(a@),
        r@ == if a@ < pow2_255() { a@ } else { a@ - pow2_256() },
{
    proof {
        lemma_u128_as_i128(a.hi);
    }
    I256 { lo: a.lo, hi: #[verifier::truncate] (a.hi as i128) }
}

/// Reinterprets the bits of a signed 256-bit number as an unsigned one.
pub fn i256_wrapping_as_u256(a: I256) -> (r: U256)
    ensures
        r.lo == a.lo,
        r@ == wrap_u256(a@),
        r@ == if a@ < 0 { a@ + pow2_256() } else { a@ },
{
    proof {
        lemma_i128_as_u128(a.hi);
    }
    U256 { lo: a.lo, hi: #[verifier::truncate] (a.hi as u128) }
}

/// Adds a 128-bit number to a 256-bit number, wrapping around at 2^256.
pub fn wrapping_add_u256_u128(a: U256, b: u128) -> (r: U256)
    ensures
        r@ == wrap_u256(a@ + b),
{
    let (lo, carry) = add_with_carry(a.lo, b, false);
    let (hi, carry_out) = add_with_carry(a.hi, 0, carry);
    U256 { lo, hi }
}

/// Adds a 256-bit number to a 128-bit number.
///
/// Returns the low 128 bits of the sum, and whether the sum does not fit 128 bits.
pub fn overflowing_add_u128_u256(a: u128, b: U256) -> (r: (u128, bool))
    ensures
        r.0 == wrap_u128(a + b@),
        r.1 <==> a + b@ >= pow2_128(),
{
    let (lo, carry) = add_with_carry(a, b.lo, false);
    proof {
        let k = b.hi + bit(carry);
        lemma_fundamental_div_mod_converse(
            a + b@,
            pow2_128(),
            k,
            lo as int,
        );
    }
    (lo, carry || b.hi != 0)
}

/// Subtracts a 256-bit number from a 128-bit number.
///
/// Returns the low 128 bits of the difference, and whether the difference is negative.
pub fn overflowing_sub_u128_u256(a: u128, b: U256) -> (r: (u128, bool))
    ensures
        r.0 == wrap_u128(a - b@),
        r.1 <==> a < b@,
{
    let (lo, borrow) = sub_with_borrow(a, b.lo, false);
    proof {
        let k = -b.hi - bit(borrow);
        lemma_fundamental_div_mod_converse(
            a - b@,
            pow2_128(),
            k,
            lo as int,
        );
    }
    (lo, borrow || b.hi != 0)
}

/// Negates a 256-bit number, wrapping around at 2^256: complements every bit and adds one.
pub fn wrapping_neg_u256(a: U256) -> (r: U256)
    ensures
        r@ == wrap_u256(-a@),
        r@ == if a@ == 0 { 0 } else { pow2_256() - a@ },
{
    proof {
        lemma_u128_not(a.lo);
        lemma_u128_not(a.hi);
    }
    let (lo, carry) = add_with_carry(!a.lo, 1, false);
    let (hi, carry_out) = add_with_carry(!a.hi, 0, carry);
    U256 { lo, hi }
}

/// Adds two 256-bit numbers.
///
/// Returns the low 256 bits of the sum, and whether the sum does not fit 256 bits.
pub fn overflowing_add_u256(a: U256, b: U256) -> (r: (U256, bool))
    ensures
        r.0@ == wrap_u256(a@ + b@),
        r.1 <==> a@ + b@ >= pow2_256(),
{
    let (lo, carry0) = add_with_carry(a.lo, b.lo, false);
    let (hi, carry1) = add_with_carry(a.hi, b.hi, carry0);
    (U256 { lo, hi }, carry1)
}

/// Subtracts one 256-bit number from another, wrapping around at 2^256.
pub fn wrapping_sub_u256(a: U256, b: U256) -> (r: U256)
    ensures
        r@ == wrap_u256(a@ - b@),
{
    let (lo, borrow0) = sub_with_borrow(a.lo, b.lo, false);
    let (hi, borrow1) = sub_with_borrow(a.hi, b.hi, borrow0);
    U256 { lo, hi }
}

/// Splits a 128-bit number into its low and high 64-bit halves.
fn u128_lo_hi(u: u128) -> (r: (u64, u64))
    ensures
        u == r.1 * pow2_64() + r.0,
{
    proof {
        lemma_u128_halves(u);
    }
    (#[verifier::truncate] (u as u64), (u >> 64) as u64)
}

/// Splits a signed 128-bit number into an unsigned low half and a signed high half.
fn i128_lo_hi(i: i128) -> (r: (u64, i64))
    ensures
        i == r.1 * pow2_64() + r.0,
{
    proof {
        lemma_i128_halves(i);
    }
    (#[verifier::truncate] (i as u64), (i >> 64) as i64)
}

/// The full product of two 64-bit numbers.
fn mul_u64_u64(a: u64, b: u64) -> (r: u128)
    ensures
        r == a * b,
        r <= 0xffff_ffff_ffff_fffe_0000_0000_0000_0001,
{
    assert(a * b <= 0xffff_ffff_ffff_ffff * 0xffff_ffff_ffff_ffff) by (nonlinear_arith)
        requires
            a <= 0xffff_ffff_ffff_ffff,
            b <= 0xffff_ffff_ffff_ffff,
    ;
    (a as u128) * (b as u128)
}

/// The full product of two signed 64-bit numbers.
fn mul_i64_i64(a: i64, b: i64) -> (r: i128)
    ensures
        r == a * b,
        -0x3fff_ffff_ffff_ffff_8000_0000_0000_0000 <= r <= 0x4000_0000_0000_0000_0000_0000_0000_0000,
{
    assert(-0x3fff_ffff_ffff_ffff_8000_0000_0000_0000 <= a * b
        <= 0x4000_0000_0000_0000_0000_0000_0000_0000) by (nonlinear_arith)
        requires
            -0x8000_0000_0000_0000 <= a <= 0x7fff_ffff_ffff_ffff,
            -0x8000_0000_0000_0000 <= b <= 0x7fff_ffff_ffff_ffff,
    ;
    (a as i128) * (b as i128)
}

/// The full product of an unsigned and a signed 64-bit number.
///
/// The unsigned factor is first read as a signed number; where that makes it negative it has
/// lost 2^64, so `b * 2^64` is added back to the product.
fn mul_u64_i64(a: u64, b: i64) -> (r: i128)
    ensures
        r == a * b,
        -0x7fff_ffff_ffff_ffff_8000_0000_0000_0000 <= r <= 0x7fff_ffff_ffff_fffe_8000_0000_0000_0001,
{
    let a_signed = #[verifier::truncate] (a as i64);
    proof {
        lemma_u64_as_i64(a, b);
        assert(-0x3fff_ffff_ffff_ffff_8000_0000_0000_0000 <= a_signed * b
            <= 0x4000_0000_0000_0000_0000_0000_0000_0000) by (nonlinear_arith)
            requires
                -0x8000_0000_0000_0000 <= a_signed <= 0x7fff_ffff_ffff_ffff,
                -0x8000_0000_0000_0000 <= b <= 0x7fff_ffff_ffff_ffff,
        ;
        assert(-0x7fff_ffff_ffff_ffff_8000_0000_0000_0000 <= a * b
            <= 0x7fff_ffff_ffff_fffe_8000_0000_0000_0001) by (nonlinear_arith)
            requires
                0 <= a <= 0xffff_ffff_ffff_ffff,
                -0x8000_0000_0000_0000 <= b <= 0x7fff_ffff_ffff_ffff,
        ;
        assert((a - pow2_64()) * b == a * b - pow2_64() * b) by (nonlinear_arith);
    }
    let correction: i128 = if a_signed < 0 {
        (b as i128) << 64
    } else {
        0
    };
    (a_signed as i128) * (b as i128) + correction
}

/// The exact 256-bit product of two unsigned 128-bit numbers.
///
/// Each factor is split into 64-bit halves; the four partial products are summed in three
/// columns at bit offsets 0, 64 and 128, and each column's overflow is carried into the next.
pub fn wide_mul_u128(lhs: u128, rhs: u128) -> (r: U256)
    ensures
        r@ == lhs * rhs,
{
    let (ll, lh) = u128_lo_hi(lhs);
    let (rl, rh) = u128_lo_hi(rhs);
    let ll_rl = mul_u64_u64(ll, rl);
    let lh_rl = mul_u64_u64(lh, rl);
    let ll_rh = mul_u64_u64(ll, rh);
    let lh_rh = mul_u64_u64(lh, rh);

    // Each partial product is at most (2^64 - 1)^2 = 2^128 - 2^65 + 1, so its high half is at
    // most 2^64 - 2.
    let (col0, col64a) = u128_lo_hi(ll_rl);
    // At most 2^64 - 2 + 2^128 - 2^65 + 1, which is below 2^128.
    let col64b = (col64a as u128) + lh_rl;
    let (col64c, col128a) = u128_lo_hi(col64b);
    // At most 2^64 - 1 + 2^128 - 2^65 + 1, which is below 2^128.
    let col64d = (col64c as u128) + ll_rh;
    let (col64, col128b) = u128_lo_hi(col64d);

    proof {
        lemma_u128_join(col0, col64);
        lemma_product_of_halves(ll as int, lh as int, rl as int, rh as int);
    }
    let ans0 = (col0 as u128) | ((col64 as u128) << 64);
    // At most 2^128 - 2^65 + 1 + 2 * (2^64 - 1), which is 2^128 - 1.
    let ans128 = lh_rh + (col128a as u128) + (col128b as u128);
    U256 { lo: ans0, hi: ans128 }
}

/// The product of two numbers given by their halves is the sum of the four partial products,
/// each at its own offset.
proof fn lemma_product_of_halves(ll: int, lh: int, rl: int, rh: int)
    ensures
        (lh * pow2_64() + ll) * (rh * pow2_64() + rl) == (lh * rh) * pow2_128() + (lh * rl + ll
            * rh) * pow2_64() + ll * rl,
{
    assert((lh * pow2_64() + ll) * (rh * pow2_64() + rl) == (lh * rh) * (pow2_64() * pow2_64())
        + (lh * rl + ll * rh) * pow2_64() + ll * rl) by (nonlinear_arith);
}

/// The exact 256-bit product of two signed 128-bit numbers.
///
/// Each factor is split into an unsigned low half and a signed high half; the columns are
/// summed as in the unsigned product, with signed carries.
pub fn wide_mul_i128(lhs: i128, rhs: i128) -> (r: I256)
    ensures
        r@ == lhs * rhs,
{
    let (ll, lh) = i128_lo_hi(lhs);
    let (rl, rh) = i128_lo_hi(rhs);
    let ll_rl = mul_u64_u64(ll, rl);
    let lh_rl = mul_u64_i64(rl, lh);
    let ll_rh = mul_u64_i64(ll, rh);
    let lh_rh = mul_i64_i64(lh, rh);

    // The cross products lie between -(2^64 - 1) * 2^63 and (2^64 - 1) * (2^63 - 1).
    let (col0, col64a) = u128_lo_hi(ll_rl);
    // At most 2^64 - 2 + (2^64 - 1) * (2^63 - 1), which is below 2^127.
    let col64b = (col64a as i128) + lh_rl;
    let (col64c, col128a) = i128_lo_hi(col64b);
    // At most 2^64 - 1 + (2^64 - 1) * (2^63 - 1), which is below 2^127.
    let col64d = (col64c as i128) + ll_rh;
    let (col64, col128b) = i128_lo_hi(col64d);

    proof {
        lemma_u128_join(col0, col64);
        lemma_product_of_halves(ll as int, lh as int, rl as int, rh as int);
        assert(rl * lh == lh * rl) by (nonlinear_arith);
    }
    let ans0 = (col0 as u128) | ((col64 as u128) << 64);
    // The product of the high halves is no further from zero than 2^126, and each carry no
    // further than 2^63.
    let ans128 = lh_rh + (col128a as i128) + (col128b as i128);
    I256 { lo: ans0, hi: ans128 }
}

/// One step of long division by 64-bit digits.
///
/// Divides `r * 2^64 + next_half` by `d`, where `r` is the remainder left by the step before.
/// The top bit of `d` is set, so that its high half is not zero. The digit is first estimated
/// from that high half alone; the estimate is never too small, and because the top bit of `d`
/// is set it is at most two too large, so it is lowered at most twice. Returns the new
/// remainder and the digit.
fn div_half_u128(r: u128, d: u128, next_half: u64) -> (res: (u128, u128))
    requires
        d >= pow2_127(),
        r < d,
    ensures
        r * pow2_64() + next_half == res.1 * d + res.0,
        res.0 < d,
        res.1 < pow2_64(),
{
    let (dl, dh) = u128_lo_hi(d);
    let q0 = r / (dh as u128);
    let rr = r % (dh as u128);
    proof {
        lemma_fundamental_div_mod(r as int, dh as int);
        assert(q0 <= pow2_64() + 1) by (nonlinear_arith)
            requires
                r == dh * q0 + rr,
                0 <= rr,
                r < (dh + 1) * pow2_64(),
                dh >= 0x8000_0000_0000_0000,
        ;
        assert(q0 * dl <= (pow2_64() + 1) * (pow2_64() - 1)) by (nonlinear_arith)
            requires
                0 <= q0 <= pow2_64() + 1,
                0 <= dl <= pow2_64() - 1,
        ;
        lemma_u128_shl_64(rr);
    }
    let m = q0 * (dl as u128);
    let r2 = (next_half as u128) + (rr << 64);
    proof {
        assert(r * pow2_64() + next_half - q0 * d == r2 - m) by (nonlinear_arith)
            requires
                r == dh * q0 + rr,
                d == dh * pow2_64() + dl,
                m == q0 * dl,
                r2 == next_half + rr * pow2_64(),
        ;
    }
    let mut q = q0;
    let mut rem = r2;
    if rem < m {
        proof {
            assert(q0 >= 1 && (q0 == 1 ==> m < d)) by (nonlinear_arith)
                requires
                    m == q0 * dl,
                    m > 0,
                    0 <= q0,
                    0 <= dl < d,
            ;
        }
        q = q - 1;
        let new_r = rem.wrapping_add(d);
        let overflow = new_r < rem;
        rem = if !overflow && new_r < m {
            q = q - 1;
            new_r.wrapping_add(d)
        } else {
            new_r
        };
    }
    rem = rem.wrapping_sub(m);
    proof {
        assert(r * pow2_64() + next_half == q * d + rem) by (nonlinear_arith)
            requires
                r * pow2_64() + next_half - q0 * d == r2 - m,
                (q == q0 && rem == r2 - m) || (q == q0 - 1 && rem == r2 - m + d) || (q == q0 - 2
                    && rem == r2 - m + 2 * d),
        ;
        assert(q < pow2_64()) by (nonlinear_arith)
            requires
                r * pow2_64() + next_half == q * d + rem,
                0 <= rem,
                0 <= q,
                r < d,
                next_half < pow2_64(),
        ;
    }
    (rem, q)
}

/// Raising a 256-bit number by `z` places, `0 < z < 128`, spreads it over three limbs.
proof fn lemma_normalize(hi: u128, lo: u128, z: u32, t: u32)
    requires
        0 < z < 128,
        z + t == 128,
    ensures
        (hi >> t) * pow2_256() + ((hi << z) | (lo >> t)) * pow2_128() + (lo << z) == (hi
            * pow2_128() + lo) * pow2(z as nat),
        (hi >> t) < pow2(z as nat),
{
    lemma_u128_funnel(hi, lo, z, t);
    lemma_u128_funnel(lo, hi, z, t);
    let p = pow2(z as nat) as int;
    let top = (hi >> t) as int;
    let mid = ((hi << z) | (lo >> t)) as int;
    let low = (lo << z) as int;
    assert(top * pow2_256() + mid * pow2_128() + low == (hi * pow2_128() + lo) * p)
        by (nonlinear_arith)
        requires
            hi * p == top * pow2_128() + (hi << z),
            lo * p == (lo >> t) * pow2_128() + low,
            mid == (hi << z) + (lo >> t),
            pow2_256() == pow2_128() * pow2_128(),
    ;
}

/// Four division steps in a row divide a number of five 64-bit digits by `d`.
proof fn lemma_four_steps(
    d: int,
    r0: int,
    r1: int,
    r2: int,
    r3: int,
    r4: int,
    n3: int,
    n2: int,
    n1: int,
    n0: int,
    q3: int,
    q2: int,
    q1: int,
    q0: int,
)
    requires
        r0 * pow2_64() + n3 == q3 * d + r1,
        r1 * pow2_64() + n2 == q2 * d + r2,
        r2 * pow2_64() + n1 == q1 * d + r3,
        r3 * pow2_64() + n0 == q0 * d + r4,
    ensures
        r0 * pow2_256() + (n3 * pow2_64() + n2) * pow2_128() + (n1 * pow2_64() + n0) == ((q3
            * pow2_64() + q2) * pow2_128() + (q1 * pow2_64() + q0)) * d + r4,
{
    let qq = (q3 * pow2_64() + q2) * pow2_128() + (q1 * pow2_64() + q0);
    assert(qq * d == (q3 * d) * 0x1_0000_0000_0000_0000_0000_0000_0000_0000_0000_0000_0000_0000int
        + (q2 * d) * 0x1_0000_0000_0000_0000_0000_0000_0000_0000int + (q1 * d)
        * 0x1_0000_0000_0000_0000int + q0 * d) by (nonlinear_arith)
        requires
            qq == q3 * 0x1_0000_0000_0000_0000_0000_0000_0000_0000_0000_0000_0000_0000int + q2
                * 0x1_0000_0000_0000_0000_0000_0000_0000_0000int + q1 * 0x1_0000_0000_0000_0000int
                + q0,
    ;
}

/// Divides a 256-bit number by a 128-bit number that is not zero.
///
/// Returns the quotient and the remainder: `n == q * d + r` with `r < d`. Where the high limb
/// of `n` is below `d`, the quotient fits 128 bits and its high limb is zero.
///
/// Divisor and dividend are first raised until the top bit of the divisor is set; the raised
/// dividend is then divided 64 bits at a time, and the last remainder is lowered again.
pub fn div_rem_u256_u128(n: U256, d: NonZeroU128) -> (res: (U256, u128))
    ensures
        n@ == res.0@ * d@ + res.1,
        res.1 < d@,
        n.hi < d@ ==> res.0.hi == 0,
{
    let dv = d.get();
    let zeros = leading_zeros_u128(dv);
    let ghost p = pow2(zeros as nat) as int;
    proof {
        lemma_pow2_values();
        lemma_pow2_pos(zeros as nat);
    }
    let (r0, dn, nhi, nlo) = if zeros == 0 {
        (0, dv, n.hi, n.lo)
    } else {
        proof {
            lemma_normalize(n.hi, n.lo, zeros, (128 - zeros) as u32);
            lemma_u128_funnel(dv, 0, zeros, (128 - zeros) as u32);
            lemma_u128_shl(dv, zeros);
            lemma_small_mod((dv * p) as nat, pow2_128() as nat);
            assert(p <= dv * p) by (nonlinear_arith)
                requires
                    dv >= 1,
                    p > 0,
            ;
        }
        let n2 = n.hi >> (128 - zeros);
        let hi = (n.hi << zeros) | (n.lo >> (128 - zeros));
        let lo = n.lo << zeros;
        (n2, dv << zeros, hi, lo)
    };
    assert(dn == dv * p && r0 * pow2_256() + nhi * pow2_128() + nlo == n@ * p) by {
        if zeros == 0 {
            assert(n@ * p == n@ && dv * p == dv) by (nonlinear_arith)
                requires
                    p == 1,
            ;
        }
    }
    let (nhl, nhh) = u128_lo_hi(nhi);
    let (r1, qhh) = div_half_u128(r0, dn, nhh);
    let (r2, qhl) = div_half_u128(r1, dn, nhl);
    let (nll, nlh) = u128_lo_hi(nlo);
    let (r3, qlh) = div_half_u128(r2, dn, nlh);
    let (r4, qll) = div_half_u128(r3, dn, nll);
    proof {
        lemma_u128_shl_64(qlh);
        lemma_u128_shl_64(qhh);
        lemma_u128_shr(r4, zeros);
    }
    let q = U256 { lo: qll + (qlh << 64), hi: qhl + (qhh << 64) };
    let r = r4 >> zeros;
    proof {
        lemma_four_steps(
            dn as int,
            r0 as int,
            r1 as int,
            r2 as int,
            r3 as int,
            r4 as int,
            nhh as int,
            nhl as int,
            nlh as int,
            nll as int,
            qhh as int,
            qhl as int,
            qlh as int,
            qll as int,
        );
        let k = n@ - q@ * dv;
        assert(r4 == k * p) by (nonlinear_arith)
            requires
                n@ * p == q@ * dn + r4,
                dn == dv * p,
                k == n@ - q@ * dv,
        ;
        assert(k < dv && 0 <= k) by (nonlinear_arith)
            requires
                r4 == k * p,
                0 <= r4 < dn,
                dn == dv * p,
                p > 0,
        ;
        lemma_div_by_multiple(k, p);
        if n.hi < dv {
            assert(q.hi == 0) by (nonlinear_arith)
                requires
                    n.hi * pow2_128() + n.lo == (q.hi * pow2_128() + q.lo) * dv + k,
                    0 <= k,
                    0 <= q.lo,
                    0 <= q.hi,
                    0 <= n.lo < pow2_128(),
                    0 <= n.hi < dv,
            ;
        }
    }
    (q, r)
}

/// Adds a signed 128-bit number to a signed 256-bit number.
///
/// Returns the low 256 bits of the sum as a signed number, and whether the sum does not fit
/// a signed 256-bit number.
pub fn overflowing_add_i256_i128(a: I256, b: i128) -> (r: (I256, bool))
    ensures
        r.0@ == wrap_i256(a@ + b),
        r.1 <==> !(-pow2_255() <= a@ + b < pow2_255()),
{
    proof {
        lemma_i128_as_u128(b);
        lemma_sign_i128(b);
    }
    let b_lo = #[verifier::truncate] (b as u128);
    let b_hi = b >> 127;
    let (lo, carry) = add_with_carry(a.lo, b_lo, false);
    // b_hi is -1 or 0 and the carry is 0 or 1, so their sum is -1, 0 or 1.
    let b_hi_plus_carry: i128 = if carry { b_hi + 1 } else { b_hi };
    let (hi, overflow) = match a.hi.checked_add(b_hi_plus_carry) {
        Some(hi) => (hi, false),
        None => (a.hi.wrapping_add(b_hi_plus_carry), true),
    };
    (I256 { lo, hi }, overflow)
}

/// A shift by no bits changes nothing.
pub proof fn lemma_shift_right_zero(v: int)
    ensures
        shift_right(v, 0) == v,
{
    lemma_pow2_values();
    assert(v / (pow2(0) as int) == v) by (nonlinear_arith)
        requires
            pow2(0) == 1,
    ;
}

/// A shift by no bits changes nothing, and a shift by 128 bits leaves the high limb.
proof fn lemma_shift_right_ends(hi: int, lo: int)
    requires
        0 <= lo < pow2_128(),
    ensures
        shift_right(hi * pow2_128() + lo, 0) == hi * pow2_128() + lo,
        shift_right(hi * pow2_128() + lo, 128) == hi,
{
    lemma_pow2_values();
    let v = hi * pow2_128() + lo;
    assert(v / (pow2(0) as int) == v) by (nonlinear_arith)
        requires
            pow2(0) == 1,
    ;
}

/// Shifting a signed number right by 127 bits leaves only its sign: -1 or 0.
proof fn lemma_sign_i128(x: i128)
    ensures
        (x >> 127) as int == if x < 0 { -1int } else { 0 },
{
    lemma_i128_shr(x, 127);
    lemma_pow2_values();
    if x < 0 {
    } else {
    }
}

/// Shifts a 256-bit number right by `sh` bits, `sh <= 128`: divides it by 2^sh.
///
/// A shift by 0 returns the number itself, and a shift by 128 moves the high limb into the
/// low limb and leaves zero above it.
pub fn shl_u256_max_128(a: U256, sh: u32) -> (r: U256)
    requires
        sh <= 128,
    ensures
        r@ == shift_right(a@, sh),
        sh == 0 ==> r == a,
        sh == 128 ==> r.lo == a.hi && r.hi == 0,
{
    proof {
        lemma_shift_right_ends(a.hi as int, a.lo as int);
    }
    if sh == 0 {
        a
    } else if sh == 128 {
        U256 { lo: a.hi, hi: 0 }
    } else {
        proof {
            lemma_two_limbs_div(a.hi as int, a.lo as int, (128 - sh) as nat, sh as nat);
            lemma_u128_funnel(a.hi, a.lo, (128 - sh) as u32, sh);
            lemma_u128_shr(a.hi, sh);
        }
        U256 { lo: (a.hi << (128 - sh)) | (a.lo >> sh), hi: a.hi >> sh }
    }
}

/// Shifts a signed 256-bit number right by `sh` bits, `sh <= 128`: divides it by 2^sh,
/// rounding down.
///
/// A shift by 0 returns the number itself, and a shift by 128 moves the high limb into the
/// low limb and leaves its sign above it.
pub fn shl_i256_max_128(a: I256, sh: u32) -> (r: I256)
    requires
        sh <= 128,
    ensures
        r@ == shift_right(a@, sh),
        sh == 0 ==> r == a,
        sh == 128 ==> r@ == a.hi && r.hi == (if a.hi < 0 { -1int } else { 0 }),
{
    proof {
        lemma_shift_right_ends(a.hi as int, a.lo as int);
        lemma_i128_as_u128(a.hi);
    }
    if sh == 0 {
        a
    } else if sh == 128 {
        proof {
            lemma_sign_i128(a.hi);
        }
        I256 { lo: #[verifier::truncate] (a.hi as u128), hi: a.hi >> 127 }
    } else {
        let hi_bits = #[verifier::truncate] (a.hi as u128);
        proof {
            lemma_two_limbs_div(a.hi as int, a.lo as int, (128 - sh) as nat, sh as nat);
            lemma_u128_funnel(hi_bits, a.lo, (128 - sh) as u32, sh);
            lemma_raise_signed(a.hi, hi_bits, (128 - sh) as u32, sh);
            lemma_i128_shr(a.hi, sh);
        }
        I256 { lo: (hi_bits << (128 - sh)) | (a.lo >> sh), hi: a.hi >> sh }
    }
}

/// Dividing a two-limb number by 2^sh for `128 <= sh`: only the high limb is left to divide,
/// and from 256 bits on nothing but the sign is left.
proof fn lemma_two_limbs_div_far(hi: int, lo: int, sh: nat)
    requires
        128 <= sh,
        0 <= lo < pow2_128(),
        -pow2_127() <= hi < pow2_128(),
    ensures
        (hi * pow2_128() + lo) / pow2(sh) as int == hi / pow2((sh - 128) as nat) as int,
        sh >= 256 ==> (hi * pow2_128() + lo) / pow2(sh) as int == if hi < 0 { -1int } else { 0 },
{
    let v = hi * pow2_128() + lo;
    let k = (sh - 128) as nat;
    lemma_pow2_values();
    lemma_pow2_adds(128, k);
    lemma_pow2_pos(k);
    lemma_div_twice(v, pow2_128(), pow2(k) as int);
    if sh >= 256 {
        lemma_pow2_adds(128, 128);
        if sh > 256 {
            lemma_pow2_strictly_increases(256, sh);
        }
        let p = pow2(sh) as int;
        assert(p >= pow2_256());
        if hi < 0 {
            lemma_fundamental_div_mod_converse(v, p, -1, v + p);
        } else {
            lemma_basic_div(v, p);
        }
    }
}

/// A number fits 128 bits exactly when nothing stands above its low 128 bits, and fits a
/// signed 128-bit number exactly when all bits above its low 128 bits repeat the top bit of
/// those: when narrowing loses nothing but copies of the sign.
pub proof fn lemma_overflow_is_lost_bits(v: int)
    ensures
        0 <= v < pow2_128() <==> bits_above(v) == 0,
        -pow2_127() <= v < pow2_127() <==> bits_above(v) == (if wrap_i128(v) < 0 {
            -1int
        } else {
            0
        }),
{
}

/// Shifts a 256-bit number right by `sh` bits and narrows the result to 128 bits.
///
/// Returns the low 128 bits of the shifted number, and whether the bits left above them are
/// not all zero, that is whether the shifted number does not fit 128 bits.
pub fn overflowing_shl_u256_into_u128(a: U256, sh: u32) -> (r: (u128, bool))
    ensures
        r.0 == wrap_u128(shift_right(a@, sh)),
        r.1 <==> shift_right(a@, sh) >= pow2_128(),
        r.1 <==> bits_above(shift_right(a@, sh)) != 0,
{
    if sh <= 128 {
        let shifted = shl_u256_max_128(a, sh);
        proof {
            lemma_fundamental_div_mod_converse(
                shifted@,
                pow2_128(),
                shifted.hi as int,
                shifted.lo as int,
            );
        }
        (shifted.lo, shifted.hi != 0)
    } else {
        proof {
            lemma_two_limbs_div_far(a.hi as int, a.lo as int, sh as nat);
        }
        let ans = if sh < 256 {
            proof {
                lemma_u128_shr(a.hi, (sh - 128) as u32);
            }
            a.hi >> (sh - 128)
        } else {
            0
        };
        (ans, false)
    }
}

/// Shifts a signed 256-bit number right by `sh` bits and narrows the result to 128 bits.
///
/// Returns the low 128 bits of the shifted number as a signed number, and whether the bits
/// left above them differ from its sign, that is whether the shifted number does not fit a
/// signed 128-bit number.
pub fn overflowing_shl_i256_into_i128(a: I256, sh: u32) -> (r: (i128, bool))
    ensures
        r.0 == wrap_i128(shift_right(a@, sh)),
        r.1 <==> !(-pow2_127() <= shift_right(a@, sh) < pow2_127()),
        r.1 <==> bits_above(shift_right(a@, sh)) != (if r.0 < 0 { -1int } else { 0 }),
{
    if sh <= 128 {
        let shifted = shl_i256_max_128(a, sh);
        let ans = #[verifier::truncate] (shifted.lo as i128);
        proof {
            lemma_u128_as_i128(shifted.lo);
            lemma_sign_i128(ans);
            lemma_fundamental_div_mod_converse(
                shifted@,
                pow2_128(),
                shifted.hi as int,
                shifted.lo as int,
            );
        }
        (ans, shifted.hi != ans >> 127)
    } else {
        proof {
            lemma_two_limbs_div_far(a.hi as int, a.lo as int, sh as nat);
        }
        let ans = if sh < 256 {
            proof {
                lemma_i128_shr(a.hi, (sh - 128) as u32);
            }
            a.hi >> (sh - 128)
        } else {
            proof {
                lemma_sign_i128(a.hi);
            }
            a.hi >> 127
        };
        (ans, false)
    }
}

/// Widens a 128-bit number to 256 bits and shifts it left by `sh` bits, `sh <= 128`:
/// multiplies it by 2^sh.
pub fn widening_shl_u128(a: u128, sh: u32) -> (r: U256)
    requires
        sh <= 128,
    ensures
        r@ == a * pow2(sh as nat),
{
    proof {
        lemma_pow2_values();
    }
    if sh == 0 {
        assert(a * pow2(0) == a) by (nonlinear_arith)
            requires
                pow2(0) == 1,
        ;
        U256 { lo: a, hi: 0 }
    } else if sh == 128 {
        U256 { lo: 0, hi: a }
    } else {
        proof {
            lemma_u128_funnel(a, a, sh, (128 - sh) as u32);
        }
        U256 { lo: a << sh, hi: a >> (128 - sh) }
    }
}

/// Widens a signed 128-bit number to 256 bits and shifts it left by `sh` bits, `sh <= 128`:
/// multiplies it by 2^sh.
pub fn widening_shl_i128(a: i128, sh: u32) -> (r: I256)
    requires
        sh <= 128,
    ensures
        r@ == a * pow2(sh as nat),
{
    proof {
        lemma_pow2_values();
        lemma_i128_as_u128(a);
    }
    let bits = #[verifier::truncate] (a as u128);
    if sh == 0 {
        proof {
            assert(a * pow2(0) == a) by (nonlinear_arith)
                requires
                    pow2(0) == 1,
            ;
            lemma_sign_i128(a);
        }
        I256 { lo: bits, hi: a >> 127 }
    } else if sh == 128 {
        I256 { lo: 0, hi: a }
    } else {
        proof {
            lemma_raise_signed(a, bits, sh, (128 - sh) as u32);
            lemma_i128_shr(a, (128 - sh) as u32);
        }
        I256 { lo: bits << sh, hi: a >> (128 - sh) }
    }
}

/// A quotient and a remainder below the divisor are the only ones: two pairs that both give
/// back the dividend are the same pair.
pub proof fn lemma_div_rem_unique(n: int, d: int, q1: int, r1: int, q2: int, r2: int)
    requires
        d > 0,
        n == q1 * d + r1,
        0 <= r1 < d,
        n == q2 * d + r2,
        0 <= r2 < d,
    ensures
        q1 == q2,
        r1 == r2,
{
    lemma_fundamental_div_mod_converse(n, d, q1, r1);
    lemma_fundamental_div_mod_converse(n, d, q2, r2);
}

/// Dividing a product by one of its factors gives back the other and leaves nothing: any
/// quotient and remainder of `a * d` by `d` are `a` and zero.
pub proof fn lemma_div_rem_undoes_mul(a: int, d: int, q: int, r: int)
    requires
        d > 0,
        a * d == q * d + r,
        0 <= r < d,
    ensures
        q == a,
        r == 0,
{
    lemma_div_rem_unique(a * d, d, a, 0, q, r);
}

/// Divides a signed 256-bit number by a signed 128-bit number that is not zero, rounding the
/// quotient towards zero.
///
/// Returns the quotient and the remainder: `n == q * d + r`, where `r` is nearer to zero than
/// `d` and has the sign of `n`, or is zero. The quotient is therefore never negative where `n`
/// and `d` have the same sign, and never positive where they differ.
///
/// The one quotient that does not fit a signed 256-bit number, that of -2^255 by -1, is left
/// to the caller to avoid.
///
/// Both numbers are divided as magnitudes, and the signs are put on afterwards.
pub fn div_rem_i256_i128_no_overflow(n: I256, d: NonZeroI128) -> (res: (I256, i128))
    requires
        !(n@ == -pow2_255() && d@ == -1),
    ensures
        n@ == res.0@ * d@ + res.1,
        abs(res.1 as int) < abs(d@ as int),
        n@ >= 0 ==> res.1 >= 0,
        n@ < 0 ==> res.1 <= 0,
        (n@ < 0) == (d@ < 0) ==> res.0@ >= 0,
        (n@ < 0) != (d@ < 0) ==> res.0@ <= 0,
{
    let n_neg = n.hi < 0;
    let n_bits = i256_wrapping_as_u256(n);
    let n_abs = if n_neg {
        wrapping_neg_u256(n_bits)
    } else {
        n_bits
    };
    let dv = d.get();
    let d_neg = dv < 0;
    let d_abs = d.unsigned_abs();
    assert(n_abs@ == abs(n@));
    assert(d_abs@ == abs(dv as int));

    let (q_abs, r_abs) = div_rem_u256_u128(n_abs, d_abs);
    proof {
        assert(q_abs@ <= n_abs@ && (q_abs@ == n_abs@ ==> d_abs@ == 1 || q_abs@ == 0))
            by (nonlinear_arith)
            requires
                n_abs@ == q_abs@ * d_abs@ + r_abs,
                0 <= r_abs,
                0 <= q_abs@,
                1 <= d_abs@,
        ;
    }
    let q = if n_neg == d_neg {
        u256_wrapping_as_i256(q_abs)
    } else {
        u256_wrapping_as_i256(wrapping_neg_u256(q_abs))
    };
    assert(q@ == if n_neg == d_neg { q_abs@ } else { -q_abs@ });
    proof {
        lemma_u128_as_i128(0u128.wrapping_sub(r_abs));
    }
    let r = if n_neg {
        #[verifier::truncate]
        (0u128.wrapping_sub(r_abs) as i128)
    } else {
        #[verifier::truncate]
        (r_abs as i128)
    };
    assert(r == if n_neg { -r_abs } else { r_abs as int });
    proof {
        assert(n@ == q@ * dv + r) by (nonlinear_arith)
            requires
                abs(n@) == q_abs@ * abs(dv as int) + r_abs,
                q@ == if (n@ < 0) == (dv < 0) { q_abs@ } else { -q_abs@ },
                r == if n@ < 0 { -r_abs } else { r_abs as int },
        ;
    }
    (q, r)
}

} // verus!
