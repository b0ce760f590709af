//! Facts about casts, shifts and bitwise operators on 64- and 128-bit
//! integers, stated over ordinary integer arithmetic.

use vstd::prelude::*;
use vstd::arithmetic::div_mod::{
    lemma_basic_div, lemma_div_nonincreasing, lemma_fundamental_div_mod,
    lemma_fundamental_div_mod_converse, lemma_mod_multiples_basic, lemma_mul_mod_noop_left,
    lemma_small_mod,
};
use vstd::arithmetic::power2::{
    lemma2_to64, lemma2_to64_rest, lemma_pow2_adds, lemma_pow2_pos, lemma_pow2_strictly_increases,
    lemma_pow2_unfold, pow2,
};
use vstd::bits::lemma_u128_shr_is_div;

verus! {

/// 2^64 as a mathematical integer.
pub open spec fn pow2_64() -> int {
    0x1_0000_0000_0000_0000
}

/// 2^127 as a mathematical integer.
pub open spec fn pow2_127() -> int {
    0x8000_0000_0000_0000_0000_0000_0000_0000
}

/// 2^128 as a mathematical integer.
pub open spec fn pow2_128() -> int {
    0x1_0000_0000_0000_0000_0000_0000_0000_0000int
}

/// Reinterpreting 128 bits as a signed number subtracts 2^128 from the upper half of the range.
pub proof fn lemma_u128_as_i128(x: u128)
    ensures
        (x as i128) as int == if x < pow2_127() { x as int } else { x - pow2_128() },
{
    assert((x as i128) as int == if x < 0x8000_0000_0000_0000_0000_0000_0000_0000u128 {
        x as int
    } else {
        x - 0x1_0000_0000_0000_0000_0000_0000_0000_0000int
    }) by (bit_vector);
}

/// Reinterpreting a signed 128-bit number as unsigned adds 2^128 to the negative half.
pub proof fn lemma_i128_as_u128(x: i128)
    ensures
        (x as u128) as int == if x < 0 { x + pow2_128() } else { x as int },
{
    assert((x as u128) as int == if x < 0i128 {
        x + 0x1_0000_0000_0000_0000_0000_0000_0000_0000int
    } else {
        x as int
    }) by (bit_vector);
}

/// The two 64-bit halves of a 128-bit number are its remainder and quotient by 2^64.
pub proof fn lemma_u128_halves(u: u128)
    ensures
        (u as u64) as int == u % 0x1_0000_0000_0000_0000u128,
        ((u >> 64) as u64) as int == u / 0x1_0000_0000_0000_0000u128,
        u as int == ((u >> 64) as u64) * pow2_64() + (u as u64),
{
    assert((u as u64) as int == u % 0x1_0000_0000_0000_0000u128
        && ((u >> 64) as u64) as int == u / 0x1_0000_0000_0000_0000u128
        && u as int == ((u >> 64) as u64) * 0x1_0000_0000_0000_0000int + (u as u64)) by (bit_vector);
}

/// A signed 128-bit number is its signed high half times 2^64 plus its unsigned low half.
pub proof fn lemma_i128_halves(i: i128)
    ensures
        i as int == ((i >> 64) as i64) * pow2_64() + (i as u64),
{
    assert(i as int == ((i >> 64) as i64) * 0x1_0000_0000_0000_0000int + (i as u64)) by (bit_vector);
}

/// Two 64-bit halves joined with shift and or make `hi * 2^64 + lo`.
pub proof fn lemma_u128_join(lo: u64, hi: u64)
    ensures
        ((lo as u128) | ((hi as u128) << 64)) as int == hi * pow2_64() + lo,
{
    assert(((lo as u128) | ((hi as u128) << 64)) as int == hi * 0x1_0000_0000_0000_0000int + lo)
        by (bit_vector);
}

/// Reinterpreting 64 bits as a signed number subtracts 2^64 from the upper half of the range,
/// and shifting a sign-extended 64-bit number left by 64 multiplies it by 2^64.
pub proof fn lemma_u64_as_i64(a: u64, b: i64)
    ensures
        (a as i64) as int == if a < 0x8000_0000_0000_0000u64 { a as int } else { a - pow2_64() },
        ((b as i128) << 64) as int == b * pow2_64(),
{
    assert((a as i64) as int == if a < 0x8000_0000_0000_0000u64 {
        a as int
    } else {
        a - 0x1_0000_0000_0000_0000int
    }) by (bit_vector);
    assert(((b as i128) << 64) as int == b * 0x1_0000_0000_0000_0000int) by (bit_vector);
}

/// Shifting a number below 2^64 left by 64 multiplies it by 2^64.
pub proof fn lemma_u128_shl_64(x: u128)
    requires
        x < pow2_64(),
    ensures
        (x << 64) as int == x * pow2_64(),
{
    assert(x < 0x1_0000_0000_0000_0000u128 ==> (x << 64) as int == x * 0x1_0000_0000_0000_0000int)
        by (bit_vector);
}

/// The values of the powers of two that the limbs are built on.
pub proof fn lemma_pow2_values()
    ensures
        pow2(0) == 1,
        pow2(1) == 2,
        pow2(64) == pow2_64(),
        pow2(127) == pow2_127(),
        pow2(128) == pow2_128(),
{
    lemma2_to64();
    lemma2_to64_rest();
    lemma_pow2_adds(64, 63);
    lemma_pow2_adds(64, 64);
}

/// Splitting an exponent of 128 in two: `2^s * 2^t == 2^128` where `s + t == 128`.
pub proof fn lemma_pow2_split_128(s: nat, t: nat)
    requires
        s + t == 128,
    ensures
        pow2(s) * pow2(t) == pow2_128(),
        pow2(s) > 0,
        pow2(t) > 0,
{
    lemma_pow2_adds(s, t);
    lemma_pow2_pos(s);
    lemma_pow2_pos(t);
    lemma_pow2_values();
}

/// Shifting right by `s` bits divides by 2^s.
pub proof fn lemma_u128_shr(x: u128, s: u32)
    requires
        s < 128,
    ensures
        (x >> s) as int == x as int / pow2(s as nat) as int,
{
    lemma_u128_shr_is_div(x, s as u128);
    assert(x >> s == x >> (s as u128)) by (bit_vector);
}

/// Shifting left by `s` bits multiplies by 2^s and keeps the low 128 bits.
pub proof fn lemma_u128_shl(x: u128, s: u32)
    requires
        s < 128,
    ensures
        (x << s) as int == (x * pow2(s as nat)) % pow2_128(),
    decreases s,
{
    lemma_pow2_values();
    if s == 0 {
        assert(x << 0u32 == x) by (bit_vector);
        lemma_small_mod(x as nat, pow2_128() as nat);
    } else {
        let p = (s - 1) as u32;
        assert(x << s == ((x << p) * 2) % 0x1_0000_0000_0000_0000_0000_0000_0000_0000int)
            by (bit_vector)
            requires
                0 < s < 128,
                p == s - 1,
        ;
        lemma_u128_shl(x, p);
        lemma_pow2_adds(p as nat, 1);
        let v = x * pow2(p as nat);
        lemma_mul_mod_noop_left(v, 2, pow2_128());
        assert(v * 2 == x * pow2(s as nat)) by (nonlinear_arith)
            requires
                v == x * pow2(p as nat),
                pow2(s as nat) == pow2(p as nat) * 2,
        ;
    }
}

/// What a shift across two limbs is in arithmetic, for `s + t == 128`:
/// `x << s` keeps the low `t` bits of `x`, raised by `s` places, `y >> t` is the quotient of `y`
/// by 2^t, and their bitwise or is their sum, since the two have no bit in common.
pub proof fn lemma_u128_funnel(x: u128, y: u128, s: u32, t: u32)
    requires
        0 < s < 128,
        s + t == 128,
    ensures
        (x << s) as int == (x as int % pow2(t as nat) as int) * pow2(s as nat),
        (y >> t) as int == y as int / pow2(t as nat) as int,
        ((x << s) | (y >> t)) as int == (x << s) + (y >> t),
        x * pow2(s as nat) == (x as int / pow2(t as nat) as int) * pow2_128() + (x << s),
        (y >> t) as int * pow2(t as nat) <= y,
        (y >> t) < pow2(s as nat),
{
    let ps = pow2(s as nat) as int;
    let pt = pow2(t as nat) as int;
    lemma_pow2_split_128(s as nat, t as nat);
    lemma_u128_shl(x, s);
    lemma_u128_shr(y, t);
    lemma_fundamental_div_mod(x as int, pt);
    lemma_fundamental_div_mod(y as int, pt);
    let xq = x as int / pt;
    let xr = x as int % pt;
    assert(0 <= xr * ps < pow2_128() && x * ps == xq * pow2_128() + xr * ps) by (nonlinear_arith)
        requires
            x == pt * xq + xr,
            0 <= xr < pt,
            ps * pt == pow2_128(),
            ps > 0,
    ;
    lemma_fundamental_div_mod_converse(x * ps, pow2_128(), xq, xr * ps);
    assert((x << s) | (y >> t) == (x << s) + (y >> t)) by (bit_vector)
        requires
            0 < s < 128,
            s + t == 128,
    ;
    let yq = y as int / pt;
    assert(yq < ps && yq * pt <= y) by (nonlinear_arith)
        requires
            y == pt * yq + y as int % pt,
            0 <= y as int % pt,
            y < pow2_128(),
            ps * pt == pow2_128(),
            ps > 0,
            pt > 0,
    ;
}

/// Raising by `z` and then by `k` places raises by `z + k` places.
pub proof fn lemma_pow2_scale(x: int, y: int, z: nat, k: nat, c: int)
    requires
        y == x * pow2(z),
        c == pow2(k),
    ensures
        y * c == x * pow2(z + k),
{
    lemma_pow2_adds(z, k);
    assert(x * pow2(z) * pow2(k) == x * (pow2(z) * pow2(k))) by (nonlinear_arith);
}

/// The number of bits that it takes to write `x` in binary: 0 for zero, and otherwise one more
/// than the place of its highest set bit.
pub open spec fn bit_length(x: nat) -> nat
    decreases x,
{
    if x == 0 {
        0
    } else {
        1 + bit_length(x / 2)
    }
}

/// A number that is not zero has `n` bits exactly when it lies between 2^(n-1) and 2^n.
pub proof fn lemma_bit_length_bounds(x: nat)
    requires
        x > 0,
    ensures
        bit_length(x) >= 1,
        pow2((bit_length(x) - 1) as nat) <= x < pow2(bit_length(x)),
    decreases x,
{
    lemma2_to64();
    if x == 1 {
        assert(bit_length(1) == 1 + bit_length(0));
    } else {
        let h = x / 2;
        lemma_bit_length_bounds(h);
        let n = bit_length(h);
        lemma_pow2_unfold(n);
        lemma_pow2_unfold(bit_length(x));
    }
}

/// The converse: a number between 2^(n-1) and 2^n has `n` bits.
pub proof fn lemma_bit_length_unique(x: nat, n: nat)
    requires
        n >= 1,
        pow2((n - 1) as nat) <= x < pow2(n),
    ensures
        bit_length(x) == n,
{
    lemma_pow2_pos((n - 1) as nat);
    lemma_bit_length_bounds(x);
    let m = bit_length(x);
    if m < n {
        if m < n - 1 {
            lemma_pow2_strictly_increases(m, (n - 1) as nat);
        }
    } else if m > n {
        if n < m - 1 {
            lemma_pow2_strictly_increases(n, (m - 1) as nat);
        }
    }
}

/// The number of zero bits above the highest set bit of `x`; 128 where `x` is zero.
///
/// For a number that is not zero this is the one shift that brings its highest set bit to
/// the top: `2^127 <= x * 2^z < 2^128`.
pub fn leading_zeros_u128(x: u128) -> (z: u32)
    ensures
        z == 128 - bit_length(x as nat),
        x == 0 ==> z == 128,
        x != 0 ==> z < 128 && pow2_127() <= x * pow2(z as nat) < pow2_128(),
{
    if x == 0 {
        return 128;
    }
    proof {
        lemma_bit_length_bounds(x as nat);
    }
    let mut y: u128 = x;
    let mut z: u32 = 0;
    proof {
        lemma2_to64();
        lemma_pow2_values();
        assert(y == x * pow2(z as nat)) by (nonlinear_arith)
            requires
                y == x,
                pow2(z as nat) == 1,
        ;
    }
    if y < 0x1_0000_0000_0000_0000 {
        proof {
            lemma_pow2_scale(x as int, y as int, z as nat, 64, 0x1_0000_0000_0000_0000);
        }
        y = y * 0x1_0000_0000_0000_0000;
        z = z + 64;
    }
    if y < 0x1_0000_0000_0000_0000_0000_0000 {
        proof {
            lemma_pow2_scale(x as int, y as int, z as nat, 32, 0x1_0000_0000);
        }
        y = y * 0x1_0000_0000;
        z = z + 32;
    }
    if y < 0x1_0000_0000_0000_0000_0000_0000_0000 {
        proof {
            lemma_pow2_scale(x as int, y as int, z as nat, 16, 0x1_0000);
        }
        y = y * 0x1_0000;
        z = z + 16;
    }
    if y < 0x100_0000_0000_0000_0000_0000_0000_0000 {
        proof {
            lemma_pow2_scale(x as int, y as int, z as nat, 8, 0x100);
        }
        y = y * 0x100;
        z = z + 8;
    }
    if y < 0x1000_0000_0000_0000_0000_0000_0000_0000 {
        proof {
            lemma_pow2_scale(x as int, y as int, z as nat, 4, 0x10);
        }
        y = y * 0x10;
        z = z + 4;
    }
    if y < 0x4000_0000_0000_0000_0000_0000_0000_0000 {
        proof {
            lemma_pow2_scale(x as int, y as int, z as nat, 2, 4);
        }
        y = y * 4;
        z = z + 2;
    }
    if y < 0x8000_0000_0000_0000_0000_0000_0000_0000 {
        proof {
            lemma_pow2_scale(x as int, y as int, z as nat, 1, 2);
        }
        y = y * 2;
        z = z + 1;
    }
    proof {
        lemma_leading_zeros_is_bit_length(x as nat, z as nat);
    }
    z
}

/// The shift that brings the highest set bit of `x` to bit 127 is 128 less the bit length.
pub proof fn lemma_leading_zeros_is_bit_length(x: nat, z: nat)
    requires
        z < 128,
        pow2_127() <= x * pow2(z) < pow2_128(),
    ensures
        bit_length(x) == 128 - z,
{
    let n = (128 - z) as nat;
    lemma_pow2_values();
    lemma_pow2_adds((n - 1) as nat, z);
    lemma_pow2_adds(n, z);
    lemma_pow2_pos(z);
    let pz = pow2(z) as int;
    let lo = pow2((n - 1) as nat) as int;
    let hi = pow2(n) as int;
    assert(lo <= x < hi) by (nonlinear_arith)
        requires
            lo * pz <= x * pz < hi * pz,
            pz > 0,
    ;
    lemma_bit_length_unique(x, n);
}

/// Complementing every bit of `x` gives `2^128 - 1 - x`.
pub proof fn lemma_u128_not(x: u128)
    ensures
        (!x) as int == pow2_128() - 1 - x,
{
    assert((!x) as int == 0x1_0000_0000_0000_0000_0000_0000_0000_0000int - 1 - x) by (bit_vector);
}

/// The remainder of `v` by a positive `m`, for `v` within one `m` of the range `0 .. m`.
pub proof fn lemma_mod_near(v: int, m: int)
    requires
        m > 0,
        -m <= v < 2 * m,
    ensures
        v % m == if v < 0 { v + m } else if v >= m { v - m } else { v },
{
    if v < 0 {
        lemma_fundamental_div_mod_converse(v, m, -1, v + m);
    } else if v >= m {
        lemma_fundamental_div_mod_converse(v, m, 1, v - m);
    } else {
        lemma_fundamental_div_mod_converse(v, m, 0, v);
    }
}

/// Shifting a signed number right by `s` bits divides it by 2^s, rounding down.
pub proof fn lemma_i128_shr(x: i128, s: u32)
    requires
        s < 128,
    ensures
        (x >> s) as int == x as int / pow2(s as nat) as int,
{
    let p = pow2(s as nat) as int;
    lemma_pow2_pos(s as nat);
    assert(s < 128 ==> (x >= 0 ==> x >> s == (((x as u128) >> s) as i128)) && (x < 0 ==> x >> s
        == !((((!x) as u128) >> s) as i128))) by (bit_vector);
    if x >= 0 {
        lemma_u128_shr(x as u128, s);
        lemma_u128_as_i128((x as u128) >> s);
        lemma_div_nonincreasing(x as int, p);
    } else {
        lemma_i128_not(x);
        lemma_i128_as_u128(!x);
        let y = (!x) as u128;
        lemma_u128_shr(y, s);
        lemma_fundamental_div_mod(y as int, p);
        let yq = y as int / p;
        let yr = y as int % p;
        assert(0 <= yq <= y) by (nonlinear_arith)
            requires
                y == p * yq + yr,
                0 <= yr < p,
                0 <= y,
        ;
        lemma_u128_as_i128(y >> s);
        lemma_i128_not((y >> s) as i128);
        assert(x == (-1 - yq) * p + (p - 1 - yr)) by (nonlinear_arith)
            requires
                y == p * yq + yr,
                y == -1 - x,
        ;
        lemma_fundamental_div_mod_converse(x as int, p, -1 - yq, p - 1 - yr);
    }
}

/// Complementing every bit of a signed number `x` gives `-1 - x`.
pub proof fn lemma_i128_not(x: i128)
    ensures
        (!x) as int == -1 - x,
{
    assert((!x) as int == -1 - x) by (bit_vector);
}

/// Dividing a two-limb number by 2^t, where `s + t == 128`: the high limb is raised by `s`
/// places and the low limb lowered by `t`.
pub proof fn lemma_two_limbs_div(hi: int, lo: int, s: nat, t: nat)
    requires
        s + t == 128,
        0 <= lo < pow2_128(),
    ensures
        (hi * pow2_128() + lo) / pow2(t) as int == hi * pow2(s) + lo / pow2(t) as int,
{
    let ps = pow2(s) as int;
    let pt = pow2(t) as int;
    lemma_pow2_split_128(s, t);
    lemma_fundamental_div_mod(lo, pt);
    let lq = lo / pt;
    let lr = lo % pt;
    assert(hi * pow2_128() + lo == (hi * ps + lq) * pt + lr) by (nonlinear_arith)
        requires
            lo == pt * lq + lr,
            ps * pt == pow2_128(),
    ;
    lemma_fundamental_div_mod_converse(hi * pow2_128() + lo, pt, hi * ps + lq, lr);
}

/// For any integer `v` and `s + t == 128`, raising `v` by `s` places puts its quotient by 2^t
/// into the limb above and leaves the low `t` bits, raised by `s` places, in the limb below.
/// The low bits are those of the unsigned 128-bit number `u` that is `v` modulo 2^128.
pub proof fn lemma_raise_signed(v: i128, u: u128, s: u32, t: u32)
    requires
        0 < s < 128,
        s + t == 128,
        u as int == if v < 0 { v + pow2_128() } else { v as int },
    ensures
        v * pow2(s as nat) == (v as int / pow2(t as nat) as int) * pow2_128() + (u << s),
{
    let ps = pow2(s as nat) as int;
    let pt = pow2(t as nat) as int;
    lemma_pow2_split_128(s as nat, t as nat);
    lemma_u128_funnel(u, 0, s, t);
    if v < 0 {
        lemma_fundamental_div_mod(v as int, pt);
        let vq = v as int / pt;
        let vr = v as int % pt;
        assert(u == (vq + ps) * pt + vr) by (nonlinear_arith)
            requires
                v == pt * vq + vr,
                u == v + pow2_128(),
                ps * pt == pow2_128(),
        ;
        lemma_fundamental_div_mod_converse(u as int, pt, vq + ps, vr);
        assert(v * ps == vq * pow2_128() + (u << s)) by (nonlinear_arith)
            requires
                u * ps == (vq + ps) * pow2_128() + (u << s),
                u == v + pow2_128(),
        ;
    }
}

/// Dividing by `c` and then by `d`, rounding down each time, divides by `c * d`, whatever the
/// sign of the dividend.
pub proof fn lemma_div_twice(v: int, c: int, d: int)
    requires
        c > 0,
        d > 0,
    ensures
        c * d > 0,
        (v / c) / d == v / (c * d),
{
    lemma_fundamental_div_mod(v, c);
    let q1 = v / c;
    let r1 = v % c;
    lemma_fundamental_div_mod(q1, d);
    let q2 = q1 / d;
    let r2 = q1 % d;
    assert(c * d > 0 && v == q2 * (c * d) + (c * r2 + r1) && 0 <= c * r2 + r1 < c * d)
        by (nonlinear_arith)
        requires
            v == c * q1 + r1,
            q1 == d * q2 + r2,
            0 <= r1 < c,
            0 <= r2 < d,
    ;
    lemma_fundamental_div_mod_converse(v, c * d, q2, c * r2 + r1);
}

/// The 128-bit number `p` with its bits moved `k` places to the left, `k < 128`; the bits that
/// leave at the top come back in at the bottom.
pub open spec fn rotated_left(p: int, k: nat) -> int {
    (p * pow2(k)) % pow2_128() + p / (pow2((128 - k) as nat) as int)
}

/// Rotates the bits of `x` to the left by `n` places, taken modulo 128.
pub fn rotate_left_u128(x: u128, n: u32) -> (r: u128)
    ensures
        r == rotated_left(x as int, (n % 128) as nat),
{
    let k = n % 128;
    proof {
        lemma_pow2_values();
    }
    if k == 0 {
        proof {
            assert(x * pow2(0) == x) by (nonlinear_arith)
                requires
                    pow2(0) == 1,
            ;
            lemma_small_mod(x as nat, pow2_128() as nat);
            lemma_basic_div(x as int, pow2_128());
        }
        x
    } else {
        proof {
            lemma_u128_funnel(x, x, k, (128 - k) as u32);
            lemma_u128_shl(x, k);
        }
        (x << k) | (x >> (128 - k))
    }
}

/// Clears the low `frac` bits of `x`, `frac <= 128`.
pub fn clear_low_bits_u128(x: u128, frac: u32) -> (r: u128)
    requires
        frac <= 128,
    ensures
        r == x - x as int % (pow2(frac as nat) as int),
{
    proof {
        lemma_pow2_values();
        lemma_pow2_pos(frac as nat);
    }
    if frac == 128 {
        proof {
            lemma_small_mod(x as nat, pow2_128() as nat);
        }
        0
    } else {
        let q = x >> frac;
        proof {
            let p = pow2(frac as nat) as int;
            lemma_u128_shr(x, frac);
            lemma_u128_shl(q, frac);
            lemma_fundamental_div_mod(x as int, p);
            assert(q * p == p * q) by (nonlinear_arith);
            lemma_small_mod((q * p) as nat, pow2_128() as nat);
        }
        q << frac
    }
}

/// Shifts `x` left by `rhs` bits and keeps the low 128 bits, for any `rhs`.
pub fn shl_unbounded_u128(x: u128, rhs: u32) -> (r: u128)
    ensures
        r == (x * pow2(rhs as nat)) % pow2_128(),
{
    if rhs < 128 {
        proof {
            lemma_u128_shl(x, rhs);
        }
        x << rhs
    } else {
        proof {
            let k = (rhs - 128) as nat;
            lemma_pow2_values();
            lemma_pow2_adds(k, 128);
            assert(x * pow2(rhs as nat) == (x * pow2(k)) * pow2_128()) by (nonlinear_arith)
                requires
                    pow2(rhs as nat) == pow2(k) * pow2_128(),
            ;
            lemma_mod_multiples_basic(x * pow2(k), pow2_128());
        }
        0
    }
}

/// Shifts `x` right by `rhs` bits, for any `rhs`.
pub fn shr_unbounded_u128(x: u128, rhs: u32) -> (r: u128)
    ensures
        r == x as int / (pow2(rhs as nat) as int),
{
    if rhs < 128 {
        proof {
            lemma_u128_shr(x, rhs);
        }
        x >> rhs
    } else {
        proof {
            lemma_pow2_values();
            if rhs > 128 {
                lemma_pow2_strictly_increases(128, rhs as nat);
            }
            lemma_basic_div(x as int, pow2(rhs as nat) as int);
        }
        0
    }
}

/// Shifts the signed number `x` right by `rhs` bits, rounding down, for any `rhs`.
pub fn shr_unbounded_i128(x: i128, rhs: u32) -> (r: i128)
    ensures
        r == x as int / (pow2(rhs as nat) as int),
{
    if rhs < 128 {
        proof {
            lemma_i128_shr(x, rhs);
        }
        x >> rhs
    } else {
        proof {
            lemma_pow2_values();
            if rhs > 128 {
                lemma_pow2_strictly_increases(128, rhs as nat);
            }
            lemma_i128_shr(x, 127);
            let p = pow2(rhs as nat) as int;
            if x < 0 {
                lemma_fundamental_div_mod_converse(x as int, pow2_127(), -1, x + pow2_127());
                lemma_fundamental_div_mod_converse(x as int, p, -1, x + p);
            } else {
                lemma_fundamental_div_mod_converse(x as int, pow2_127(), 0, x as int);
                lemma_basic_div(x as int, p);
            }
        }
        x >> 127
    }
}

/// A number below 2^128 has at most 128 bits.
pub proof fn lemma_bit_length_u128(x: u128)
    ensures
        bit_length(x as nat) <= 128,
{
    lemma_pow2_values();
    if x > 0 {
        lemma_bit_length_bounds(x as nat);
        let n = bit_length(x as nat);
        if n > 128 {
            if n > 129 {
                lemma_pow2_strictly_increases(128, (n - 1) as nat);
            }
        }
    }
}

/// The number of one bits in the binary form of `x`.
pub open spec fn count_ones_of(x: nat) -> nat
    decreases x,
{
    if x == 0 {
        0
    } else {
        x % 2 + count_ones_of(x / 2)
    }
}

/// The number of zero bits below the lowest one bit of the 128-bit number `x`; 128 where `x`
/// is zero.
pub open spec fn trailing_zeros_of(x: nat) -> nat
    decreases x,
{
    if x == 0 {
        128
    } else if x % 2 == 1 {
        0
    } else {
        1 + trailing_zeros_of(x / 2)
    }
}

/// Counts the one bits of `x`.
pub fn count_ones_u128(x: u128) -> (r: u32)
    ensures
        r == count_ones_of(x as nat),
        r <= 128,
{
    let mut rest = x;
    let mut count: u32 = 0;
    proof {
        lemma_bit_length_u128(x);
    }
    while rest != 0
        invariant
            count + count_ones_of(rest as nat) == count_ones_of(x as nat),
            count + bit_length(rest as nat) <= 128,
        decreases rest,
    {
        if rest % 2 == 1 {
            count = count + 1;
        }
        rest = rest / 2;
    }
    count
}

/// Counts the zero bits below the lowest one bit of `x`.
pub fn trailing_zeros_u128(x: u128) -> (r: u32)
    ensures
        r == trailing_zeros_of(x as nat),
        r <= 128,
{
    if x == 0 {
        return 128;
    }
    let mut rest = x;
    let mut count: u32 = 0;
    proof {
        lemma_bit_length_u128(x);
    }
    while rest % 2 == 0
        invariant
            rest != 0,
            count + trailing_zeros_of(rest as nat) == trailing_zeros_of(x as nat),
            count + bit_length(rest as nat) <= 128,
        decreases rest,
    {
        count = count + 1;
        rest = rest / 2;
    }
    count
}

/// The low `n` bits of `x` in the opposite order: the lowest bit of `x` becomes bit `n - 1`.
pub open spec fn reversed_bits(x: nat, n: nat) -> nat
    decreases n,
{
    if n == 0 {
        0
    } else {
        (x % 2) * pow2((n - 1) as nat) + reversed_bits(x / 2, (n - 1) as nat)
    }
}

/// The low `n` bytes of `x` in the opposite order: the lowest byte of `x` becomes byte
/// `n - 1`.
pub open spec fn swapped_bytes(x: nat, n: nat) -> nat
    decreases n,
{
    if n == 0 {
        0
    } else {
        (x % 256) * pow2((8 * (n - 1)) as nat) + swapped_bytes(x / 256, (n - 1) as nat)
    }
}

/// One step of building a number from its digits, highest first: the digits read so far
/// move up one place of `base == 2^k` and the next digit comes in below them.
proof fn lemma_digit_step(out: nat, digit: nat, left: nat, k: nat, base: nat)
    requires
        left >= 1,
        base == pow2(k),
        digit < base,
    ensures
        out * pow2(k * left) + digit * pow2((k * (left - 1)) as nat) == (out * base + digit) * pow2(
            (k * (left - 1)) as nat,
        ),
{
    let below = pow2((k * (left - 1)) as nat);
    lemma_pow2_adds(k, (k * (left - 1)) as nat);
    assert(k + k * (left - 1) == k * left) by (nonlinear_arith)
        requires
            left >= 1,
    ;
    assert(out * (base * below) + digit * below == (out * base + digit) * below)
        by (nonlinear_arith);
}

/// Reverses the order of the 128 bits of `x`.
pub fn reverse_bits_u128(x: u128) -> (r: u128)
    ensures
        r == reversed_bits(x as nat, 128),
{
    let mut rest = x;
    let mut out: u128 = 0;
    let mut i: u32 = 0;
    proof {
        lemma_pow2_values();
        assert(out as nat * pow2(128) == 0) by (nonlinear_arith)
            requires
                out == 0,
        ;
    }
    while i < 128
        invariant
            i <= 128,
            out < pow2(i as nat),
            reversed_bits(x as nat, 128) == out * pow2((128 - i) as nat) + reversed_bits(
                rest as nat,
                (128 - i) as nat,
            ),
        decreases 128 - i,
    {
        proof {
            lemma_pow2_values();
            lemma_pow2_adds(i as nat, 1);
            lemma_pow2_adds(1, (128 - i) as nat);
            if i < 127 {
                lemma_pow2_strictly_increases((i + 1) as nat, 128);
            }
            lemma_digit_step(out as nat, (rest % 2) as nat, (128 - i) as nat, 1, 2);
        }
        out = out * 2 + rest % 2;
        rest = rest / 2;
        i = i + 1;
    }
    proof {
        assert(out as nat * pow2(0) == out) by (nonlinear_arith)
            requires
                pow2(0) == 1,
        ;
    }
    out
}

/// Reverses the order of the 16 bytes of `x`.
pub fn swap_bytes_u128(x: u128) -> (r: u128)
    ensures
        r == swapped_bytes(x as nat, 16),
{
    let mut rest = x;
    let mut out: u128 = 0;
    let mut i: u32 = 0;
    proof {
        lemma_pow2_values();
        lemma2_to64();
        assert(out as nat * pow2(128) == 0) by (nonlinear_arith)
            requires
                out == 0,
        ;
    }
    while i < 16
        invariant
            i <= 16,
            out < pow2((8 * i) as nat),
            pow2(8) == 256,
            swapped_bytes(x as nat, 16) == out * pow2((8 * (16 - i)) as nat) + swapped_bytes(
                rest as nat,
                (16 - i) as nat,
            ),
        decreases 16 - i,
    {
        proof {
            lemma_pow2_values();
            lemma_pow2_adds((8 * i) as nat, 8);
            if i < 15 {
                lemma_pow2_strictly_increases((8 * i + 8) as nat, 128);
            }
            lemma_digit_step(out as nat, (rest % 256) as nat, (16 - i) as nat, 8, 256);
        }
        out = out * 256 + rest % 256;
        rest = rest / 256;
        i = i + 1;
    }
    proof {
        assert(out as nat * pow2(0) == out) by (nonlinear_arith)
            requires
                pow2(0) == 1,
        ;
    }
    out
}

/// The number with its low `frac` bits set and no other: 2^frac - 1.
pub fn low_ones(frac: u32) -> (r: u128)
    requires
        frac <= 128,
    ensures
        r == pow2(frac as nat) - 1,
{
    proof {
        lemma_pow2_values();
    }
    if frac == 128 {
        u128::MAX
    } else {
        proof {
            lemma_u128_shl(1, frac);
            lemma_pow2_pos(frac as nat);
            lemma_pow2_strictly_increases(frac as nat, 128);
            assert(1 * pow2(frac as nat) == pow2(frac as nat)) by (nonlinear_arith);
            lemma_small_mod(pow2(frac as nat), pow2_128() as nat);
        }
        (1u128 << frac) - 1
    }
}

} // verus!
