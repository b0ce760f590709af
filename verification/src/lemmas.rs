//! Facts about division and scaling that the fixed-point types share.

use vstd::prelude::*;
use vstd::arithmetic::div_mod::{lemma_fundamental_div_mod, lemma_fundamental_div_mod_converse};
use vstd::arithmetic::power2::{lemma_pow2_pos, lemma_pow2_strictly_increases, pow2};
use crate::bits::{lemma_pow2_values, pow2_128};
use crate::int256::abs;
use crate::traits::{descale, euclid_div, euclid_rem, trunc_div, trunc_rem, trunc_to};

verus! {

/// A quotient and a remainder with `n == q * d + r`, where `r` is nearer to zero than `d` and
/// has the sign of `n`, are those of the division that rounds towards zero.
pub proof fn lemma_trunc_div_unique(n: int, d: int, q: int, r: int)
    requires
        d != 0,
        n == q * d + r,
        abs(r) < abs(d),
        n >= 0 ==> r >= 0,
        n < 0 ==> r <= 0,
    ensures
        q == trunc_div(n, d),
{
    let ad = abs(d);
    if n >= 0 {
        if d > 0 {
            lemma_fundamental_div_mod_converse(n, ad, q, r);
        } else {
            assert(n == (-q) * ad + r) by (nonlinear_arith)
                requires
                    n == q * d + r,
                    ad == -d,
            ;
            lemma_fundamental_div_mod_converse(n, ad, -q, r);
        }
    } else {
        if d > 0 {
            assert(-n == (-q) * ad + (-r)) by (nonlinear_arith)
                requires
                    n == q * d + r,
                    ad == d,
            ;
            lemma_fundamental_div_mod_converse(-n, ad, -q, -r);
        } else {
            assert(-n == q * ad + (-r)) by (nonlinear_arith)
                requires
                    n == q * d + r,
                    ad == -d,
            ;
            lemma_fundamental_div_mod_converse(-n, ad, q, -r);
        }
    }
}

/// Dividing by a power of two, rounding down, brings a number no further from zero than
/// `bound`, if it was no further before.
pub proof fn lemma_descale_bound(v: int, frac: nat, bound: int)
    requires
        -bound <= v <= bound,
    ensures
        -bound <= descale(v, frac) <= bound,
        v >= 0 ==> descale(v, frac) >= 0,
        v < 0 ==> descale(v, frac) < 0,
{
    let p = pow2(frac) as int;
    lemma_pow2_pos(frac);
    lemma_fundamental_div_mod(v, p);
    let q = v / p;
    let r = v % p;
    assert(-bound <= q <= bound && (v >= 0 ==> q >= 0) && (v < 0 ==> q < 0)) by (nonlinear_arith)
        requires
            v == p * q + r,
            0 <= r < p,
            -bound <= v <= bound,
    ;
}

/// The magnitudes of a quotient and remainder give the division that leaves a remainder
/// that is never negative: where `|a| == uq * |d| + um` with `um < |d|`.
pub proof fn lemma_euclid_from_magnitudes(a: int, d: int, uq: int, um: int)
    requires
        d != 0,
        abs(a) == uq * abs(d) + um,
        0 <= um < abs(d),
    ensures
        euclid_rem(a, d) == if a >= 0 || um == 0 { um } else { abs(d) - um },
        a / abs(d) == if a >= 0 { uq } else if um == 0 { -uq } else { -uq - 1 },
        euclid_div(a, d) == if d > 0 { a / abs(d) } else { -(a / abs(d)) },
{
    let ad = abs(d);
    if a >= 0 {
        lemma_fundamental_div_mod_converse(a, ad, uq, um);
    } else if um == 0 {
        assert(a == (-uq) * ad + 0) by (nonlinear_arith)
            requires
                -a == uq * ad + um,
                um == 0,
        ;
        lemma_fundamental_div_mod_converse(a, ad, -uq, 0);
    } else {
        assert(a == (-uq - 1) * ad + (ad - um)) by (nonlinear_arith)
            requires
                -a == uq * ad + um,
        ;
        lemma_fundamental_div_mod_converse(a, ad, -uq - 1, ad - um);
    }
}

/// A power of two with an exponent below 128 is below 2^128.
pub proof fn lemma_pow2_below_128(e: nat)
    requires
        e < 128,
    ensures
        0 < pow2(e) < pow2_128(),
{
    lemma_pow2_values();
    lemma_pow2_pos(e);
    lemma_pow2_strictly_increases(e, 128);
}

/// Rounding towards zero brings a number no further from zero, and not across it.
pub proof fn lemma_trunc_is_nearer_zero(v: int, frac: nat)
    ensures
        v >= 0 ==> 0 <= trunc_to(v, frac) <= v,
        v < 0 ==> v <= trunc_to(v, frac) <= 0,
{
    let p = pow2(frac) as int;
    lemma_pow2_pos(frac);
    lemma_fundamental_div_mod(v, p);
    lemma_fundamental_div_mod(-v, p);
    if v >= 0 {
        assert(v - v % p >= 0) by (nonlinear_arith)
            requires
                v == p * (v / p) + v % p,
                0 <= v % p < p,
                v >= 0,
                p > 0,
        ;
    } else {
        assert(v + (-v) % p <= 0) by (nonlinear_arith)
            requires
                -v == p * ((-v) / p) + (-v) % p,
                0 <= (-v) % p < p,
                v < 0,
                p > 0,
        ;
    }
}

/// The remainder of a number negated: zero where the number leaves none, and else what the
/// number's remainder lacks of the divisor.
pub proof fn lemma_neg_mod(v: int, m: int)
    requires
        m > 0,
    ensures
        (-v) % m == if v % m == 0 { 0 } else { m - v % m },
{
    lemma_fundamental_div_mod(v, m);
    let q = v / m;
    let r = v % m;
    if r == 0 {
        assert(-v == (-q) * m + 0) by (nonlinear_arith)
            requires
                v == m * q + r,
                r == 0,
        ;
        lemma_fundamental_div_mod_converse(-v, m, -q, 0);
    } else {
        assert(-v == (-q - 1) * m + (m - r)) by (nonlinear_arith)
            requires
                v == m * q + r,
        ;
        lemma_fundamental_div_mod_converse(-v, m, -q - 1, m - r);
    }
}

/// Dividing by a product `d * p`, rounding down, is dividing by `p` and then by `d`; the
/// remainder is made of the two remainders.
pub proof fn lemma_div_mod_by_product(a: int, p: int, d: int)
    requires
        p > 0,
        d > 0,
    ensures
        d * p > 0,
        a / (d * p) == (a / p) / d,
        a % (d * p) == ((a / p) % d) * p + a % p,
{
    lemma_fundamental_div_mod(a, p);
    let w = a / p;
    let f = a % p;
    lemma_fundamental_div_mod(w, d);
    let q = w / d;
    let r = w % d;
    assert(d * p > 0 && a == q * (d * p) + (r * p + f) && 0 <= r * p + f < d * p)
        by (nonlinear_arith)
        requires
            a == p * w + f,
            w == d * q + r,
            0 <= f < p,
            0 <= r < d,
    ;
    lemma_fundamental_div_mod_converse(a, d * p, q, r * p + f);
}

/// The division by an integer `d` that leaves a remainder that is never negative, of a
/// stored integer `a` with steps of `1 / p`: its whole number is that of the whole part of
/// `a`, and its remainder is the remainder of the whole part, with the fraction of `a` put
/// back below it.
pub proof fn lemma_euclid_by_integer(a: int, p: int, d: int)
    requires
        p > 0,
        d != 0,
    ensures
        d * p != 0,
        euclid_div(a, d * p) == euclid_div(a / p, d),
        euclid_rem(a, d * p) == euclid_rem(a / p, d) * p + a % p,
{
    let ad = abs(d);
    lemma_div_mod_by_product(a, p, ad);
    assert(abs(d * p) == ad * p && (d * p < 0 <==> d < 0) && d * p != 0 && (d < 0 ==> -(d * p)
        == ad * p)) by (nonlinear_arith)
        requires
            p > 0,
            d != 0,
            ad == abs(d),
    ;
}

/// Bringing down the negative of `w`, rounding down, is the negative of bringing down `w`
/// rounding up, which in turn is bringing down `w + 2^frac - 1` rounding down.
pub proof fn lemma_descale_negated(w: int, frac: nat)
    ensures
        descale(-w, frac) == -descale(w + pow2(frac) - 1, frac),
        w >= 0 ==> 0 <= descale(w + pow2(frac) - 1, frac) <= w,
{
    let p = pow2(frac) as int;
    lemma_pow2_pos(frac);
    lemma_fundamental_div_mod(w, p);
    let q = w / p;
    let r = w % p;
    if r == 0 {
        assert(-w == (-q) * p + 0 && w + p - 1 == q * p + (p - 1)) by (nonlinear_arith)
            requires
                w == p * q + r,
                r == 0,
        ;
        lemma_fundamental_div_mod_converse(-w, p, -q, 0);
        lemma_fundamental_div_mod_converse(w + p - 1, p, q, p - 1);
    } else {
        assert(-w == (-q - 1) * p + (p - r) && w + p - 1 == (q + 1) * p + (r - 1))
            by (nonlinear_arith)
            requires
                w == p * q + r,
        ;
        lemma_fundamental_div_mod_converse(-w, p, -q - 1, p - r);
        lemma_fundamental_div_mod_converse(w + p - 1, p, q + 1, r - 1);
    }
    if w >= 0 {
        let up = if r == 0 { q } else { q + 1 };
        assert(0 <= up <= w) by (nonlinear_arith)
            requires
                w == p * q + r,
                0 <= r < p,
                w >= 0,
                up == if r == 0 { q } else { q + 1 },
        ;
    }
}

/// The quotient rounded towards zero, from the quotient of the magnitudes.
pub proof fn lemma_trunc_div_from_magnitudes(n: int, d: int, q: int, r: int)
    requires
        d != 0,
        abs(n) == q * abs(d) + r,
        0 <= r < abs(d),
    ensures
        trunc_div(n, d) == if (n < 0) == (d < 0) { q } else { -q },
{
    lemma_fundamental_div_mod_converse(abs(n), abs(d), q, r);
}

/// The magnitude of a product is the product of the magnitudes.
pub proof fn lemma_abs_mul(a: int, b: int)
    ensures
        abs(a * b) == abs(a) * abs(b),
        a * b < 0 <==> (a < 0) != (b < 0) && a != 0 && b != 0,
{
    assert(abs(a * b) == abs(a) * abs(b) && (a * b < 0 <==> (a < 0) != (b < 0) && a != 0 && b
        != 0)) by (nonlinear_arith);
}

/// The remainder of the division that rounds towards zero, from the remainder of the
/// magnitudes: it takes the sign of the dividend.
pub proof fn lemma_trunc_rem_from_magnitudes(a: int, b: int)
    requires
        b != 0,
    ensures
        trunc_rem(a, b) == if a < 0 { -(abs(a) % abs(b)) } else { abs(a) % abs(b) },
{
    let q = abs(a) / abs(b);
    let r = abs(a) % abs(b);
    lemma_fundamental_div_mod(abs(a), abs(b));
    assert(a - (if (a < 0) == (b < 0) { q } else { -q }) * b == if a < 0 { -r } else { r })
        by (nonlinear_arith)
        requires
            abs(a) == abs(b) * q + r,
            b != 0,
    ;
}

} // verus!
