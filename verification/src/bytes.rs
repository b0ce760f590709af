//! The 16 bytes of a 128-bit number, lowest byte first or highest byte first.

use vstd::prelude::*;
use vstd::arithmetic::div_mod::{lemma_basic_div, lemma_fundamental_div_mod};
use vstd::arithmetic::power2::{
    lemma2_to64, lemma_pow2_adds, lemma_pow2_pos, lemma_pow2_strictly_increases, pow2,
};
use crate::bits::{lemma_div_twice, lemma_pow2_values, pow2_128, swap_bytes_u128, swapped_bytes};

verus! {

/// Byte `i` of `x`, counted from the lowest.
pub open spec fn byte_at(x: nat, i: nat) -> nat {
    (x / pow2(8 * i)) % 256
}

/// The number written by the bytes `s`, lowest byte first.
pub open spec fn le_value(s: Seq<u8>) -> nat
    decreases s.len(),
{
    if s.len() == 0 {
        0
    } else {
        s[0] as nat + 256 * le_value(s.drop_first())
    }
}

/// The number written by the bytes `s`, highest byte first.
pub open spec fn be_value(s: Seq<u8>) -> nat
    decreases s.len(),
{
    if s.len() == 0 {
        0
    } else {
        be_value(s.drop_last()) * 256 + s.last() as nat
    }
}

/// Lowering `x` by `8 * i` bits and then by 8 more lowers it by `8 * (i + 1)` bits.
proof fn lemma_next_byte(x: nat, i: nat)
    ensures
        (x / pow2(8 * i)) / 256 == x / pow2(8 * (i + 1)),
        pow2(8 * i) > 0,
{
    lemma2_to64();
    lemma_pow2_pos(8 * i);
    lemma_pow2_adds(8 * i, 8);
    lemma_div_twice(x as int, pow2(8 * i) as int, 256);
}

/// Sixteen bytes that are the bytes of `x`, lowest first, write `x`.
proof fn lemma_le_value_of_bytes(s: Seq<u8>, x: nat, from: nat)
    requires
        s.len() == 16,
        from <= 16,
        x < pow2_128(),
        forall|j: int| 0 <= j < 16 ==> s[j] as nat == byte_at(x, j as nat),
    ensures
        le_value(s.subrange(from as int, 16)) == x / pow2(8 * from),
    decreases 16 - from,
{
    let tail = s.subrange(from as int, 16);
    if from == 16 {
        lemma_pow2_values();
        lemma_basic_div(x as int, pow2_128());
    } else {
        lemma_le_value_of_bytes(s, x, from + 1);
        assert(tail.drop_first() =~= s.subrange(from as int + 1, 16));
        lemma_next_byte(x, from);
        lemma_fundamental_div_mod((x / pow2(8 * from)) as int, 256);
    }
}

/// Sixteen bytes that are the bytes of `x`, highest first, write `x`.
proof fn lemma_be_value_of_bytes(s: Seq<u8>, x: nat, upto: nat)
    requires
        s.len() == 16,
        upto <= 16,
        x < pow2_128(),
        forall|j: int| 0 <= j < 16 ==> s[j] as nat == byte_at(x, (15 - j) as nat),
    ensures
        be_value(s.subrange(0, upto as int)) == x / pow2(8 * (16 - upto) as nat),
    decreases upto,
{
    let head = s.subrange(0, upto as int);
    if upto == 0 {
        lemma_pow2_values();
        lemma_basic_div(x as int, pow2_128());
    } else {
        lemma_be_value_of_bytes(s, x, (upto - 1) as nat);
        assert(head.drop_last() =~= s.subrange(0, upto as int - 1));
        lemma_next_byte(x, (16 - upto) as nat);
        lemma_fundamental_div_mod((x / pow2(8 * (16 - upto) as nat)) as int, 256);
    }
}

/// The bytes of `x`, lowest byte first.
pub fn to_le_bytes_u128(x: u128) -> (r: [u8; 16])
    ensures
        forall|j: int| 0 <= j < 16 ==> r@[j] as nat == byte_at(x as nat, j as nat),
        le_value(r@) == x,
{
    let mut out = [0u8; 16];
    let mut rest = x;
    let mut i: usize = 0;
    proof {
        lemma_pow2_values();
        assert(x as nat / pow2(0) == x) by (nonlinear_arith)
            requires
                pow2(0) == 1,
        ;
    }
    while i < 16
        invariant
            i <= 16,
            rest == x as nat / pow2(8 * i as nat),
            forall|j: int| 0 <= j < i ==> out@[j] as nat == byte_at(x as nat, j as nat),
        decreases 16 - i,
    {
        proof {
            lemma_next_byte(x as nat, i as nat);
        }
        out[i] = (rest % 256) as u8;
        rest = rest / 256;
        i = i + 1;
    }
    proof {
        lemma_pow2_values();
        lemma_le_value_of_bytes(out@, x as nat, 0);
        assert(out@.subrange(0, 16) =~= out@);
        assert(x as nat / pow2(0) == x) by (nonlinear_arith)
            requires
                pow2(0) == 1,
        ;
    }
    out
}

/// The bytes of `x`, highest byte first.
pub fn to_be_bytes_u128(x: u128) -> (r: [u8; 16])
    ensures
        forall|j: int| 0 <= j < 16 ==> r@[j] as nat == byte_at(x as nat, (15 - j) as nat),
        be_value(r@) == x,
{
    let mut out = [0u8; 16];
    let mut rest = x;
    let mut i: usize = 0;
    proof {
        lemma_pow2_values();
        assert(x as nat / pow2(0) == x) by (nonlinear_arith)
            requires
                pow2(0) == 1,
        ;
    }
    while i < 16
        invariant
            i <= 16,
            rest == x as nat / pow2(8 * i as nat),
            forall|j: int| 16 - i <= j < 16 ==> out@[j] as nat == byte_at(x as nat, (15 - j) as nat),
        decreases 16 - i,
    {
        proof {
            lemma_next_byte(x as nat, i as nat);
        }
        out[15 - i] = (rest % 256) as u8;
        rest = rest / 256;
        i = i + 1;
    }
    proof {
        lemma_pow2_values();
        lemma_be_value_of_bytes(out@, x as nat, 16);
        assert(out@.subrange(0, 16) =~= out@);
        assert(x as nat / pow2(0) == x) by (nonlinear_arith)
            requires
                pow2(0) == 1,
        ;
    }
    out
}

/// A number written by `n` bytes is below 2^(8n).
proof fn lemma_le_value_bound(s: Seq<u8>)
    ensures
        le_value(s) < pow2(8 * s.len()),
    decreases s.len(),
{
    lemma2_to64();
    if s.len() > 0 {
        lemma_le_value_bound(s.drop_first());
        lemma_pow2_adds(8, (8 * (s.len() - 1)) as nat);
    }
}

/// A number written by `n` bytes is below 2^(8n).
proof fn lemma_be_value_bound(s: Seq<u8>)
    ensures
        be_value(s) < pow2(8 * s.len()),
    decreases s.len(),
{
    lemma2_to64();
    if s.len() > 0 {
        lemma_be_value_bound(s.drop_last());
        lemma_pow2_adds((8 * (s.len() - 1)) as nat, 8);
    }
}

/// The number written by 16 bytes, lowest byte first.
pub fn from_le_bytes_u128(bytes: [u8; 16]) -> (r: u128)
    ensures
        r == le_value(bytes@),
{
    let mut acc: u128 = 0;
    let mut i: usize = 16;
    proof {
        assert(bytes@.subrange(16, 16) =~= Seq::<u8>::empty());
    }
    while i > 0
        invariant
            i <= 16,
            acc == le_value(bytes@.subrange(i as int, 16)),
        decreases i,
    {
        proof {
            let tail = bytes@.subrange(i as int - 1, 16);
            assert(tail.drop_first() =~= bytes@.subrange(i as int, 16));
            lemma_le_value_bound(tail);
            lemma_pow2_values();
            if i > 1 {
                lemma_pow2_strictly_increases(
                    (8 * (17 - i)) as nat,
                    128,
                );
            }
        }
        acc = acc * 256 + bytes[i - 1] as u128;
        i = i - 1;
    }
    proof {
        assert(bytes@.subrange(0, 16) =~= bytes@);
    }
    acc
}

/// The number written by 16 bytes, highest byte first.
pub fn from_be_bytes_u128(bytes: [u8; 16]) -> (r: u128)
    ensures
        r == be_value(bytes@),
{
    let mut acc: u128 = 0;
    let mut i: usize = 0;
    proof {
        assert(bytes@.subrange(0, 0) =~= Seq::<u8>::empty());
    }
    while i < 16
        invariant
            i <= 16,
            acc == be_value(bytes@.subrange(0, i as int)),
        decreases 16 - i,
    {
        proof {
            let head = bytes@.subrange(0, i as int + 1);
            assert(head.drop_last() =~= bytes@.subrange(0, i as int));
            lemma_be_value_bound(head);
            lemma_pow2_values();
            if i < 15 {
                lemma_pow2_strictly_increases(
                    (8 * (i + 1)) as nat,
                    128,
                );
            }
        }
        acc = acc * 256 + bytes[i] as u128;
        i = i + 1;
    }
    proof {
        assert(bytes@.subrange(0, 16) =~= bytes@);
    }
    acc
}

/// The 16-bit number that this machine stores as the two given bytes.
///
/// Calls `u16::from_ne_bytes`, which reads the bytes in the order in which the machine stores
/// them. The contract claims only what holds on every machine: the result is the number that
/// the bytes write lowest byte first, or the one that they write highest byte first.
#[verifier::external_body]
fn u16_from_ne_bytes(bytes: [u8; 2]) -> (r: u16)
    ensures
        r == bytes@[0] + 256 * bytes@[1] || r == bytes@[1] + 256 * bytes@[0],
{
    u16::from_ne_bytes(bytes)
}

/// Whether this machine stores the lowest byte of a number first: whether it reads the
/// bytes 1, 0 as the number one.
fn lowest_byte_first() -> (r: bool) {
    u16_from_ne_bytes([1, 0]) == 1
}

/// The number `x` of this machine as a number that stores its highest byte first, or the
/// other way round, on a machine that stores the lowest byte first or not.
pub fn to_be_on(x: u128, lowest_first: bool) -> (r: u128)
    ensures
        r == if lowest_first { swapped_bytes(x as nat, 16) } else { x as nat },
{
    if lowest_first {
        swap_bytes_u128(x)
    } else {
        x
    }
}

/// The number `x` of this machine as a number that stores its lowest byte first, or the other
/// way round, on a machine that stores the lowest byte first or not.
pub fn to_le_on(x: u128, lowest_first: bool) -> (r: u128)
    ensures
        r == if lowest_first { x as nat } else { swapped_bytes(x as nat, 16) },
{
    if lowest_first {
        x
    } else {
        swap_bytes_u128(x)
    }
}

/// The bytes of `x` in the order of a machine that stores the lowest byte first or not.
pub fn to_ne_bytes_on(x: u128, lowest_first: bool) -> (r: [u8; 16])
    ensures
        lowest_first ==> le_value(r@) == x,
        !lowest_first ==> be_value(r@) == x,
        forall|j: int|
            0 <= j < 16 ==> r@[j] as nat == byte_at(
                x as nat,
                (if lowest_first { j } else { 15 - j }) as nat,
            ),
{
    if lowest_first {
        to_le_bytes_u128(x)
    } else {
        to_be_bytes_u128(x)
    }
}

/// The number written by 16 bytes in the order of a machine that stores the lowest byte first
/// or not.
pub fn from_ne_bytes_on(bytes: [u8; 16], lowest_first: bool) -> (r: u128)
    ensures
        r == if lowest_first { le_value(bytes@) } else { be_value(bytes@) },
{
    if lowest_first {
        from_le_bytes_u128(bytes)
    } else {
        from_be_bytes_u128(bytes)
    }
}

/// `x` with its highest byte first in memory: `x` itself or `x` with its bytes swapped, as
/// this machine stores numbers. The same swap turns a number that was stored highest byte
/// first into a number of this machine.
pub fn to_be_u128(x: u128) -> (r: u128)
    ensures
        r == x || r == swapped_bytes(x as nat, 16),
{
    to_be_on(x, lowest_byte_first())
}

/// `x` with its lowest byte first in memory: `x` itself or `x` with its bytes swapped, as
/// this machine stores numbers. The same swap turns a number that was stored lowest byte
/// first into a number of this machine.
pub fn to_le_u128(x: u128) -> (r: u128)
    ensures
        r == x || r == swapped_bytes(x as nat, 16),
{
    to_le_on(x, lowest_byte_first())
}

/// The bytes of `x` as this machine stores them: lowest byte first or highest byte first.
pub fn to_ne_bytes_u128(x: u128) -> (r: [u8; 16])
    ensures
        le_value(r@) == x || be_value(r@) == x,
{
    to_ne_bytes_on(x, lowest_byte_first())
}

/// The number that this machine stores as the given bytes: the number that they write lowest
/// byte first, or highest byte first.
pub fn from_ne_bytes_u128(bytes: [u8; 16]) -> (r: u128)
    ensures
        r == le_value(bytes@) || r == be_value(bytes@),
{
    from_ne_bytes_on(bytes, lowest_byte_first())
}

} // verus!
