use fixed::saturating::Saturating;
use fixed::signed::FixedI128;
use fixed::traits::{Fixed, FixedSigned, FixedUnsigned};
use fixed::unsigned::FixedU128;

type I64F64 = FixedI128<64>;
type U64F64 = FixedU128<64>;
type I124F4 = FixedI128<4>;
type U124F4 = FixedU128<4>;
type I8F120 = FixedI128<120>;
type I1F127 = FixedI128<127>;
type I0F128 = FixedI128<128>;
type U0F128 = FixedU128<128>;
type I128F0 = FixedI128<0>;
type U128F0 = FixedU128<0>;

const ONE: i128 = 1 << 64;
const UONE: u128 = 1 << 64;

/// `quarters / 4` as a signed number with 64 fractional bits.
fn si(quarters: i128) -> Saturating<I64F64> {
    Saturating(I64F64::from_bits(quarters * (ONE / 4)))
}

/// `quarters / 4` as an unsigned number with 64 fractional bits.
fn su(quarters: u128) -> Saturating<U64F64> {
    Saturating(U64F64::from_bits(quarters * (UONE / 4)))
}

fn smax() -> Saturating<I64F64> {
    Saturating(I64F64::from_bits(i128::MAX))
}

fn smin() -> Saturating<I64F64> {
    Saturating(I64F64::from_bits(i128::MIN))
}

fn umax() -> Saturating<U64F64> {
    Saturating(U64F64::from_bits(u128::MAX))
}

#[test]
fn from_bits_and_to_bits_round_trip() {
    assert_eq!(Saturating::<I64F64>::from_bits(0x1C), Saturating(I64F64::from_bits(0x1C)));
    assert_eq!(Saturating(I64F64::from_bits(0x1C)).to_bits(), 0x1C);
    assert_eq!(Saturating::<I64F64>::from_bits(i128::MIN).to_bits(), i128::MIN);
    assert_eq!(Saturating::<U64F64>::from_bits(u128::MAX).to_bits(), u128::MAX);
    assert_eq!(Saturating::<U0F128>::from_bits(7).to_bits(), 7);
}

#[test]
fn int_part_rounds_down() {
    assert_eq!(si(49).int_part(), si(48));
    assert_eq!(si(-49).int_part(), si(-52));
    assert_eq!(si(48).int_part(), si(48));
    assert_eq!(su(49).int_part(), su(48));
    assert_eq!(smin().int_part(), smin());
    assert_eq!(smax().int_part().to_bits(), i128::MAX - (ONE - 1));
}

#[test]
fn int_part_without_integer_bits_is_zero() {
    assert_eq!(Saturating(I0F128::from_bits(-5)).int_part().to_bits(), 0);
    assert_eq!(Saturating(I0F128::from_bits(5)).int_part().to_bits(), 0);
    assert_eq!(Saturating(U0F128::from_bits(u128::MAX)).int_part().to_bits(), 0);
}

#[test]
fn int_part_without_fractional_bits_is_the_number() {
    assert_eq!(Saturating(I128F0::from_bits(-5)).int_part().to_bits(), -5);
    assert_eq!(Saturating(U128F0::from_bits(u128::MAX)).int_part().to_bits(), u128::MAX);
}

#[test]
fn frac_is_never_negative() {
    assert_eq!(si(49).frac(), si(1));
    assert_eq!(si(-49).frac(), si(3));
    assert_eq!(si(48).frac(), si(0));
    assert_eq!(su(51).frac(), su(3));
    assert_eq!(Saturating(I128F0::from_bits(-5)).frac().to_bits(), 0);
}

#[test]
fn frac_without_integer_bits_is_the_number() {
    assert_eq!(Saturating(I0F128::from_bits(-5)).frac().to_bits(), -5);
    assert_eq!(Saturating(U0F128::from_bits(77)).frac().to_bits(), 77);
}

#[test]
fn leading_bits_match_the_integers() {
    let patterns = [0i128, 1, -1, 0x00FF_FF00, i128::MIN, i128::MAX, -0x00FF_FF00, 1 << 100];
    for &bits in &patterns {
        let s = Saturating(I64F64::from_bits(bits));
        assert_eq!(s.leading_zeros(), bits.leading_zeros());
        assert_eq!(s.leading_ones(), bits.leading_ones());
        let u = Saturating(U64F64::from_bits(bits as u128));
        assert_eq!(u.leading_zeros(), bits.leading_zeros());
        assert_eq!(u.leading_ones(), bits.leading_ones());
    }
    assert_eq!(Saturating(U64F64::from_bits(0)).leading_zeros(), 128);
    assert_eq!(Saturating(U64F64::from_bits(u128::MAX)).leading_ones(), 128);
    assert_eq!(Saturating(U64F64::from_bits(1)).leading_zeros(), 127);
}

#[test]
fn rotations_match_the_integers() {
    let patterns = [0i128, 1, -1, 0x00FF_FF00, i128::MIN, i128::MAX, 0x1234_5678 << 90];
    let counts = [0u32, 1, 12, 64, 127, 128, 129, 255, 256, u32::MAX];
    for &bits in &patterns {
        for &n in &counts {
            let s = Saturating(I64F64::from_bits(bits));
            assert_eq!(s.rotate_left(n).to_bits(), bits.rotate_left(n));
            assert_eq!(s.rotate_right(n).to_bits(), bits.rotate_right(n));
            let u = Saturating(U64F64::from_bits(bits as u128));
            assert_eq!(u.rotate_left(n).to_bits(), (bits as u128).rotate_left(n));
            assert_eq!(u.rotate_right(n).to_bits(), (bits as u128).rotate_right(n));
        }
    }
    let u = Saturating(U64F64::from_bits(0x00FF_FF00));
    assert_eq!(u.rotate_left(12).to_bits(), 0xF_FFF0_0000);
    assert_eq!(u.rotate_right(12).to_bits(), (0xF00 << 116) | 0xFFF);
}

#[test]
fn is_zero_only_for_zero() {
    assert!(si(0).is_zero());
    assert!(!si(17).is_zero());
    assert!(!si(-17).is_zero());
    assert!(su(0).is_zero());
    assert!(!umax().is_zero());
}

#[test]
fn dist_saturates() {
    assert_eq!(si(-4).dist(si(16)), si(20));
    assert_eq!(si(16).dist(si(-4)), si(20));
    assert_eq!(smin().dist(smax()), smax());
    assert_eq!(smax().dist(smin()), smax());
    assert_eq!(smin().dist(si(0)), smax());
    assert_eq!(si(0).dist(smax()), smax());
    assert_eq!(su(3).dist(su(10)), su(7));
    assert_eq!(umax().dist(su(0)), umax());
}

#[test]
fn mean_rounds_down() {
    assert_eq!(si(12).mean(si(16)), si(14));
    assert_eq!(si(12).mean(si(-16)), si(-2));
    assert_eq!(smax().mean(smax()), smax());
    assert_eq!(smin().mean(smin()), smin());
    assert_eq!(smin().mean(smax()).to_bits(), -1);
    let a = Saturating(I64F64::from_bits(-3));
    let b = Saturating(I64F64::from_bits(-4));
    assert_eq!(a.mean(b).to_bits(), -4);
    let a = Saturating(I64F64::from_bits(3));
    let b = Saturating(I64F64::from_bits(4));
    assert_eq!(a.mean(b).to_bits(), 3);
    assert_eq!(a.mean(a).to_bits(), 3);
    assert_eq!(umax().mean(umax()), umax());
    let a = Saturating(U64F64::from_bits(u128::MAX));
    let b = Saturating(U64F64::from_bits(u128::MAX - 1));
    assert_eq!(a.mean(b).to_bits(), u128::MAX - 1);
}

#[test]
fn recip_divides_one() {
    assert_eq!(si(1).recip(), si(16));
    assert_eq!(si(-1).recip(), si(-16));
    assert_eq!(si(8).recip(), si(2));
    assert_eq!(su(1).recip(), su(16));
    // a third, rounded towards zero
    assert_eq!(si(12).recip().to_bits(), 0x5555_5555_5555_5555);
    assert_eq!(si(-12).recip().to_bits(), -0x5555_5555_5555_5555);
    assert_eq!(su(12).recip().to_bits(), 0x5555_5555_5555_5555);
}

#[test]
fn recip_saturates() {
    let one_512th = Saturating(I8F120::from_bits(1 << 111));
    assert_eq!(one_512th.recip().to_bits(), i128::MAX);
    let minus_one_512th = Saturating(I8F120::from_bits(-(1 << 111)));
    assert_eq!(minus_one_512th.recip().to_bits(), i128::MIN);
    let quarter = Saturating(I8F120::from_bits(1 << 118));
    assert_eq!(quarter.recip().to_bits(), 4 << 120);
    assert_eq!(Saturating(I64F64::from_bits(1)).recip().to_bits(), i128::MAX);
    assert_eq!(Saturating(I64F64::from_bits(-1)).recip().to_bits(), i128::MIN);
    assert_eq!(Saturating(U64F64::from_bits(1)).recip().to_bits(), u128::MAX);
    assert_eq!(Saturating(U64F64::from_bits(2)).recip().to_bits(), 1 << 127);
    assert_eq!(Saturating(I0F128::from_bits(i128::MAX)).recip().to_bits(), i128::MAX);
    assert_eq!(Saturating(I0F128::from_bits(i128::MIN)).recip().to_bits(), i128::MIN);
    assert_eq!(Saturating(U0F128::from_bits(u128::MAX)).recip().to_bits(), u128::MAX);
    assert_eq!(Saturating(I1F127::from_bits(i128::MIN)).recip().to_bits(), i128::MIN);
    assert_eq!(Saturating(I1F127::from_bits(i128::MAX)).recip().to_bits(), i128::MAX);
    assert_eq!(Saturating(I128F0::from_bits(1)).recip().to_bits(), 1);
    assert_eq!(Saturating(I128F0::from_bits(-1)).recip().to_bits(), -1);
    assert_eq!(Saturating(I128F0::from_bits(2)).recip().to_bits(), 0);
    assert_eq!(Saturating(I128F0::from_bits(i128::MIN)).recip().to_bits(), 0);
}

#[test]
fn mul_add_saturates_the_sum_only() {
    assert_eq!(si(12).mul_add(si(2), si(16)), si(22));
    assert_eq!(smax().mul_add(si(12), smax()), smax());
    assert_eq!(smin().mul_add(si(12), smin()), smin());
    // the product alone lies outside the range, the sum does not
    assert_eq!(smax().mul_add(si(8), smin()).to_bits(), i128::MAX - 1);
    assert_eq!(si(-12).mul_add(si(2), si(0)), si(-6));
    assert_eq!(su(12).mul_add(su(2), su(16)), su(22));
    assert_eq!(umax().mul_add(su(4), su(0)), umax());
    assert_eq!(umax().mul_add(su(4), su(1)), umax());
    assert_eq!(umax().mul_add(su(8), su(0)), umax());
    // the product is rounded down
    let tiny = Saturating(I64F64::from_bits(-1));
    assert_eq!(tiny.mul_add(si(2), si(0)).to_bits(), -1);
    let tiny = Saturating(I64F64::from_bits(1));
    assert_eq!(tiny.mul_add(si(2), si(0)).to_bits(), 0);
}

#[test]
fn add_prod_and_mul_acc_agree_with_mul_add() {
    assert_eq!(si(16).add_prod(si(12), si(2)), si(22));
    assert_eq!(smax().add_prod(smax(), si(12)), smax());
    let mut acc = si(12);
    acc.mul_acc(si(16), si(2));
    assert_eq!(acc, si(20));
    acc = smax();
    acc.mul_acc(smax(), si(12));
    assert_eq!(acc, smax());
    let mut acc = su(12);
    acc.mul_acc(su(16), su(2));
    assert_eq!(acc, su(20));
}

#[test]
fn div_euclid_gives_whole_numbers() {
    assert_eq!(si(30).div_euclid(si(8)), si(12));
    assert_eq!(si(-30).div_euclid(si(8)), si(-16));
    assert_eq!(si(30).div_euclid(si(-8)), si(-12));
    assert_eq!(si(-30).div_euclid(si(-8)), si(16));
    assert_eq!(si(-32).div_euclid(si(8)), si(-16));
    assert_eq!(smax().div_euclid(si(1)), smax());
    assert_eq!(smin().div_euclid(si(1)), smin());
    assert_eq!(smin().div_euclid(si(-1)), smax());
    assert_eq!(su(30).div_euclid(su(8)), su(12));
    assert_eq!(umax().div_euclid(su(1)), umax());
    let min = Saturating(I128F0::from_bits(i128::MIN));
    assert_eq!(min.div_euclid(Saturating(I128F0::from_bits(-1))).to_bits(), i128::MAX);
    assert_eq!(min.div_euclid(Saturating(I128F0::from_bits(1))).to_bits(), i128::MIN);
    let half = Saturating(I1F127::from_bits(1 << 126));
    assert_eq!(half.div_euclid(half).to_bits(), i128::MAX);
    let minus_half = Saturating(I1F127::from_bits(-(1 << 126)));
    assert_eq!(half.div_euclid(minus_half).to_bits(), i128::MIN);
    assert_eq!(Saturating(I0F128::from_bits(-1)).div_euclid(half_of_i0f128()).to_bits(), i128::MIN);
}

fn half_of_i0f128() -> Saturating<I0F128> {
    Saturating(I0F128::from_bits(1 << 126))
}

#[test]
fn rem_euclid_is_never_negative() {
    assert_eq!(si(30).rem_euclid(si(8)), si(6));
    assert_eq!(si(-30).rem_euclid(si(8)), si(2));
    assert_eq!(si(30).rem_euclid(si(-8)), si(6));
    assert_eq!(si(-30).rem_euclid(si(-8)), si(2));
    assert_eq!(si(-32).rem_euclid(si(8)), si(0));
    assert_eq!(smin().rem_euclid(Saturating(I64F64::from_bits(-1))).to_bits(), 0);
    assert_eq!(smin().rem_euclid(smin()).to_bits(), 0);
    assert_eq!(smax().rem_euclid(smin()), smax());
    assert_eq!(Saturating(I64F64::from_bits(-1)).rem_euclid(smin()), smax());
    assert_eq!(su(30).rem_euclid(su(8)), su(6));
}

#[test]
fn unbounded_shifts() {
    let num = si(6);
    assert_eq!(num.unbounded_shl(5).to_bits(), num.to_bits() << 5);
    assert_eq!(num.unbounded_shl(128), si(0));
    assert_eq!(num.unbounded_shl(u32::MAX), si(0));
    assert_eq!(num.unbounded_shl(0), num);
    assert_eq!(si(-6).unbounded_shl(5).to_bits(), si(-6).to_bits() << 5);
    assert_eq!(smax().unbounded_shl(127).to_bits(), i128::MIN);
    assert_eq!(num.unbounded_shr(5).to_bits(), num.to_bits() >> 5);
    assert_eq!(num.unbounded_shr(128), si(0));
    assert_eq!(si(-6).unbounded_shr(5).to_bits(), si(-6).to_bits() >> 5);
    assert_eq!(si(-6).unbounded_shr(128).to_bits(), -1);
    assert_eq!(si(-6).unbounded_shr(4000).to_bits(), -1);
    assert_eq!(su(6).unbounded_shl(5).to_bits(), su(6).to_bits() << 5);
    assert_eq!(umax().unbounded_shl(1).to_bits(), u128::MAX - 1);
    assert_eq!(umax().unbounded_shl(128).to_bits(), 0);
    assert_eq!(umax().unbounded_shr(127).to_bits(), 1);
    assert_eq!(umax().unbounded_shr(128).to_bits(), 0);
}

#[test]
fn casts_keep_the_bits() {
    let n = Saturating(I64F64::from_bits(-1));
    assert_eq!(n.cast_unsigned(), umax());
    assert_eq!(umax().cast_signed(), n);
    assert_eq!(si(5).cast_unsigned(), su(5));
    assert_eq!(su(5).cast_signed(), si(5));
    assert_eq!(smin().cast_unsigned().to_bits(), 1 << 127);
}

#[test]
fn signed_bits_counts_the_sign() {
    let bits = |v: i128| Saturating(I124F4::from_bits(v)).signed_bits();
    assert_eq!(bits(-48), 7);
    assert_eq!(bits(-16), 5);
    assert_eq!(bits(-1), 1);
    assert_eq!(bits(0), 1);
    assert_eq!(bits(1), 2);
    assert_eq!(bits(16), 6);
    assert_eq!(bits(48), 7);
    assert_eq!(bits(i128::MAX), 128);
    assert_eq!(bits(i128::MIN), 128);
}

#[test]
fn signs() {
    assert!(si(17).is_positive());
    assert!(!si(0).is_positive());
    assert!(!si(-17).is_positive());
    assert!(!si(17).is_negative());
    assert!(!si(0).is_negative());
    assert!(si(-17).is_negative());
}

#[test]
fn abs_saturates_at_the_minimum() {
    assert_eq!(si(-20).abs(), si(20));
    assert_eq!(si(20).abs(), si(20));
    assert_eq!(si(0).abs(), si(0));
    assert_eq!(smin().abs(), smax());
    assert_eq!(Saturating(I64F64::from_bits(i128::MIN + 1)).abs(), smax());
}

#[test]
fn signum_saturates_where_one_does_not_fit() {
    assert_eq!(si(-15).signum(), si(-4));
    assert_eq!(si(0).signum(), si(0));
    assert_eq!(si(15).signum(), si(4));
    assert_eq!(Saturating(I1F127::from_bits(1 << 126)).signum().to_bits(), i128::MAX);
    assert_eq!(Saturating(I1F127::from_bits(-(1 << 126))).signum().to_bits(), i128::MIN);
    assert_eq!(Saturating(I0F128::from_bits(1 << 125)).signum().to_bits(), i128::MAX);
    assert_eq!(Saturating(I0F128::from_bits(-(1 << 126))).signum().to_bits(), i128::MIN);
    assert_eq!(Saturating(I0F128::from_bits(0)).signum().to_bits(), 0);
    assert_eq!(Saturating(FixedI128::<126>::from_bits(5)).signum().to_bits(), 1 << 126);
    assert_eq!(Saturating(FixedI128::<126>::from_bits(-5)).signum().to_bits(), -(1 << 126));
    assert_eq!(Saturating(I128F0::from_bits(-5)).signum().to_bits(), -1);
}

#[test]
fn mixed_sign_sums() {
    assert_eq!(si(-20).add_unsigned(su(12).0), si(-8));
    assert_eq!(si(0).add_unsigned(umax().0), smax());
    assert_eq!(smin().add_unsigned(umax().0), smax());
    assert_eq!(smin().add_unsigned(su(0).0), smin());
    assert_eq!(si(12).sub_unsigned(su(20).0), si(-8));
    assert_eq!(si(0).sub_unsigned(umax().0), smin());
    assert_eq!(smax().sub_unsigned(umax().0), smin());
    assert_eq!(su(20).add_signed(si(-12).0), su(8));
    assert_eq!(su(0).add_signed(I64F64::from_bits(-1)), su(0));
    assert_eq!(umax().add_signed(I64F64::from_bits(1)), umax());
    assert_eq!(su(20).add_signed(smin().0), su(0));
    assert_eq!(su(20).sub_signed(si(-12).0), su(32));
    assert_eq!(su(0).sub_signed(I64F64::from_bits(1)), su(0));
    assert_eq!(su(0).sub_signed(smin().0).to_bits(), 1 << 127);
    assert_eq!(umax().sub_signed(smin().0), umax());
    assert_eq!(umax().sub_signed(smax().0).to_bits(), 1 << 127);
}

#[test]
fn significant_bits_of_unsigned() {
    let bits = |v: u128| Saturating(U124F4::from_bits(v)).significant_bits();
    assert_eq!(bits(0), 0);
    assert_eq!(bits(1), 1);
    assert_eq!(bits(16), 5);
    assert_eq!(bits(48), 6);
    assert_eq!(bits(u128::MAX), 128);
}

#[test]
fn powers_of_two() {
    assert!(su(2).is_power_of_two());
    assert!(su(16).is_power_of_two());
    assert!(!su(20).is_power_of_two());
    assert!(!su(0).is_power_of_two());
    assert!(Saturating(U64F64::from_bits(1 << 127)).is_power_of_two());
    assert!(Saturating(U64F64::from_bits(1)).is_power_of_two());
    assert!(!umax().is_power_of_two());
}

#[test]
fn highest_one_keeps_one_bit() {
    let one = |v: u128| Saturating(U64F64::from_bits(v)).highest_one().to_bits();
    assert_eq!(one(0b11_0010), 0b10_0000);
    assert_eq!(su(16).highest_one(), su(16));
    assert_eq!(su(26).highest_one(), su(16));
    assert_eq!(one(0), 0);
    assert_eq!(one(1), 1);
    assert_eq!(one(u128::MAX), 1 << 127);
}

#[test]
fn trait_arithmetic_saturates() {
    let a = I64F64::from_bits(i128::MAX);
    let b = I64F64::from_bits(1);
    assert_eq!(a.saturating_add(b).to_bits(), i128::MAX);
    assert_eq!(a.saturating_sub(b).to_bits(), i128::MAX - 1);
    assert_eq!(I64F64::from_bits(i128::MIN).saturating_sub(b).to_bits(), i128::MIN);
    assert_eq!(I64F64::from_bits(i128::MIN).saturating_neg().to_bits(), i128::MAX);
    assert_eq!(I64F64::from_bits(5).saturating_neg().to_bits(), -5);
    assert_eq!(U64F64::from_bits(5).saturating_neg().to_bits(), 0);
    assert_eq!(U64F64::from_bits(5).saturating_sub(U64F64::from_bits(6)).to_bits(), 0);
    assert_eq!(U64F64::from_bits(u128::MAX).saturating_add(U64F64::from_bits(6)).to_bits(), u128::MAX);
    assert_eq!(si(6).0.saturating_mul(si(10).0), si(15).0);
    assert_eq!(si(-6).0.saturating_mul(si(10).0), si(-15).0);
    assert_eq!(smax().0.saturating_mul(si(8).0), smax().0);
    assert_eq!(smax().0.saturating_mul(si(-8).0), smin().0);
    assert_eq!(smin().0.saturating_mul(smin().0), smax().0);
    assert_eq!(I64F64::from_bits(-1).saturating_mul(I64F64::from_bits(1)).to_bits(), -1);
    assert_eq!(su(6).0.saturating_mul(su(10).0), su(15).0);
    assert_eq!(umax().0.saturating_mul(su(8).0), umax().0);
    assert_eq!(si(15).0.saturating_div(si(10).0), si(6).0);
    assert_eq!(si(-15).0.saturating_div(si(10).0), si(-6).0);
    assert_eq!(si(4).0.saturating_div(si(12).0).to_bits(), 0x5555_5555_5555_5555);
    assert_eq!(si(-4).0.saturating_div(si(12).0).to_bits(), -0x5555_5555_5555_5555);
    assert_eq!(smax().0.saturating_div(si(1).0), smax().0);
    assert_eq!(smin().0.saturating_div(si(-4).0), smax().0);
    assert_eq!(smin().0.saturating_div(si(1).0), smin().0);
    assert_eq!(su(15).0.saturating_div(su(10).0), su(6).0);
    assert_eq!(umax().0.saturating_div(su(1).0), umax().0);
    let min = I0F128::from_bits(i128::MIN);
    assert_eq!(min.saturating_div(I0F128::from_bits(-1)).to_bits(), i128::MAX);
    assert_eq!(min.saturating_div(min).to_bits(), i128::MAX);
    let min = I128F0::from_bits(i128::MIN);
    assert_eq!(min.saturating_div(I128F0::from_bits(-1)).to_bits(), i128::MAX);
    assert_eq!(min.saturating_div(I128F0::from_bits(1)).to_bits(), i128::MIN);
}
