use fixed::int256::U256;
use fixed::saturating::Saturating;
use fixed::signed::FixedI128;
use fixed::sqrt::sqrt_u256;
use fixed::traits::Fixed;
use fixed::unsigned::FixedU128;

type I64F64 = FixedI128<64>;
type U64F64 = FixedU128<64>;
type I8F120 = FixedI128<120>;
type I0F128 = FixedI128<128>;
type U0F128 = FixedU128<128>;
type I128F0 = FixedI128<0>;
type U128F0 = FixedU128<0>;

const ONE: i128 = 1 << 64;
const UONE: u128 = 1 << 64;

fn si(quarters: i128) -> Saturating<I64F64> {
    Saturating(I64F64::from_bits(quarters * (ONE / 4)))
}

fn su(quarters: u128) -> Saturating<U64F64> {
    Saturating(U64F64::from_bits(quarters * (UONE / 4)))
}

fn smax() -> Saturating<I64F64> {
    Saturating(I64F64::from_bits(i128::MAX))
}

fn smin() -> Saturating<I64F64> {
    Saturating(I64F64::from_bits(i128::MIN))
}

fn umax() -> Saturating<U64F64> {
    Saturating(U64F64::from_bits(u128::MAX))
}

#[test]
fn sqrt_u256_rounds_down() {
    assert_eq!(sqrt_u256(U256 { lo: 0, hi: 0 }), 0);
    assert_eq!(sqrt_u256(U256 { lo: 1, hi: 0 }), 1);
    assert_eq!(sqrt_u256(U256 { lo: 3, hi: 0 }), 1);
    assert_eq!(sqrt_u256(U256 { lo: 4, hi: 0 }), 2);
    assert_eq!(sqrt_u256(U256 { lo: 99, hi: 0 }), 9);
    assert_eq!(sqrt_u256(U256 { lo: 100, hi: 0 }), 10);
    assert_eq!(sqrt_u256(U256 { lo: 0, hi: 1 }), 1 << 64);
    assert_eq!(sqrt_u256(U256 { lo: u128::MAX, hi: 0 }), (1 << 64) - 1);
    assert_eq!(sqrt_u256(U256 { lo: u128::MAX, hi: u128::MAX }), u128::MAX);
    assert_eq!(sqrt_u256(U256 { lo: 1, hi: u128::MAX - 1 }), u128::MAX);
    assert_eq!(sqrt_u256(U256 { lo: 0, hi: u128::MAX - 1 }), u128::MAX - 1);
    assert_eq!(sqrt_u256(U256 { lo: 0, hi: 2 }), 0x1_6A09_E667_F3BC_C908);
}

#[test]
fn sqrt_of_fixed_numbers() {
    assert_eq!(si(16).sqrt(), si(8));
    assert_eq!(si(1).sqrt(), si(2));
    assert_eq!(si(0).sqrt(), si(0));
    assert_eq!(si(8).sqrt().to_bits(), 0x1_6A09_E667_F3BC_C908);
    assert_eq!(su(8).sqrt().to_bits(), 0x1_6A09_E667_F3BC_C908);
    assert_eq!(su(16).sqrt(), su(8));
    assert_eq!(smax().sqrt().to_bits(), 0xB504_F333_F9DE_6484_597D_89B3);
    assert_eq!(umax().sqrt().to_bits(), 0xFFFF_FFFF_FFFF_FFFF_FFFF_FFFF);
    assert_eq!(Saturating(I128F0::from_bits(99)).sqrt().to_bits(), 9);
    assert_eq!(Saturating(U128F0::from_bits(u128::MAX)).sqrt().to_bits(), u64::MAX as u128);
}

#[test]
fn sqrt_saturates_without_integer_bits() {
    assert_eq!(Saturating(I0F128::from_bits(1 << 124)).sqrt().to_bits(), 1 << 126);
    assert_eq!(Saturating(I0F128::from_bits(1 << 126)).sqrt().to_bits(), i128::MAX);
    assert_eq!(Saturating(I0F128::from_bits((1 << 126) - 1)).sqrt().to_bits(), i128::MAX - 1);
    assert_eq!(Saturating(U0F128::from_bits(1 << 126)).sqrt().to_bits(), 1 << 127);
    assert_eq!(Saturating(U0F128::from_bits(u128::MAX)).sqrt().to_bits(), u128::MAX);
}

#[test]
fn hypot_of_fixed_numbers() {
    assert_eq!(si(12).hypot(si(16)), si(20));
    assert_eq!(si(-12).hypot(si(16)), si(20));
    assert_eq!(si(-12).hypot(si(-16)), si(20));
    assert_eq!(si(0).hypot(si(-16)), si(16));
    assert_eq!(si(4).hypot(si(4)).to_bits(), 0x1_6A09_E667_F3BC_C908);
    assert_eq!(su(12).hypot(su(16)), su(20));
    assert_eq!(su(0).hypot(su(0)), su(0));
}

#[test]
fn hypot_saturates() {
    let a = Saturating(I8F120::from_bits(88 << 120));
    let b = Saturating(I8F120::from_bits(105 << 120));
    assert_eq!(a.hypot(b).to_bits(), i128::MAX);
    let a = Saturating(I8F120::from_bits(3 << 120));
    let b = Saturating(I8F120::from_bits(4 << 120));
    assert_eq!(a.hypot(b).to_bits(), 5 << 120);
    assert_eq!(smax().hypot(smax()), smax());
    assert_eq!(smin().hypot(si(0)), smax());
    assert_eq!(smin().hypot(smin()), smax());
    assert_eq!(smax().hypot(si(0)), smax());
    assert_eq!(umax().hypot(umax()), umax());
    assert_eq!(umax().hypot(su(0)), umax());
    assert_eq!(umax().hypot(Saturating(U64F64::from_bits(1))), umax());
}

#[test]
fn lerp_between_two_numbers() {
    assert_eq!(si(2).lerp(si(0), smax()).to_bits(), i128::MAX >> 1);
    assert_eq!(si(6).lerp(si(0), smax()), smax());
    assert_eq!(si(0).lerp(si(12), si(40)), si(12));
    assert_eq!(si(4).lerp(si(12), si(40)), si(40));
    assert_eq!(si(1).lerp(si(12), si(40)), si(19));
    assert_eq!(si(1).lerp(si(40), si(12)), si(33));
    assert_eq!(si(-1).lerp(si(12), si(40)), si(5));
    assert_eq!(si(8).lerp(si(12), si(40)), si(68));
    assert_eq!(si(4).lerp(smin(), smax()), smax());
    assert_eq!(si(4).lerp(smax(), smin()), smin());
    assert_eq!(si(2).lerp(smin(), smax()).to_bits(), -1);
    assert_eq!(si(8).lerp(smin(), smax()), smax());
    assert_eq!(si(-4).lerp(smin(), smax()), smin());
    assert_eq!(smin().lerp(smin(), smax()), smin());
    assert_eq!(smin().lerp(smax(), smin()), smax());
    assert_eq!(su(2).lerp(su(0), umax()).to_bits(), u128::MAX >> 1);
    assert_eq!(su(6).lerp(su(0), umax()), umax());
    assert_eq!(su(1).lerp(su(12), su(40)), su(19));
    assert_eq!(su(1).lerp(su(40), su(12)), su(33));
    assert_eq!(su(8).lerp(su(40), su(12)), su(0));
    assert_eq!(su(4).lerp(umax(), su(0)), su(0));
    assert_eq!(umax().lerp(umax(), su(0)), su(0));
    assert_eq!(umax().lerp(su(0), umax()), umax());
}

#[test]
fn lerp_rounds_the_product_down() {
    let step = Saturating(I64F64::from_bits(1));
    let minus_step = Saturating(I64F64::from_bits(-1));
    assert_eq!(step.lerp(si(0), step), si(0));
    assert_eq!(step.lerp(si(0), minus_step), minus_step);
    assert_eq!(minus_step.lerp(si(0), step), minus_step);
    assert_eq!(minus_step.lerp(si(0), minus_step), si(0));
    assert_eq!(step.lerp(si(4), si(0)).to_bits(), 4 * (ONE / 4) - 1);
    let ustep = Saturating(U64F64::from_bits(1));
    assert_eq!(ustep.lerp(su(0), ustep), su(0));
    assert_eq!(ustep.lerp(ustep, su(0)), su(0));
    assert_eq!(ustep.lerp(su(4), su(0)).to_bits(), 4 * (UONE / 4) - 1);
    assert_eq!(su(2).lerp(ustep, su(0)), su(0));
    let half = Saturating(I0F128::from_bits(1 << 126));
    let max = Saturating(I0F128::from_bits(i128::MAX));
    let min = Saturating(I0F128::from_bits(i128::MIN));
    assert_eq!(half.lerp(min, max).to_bits(), i128::MIN + (u128::MAX >> 2) as i128);
    let all = Saturating(U0F128::from_bits(u128::MAX));
    let none = Saturating(U0F128::from_bits(0));
    assert_eq!(all.lerp(none, all).to_bits(), u128::MAX - 1);
    assert_eq!(all.lerp(all, none).to_bits(), 0);
    let whole = Saturating(I128F0::from_bits(3));
    let from = Saturating(I128F0::from_bits(10));
    let to = Saturating(I128F0::from_bits(8));
    assert_eq!(whole.lerp(from, to).to_bits(), 4);
}

#[test]
fn inv_lerp_between_two_numbers() {
    assert_eq!(si(100).inv_lerp(si(80), si(160)), si(1));
    assert_eq!(si(60).inv_lerp(si(80), si(160)), si(-1));
    assert_eq!(si(80).inv_lerp(si(80), si(160)), si(0));
    assert_eq!(si(160).inv_lerp(si(80), si(160)), si(4));
    assert_eq!(si(100).inv_lerp(si(160), si(80)), si(3));
    assert_eq!(si(180).inv_lerp(si(160), si(80)), si(-1));
    assert_eq!(su(100).inv_lerp(su(80), su(160)), su(1));
    assert_eq!(su(60).inv_lerp(su(80), su(160)), su(0));
    assert_eq!(su(100).inv_lerp(su(160), su(80)), su(3));
    assert_eq!(su(180).inv_lerp(su(160), su(80)), su(0));
}

#[test]
fn inv_lerp_rounds_towards_zero_and_saturates() {
    assert_eq!(si(1).inv_lerp(si(0), si(3)).to_bits(), 0x5555_5555_5555_5555);
    assert_eq!(si(-1).inv_lerp(si(0), si(3)).to_bits(), -0x5555_5555_5555_5555);
    assert_eq!(si(1).inv_lerp(si(0), si(-3)).to_bits(), -0x5555_5555_5555_5555);
    assert_eq!(su(1).inv_lerp(su(0), su(3)).to_bits(), 0x5555_5555_5555_5555);
    let step = Saturating(I64F64::from_bits(1));
    assert_eq!(smax().inv_lerp(si(0), step), smax());
    assert_eq!(smin().inv_lerp(si(0), step), smin());
    assert_eq!(smax().inv_lerp(smin(), Saturating(I64F64::from_bits(i128::MIN + 1))), smax());
    assert_eq!(smax().inv_lerp(smin(), smax()), si(4));
    assert_eq!(smin().inv_lerp(smax(), smin()), si(4));
    assert_eq!(smin().inv_lerp(smin(), smax()), si(0));
    assert_eq!(umax().inv_lerp(su(0), Saturating(U64F64::from_bits(1))), umax());
    assert_eq!(umax().inv_lerp(su(0), umax()), su(4));
    let max = Saturating(I0F128::from_bits(i128::MAX));
    let min = Saturating(I0F128::from_bits(i128::MIN));
    assert_eq!(max.inv_lerp(min, max).to_bits(), i128::MAX);
    assert_eq!(min.inv_lerp(max, min).to_bits(), i128::MAX);
    assert_eq!(min.inv_lerp(min, max).to_bits(), 0);
    let zero = Saturating(I0F128::from_bits(0));
    assert_eq!(min.inv_lerp(zero, max).to_bits(), i128::MIN);
}
