use fixed::saturating::Saturating;
use fixed::signed::FixedI128;
use fixed::traits::Fixed;
use fixed::unsigned::FixedU128;

type I64F64 = FixedI128<64>;
type U64F64 = FixedU128<64>;
type I0F128 = FixedI128<128>;

const ONE: i128 = 1 << 64;
const UONE: u128 = 1 << 64;

fn si(quarters: i128) -> Saturating<I64F64> {
    Saturating(I64F64::from_bits(quarters * (ONE / 4)))
}

fn su(quarters: u128) -> Saturating<U64F64> {
    Saturating(U64F64::from_bits(quarters * (UONE / 4)))
}

fn smax() -> Saturating<I64F64> {
    Saturating(I64F64::from_bits(i128::MAX))
}

fn smin() -> Saturating<I64F64> {
    Saturating(I64F64::from_bits(i128::MIN))
}

fn umax() -> Saturating<U64F64> {
    Saturating(U64F64::from_bits(u128::MAX))
}

#[test]
fn addition_saturates() {
    assert_eq!(si(5) + si(7), si(12));
    assert_eq!(smax() + Saturating(I64F64::from_bits(1)), smax());
    assert_eq!(smin() + Saturating(I64F64::from_bits(-1)), smin());
    assert_eq!(smax() + smin(), Saturating(I64F64::from_bits(-1)));
    assert_eq!(su(5) + su(7), su(12));
    assert_eq!(umax() + su(1), umax());
}

#[test]
fn subtraction_saturates() {
    assert_eq!(si(5) - si(7), si(-2));
    assert_eq!(smin() - Saturating(I64F64::from_bits(1)), smin());
    assert_eq!(smax() - Saturating(I64F64::from_bits(-1)), smax());
    assert_eq!(si(0) - smin(), smax());
    assert_eq!(su(7) - su(5), su(2));
    assert_eq!(su(5) - su(7), su(0));
}

#[test]
fn multiplication_saturates_and_rounds_down() {
    assert_eq!(si(6) * si(10), si(15));
    assert_eq!(si(-6) * si(10), si(-15));
    assert_eq!(smax() * si(8), smax());
    assert_eq!(smax() * si(-8), smin());
    assert_eq!(smin() * smin(), smax());
    assert_eq!(smin() * si(4), smin());
    assert_eq!(smin() * si(-4), smax());
    let step = Saturating(I64F64::from_bits(1));
    assert_eq!(step * si(2), si(0));
    let minus_step = Saturating(I64F64::from_bits(-1));
    assert_eq!(minus_step * si(2), minus_step);
    assert_eq!(su(6) * su(10), su(15));
    assert_eq!(umax() * su(8), umax());
    assert_eq!(umax() * su(2).mean(su(2)), Saturating(U64F64::from_bits(u128::MAX >> 1)));
    let half = Saturating(I0F128::from_bits(i128::MIN));
    assert_eq!((half * half).to_bits(), 1 << 126);
}

#[test]
fn division_saturates_and_rounds_towards_zero() {
    assert_eq!(si(15) / si(10), si(6));
    assert_eq!(si(-15) / si(10), si(-6));
    assert_eq!((si(4) / si(12)).to_bits(), 0x5555_5555_5555_5555);
    assert_eq!((si(-4) / si(12)).to_bits(), -0x5555_5555_5555_5555);
    assert_eq!(smax() / si(1), smax());
    assert_eq!(smin() / si(1), smin());
    assert_eq!(smin() / si(-4), smax());
    assert_eq!(smin() / si(4), smin());
    assert_eq!(su(15) / su(10), su(6));
    assert_eq!(umax() / su(1), umax());
    assert_eq!(su(1) / umax(), su(0));
}

#[test]
fn negation_saturates() {
    assert_eq!(-si(5), si(-5));
    assert_eq!(-si(-5), si(5));
    assert_eq!(-smin(), smax());
    assert_eq!((-smax()).to_bits(), i128::MIN + 1);
    assert_eq!(-su(5), su(0));
    assert_eq!(-su(0), su(0));
}

#[test]
fn wrapping_a_number() {
    let x = I64F64::from_bits(77);
    assert_eq!(Saturating::from(x), Saturating(x));
    let s: Saturating<I64F64> = x.into();
    assert_eq!(s.0, x);
}

#[test]
fn remainder_has_the_sign_of_the_dividend() {
    assert_eq!(si(30) % si(8), si(6));
    assert_eq!(si(-30) % si(8), si(-6));
    assert_eq!(si(30) % si(-8), si(6));
    assert_eq!(si(-30) % si(-8), si(-6));
    assert_eq!(si(-32) % si(8), si(0));
    assert_eq!(smin() % Saturating(I64F64::from_bits(-1)), si(0));
    assert_eq!(smin() % smax(), Saturating(I64F64::from_bits(-1)));
    assert_eq!(smax() % smin(), smax());
    assert_eq!(smin() % smin(), si(0));
    assert_eq!(su(30) % su(8), su(6));
    assert_eq!(umax() % su(1).mean(su(0)), Saturating(U64F64::from_bits((1 << 61) - 1)));
}

#[test]
fn sum_adds_from_the_first_on() {
    assert_eq!(Saturating::<I64F64>::sum(&[]), si(0));
    assert_eq!(Saturating::sum(&[si(5)]), si(5));
    assert_eq!(Saturating::sum(&[si(5), si(-7), si(12)]), si(10));
    // the sum stops at the bound and leaves it again
    assert_eq!(Saturating::sum(&[smax(), si(4), si(-4)]).to_bits(), i128::MAX - ONE);
    assert_eq!(Saturating::sum(&[si(-4), smax(), si(4)]), smax());
    assert_eq!(Saturating::sum(&[smin(), smin(), smax()]).to_bits(), -1);
    assert_eq!(Saturating::<U64F64>::sum(&[]), su(0));
    assert_eq!(Saturating::sum(&[su(5), umax(), su(1)]), umax());
}

#[test]
fn product_multiplies_from_the_first_on() {
    assert_eq!(Saturating::<I64F64>::product(&[]), si(4));
    assert_eq!(Saturating::<U64F64>::product(&[]), su(4));
    assert_eq!(Saturating::<I0F128>::product(&[]).to_bits(), i128::MAX);
    assert_eq!(Saturating::product(&[si(6)]), si(6));
    assert_eq!(Saturating::product(&[si(6), si(10)]), si(15));
    assert_eq!(Saturating::product(&[si(6), si(-10), si(2)]).to_bits(), -15 * ONE / 8);
    assert_eq!(Saturating::product(&[smax(), si(8), si(2)]).to_bits(), i128::MAX >> 1);
    assert_eq!(Saturating::product(&[smax(), si(-8), si(0)]), si(0));
    assert_eq!(Saturating::product(&[su(6), su(10)]), su(15));
}
