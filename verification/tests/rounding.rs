use fixed::saturating::Saturating;
use fixed::signed::FixedI128;
use fixed::traits::Fixed;
use fixed::unsigned::FixedU128;

type I64F64 = FixedI128<64>;
type U64F64 = FixedU128<64>;
type I1F127 = FixedI128<127>;
type I0F128 = FixedI128<128>;
type U0F128 = FixedU128<128>;
type I128F0 = FixedI128<0>;
type U128F0 = FixedU128<0>;

const ONE: i128 = 1 << 64;
const UONE: u128 = 1 << 64;

/// `tenths / 10`, rounded down to a step, as a signed number with 64 fractional bits.
fn si(tenths: i128) -> Saturating<I64F64> {
    Saturating(I64F64::from_bits((tenths * ONE).div_euclid(10)))
}

fn su(tenths: u128) -> Saturating<U64F64> {
    Saturating(U64F64::from_bits(tenths * UONE / 10))
}

fn whole(n: i128) -> Saturating<I64F64> {
    Saturating(I64F64::from_bits(n * ONE))
}

fn uwhole(n: u128) -> Saturating<U64F64> {
    Saturating(U64F64::from_bits(n * UONE))
}

fn smax() -> Saturating<I64F64> {
    Saturating(I64F64::from_bits(i128::MAX))
}

fn smin() -> Saturating<I64F64> {
    Saturating(I64F64::from_bits(i128::MIN))
}

fn umax() -> Saturating<U64F64> {
    Saturating(U64F64::from_bits(u128::MAX))
}

#[test]
fn round_to_zero_drops_the_fraction() {
    assert_eq!(si(39).round_to_zero(), whole(3));
    assert_eq!(si(-39).round_to_zero(), whole(-3));
    assert_eq!(whole(-3).round_to_zero(), whole(-3));
    assert_eq!(whole(3).round_to_zero(), whole(3));
    assert_eq!(si(-1).round_to_zero(), whole(0));
    assert_eq!(smax().round_to_zero(), whole(i128::MAX >> 64));
    assert_eq!(smin().round_to_zero(), smin());
    assert_eq!(Saturating(I64F64::from_bits(i128::MIN + 1)).round_to_zero().to_bits(), i128::MIN + ONE);
    assert_eq!(su(39).round_to_zero(), uwhole(3));
    assert_eq!(umax().round_to_zero(), uwhole(u128::MAX >> 64));
}

#[test]
fn round_to_zero_at_the_ends_of_the_fraction_width() {
    assert_eq!(Saturating(I0F128::from_bits(-5)).round_to_zero().to_bits(), 0);
    assert_eq!(Saturating(I0F128::from_bits(i128::MIN)).round_to_zero().to_bits(), 0);
    assert_eq!(Saturating(I0F128::from_bits(i128::MAX)).round_to_zero().to_bits(), 0);
    assert_eq!(Saturating(U0F128::from_bits(u128::MAX)).round_to_zero().to_bits(), 0);
    assert_eq!(Saturating(I1F127::from_bits(-5)).round_to_zero().to_bits(), 0);
    assert_eq!(Saturating(I1F127::from_bits(i128::MIN)).round_to_zero().to_bits(), i128::MIN);
    assert_eq!(Saturating(I128F0::from_bits(-5)).round_to_zero().to_bits(), -5);
    assert_eq!(Saturating(U128F0::from_bits(5)).round_to_zero().to_bits(), 5);
}

#[test]
fn ceil_rounds_up_and_saturates() {
    assert_eq!(si(25).ceil(), whole(3));
    assert_eq!(si(-25).ceil(), whole(-2));
    assert_eq!(whole(3).ceil(), whole(3));
    assert_eq!(smax().ceil(), smax());
    assert_eq!(smin().ceil(), smin());
    assert_eq!(Saturating(I64F64::from_bits(1)).ceil(), whole(1));
    assert_eq!(Saturating(I64F64::from_bits(-1)).ceil(), whole(0));
    assert_eq!(su(25).ceil(), uwhole(3));
    assert_eq!(umax().ceil(), umax());
    assert_eq!(uwhole(u128::MAX >> 64).ceil(), uwhole(u128::MAX >> 64));
    assert_eq!(Saturating(I0F128::from_bits(1)).ceil().to_bits(), i128::MAX);
    assert_eq!(Saturating(I0F128::from_bits(0)).ceil().to_bits(), 0);
    assert_eq!(Saturating(I0F128::from_bits(-1)).ceil().to_bits(), 0);
    assert_eq!(Saturating(U0F128::from_bits(1)).ceil().to_bits(), u128::MAX);
    assert_eq!(Saturating(U0F128::from_bits(0)).ceil().to_bits(), 0);
    assert_eq!(Saturating(I1F127::from_bits(1)).ceil().to_bits(), i128::MAX);
    assert_eq!(Saturating(I1F127::from_bits(-1)).ceil().to_bits(), 0);
    assert_eq!(Saturating(I128F0::from_bits(i128::MAX)).ceil().to_bits(), i128::MAX);
}

#[test]
fn floor_rounds_down_and_saturates() {
    assert_eq!(si(25).floor(), whole(2));
    assert_eq!(si(-25).floor(), whole(-3));
    assert_eq!(whole(-3).floor(), whole(-3));
    assert_eq!(smin().floor(), smin());
    assert_eq!(smax().floor(), whole(i128::MAX >> 64));
    assert_eq!(su(25).floor(), uwhole(2));
    assert_eq!(Saturating(I0F128::from_bits(i128::MIN)).floor().to_bits(), i128::MIN);
    assert_eq!(Saturating(I0F128::from_bits(-1)).floor().to_bits(), i128::MIN);
    assert_eq!(Saturating(I0F128::from_bits(1)).floor().to_bits(), 0);
    assert_eq!(Saturating(I0F128::from_bits(0)).floor().to_bits(), 0);
    assert_eq!(Saturating(U0F128::from_bits(u128::MAX)).floor().to_bits(), 0);
    assert_eq!(Saturating(I1F127::from_bits(-1)).floor().to_bits(), i128::MIN);
    assert_eq!(Saturating(I1F127::from_bits(i128::MAX)).floor().to_bits(), 0);
    assert_eq!(Saturating(I128F0::from_bits(-7)).floor().to_bits(), -7);
}

#[test]
fn round_breaks_ties_away_from_zero() {
    assert_eq!(si(25).round(), whole(3));
    assert_eq!(si(-25).round(), whole(-3));
    assert_eq!(si(24).round(), whole(2));
    assert_eq!(si(-24).round(), whole(-2));
    assert_eq!(si(35).round(), whole(4));
    assert_eq!(whole(7).round(), whole(7));
    assert_eq!(smax().round(), smax());
    assert_eq!(smin().round(), smin());
    assert_eq!(Saturating(I64F64::from_bits(i128::MIN + ONE / 2)).round(), smin());
    assert_eq!(Saturating(I64F64::from_bits(i128::MIN + ONE / 2 + 1)).round().to_bits(), i128::MIN + ONE);
    assert_eq!(su(25).round(), uwhole(3));
    assert_eq!(su(24).round(), uwhole(2));
    assert_eq!(umax().round(), umax());
    assert_eq!(Saturating(I0F128::from_bits(i128::MAX)).round().to_bits(), 0);
    assert_eq!(Saturating(I0F128::from_bits(i128::MIN)).round().to_bits(), i128::MIN);
    assert_eq!(Saturating(I0F128::from_bits(i128::MIN + 1)).round().to_bits(), 0);
    assert_eq!(Saturating(U0F128::from_bits(1 << 127)).round().to_bits(), u128::MAX);
    assert_eq!(Saturating(U0F128::from_bits((1 << 127) - 1)).round().to_bits(), 0);
    assert_eq!(Saturating(I1F127::from_bits(1 << 126)).round().to_bits(), i128::MAX);
    assert_eq!(Saturating(I1F127::from_bits((1 << 126) - 1)).round().to_bits(), 0);
    assert_eq!(Saturating(I1F127::from_bits(-(1 << 126))).round().to_bits(), i128::MIN);
    assert_eq!(Saturating(I1F127::from_bits(-(1 << 126) + 1)).round().to_bits(), 0);
    assert_eq!(Saturating(I128F0::from_bits(-7)).round().to_bits(), -7);
}

#[test]
fn round_ties_even_breaks_ties_to_even() {
    assert_eq!(si(25).round_ties_even(), whole(2));
    assert_eq!(si(35).round_ties_even(), whole(4));
    assert_eq!(si(-25).round_ties_even(), whole(-2));
    assert_eq!(si(-35).round_ties_even(), whole(-4));
    assert_eq!(si(26).round_ties_even(), whole(3));
    assert_eq!(si(24).round_ties_even(), whole(2));
    assert_eq!(si(-26).round_ties_even(), whole(-3));
    assert_eq!(smax().round_ties_even(), smax());
    assert_eq!(smin().round_ties_even(), smin());
    assert_eq!(su(25).round_ties_even(), uwhole(2));
    assert_eq!(su(35).round_ties_even(), uwhole(4));
    assert_eq!(umax().round_ties_even(), umax());
    assert_eq!(si(25).round_ties_to_even(), whole(2));
    assert_eq!(si(35).round_ties_to_even(), whole(4));
    assert_eq!(Saturating(I0F128::from_bits(i128::MIN)).round_ties_even().to_bits(), 0);
    assert_eq!(Saturating(I0F128::from_bits(i128::MIN + 1)).round_ties_even().to_bits(), 0);
    assert_eq!(Saturating(I0F128::from_bits(i128::MAX)).round_ties_even().to_bits(), 0);
    assert_eq!(Saturating(U0F128::from_bits(1 << 127)).round_ties_even().to_bits(), 0);
    assert_eq!(Saturating(U0F128::from_bits((1 << 127) + 1)).round_ties_even().to_bits(), u128::MAX);
    assert_eq!(Saturating(I1F127::from_bits(1 << 126)).round_ties_even().to_bits(), 0);
    assert_eq!(Saturating(I1F127::from_bits((1 << 126) + 1)).round_ties_even().to_bits(), i128::MAX);
    assert_eq!(Saturating(I1F127::from_bits(-(1 << 126))).round_ties_even().to_bits(), 0);
    assert_eq!(Saturating(I1F127::from_bits(-(1 << 126) - 1)).round_ties_even().to_bits(), i128::MIN);
    assert_eq!(Saturating(I128F0::from_bits(-7)).round_ties_even().to_bits(), -7);
}
