use fixed::bits::{
    count_ones_u128, leading_zeros_u128, reverse_bits_u128, rotate_left_u128, swap_bytes_u128,
    trailing_zeros_u128,
};
use fixed::bytes::{from_ne_bytes_on, to_be_on, to_le_on, to_ne_bytes_on};
use fixed::saturating::Saturating;
use fixed::signed::FixedI128;
use fixed::traits::Fixed;
use fixed::unsigned::FixedU128;

type I64F64 = FixedI128<64>;
type U64F64 = FixedU128<64>;
type U124F4 = FixedU128<4>;
type I0F128 = FixedI128<128>;

fn patterns() -> Vec<u128> {
    let mut all = vec![
        0,
        1,
        2,
        3,
        0x00FF_FF00,
        0xFF00_00FF,
        0x1234_5678,
        0x0123_4567_89AB_CDEF_FEDC_BA98_7654_3210,
        1 << 64,
        (1 << 64) - 1,
        1 << 127,
        (1 << 127) - 1,
        u128::MAX - 1,
        u128::MAX,
    ];
    for shift in 0..128 {
        all.push(1 << shift);
        all.push(u128::MAX << shift);
        all.push(0xA5 << shift);
    }
    all
}

#[test]
fn bit_counts_match_the_integers() {
    for &p in &patterns() {
        assert_eq!(count_ones_u128(p), p.count_ones());
        assert_eq!(leading_zeros_u128(p), p.leading_zeros());
        assert_eq!(trailing_zeros_u128(p), p.trailing_zeros());
        let u = Saturating(U64F64::from_bits(p));
        assert_eq!(u.count_ones(), p.count_ones());
        assert_eq!(u.count_zeros(), p.count_zeros());
        assert_eq!(u.trailing_zeros(), p.trailing_zeros());
        assert_eq!(u.trailing_ones(), p.trailing_ones());
        let s = Saturating(I64F64::from_bits(p as i128));
        assert_eq!(s.count_ones(), p.count_ones());
        assert_eq!(s.count_zeros(), p.count_zeros());
        assert_eq!(s.trailing_zeros(), p.trailing_zeros());
        assert_eq!(s.trailing_ones(), p.trailing_ones());
    }
    assert_eq!(Saturating(U64F64::from_bits(0x00FF_FF00)).count_ones(), 16);
    assert_eq!(Saturating(U64F64::from_bits(0x00FF_FF00)).count_zeros(), 112);
    assert_eq!(Saturating(U64F64::from_bits(0x00FF_FF00)).trailing_zeros(), 8);
    assert_eq!(Saturating(U64F64::from_bits(0xFF00_00FF)).trailing_ones(), 8);
    assert_eq!(Saturating(U64F64::from_bits(0)).trailing_zeros(), 128);
    assert_eq!(Saturating(U64F64::from_bits(u128::MAX)).trailing_ones(), 128);
}

#[test]
fn reversals_match_the_integers() {
    for &p in &patterns() {
        assert_eq!(reverse_bits_u128(p), p.reverse_bits());
        assert_eq!(swap_bytes_u128(p), p.swap_bytes());
        let u = Saturating(U64F64::from_bits(p));
        assert_eq!(u.reverse_bits().to_bits(), p.reverse_bits());
        assert_eq!(u.swap_bytes().to_bits(), p.swap_bytes());
        let s = Saturating(I64F64::from_bits(p as i128));
        assert_eq!(s.reverse_bits().to_bits(), (p as i128).reverse_bits());
        assert_eq!(s.swap_bytes().to_bits(), (p as i128).swap_bytes());
    }
    let w = Saturating(U64F64::from_bits(0x1234_5678));
    assert_eq!(w.swap_bytes().to_bits(), 0x7856_3412 << 96);
    assert_eq!(w.reverse_bits().to_bits(), 0x1E6A_2C48 << 96);
}

#[test]
fn rotate_left_u128_wraps_the_count() {
    for &p in &patterns() {
        for n in [0u32, 1, 7, 64, 127, 128, 129, 1000] {
            assert_eq!(rotate_left_u128(p, n), p.rotate_left(n));
        }
    }
}

#[test]
fn int_log2_rounds_down() {
    let log = |bits: u128| Saturating(U124F4::from_bits(bits)).int_log2();
    assert_eq!(log(16), 0);
    assert_eq!(log(31), 0);
    assert_eq!(log(32), 1);
    assert_eq!(log(15), -1);
    assert_eq!(log(8), -1);
    assert_eq!(log(1), -4);
    assert_eq!(log(u128::MAX), 123);
    assert_eq!(Saturating(I64F64::from_bits(1)).int_log2(), -64);
    assert_eq!(Saturating(I64F64::from_bits(i128::MAX)).int_log2(), 62);
    assert_eq!(Saturating(I64F64::from_bits(5 << 63)).int_log2(), 1);
    assert_eq!(Saturating(I0F128::from_bits(1)).int_log2(), -128);
    assert_eq!(Saturating(I0F128::from_bits(i128::MAX)).int_log2(), -2);
}

#[test]
fn bytes_match_the_integers() {
    for &p in &patterns() {
        let u = Saturating(U64F64::from_bits(p));
        assert_eq!(u.to_be_bytes(), p.to_be_bytes());
        assert_eq!(u.to_le_bytes(), p.to_le_bytes());
        assert_eq!(Saturating::<U64F64>::from_be_bytes(p.to_be_bytes()), u);
        assert_eq!(Saturating::<U64F64>::from_le_bytes(p.to_le_bytes()), u);
        let s = Saturating(I64F64::from_bits(p as i128));
        assert_eq!(s.to_be_bytes(), p.to_be_bytes());
        assert_eq!(s.to_le_bytes(), p.to_le_bytes());
        assert_eq!(Saturating::<I64F64>::from_be_bytes(p.to_be_bytes()), s);
        assert_eq!(Saturating::<I64F64>::from_le_bytes(p.to_le_bytes()), s);
    }
}

#[test]
fn bytes_in_both_orders() {
    let mut be = [0u8; 16];
    be[12] = 0x12;
    be[13] = 0x34;
    be[14] = 0x56;
    be[15] = 0x78;
    let mut le = [0u8; 16];
    le[0] = 0x78;
    le[1] = 0x56;
    le[2] = 0x34;
    le[3] = 0x12;
    let w = Saturating::<I64F64>::from_bits(0x1234_5678);
    assert_eq!(Saturating::<I64F64>::from_be_bytes(be), w);
    assert_eq!(Saturating::<I64F64>::from_le_bytes(le), w);
    assert_eq!(w.to_be_bytes(), be);
    assert_eq!(w.to_le_bytes(), le);
    let minus_one = Saturating::<I64F64>::from_bits(-1);
    assert_eq!(minus_one.to_be_bytes(), [0xFF; 16]);
    assert_eq!(Saturating::<I64F64>::from_le_bytes([0xFF; 16]), minus_one);
}

#[test]
fn int_log10_rounds_down() {
    let log = |bits: u128| Saturating(U124F4::from_bits(bits)).int_log10();
    assert_eq!(log(16), 0);
    assert_eq!(log(159), 0);
    assert_eq!(log(160), 1);
    assert_eq!(log(1599), 1);
    assert_eq!(log(1600), 2);
    assert_eq!(log(16000), 3);
    assert_eq!(log(15999), 2);
    assert_eq!(log(15), -1);
    assert_eq!(log(2), -1);
    assert_eq!(log(1), -2);
    assert_eq!(log(u128::MAX), 37);
    assert_eq!(Saturating(U64F64::from_bits(u128::MAX)).int_log10(), 19);
    assert_eq!(Saturating(U64F64::from_bits(1)).int_log10(), -20);
    assert_eq!(Saturating(I64F64::from_bits(i128::MAX)).int_log10(), 18);
    assert_eq!(Saturating(I64F64::from_bits(1 << 64)).int_log10(), 0);
    assert_eq!(Saturating(I64F64::from_bits((1 << 64) - 1)).int_log10(), -1);
    assert_eq!(Saturating(I0F128::from_bits(1)).int_log10(), -39);
    assert_eq!(Saturating(I0F128::from_bits(i128::MAX)).int_log10(), -1);
    assert_eq!(Saturating(FixedU128::<128>::from_bits(u128::MAX)).int_log10(), -1);
    assert_eq!(Saturating(FixedU128::<0>::from_bits(u128::MAX)).int_log10(), 38);
    assert_eq!(Saturating(FixedU128::<0>::from_bits(1)).int_log10(), 0);
}

#[test]
fn int_log_to_any_base() {
    for &p in &patterns() {
        if p == 0 {
            continue;
        }
        let u = Saturating(U64F64::from_bits(p));
        assert_eq!(u.int_log(2), u.int_log2());
        assert_eq!(u.int_log(10), u.int_log10());
    }
    let log = |bits: u128, base: u32| Saturating(U124F4::from_bits(bits)).int_log(base);
    assert_eq!(log(16 * 27, 3), 3);
    assert_eq!(log(16 * 27 - 1, 3), 2);
    assert_eq!(log(16 * 80, 3), 3);
    assert_eq!(log(16 * 81, 3), 4);
    assert_eq!(log(5, 3), -2);
    assert_eq!(log(6, 3), -1);
    assert_eq!(log(1, 3), -3);
    assert_eq!(log(1, 16), -1);
    assert_eq!(log(1, 17), -1);
    assert_eq!(log(1, 15), -2);
    assert_eq!(log(u128::MAX, u32::MAX), 3);
    assert_eq!(log(1, u32::MAX), -1);
    assert_eq!(Saturating(I0F128::from_bits(1)).int_log(u32::MAX), -5);
    assert_eq!(Saturating(I0F128::from_bits(1)).int_log(2), -128);
}

#[test]
fn byte_order_of_this_machine() {
    for &p in &patterns() {
        let u = Saturating(U64F64::from_bits(p));
        assert_eq!(u.to_be().to_bits(), p.to_be());
        assert_eq!(u.to_le().to_bits(), p.to_le());
        assert_eq!(Saturating::from_be(u).to_bits(), u128::from_be(p));
        assert_eq!(Saturating::from_le(u).to_bits(), u128::from_le(p));
        assert_eq!(u.to_ne_bytes(), p.to_ne_bytes());
        assert_eq!(Saturating::<U64F64>::from_ne_bytes(p.to_ne_bytes()), u);
        let s = Saturating(I64F64::from_bits(p as i128));
        assert_eq!(s.to_be().to_bits(), (p as i128).to_be());
        assert_eq!(s.to_le().to_bits(), (p as i128).to_le());
        assert_eq!(Saturating::from_be(s).to_bits(), i128::from_be(p as i128));
        assert_eq!(Saturating::from_le(s).to_bits(), i128::from_le(p as i128));
        assert_eq!(s.to_ne_bytes(), p.to_ne_bytes());
        assert_eq!(Saturating::<I64F64>::from_ne_bytes(p.to_ne_bytes()), s);
    }
}

#[test]
fn byte_order_of_either_machine() {
    let x = 0x0102_0304_0506_0708_090A_0B0C_0D0E_0F10u128;
    assert_eq!(to_be_on(x, true), x.swap_bytes());
    assert_eq!(to_be_on(x, false), x);
    assert_eq!(to_le_on(x, true), x);
    assert_eq!(to_le_on(x, false), x.swap_bytes());
    assert_eq!(to_ne_bytes_on(x, true), x.to_le_bytes());
    assert_eq!(to_ne_bytes_on(x, false), x.to_be_bytes());
    assert_eq!(from_ne_bytes_on(x.to_le_bytes(), true), x);
    assert_eq!(from_ne_bytes_on(x.to_be_bytes(), false), x);
    assert_eq!(from_ne_bytes_on(x.to_be_bytes(), true), x.swap_bytes());
}
