use expression_parser::number::{from_int, truncate, ZERO};

#[test]
fn zero_is_positive_zero() {
    assert_eq!(ZERO, 0.0f64.to_bits());
    assert_eq!(from_int(0), 0.0f64.to_bits());
}

#[test]
fn truncate_agrees_with_the_cast_on_chosen_numbers() {
    let cases = [
        0.0,
        -0.0,
        0.5,
        -0.5,
        0.999999999999,
        1.0,
        -1.0,
        1.5,
        -1.5,
        2.9,
        -2.9,
        3.0,
        1e10,
        -1e10,
        4503599627370495.5,
        4503599627370496.0,
        9007199254740991.0,
        9007199254740992.0,
        9007199254740994.0,
        9223372036854774784.0,
        9223372036854775807.0,
        9223372036854775808.0,
        -9223372036854775808.0,
        -9223372036854777856.0,
        1e19,
        -1e19,
        1e300,
        -1e300,
        f64::MAX,
        f64::MIN,
        f64::MIN_POSITIVE,
        5e-324,
        f64::INFINITY,
        f64::NEG_INFINITY,
        f64::NAN,
        -f64::NAN,
    ];
    for x in cases {
        assert_eq!(truncate(x.to_bits()), x as i64, "{}", x);
    }
}

#[test]
fn truncate_gives_exact_values() {
    assert_eq!(truncate(2.9f64.to_bits()), 2);
    assert_eq!(truncate((-2.9f64).to_bits()), -2);
    assert_eq!(truncate(f64::NAN.to_bits()), 0);
    assert_eq!(truncate(f64::INFINITY.to_bits()), i64::MAX);
    assert_eq!(truncate(f64::NEG_INFINITY.to_bits()), i64::MIN);
    assert_eq!(truncate(0x7ff0_0000_0000_0001), 0);
    assert_eq!(truncate(0xfff8_0000_0000_0000), 0);
}

#[test]
fn from_int_agrees_with_the_cast_on_chosen_integers() {
    let mut cases: Vec<i64> = vec![
        0,
        1,
        -1,
        2,
        3,
        -7,
        1000,
        i64::MAX,
        i64::MIN,
        i64::MAX - 1,
        i64::MIN + 1,
        i64::MAX - 511,
        i64::MAX - 512,
        i64::MAX - 513,
        i64::MAX - 1023,
        i64::MAX - 1024,
    ];
    for k in 50..63 {
        let p = 1i64 << k;
        for d in -5..=5 {
            cases.push(p + d);
            cases.push(-(p + d));
        }
        cases.push(p + (p >> 53));
        cases.push(p + (p >> 54));
        cases.push(p + (p >> 53) + 1);
        cases.push(p + 3 * (p >> 54));
    }
    for i in cases {
        assert_eq!(from_int(i), (i as f64).to_bits(), "{}", i);
    }
}

#[test]
fn from_int_rounds_ties_to_even() {
    assert_eq!(from_int(9007199254740993), 9007199254740992.0f64.to_bits());
    assert_eq!(from_int(9007199254740995), 9007199254740996.0f64.to_bits());
    assert_eq!(from_int(9007199254740994), 9007199254740994.0f64.to_bits());
    assert_eq!(from_int(-9007199254740993), (-9007199254740992.0f64).to_bits());
    assert_eq!(from_int(i64::MAX), 9223372036854775808.0f64.to_bits());
    assert_eq!(from_int(5), 0x4014_0000_0000_0000);
}

#[test]
fn conversions_agree_with_the_casts_on_many_values() {
    let mut state: u64 = 0x9e37_79b9_7f4a_7c15;
    for _ in 0..200_000 {
        state = state.wrapping_mul(6364136223846793005).wrapping_add(1442695040888963407);
        let bits = state ^ (state >> 29);
        assert_eq!(truncate(bits), f64::from_bits(bits) as i64, "{:#x}", bits);
        let i = bits as i64 >> (bits % 64);
        assert_eq!(from_int(i), (i as f64).to_bits(), "{}", i);
    }
}

#[test]
fn integers_of_53_bits_go_there_and_back() {
    for i in [0i64, 1, -1, 42, -42, (1 << 53) - 1, -((1 << 53) - 1), 1 << 52, 123456789012345] {
        assert_eq!(truncate(from_int(i)), i);
    }
}
