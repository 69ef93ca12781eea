use gdu_diff::double::Double;

fn value(x: Double) -> f64 {
    let magnitude = x.significand as f64 * 2f64.powi(x.exponent);
    if x.negative { -magnitude } else { magnitude }
}

fn number(x: f64) -> Double {
    let bits = x.abs().to_bits();
    let exponent = (bits >> 52) as i32;
    assert!(x == 0.0 || (exponent > 0 && exponent < 2047));
    if x == 0.0 {
        return Double::zero();
    }
    Double {
        negative: x < 0.0,
        significand: (bits & ((1 << 52) - 1)) | (1 << 52),
        exponent: exponent - 1075,
    }
}

fn samples() -> Vec<f64> {
    let mut all = vec![
        0.0,
        1.0,
        -1.0,
        0.5,
        0.1,
        0.3,
        1.0 / 3.0,
        2.0 / 3.0,
        100.0,
        1e-30,
        -1e-30,
        1e30,
        9007199254740991.0,
        9007199254740993.0,
        0.9999999999999999,
        1.0000000000000002,
        3.0e-17,
        -7.25,
        1e15 + 0.3,
    ];
    let mut seed: u64 = 0x1234_5678_9abc_def1;
    for _ in 0..60 {
        seed = seed.wrapping_mul(6364136223846793005).wrapping_add(1442695040888963407);
        let sign = if seed & 1 == 0 { 1.0 } else { -1.0 };
        let scale = 2f64.powi(((seed >> 8) % 120) as i32 - 60);
        all.push(sign * ((seed >> 11) as f64) * scale);
    }
    all
}

#[test]
fn sums_differences_and_products_are_rounded_like_the_machine_does() {
    for a in samples() {
        for b in samples() {
            let (x, y) = (number(a), number(b));
            assert_eq!(value(x.plus(y)), a + b, "{a} + {b}");
            assert_eq!(value(x.minus(y)), a - b, "{a} - {b}");
            assert_eq!(value(x.times(y)), a * b, "{a} * {b}");
            if b != 0.0 {
                assert_eq!(value(x.divided_by(y)), a / b, "{a} / {b}");
            }
            assert_eq!(x.less_than(y), a < b, "{a} < {b}");
            assert_eq!(x.magnitude_less_than(y), a.abs() < b.abs(), "|{a}| < |{b}|");
        }
    }
}

#[test]
fn integers_are_rounded_to_even() {
    for n in [
        0,
        1,
        2,
        3,
        100,
        1023,
        1024,
        (1 << 53) - 1,
        1 << 53,
        (1 << 53) + 1,
        (1 << 53) + 2,
        (1 << 53) + 3,
        (1 << 54) + 2,
        (1 << 54) + 6,
        u64::MAX,
        u64::MAX - 1023,
        u64::MAX - 1024,
    ] {
        assert_eq!(value(Double::from_u64(n)), n as f64, "{n}");
    }
}

#[test]
fn zero_has_no_sign() {
    let one = Double::one();
    assert_eq!(one.minus(one), Double::zero());
    assert_eq!(one.negated().plus(one), Double::zero());
    assert_eq!(Double::zero().negated(), Double::zero());
    assert_eq!(value(one.negated()), -1.0);
}
