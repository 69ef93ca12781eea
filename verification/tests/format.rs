use gdu_diff::double::Double;
use gdu_diff::format::{
    format_share_delta, format_signed_size, format_size, one_decimal_text, percent_text,
    whole_percent_text,
};

fn number(x: f64) -> Double {
    if x == 0.0 {
        return Double::zero();
    }
    let bits = x.abs().to_bits();
    Double {
        negative: x < 0.0,
        significand: (bits & ((1 << 52) - 1)) | (1 << 52),
        exponent: (bits >> 52) as i32 - 1075,
    }
}

fn native_size(size: u64) -> String {
    let units = ["B", "KiB", "MiB", "GiB", "TiB", "PiB"];
    let mut value = size as f64;
    let mut unit = 0;
    while value >= 1024.0 && unit + 1 < units.len() {
        value /= 1024.0;
        unit += 1;
    }
    if unit == 0 { format!("{size} B") } else { format!("{value:.1} {}", units[unit]) }
}

#[test]
fn sizes_have_units() {
    assert_eq!(format_size(0), "0 B");
    assert_eq!(format_size(1023), "1023 B");
    assert_eq!(format_size(1024), "1.0 KiB");
    assert_eq!(format_size(1536), "1.5 KiB");
    assert_eq!(format_size(1024 * 1024 - 1), "1024.0 KiB");
    assert_eq!(format_size(1024 * 1024), "1.0 MiB");
    assert_eq!(format_size(u64::MAX), "16384.0 PiB");
    let mut seed: u64 = 99;
    for _ in 0..3000 {
        seed = seed.wrapping_mul(6364136223846793005).wrapping_add(1442695040888963407);
        let size = seed >> (seed % 64);
        assert_eq!(format_size(size), native_size(size), "{size}");
    }
    for tie in 0..2000u64 {
        let size = 1024 + tie * 1024 / 20;
        assert_eq!(format_size(size), native_size(size), "{size}");
    }
}

#[test]
fn signed_sizes_have_a_sign() {
    assert_eq!(format_signed_size(0), "+0 B");
    assert_eq!(format_signed_size(2048), "+2.0 KiB");
    assert_eq!(format_signed_size(-2048), "-2.0 KiB");
    assert_eq!(format_signed_size(i64::MIN), "-8192.0 PiB");
}

#[test]
fn shares_are_shown_in_percent() {
    let cases = [
        0.0, 1.0, 0.5, 1.0 / 3.0, 2.0 / 3.0, 0.0005, 0.0015, 0.0025, 0.99949999, 0.9995, 0.12345,
        1e-9, 0.1, 0.875, 12.5, 1e17, 3.3e20, 1.5e34, 7.7e120, 1.3e300, 1.7e306, 1.8e306,
        f64::MAX, f64::MIN_POSITIVE,
    ];
    for x in cases {
        assert_eq!(percent_text(number(x)), format!("{:.1}%", x * 100.0), "{x}");
        assert_eq!(whole_percent_text(number(x)), format!("{:.0}%", x * 100.0), "{x}");
        assert_eq!(format_share_delta(number(x)), format!("{:+.1}pp", x * 100.0), "{x}");
        if x != 0.0 {
            assert_eq!(format_share_delta(number(-x)), format!("{:+.1}pp", -x * 100.0), "-{x}");
            assert_eq!(percent_text(number(-x)), format!("{:.1}%", -x * 100.0), "-{x}");
            assert_eq!(whole_percent_text(number(-x)), format!("{:.0}%", -x * 100.0), "-{x}");
        }
    }
    assert_eq!(percent_text(number(-0.5)), "-50.0%");
    assert_eq!(percent_text(number(f64::MAX)), "inf%");
    assert_eq!(format_share_delta(number(0.0)), "+0.0pp");
    assert_eq!(format_share_delta(number(-0.00001)), "-0.0pp");
    for i in 0..4000u32 {
        let x = i as f64 / 1999.0;
        assert_eq!(percent_text(number(x)), format!("{:.1}%", x * 100.0), "{x}");
    }
}

#[test]
fn ties_go_to_the_even_digit() {
    for i in 0..64u32 {
        let x = i as f64 / 16.0;
        assert_eq!(one_decimal_text(number(x)), format!("{x:.1}"), "{x}");
        let y = i as f64 * 0.25;
        assert_eq!(one_decimal_text(number(y)), format!("{y:.1}"), "{y}");
    }
    assert_eq!(one_decimal_text(number(0.25)), "0.2");
    assert_eq!(one_decimal_text(number(0.75)), "0.8");
}
