use pdfplumber::float::convert::Single;
use pdfplumber::float::Float;

fn f(v: f64) -> Float {
    Float { bits: v.to_bits() }
}

fn same(a: Float, b: f64) -> bool {
    if b.is_nan() {
        a.is_nan()
    } else {
        a.bits == b.to_bits()
    }
}

fn samples() -> Vec<f64> {
    let mut out: Vec<f64> = vec![
        0.0,
        -0.0,
        1.0,
        -1.0,
        0.5,
        0.1,
        0.2,
        0.3,
        1.0e300,
        -1.0e300,
        1.0e-300,
        5.0e-324,
        -5.0e-324,
        2.2250738585072014e-308,
        2.225073858507201e-308,
        1.7976931348623157e308,
        f64::INFINITY,
        f64::NEG_INFINITY,
        f64::NAN,
        0.0001,
        612.0,
        792.0,
        9007199254740992.0,
        9007199254740993.0,
        4503599627370497.5,
        1.0000000000000002,
        0.9999999999999999,
    ];
    let mut state: u64 = 0x9e37_79b9_7f4a_7c15;
    let mut count: u32 = 0;
    while count < 60 {
        state = state.wrapping_mul(6364136223846793005).wrapping_add(1442695040888963407);
        let bits: u64 = state ^ (state >> 29);
        if count % 2 == 0 {
            out.push(f64::from_bits(bits));
        } else {
            out.push(f64::from_bits((bits & 0x800f_ffff_ffff_ffff) | (0x3e0 + (bits >> 57)) << 52));
        }
        count += 1;
    }
    out
}

#[test]
fn sums_and_differences_are_those_of_the_machine() {
    for a in samples() {
        for b in samples() {
            assert!(same(f(a).add(f(b)), a + b), "{} + {}", a, b);
            assert!(same(f(a).sub(f(b)), a - b), "{} - {}", a, b);
        }
    }
}

#[test]
fn products_and_quotients_are_those_of_the_machine() {
    for a in samples() {
        for b in samples() {
            assert!(same(f(a).mul(f(b)), a * b), "{} * {}", a, b);
            assert!(same(f(a).div(f(b)), a / b), "{} / {}", a, b);
        }
    }
}

#[test]
fn roots_are_those_of_the_machine() {
    for a in samples() {
        assert!(same(f(a).sqrt(), a.sqrt()), "sqrt {}", a);
        assert!(same(f(a * a).sqrt(), (a * a).sqrt()), "sqrt {}", a * a);
    }
}

#[test]
fn comparisons_are_those_of_the_machine() {
    for a in samples() {
        for b in samples() {
            assert_eq!(f(a).lt(f(b)), a < b);
            assert_eq!(f(a).le(f(b)), a <= b);
            assert_eq!(f(a).eq_number(f(b)), a == b);
            assert_eq!(f(a).total_rank() < f(b).total_rank(), a.total_cmp(&b) == std::cmp::Ordering::Less);
            let low: f64 = a.min(b);
            let high: f64 = a.max(b);
            assert!(low == 0.0 && f(a).min(f(b)).mag() == 0 || same(f(a).min(f(b)), low));
            assert!(high == 0.0 && f(a).max(f(b)).mag() == 0 || same(f(a).max(f(b)), high));
        }
        assert!(same(f(a).abs(), a.abs()));
        assert!(same(f(a).neg(), -a));
    }
}

#[test]
fn conversions_are_those_of_the_machine() {
    for a in samples() {
        let s: f32 = a as f32;
        let narrow: Single = f(a).narrow();
        assert!(s.is_nan() && f32::from_bits(narrow.bits).is_nan() || narrow.bits == s.to_bits(), "{}", a);
        let single: Single = Single { bits: s.to_bits() };
        assert!(same(single.widen(), s as f64));
        assert_eq!(single.truncate(), s as i64);
        assert!(same(Float::from_i64(a as i64), (a as i64) as f64));
        let bits: u32 = (a.to_bits() >> 7) as u32;
        let odd: f32 = f32::from_bits(bits);
        assert!(same(Single { bits }.widen(), odd as f64));
        assert_eq!(Single { bits }.truncate(), odd as i64);
    }
}

#[test]
fn fused_products_are_those_of_the_machine() {
    for a in samples() {
        for b in samples() {
            for c in [0.5, 0.0, 1.0e-300, 1.0e300, 5.0e-324, 0.1, f64::INFINITY, b.abs(), 3.0e-5] {
                let expected: f64 = a.abs().mul_add(b.abs(), c);
                let found: Float = f(a.abs()).mul_add(f(b.abs()), f(c));
                assert!(same(found, expected), "{} * {} + {}", a, b, c);
            }
        }
    }
}

#[test]
fn sums_and_products_commute() {
    for a in samples() {
        for b in samples() {
            assert_eq!(f(a).add(f(b)).bits, f(b).add(f(a)).bits);
            assert_eq!(f(a).mul(f(b)).bits, f(b).mul(f(a)).bits);
        }
    }
}
