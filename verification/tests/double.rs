use kanimiso::double::{infinity, nan, neg_infinity, one, zero, Double};

fn d(x: f64) -> Double {
    Double::from_bits(x.to_bits())
}

/// Encodings agree, where every NaN stands for the one NaN that is returned.
fn agrees(got: Double, want: f64) -> bool {
    if want.is_nan() {
        got.is_nan()
    } else {
        got.to_bits() == want.to_bits()
    }
}

/// Corner cases and pseudo-random encodings.
fn samples() -> Vec<f64> {
    let mut out = vec![
        0.0,
        -0.0,
        1.0,
        -1.0,
        0.5,
        1.5,
        2.5,
        -2.5,
        0.1,
        1.0 / 3.0,
        1e16,
        1e300,
        -1e300,
        1e308,
        f64::MAX,
        f64::MIN,
        f64::MIN_POSITIVE,
        f64::MIN_POSITIVE / 2.0,
        f64::from_bits(1),
        f64::from_bits(3),
        -f64::from_bits(1),
        f64::EPSILON,
        1.0 + f64::EPSILON,
        1.0 - f64::EPSILON / 2.0,
        f64::INFINITY,
        f64::NEG_INFINITY,
        f64::NAN,
        9007199254740993.0,
        4503599627370497.5,
        9.3e18,
        -9.3e18,
    ];
    let mut state: u64 = 0x9e37_79b9_7f4a_7c15;
    for round in 0..160 {
        state = state.wrapping_mul(6364136223846793005).wrapping_add(1442695040888963407);
        let mixed = state ^ (state >> 29);
        let bits = if round % 2 == 0 {
            mixed
        } else {
            // Exponents close to one, so that sums interact.
            (mixed & 0x800f_ffff_ffff_ffff) | ((1000 + (mixed >> 52) % 60) << 52)
        };
        out.push(f64::from_bits(bits));
    }
    out
}

#[test]
fn sums_and_differences_match_hardware() {
    for &a in &samples() {
        for &b in &samples() {
            assert!(agrees(d(a).plus(d(b)), a + b), "{a:e} + {b:e}");
            assert!(agrees(d(a).minus(d(b)), a - b), "{a:e} - {b:e}");
        }
    }
}

#[test]
fn products_and_quotients_match_hardware() {
    for &a in &samples() {
        for &b in &samples() {
            assert!(agrees(d(a).times(d(b)), a * b), "{a:e} * {b:e}");
            assert!(agrees(d(a).over(d(b)), a / b), "{a:e} / {b:e}");
        }
    }
}

#[test]
fn square_roots_match_hardware() {
    for &a in &samples() {
        assert!(agrees(d(a).sqrt(), a.sqrt()), "sqrt {a:e}");
        assert!(agrees(d(a.abs()).sqrt(), a.abs().sqrt()), "sqrt |{a:e}|");
    }
}

#[test]
fn fused_multiply_add_matches_std() {
    let values = samples();
    for (i, &a) in values.iter().enumerate() {
        for (j, &b) in values.iter().enumerate() {
            let c = values[(7 * i + 13 * j) % values.len()];
            assert!(agrees(d(a).mul_add(d(b), d(c)), a.mul_add(b, c)), "{a:e} * {b:e} + {c:e}");
            let back = -(a * b);
            assert!(agrees(d(a).mul_add(d(b), d(back)), a.mul_add(b, back)), "{a:e} * {b:e} + {back:e}");
        }
    }
}

#[test]
fn comparisons_match_hardware() {
    for &a in &samples() {
        for &b in &samples() {
            assert_eq!(d(a).lt(d(b)), a < b);
            assert_eq!(d(a).le(d(b)), a <= b);
            assert_eq!(d(a).gt(d(b)), a > b);
            assert_eq!(d(a).ge(d(b)), a >= b);
            assert_eq!(d(a).same(d(b)), a == b);
            if a != 0.0 || b != 0.0 {
                assert!(agrees(d(a).max(d(b)), a.max(b)));
                assert!(agrees(d(a).min(d(b)), a.min(b)));
            }
        }
    }
}

#[test]
fn signs_and_classes_match_hardware() {
    for &a in &samples() {
        assert_eq!(d(a).is_finite(), a.is_finite());
        assert_eq!(d(a).is_nan(), a.is_nan());
        assert_eq!(d(a).is_sign_negative(), a.is_sign_negative());
        assert_eq!(d(a).neg().to_bits(), (-a).to_bits());
        assert_eq!(d(a).abs().to_bits(), a.abs().to_bits());
    }
    assert_eq!(zero().to_bits(), 0.0f64.to_bits());
    assert_eq!(one().to_bits(), 1.0f64.to_bits());
    assert_eq!(infinity().to_bits(), f64::INFINITY.to_bits());
    assert_eq!(neg_infinity().to_bits(), f64::NEG_INFINITY.to_bits());
    assert!(nan().is_nan());
}

#[test]
fn integer_conversions_match_casts() {
    for &a in &samples() {
        assert_eq!(d(a).round_to_i64(), a.round() as i64, "{a:e}");
    }
    for n in [0u64, 1, 2, 3, 10, 1 << 52, (1 << 53) + 1, u64::MAX, u64::MAX - 1024, 0xffff_ffff_ffff_f400] {
        assert_eq!(Double::from_u64(n).to_bits(), (n as f64).to_bits());
        assert_eq!(Double::from_usize(n as usize).to_bits(), (n as f64).to_bits());
        assert_eq!(Double::from_i64(n as i64).to_bits(), ((n as i64) as f64).to_bits());
    }
    assert_eq!(Double::from_i64(i64::MIN).to_bits(), (i64::MIN as f64).to_bits());
}
