//! The verified double arithmetic against the machine's own doubles.

use elma::fp::{
    count_decode, count_encode, fp_add_exec, fp_from_u64_exec, fp_gt_exec, fp_max_exec,
    fp_mul_exec, fp_round_u64_exec,
};

const SAMPLES: [f64; 24] = [
    0.0,
    -0.0,
    1.0,
    -1.0,
    0.5,
    0.1,
    0.2,
    33.333,
    -33.333,
    2289.37728938,
    3247.764325643,
    188.0,
    1.0e-308,
    4.9e-324,
    -4.9e-324,
    1.7976931348623157e308,
    -1.7976931348623157e308,
    f64::INFINITY,
    f64::NEG_INFINITY,
    123456789.123456,
    -0.4643643,
    0.4643643,
    6.398683200001716,
    1.1368683772161603e-13,
];

#[test]
fn add_matches_hardware() {
    for &a in SAMPLES.iter() {
        for &b in SAMPLES.iter() {
            let want = a + b;
            let got = fp_add_exec(a.to_bits(), b.to_bits());
            if want.is_nan() {
                assert!(f64::from_bits(got).is_nan(), "{a} + {b}");
            } else {
                assert_eq!(got, want.to_bits(), "{a} + {b}");
            }
        }
    }
    // A tie that must round to even, and a full cancellation giving +0.
    let tie = 1.0 + f64::from_bits(1u64 << 52 >> 52); // degenerate, still exact
    assert_eq!(fp_add_exec(1.0f64.to_bits(), tie.to_bits()), (1.0 + tie).to_bits());
    assert_eq!(fp_add_exec(5.5f64.to_bits(), (-5.5f64).to_bits()), 0.0f64.to_bits());
    let eps = f64::from_bits(0x3CA0000000000000); // 2^-53
    assert_eq!(fp_add_exec(1.0f64.to_bits(), eps.to_bits()), (1.0 + eps).to_bits());
}

#[test]
fn mul_matches_hardware() {
    for &a in SAMPLES.iter() {
        for &b in SAMPLES.iter() {
            let want = a * b;
            let got = fp_mul_exec(a.to_bits(), b.to_bits());
            if want.is_nan() {
                assert!(f64::from_bits(got).is_nan(), "{a} * {b}");
            } else {
                assert_eq!(got, want.to_bits(), "{a} * {b}");
            }
        }
    }
}

#[test]
fn compare_and_max_match_hardware() {
    for &a in SAMPLES.iter() {
        for &b in SAMPLES.iter() {
            assert_eq!(fp_gt_exec(a.to_bits(), b.to_bits()), a > b, "{a} > {b}");
        }
    }
    assert_eq!(fp_max_exec(1.0f64.to_bits(), 2.0f64.to_bits()), 2.0f64.to_bits());
    assert_eq!(fp_max_exec(f64::NAN.to_bits(), 2.0f64.to_bits()), 2.0f64.to_bits());
}

#[test]
fn from_u64_matches_hardware() {
    for n in [0u64, 1, 2, 440, 533, 90, 0xFFFF_FFFF, 1 << 52, (1 << 53) + 1, u64::MAX] {
        assert_eq!(fp_from_u64_exec(n), (n as f64).to_bits(), "{n}");
    }
}

#[test]
fn round_matches_hardware() {
    for &a in SAMPLES.iter() {
        let want = if a.is_nan() {
            0
        } else {
            a.round() as u64
        };
        assert_eq!(fp_round_u64_exec(a.to_bits()), want, "{a}");
    }
    assert_eq!(fp_round_u64_exec(0.5f64.to_bits()), 1);
    assert_eq!(fp_round_u64_exec(1.5f64.to_bits()), 2);
    assert_eq!(fp_round_u64_exec(2.5f64.to_bits()), 3);
    assert_eq!(fp_round_u64_exec(14648.9999f64.to_bits()), 14649);
}

#[test]
fn count_sentinels_match_hardware() {
    // The polygon sentinel constant over 2^54 and the picture one over 2^55.
    let poly_m: u64 = 8365243553776645;
    let pic_m: u64 = 8451174036106725;
    for n in [0u64, 1, 2, 5, 17, 1000, 5000, 65535, 1 << 20] {
        let stored = (n as f64 + 0.4643643_f64).to_bits();
        assert_eq!(count_encode(n, poly_m, 54), stored, "{n}");
        assert_eq!(count_decode(stored, poly_m, 54), n, "{n}");
        let stored2 = (n as f64 + 0.2345672_f64).to_bits();
        assert_eq!(count_encode(n, pic_m, 55), stored2, "{n}");
        assert_eq!(count_decode(stored2, pic_m, 55), n, "{n}");
    }
    // Decoding agrees with the original arithmetic on round values too.
    for x in [0.0f64, 1.4643643, 10.46436431, 247.46436429999998] {
        let want = (x - 0.4643643_f64).round();
        let want = if want < 0.0 {
            0
        } else {
            want as u64
        };
        assert_eq!(count_decode(x.to_bits(), poly_m, 54), want, "{x}");
    }
}
