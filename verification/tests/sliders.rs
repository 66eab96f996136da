use hyprwpe::doubles::Exact;
use hyprwpe::json::JsonNumber;
use hyprwpe::sliders::slide;

fn double(v: f64) -> JsonNumber {
    JsonNumber::Real {
        bits: v.to_bits(),
        text: format!("{v:?}"),
    }
}

fn integer(v: i64) -> JsonNumber {
    if v >= 0 {
        JsonNumber::Natural(v as u64)
    } else {
        JsonNumber::Negative(v)
    }
}

/// What the processor's doubles give.
fn by_doubles(raw: f64, a: f64, b: f64, fraction: bool) -> JsonNumber {
    let (lo, hi) = (a.min(b), a.max(b));
    let mut v = raw.clamp(lo, hi);
    if !fraction {
        v = v.round();
        v = if lo.ceil() <= hi.floor() {
            v.clamp(lo.ceil(), hi.floor())
        } else {
            v.clamp(lo, hi)
        };
    }
    if v.fract() == 0.0 && v.abs() < 9.0e15 {
        integer(v as i64)
    } else {
        double(v)
    }
}

const SAMPLES: [f64; 40] = [
    0.0,
    -0.0,
    0.1,
    0.25,
    0.38,
    0.49999999999999994,
    0.5,
    0.6,
    0.8,
    1.0,
    -0.3,
    -0.5,
    -0.7,
    -1.0,
    1.5,
    2.5,
    -1.5,
    -2.5,
    3.7,
    -3.7,
    99.99,
    100.0,
    4503599627370495.5,
    -4503599627370495.5,
    4503599627370496.0,
    8999999999999999.0,
    9000000000000000.0,
    9000000000000001.0,
    -9000000000000000.0,
    9007199254740992.0,
    1e16,
    1e100,
    -1e100,
    f64::MAX,
    f64::MIN,
    f64::MIN_POSITIVE,
    5e-324,
    -5e-324,
    1e-10,
    65535.5,
];

#[test]
fn sliding_agrees_with_the_arithmetic_of_doubles() {
    for raw in SAMPLES {
        for a in SAMPLES {
            for b in SAMPLES {
                for fraction in [true, false] {
                    assert_eq!(
                        slide(&double(raw), &double(a), &double(b), fraction),
                        Some(by_doubles(raw, a, b, fraction)),
                        "{raw} in {a}..{b}, {fraction}"
                    );
                }
            }
        }
    }
}

#[test]
fn doubles_are_ordered_by_their_value() {
    for a in SAMPLES {
        for b in SAMPLES {
            let x = Exact::of_bits(a.to_bits()).unwrap();
            let y = Exact::of_bits(b.to_bits()).unwrap();
            assert_eq!(x.is_less(&y), a < b, "{a} {b}");
        }
        if a.abs() < 9.0e15 {
            let x = Exact::of_bits(a.to_bits()).unwrap();
            assert_eq!(x.nearest(), (a.round() as i64, a.fract() == 0.0), "{a}");
        }
    }
    for v in [f64::INFINITY, f64::NEG_INFINITY, f64::NAN] {
        assert!(Exact::of_bits(v.to_bits()).is_none());
    }
}

#[test]
fn integers_and_doubles_mix() {
    assert_eq!(slide(&integer(3), &integer(0), &double(2.5), true), Some(double(2.5)));
    assert_eq!(slide(&integer(3), &integer(0), &double(2.5), false), Some(integer(2)));
    assert_eq!(slide(&double(-7.25), &integer(-5), &integer(5), true), Some(integer(-5)));
    assert_eq!(slide(&double(100.0), &integer(0), &integer(200), true), Some(integer(100)));
}

/// A number between the bounds keeps its value, and what was set is kept.
#[test]
fn what_fits_is_kept() {
    assert_eq!(slide(&double(0.38), &integer(0), &integer(1), true), Some(double(0.38)));
    for raw in SAMPLES {
        for fraction in [true, false] {
            let once = slide(&double(raw), &double(0.6), &double(1000.25), fraction).unwrap();
            assert_eq!(slide(&once, &double(0.6), &double(1000.25), fraction), Some(once.clone()));
        }
    }
}

/// Where no integer lies between the bounds, a bound stands.
#[test]
fn a_narrow_whole_slider_stays_in_its_range() {
    assert_eq!(slide(&double(0.7), &double(0.6), &double(0.8), false), Some(double(0.8)));
    assert_eq!(slide(&double(9.0), &double(0.2), &double(0.4), false), Some(double(0.2)));
    assert_eq!(slide(&double(0.9), &double(0.2), &double(0.9), false), Some(double(0.9)));
    assert_eq!(slide(&double(0.9), &integer(0), &double(0.9), false), Some(integer(0)));
}

#[test]
fn what_is_no_exact_double_is_left_open() {
    let large = JsonNumber::Natural(9_000_000_000_000_000);
    assert_eq!(slide(&large, &integer(0), &integer(1), true), None);
    assert_eq!(slide(&integer(0), &integer(0), &large, true), None);
    assert_eq!(slide(&integer(0), &double(f64::INFINITY), &integer(1), true), None);
}
