use justice::numeric::{js_max, js_min, js_round, js_sign};
use justice::Binary64;

fn number(x: f64) -> Binary64 {
    Binary64 { bits: x.to_bits() }
}

fn float(x: Binary64) -> f64 {
    f64::from_bits(x.bits)
}

/// Equal, where no two things that are no number are told apart.
fn agree(x: Binary64, y: f64) -> bool {
    let x = float(x);
    (x.is_nan() && y.is_nan()) || x.to_bits() == y.to_bits()
}

/// Numbers of every kind, and many others.
fn numbers() -> Vec<f64> {
    let mut list = vec![
        0.0,
        -0.0,
        1.0,
        -1.0,
        0.5,
        1.5,
        2.5,
        0.1,
        0.3,
        1e-9,
        1e300,
        -1e300,
        f64::MAX,
        f64::MIN,
        f64::MIN_POSITIVE,
        5e-324,
        -5e-324,
        1.0 + f64::EPSILON,
        1.0 - f64::EPSILON / 2.0,
        4503599627370496.5,
        9007199254740992.0,
        9007199254740993.0,
        f64::INFINITY,
        f64::NEG_INFINITY,
        f64::NAN,
    ];
    let mut state: u64 = 0x9e37_79b9_7f4a_7c15;
    for i in 0..120 {
        state ^= state << 13;
        state ^= state >> 7;
        state ^= state << 17;
        // Any bits; then numbers of everyday size.
        list.push(f64::from_bits(state));
        list.push(((state >> 11) as f64) / ((1u64 << (i % 53)) as f64));
    }
    list
}

#[test]
fn sums_are_those_of_the_machine() {
    for &x in &numbers() {
        for &y in &numbers() {
            assert!(agree(number(x) + number(y), x + y), "{x:e} + {y:e}");
            assert!(agree(number(x) - number(y), x - y), "{x:e} - {y:e}");
        }
    }
}

#[test]
fn products_are_those_of_the_machine() {
    for &x in &numbers() {
        for &y in &numbers() {
            assert!(agree(number(x) * number(y), x * y), "{x:e} * {y:e}");
        }
    }
}

#[test]
fn quotients_are_those_of_the_machine() {
    for &x in &numbers() {
        for &y in &numbers() {
            assert!(agree(number(x) / number(y), x / y), "{x:e} / {y:e}");
        }
    }
}

#[test]
fn comparisons_are_those_of_the_machine() {
    for &x in &numbers() {
        for &y in &numbers() {
            let (a, b) = (number(x), number(y));
            assert_eq!(a.lt(b), x < y, "{x:e} < {y:e}");
            assert_eq!(a.le(b), x <= y, "{x:e} <= {y:e}");
            assert_eq!(a.gt(b), x > y, "{x:e} > {y:e}");
            assert_eq!(a.ge(b), x >= y, "{x:e} >= {y:e}");
            assert_eq!(a.same(b), x == y, "{x:e} == {y:e}");
        }
        assert_eq!(number(x).is_nan(), x.is_nan());
        assert_eq!(number(x).is_finite(), x.is_finite());
    }
}

#[test]
fn signs_and_floors_are_those_of_the_machine() {
    for &x in &numbers() {
        assert!(agree(number(x).abs(), x.abs()), "|{x:e}|");
        assert!(agree(number(x).opposite(), -x), "-{x:e}");
        assert!(agree(number(x).floor(), x.floor()), "floor {x:e}");
    }
}

#[test]
fn literals_are_the_nearest_numbers() {
    assert!(agree(Binary64::ratio(6, 10), 0.6));
    assert!(agree(Binary64::ratio(25, 100), 0.25));
    assert!(agree(Binary64::ratio(3, 10), 0.3));
    assert!(agree(Binary64::ratio(33, 100), 0.33));
    assert!(agree(Binary64::ratio(1, 100), 0.01));
    assert!(agree(Binary64::ratio(1, 1_000_000_000), 1e-9));
    assert!(agree(Binary64::ratio(1, 100_000_000), 1e-8));
    assert!(agree(
        Binary64::ratio(12_599_210_498_948_732, 10_000_000_000_000_000),
        1.2599210498948732
    ));
    assert!(agree(Binary64::ratio(u64::MAX, 3), u64::MAX as f64 / 3.0));
    assert!(agree(Binary64::one(), 1.0));
    assert!(agree(Binary64::infinity(), f64::INFINITY));
    assert!(Binary64::nan().is_nan());
}

#[test]
fn integers_are_exact_or_nearest() {
    for n in [0usize, 1, 2, 3, 1000, 123_456_789, usize::MAX] {
        assert!(agree(Binary64::from_count(n), n as f64));
    }
    for n in [0i32, 1, -1, 320, i32::MAX, i32::MIN] {
        assert!(agree(Binary64::from_int(n), n as f64));
    }
}

#[test]
fn adding_the_same_number_keeps_an_order() {
    let list = numbers();
    for &x in list.iter().take(60) {
        for &y in list.iter().take(60) {
            for &z in list.iter().take(40) {
                if !(x < y) && !y.is_nan() {
                    let (a, b, c) = (number(x), number(y), number(z));
                    assert!(!(a + c).lt(b + c), "{x:e} {y:e} {z:e}");
                }
            }
        }
    }
}

#[test]
fn zeros_are_those_of_ecmascript() {
    for (x, y) in [(0.0, -0.0), (-0.0, 0.0)] {
        assert!(agree(js_max(number(x), number(y)), 0.0));
        assert!(agree(js_min(number(x), number(y)), -0.0));
    }
    assert!(agree(js_max(number(-0.0), number(-0.0)), -0.0));
    assert!(agree(js_max(number(2.0), number(3.0)), 3.0));
    assert!(agree(js_min(number(2.0), number(3.0)), 2.0));
    assert!(js_max(number(f64::NAN), number(1.0)).is_nan());
    assert!(js_min(number(1.0), number(f64::NAN)).is_nan());
    assert!(agree(js_sign(number(-0.0)), -0.0));
    assert!(agree(js_sign(number(-3.0)), -1.0));
    assert!(agree(js_round(number(2.5)), 3.0));
    assert!(agree(js_round(number(2.4)), 2.0));
    assert!(agree(js_round(number(0.49999999999999994)), 0.0));
    for odd in [4503599627370497.0, 9007199254740991.0, 1e300] {
        assert!(agree(js_round(number(odd)), odd));
    }
}

#[test]
fn equality_is_numerical() {
    assert_eq!(number(0.0), number(-0.0));
    assert_ne!(number(f64::NAN), number(f64::NAN));
    assert_ne!(number(1.0), number(2.0));
    assert_eq!(number(1.5), number(1.5));
}
