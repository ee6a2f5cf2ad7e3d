use nn_rs::integer_decode;
use nn_rs::Distance;
use std::collections::HashSet;

fn key(value: f64) -> Distance {
    Distance::new(value.to_bits())
}

#[test]
fn test_integer_decode() {
    let result = integer_decode(1.97f64.to_bits());
    assert_eq!(result, (8872091265919877, -52, 1));
}

#[test]
fn integer_decode_of_one() {
    assert_eq!(integer_decode(1.0f64.to_bits()), (4503599627370496, -52, 1));
}

#[test]
fn integer_decode_of_zeros() {
    assert_eq!(integer_decode(0.0f64.to_bits()), (0, -1075, 1));
    assert_eq!(integer_decode((-0.0f64).to_bits()), (0, -1075, -1));
}

#[test]
fn integer_decode_of_negative_number() {
    assert_eq!(integer_decode((-1.97f64).to_bits()), (8872091265919877, -52, -1));
}

#[test]
fn integer_decode_of_subnormals() {
    assert_eq!(integer_decode(1), (2, -1075, 1));
    assert_eq!(integer_decode(0x000f_ffff_ffff_ffff), (0x001f_ffff_ffff_fffe, -1075, 1));
}

#[test]
fn integer_decode_of_smallest_normal() {
    assert_eq!(integer_decode(f64::MIN_POSITIVE.to_bits()), (4503599627370496, -1074, 1));
}

#[test]
fn integer_decode_of_largest_finite() {
    assert_eq!(integer_decode(f64::MAX.to_bits()), (0x001f_ffff_ffff_ffff, 971, 1));
}

#[test]
fn integer_decode_of_infinity() {
    assert_eq!(integer_decode(f64::INFINITY.to_bits()), (4503599627370496, 972, 1));
}

#[test]
fn integer_decode_gives_the_value_back() {
    for value in [1.97f64, 0.5, 3.0, 1e-310, 6.02e23, 0.0669402944727091] {
        let (mantissa, exponent, sign) = integer_decode(value.to_bits());
        let rebuilt = (sign as f64) * (mantissa as f64) * 2f64.powi(exponent as i32 + 60)
            * 2f64.powi(-60);
        assert_eq!(rebuilt, value);
    }
}

#[test]
fn distance_holds_the_decoded_parts() {
    let d = key(1.97);
    assert_eq!(d.mantissa, 8872091265919877);
    assert_eq!(d.exponent, -52);
    assert_eq!(d.sign, 1);
}

#[test]
fn distance_order_is_numeric_order() {
    let values = [
        0.0f64,
        5e-324,
        1e-310,
        f64::MIN_POSITIVE,
        1e-5,
        0.0669402944727091,
        0.5,
        1.0,
        1.5,
        1.97,
        2.0,
        3.0,
        7.0,
        1024.0,
        6.02e23,
        f64::MAX,
    ];
    for i in 0..values.len() {
        for j in 0..values.len() {
            let a = key(values[i]);
            let b = key(values[j]);
            assert_eq!(a < b, values[i] < values[j]);
            assert_eq!(a.is_before(&b), values[i] < values[j]);
            assert_eq!(a <= b, values[i] <= values[j]);
            assert_eq!(a == b, values[i] == values[j]);
        }
    }
}

#[test]
fn larger_exponent_wins_over_larger_mantissa() {
    // 1.5 has the larger significand, 2.0 the larger exponent.
    assert!(key(1.5).mantissa > key(2.0).mantissa);
    assert!(key(1.5) < key(2.0));
    assert!(key(2.0) > key(1.5));
}

#[test]
fn distance_cmp_agrees_with_partial_cmp() {
    let values = [0.0f64, -0.0, 1e-310, 0.5, 1.5, 2.0, -2.0, 1.97, f64::MAX];
    for x in values {
        for y in values {
            let a = key(x);
            let b = key(y);
            assert_eq!(Some(a.cmp(&b)), a.partial_cmp(&b));
        }
    }
    let mut sorted = vec![key(2.0), key(1.5), key(0.0), key(1.97)];
    sorted.sort();
    assert_eq!(sorted, vec![key(0.0), key(1.5), key(1.97), key(2.0)]);
}

#[test]
fn distance_is_equal_for_equal_bits_only() {
    assert_eq!(key(1.97), key(1.97));
    assert_ne!(key(0.0), key(-0.0));
    assert_ne!(key(1.0), key(2.0));
    assert!(key(-0.0) < key(0.0));
    let mut seen = HashSet::new();
    assert!(seen.insert(key(1.0)));
    assert!(!seen.insert(key(1.0)));
    assert!(seen.insert(key(-1.0)));
    assert!(seen.insert(key(0.0)));
    assert!(seen.insert(key(-0.0)));
    assert_eq!(seen.len(), 4);
}

#[test]
fn distance_of_negative_number_is_ranked_by_magnitude() {
    assert!(key(-1.0) < key(2.0));
    assert!(key(1.0) < key(-2.0));
    assert!(key(-1.0) < key(1.0));
}
