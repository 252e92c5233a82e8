use als_recommender::scalar::Scalar;

fn key(x: f64) -> Option<i64> {
    Scalar::from_bits(x.to_bits()).order_key()
}

#[test]
fn order_key_orders_as_the_numbers_do() {
    let samples = [
        f64::NEG_INFINITY,
        -1.0e300,
        -2.5,
        -1.0,
        -1.0e-300,
        -0.0,
        0.0,
        5.0e-324,
        1.0e-4,
        0.5,
        1.0,
        2.0,
        3.25,
        1.0e300,
        f64::INFINITY,
    ];
    for a in samples {
        for b in samples {
            let ka = key(a).unwrap();
            let kb = key(b).unwrap();
            assert_eq!(ka < kb, a < b);
            assert_eq!(ka == kb, a == b);
        }
    }
}

#[test]
fn order_key_of_exact_values() {
    assert_eq!(key(0.0), Some(0));
    assert_eq!(key(-0.0), Some(0));
    assert_eq!(key(1.0), Some(0x3FF0_0000_0000_0000));
    assert_eq!(key(-1.0), Some(-0x3FF0_0000_0000_0000));
    assert_eq!(key(f64::INFINITY), Some(0x7FF0_0000_0000_0000));
}

#[test]
fn order_key_refuses_what_is_no_number() {
    assert_eq!(key(f64::NAN), None);
    assert_eq!(Scalar::from_bits(0xFFF8_0000_0000_0001).order_key(), None);
    assert_eq!(Scalar::from_bits(0x7FF0_0000_0000_0001).order_key(), None);
}

#[test]
fn bits_are_kept() {
    let x = Scalar::from_bits(2.5f64.to_bits());
    assert_eq!(f64::from_bits(x.to_bits()), 2.5);
    assert_eq!(f64::from_bits(Scalar::zero().to_bits()), 0.0);
}

#[test]
fn finite_non_negative_is_what_it_says() {
    for x in [0.0, -0.0, 5.0e-324, 1.0, 2.5, f64::MAX] {
        assert!(Scalar::from_bits(x.to_bits()).is_finite_non_negative());
    }
    for x in [-5.0e-324, -1.0, f64::MIN, f64::INFINITY, f64::NEG_INFINITY, f64::NAN, -f64::NAN] {
        assert!(!Scalar::from_bits(x.to_bits()).is_finite_non_negative());
    }
}
