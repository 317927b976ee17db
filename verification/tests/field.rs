use zkqap::errors::ZkError;
use zkqap::field::{FieldElement64, MODULUS64};

#[test]
fn add_subtract_roundtrip() {
    let samples: Vec<(u64, u64)> = vec![
        (0, 0),
        (1, 2),
        (MODULUS64 - 1, MODULUS64 - 1),
        (12345678901234567, 98765432109876543),
        (MODULUS64 - 1, 1),
    ];
    for (x, y) in samples {
        let a = FieldElement64::new(x);
        let b = FieldElement64::new(y);
        assert_eq!(a.add(b).subtract(b), a);
    }
}

#[test]
fn add_wraps_exactly_once() {
    let a = FieldElement64::new(MODULUS64 - 1);
    let b = FieldElement64::new(1);
    assert_eq!(a.add(b).value(), 0);
    assert_eq!(a.add(a).value(), MODULUS64 - 2);
}

#[test]
fn subtract_wraps_exactly_once() {
    let a = FieldElement64::new(0);
    let b = FieldElement64::new(1);
    assert_eq!(a.subtract(b).value(), MODULUS64 - 1);
    assert_eq!(a.subtract(FieldElement64::new(100)).value(), MODULUS64 - 100);
}

#[test]
fn multiply_reduces_at_double_width() {
    // 2^32 * 2^32 = 2^64, and 2^64 mod (2^64 - 59) = 59.
    let a = FieldElement64::new(1u64 << 32);
    assert_eq!(a.multiply(a).value(), 59);
}

#[test]
fn multiply_inverse_is_one() {
    for x in [1u64, 2, 3, 59, 12345678901234567, MODULUS64 - 1] {
        let a = FieldElement64::new(x);
        let inv = a.inverse().expect("nonzero element must be invertible");
        assert_eq!(a.multiply(inv).value(), 1);
    }
}

#[test]
fn inverse_of_zero_fails() {
    let zero = FieldElement64::new(0);
    assert_eq!(zero.inverse(), Err(ZkError::NotInvertible));
}

#[test]
fn full_reduction_invariant() {
    // Every constructor output is fully reduced below the modulus.
    for x in [0u64, 1, MODULUS64 - 1, MODULUS64, u64::MAX] {
        assert!(FieldElement64::new(x).value() < MODULUS64);
    }
    assert_eq!(FieldElement64::new(MODULUS64).value(), 0);
    assert_eq!(FieldElement64::new(u64::MAX).value(), 58);
    for _ in 0..32 {
        assert!(FieldElement64::random().value() < MODULUS64);
    }
}

#[test]
fn convert_vector_and_matrix() {
    let mut v: Vec<u64> = vec![0, 1, MODULUS64, u64::MAX];
    let fv = FieldElement64::convert1D(&mut v);
    let values: Vec<u64> = fv.iter().map(|e| e.value()).collect();
    assert_eq!(values, vec![0, 1, 0, 58]);

    let mut m: Vec<Vec<u64>> = vec![vec![2, MODULUS64 + 5], vec![7]];
    let fm = FieldElement64::convert2D(&mut m);
    assert_eq!(fm[0][0].value(), 2);
    assert_eq!(fm[0][1].value(), 5);
    assert_eq!(fm[1][0].value(), 7);
}
