use zkqap::errors::ZkError;
use zkqap::field::{FieldElement64, MODULUS64};
use zkqap::qap::{
    falling_factorial, field_compatible_matrix, field_compatible_vector, inner_product,
    lagrange_interpolation,
};

fn fe(x: u64) -> FieldElement64 {
    FieldElement64::new(x)
}

#[test]
fn lagrange_recovers_a_polynomial_value() {
    // Samples of f(x) = x^2 at 1, 2, 3 determine f(4) = 16.
    let xs = vec![fe(1), fe(2), fe(3)];
    let ys = vec![fe(1), fe(4), fe(9)];
    let v = lagrange_interpolation(fe(4), &xs, &ys).expect("distinct sample points");
    assert_eq!(v.value(), 16);
    // At a sample point the interpolation returns the sample itself.
    let at_two = lagrange_interpolation(fe(2), &xs, &ys).expect("distinct sample points");
    assert_eq!(at_two.value(), 4);
}

#[test]
fn lagrange_refuses_empty_samples() {
    let empty: Vec<FieldElement64> = Vec::new();
    assert_eq!(lagrange_interpolation(fe(4), &empty, &empty), None);
}

#[test]
fn lagrange_refuses_coincident_samples() {
    let xs = vec![fe(5), fe(5)];
    let ys = vec![fe(1), fe(2)];
    assert_eq!(lagrange_interpolation(fe(4), &xs, &ys), None);
}

#[test]
fn falling_factorial_multiplies_the_shifted_factors() {
    // (5-1)(5-2)(5-3) = 24.
    assert_eq!(falling_factorial(fe(5), 3).value(), 24);
    // An empty product is one.
    assert_eq!(falling_factorial(fe(5), 0).value(), 1);
    // (2-1)(2-2) = 0.
    assert_eq!(falling_factorial(fe(2), 2).value(), 0);
}

#[test]
fn inner_product_sums_pairwise_products() {
    let a = vec![fe(1), fe(2), fe(3)];
    let b = vec![fe(4), fe(5), fe(6)];
    assert_eq!(inner_product(&a, &b).unwrap().value(), 32);
}

#[test]
fn inner_product_rejects_length_mismatch() {
    let a = vec![fe(1)];
    let b = vec![fe(4), fe(5)];
    assert_eq!(inner_product(&a, &b), Err(ZkError::DimensionMismatch));
}

#[test]
fn field_compatible_maps_signed_to_reduced_unsigned() {
    let mut v: Vec<i64> = vec![0, 7, -1, i64::MIN, i64::MAX];
    let out = field_compatible_vector(&mut v);
    assert_eq!(out[0], 0);
    assert_eq!(out[1], 7);
    assert_eq!(out[2], MODULUS64 - 1);
    assert_eq!(out[3], MODULUS64 - (1u64 << 63));
    assert_eq!(out[4], (1u64 << 63) - 1);

    let mut m: Vec<Vec<i64>> = vec![vec![-2], vec![3, -4]];
    let out = field_compatible_matrix(&mut m);
    assert_eq!(out, vec![vec![MODULUS64 - 2], vec![3, MODULUS64 - 4]]);
}
