use zkqap::poly::{
    divide_polynomials, generate_t, multiply_polynomials, subtract_polynomials,
};

fn eval_at(p: &[i64], x: i64) -> i64 {
    let mut acc: i64 = 0;
    for &c in p.iter().rev() {
        acc = acc * x + c;
    }
    acc
}

#[test]
fn multiply_convolves() {
    let a: Vec<i64> = vec![1, 2];
    let b: Vec<i64> = vec![3, 4];
    assert_eq!(multiply_polynomials(&a, &b), vec![3, 10, 8]);
}

#[test]
fn subtract_pads_with_zeros() {
    let a: Vec<i64> = vec![5, 5];
    let b: Vec<i64> = vec![1, 2, 3];
    assert_eq!(subtract_polynomials(&a, &b), vec![4, 3, -3]);
}

#[test]
fn multiply_then_divide_recovers_factor() {
    // (x^2 + 3x + 2) * (x - 1), then dividing by (x - 1) again.
    let c: Vec<i64> = vec![2, 3, 1];
    let b: Vec<i64> = vec![-1, 1];
    let product = multiply_polynomials(&c, &b);
    assert_eq!(product, vec![-2, -1, 2, 1]);
    let (quotient, remainder) = divide_polynomials(&product, &b);
    assert_eq!(quotient, c);
    assert!(remainder.iter().all(|&r| r == 0));
}

#[test]
fn multiply_then_divide_works_with_nonmonic_factor() {
    // (3x + 2) * (2x + 1), then dividing by (2x + 1) again.
    let c: Vec<i64> = vec![2, 3];
    let b: Vec<i64> = vec![1, 2];
    let product = multiply_polynomials(&c, &b);
    assert_eq!(product, vec![2, 7, 6]);
    let (quotient, remainder) = divide_polynomials(&product, &b);
    assert_eq!(quotient, c);
    assert!(remainder.iter().all(|&r| r == 0));
}

#[test]
fn divide_by_non_factor_leaves_remainder() {
    // x^2 + 1 is not divisible by x + 1 over the integers.
    let dividend: Vec<i64> = vec![1, 0, 1];
    let divisor: Vec<i64> = vec![1, 1];
    let (quotient, remainder) = divide_polynomials(&dividend, &divisor);
    assert_eq!(quotient, vec![-1, 1]);
    assert!(remainder.iter().any(|&r| r != 0));
}

#[test]
fn vanishing_polynomial_coefficients() {
    // (x - 1)(x - 2) = x^2 - 3x + 2.
    assert_eq!(generate_t(2), vec![2, -3, 1]);
    // (x - 1)(x - 2)(x - 3) = x^3 - 6x^2 + 11x - 6.
    assert_eq!(generate_t(3), vec![-6, 11, -6, 1]);
}

#[test]
fn vanishing_polynomial_has_roots_at_constraint_indices() {
    for n in 1..=5u64 {
        let t = generate_t(n as usize);
        for k in 1..=n {
            assert_eq!(eval_at(&t, k as i64), 0);
        }
        assert_ne!(eval_at(&t, (n + 1) as i64), 0);
    }
}
