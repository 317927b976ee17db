use zkqap::errors::ZkError;
use zkqap::r1cs::{hadamard_multiply, witness_multiply, Constraint, Element, R1CS};

fn two_gates() -> Vec<Constraint> {
    vec![
        Constraint::new(Element::new(0, 1), Element::new(1, 1), Element::new(2, 1)),
        Constraint::new(Element::new(2, 2), Element::new(3, 1), Element::new(4, 3)),
    ]
}

#[test]
fn scatter_builds_the_three_matrices() {
    let r1cs = R1CS::new(two_gates(), vec![1, 2, 3, 4, 5]);
    assert_eq!(r1cs.left(), vec![vec![1, 0, 0, 0, 0], vec![0, 0, 2, 0, 0]]);
    assert_eq!(r1cs.right(), vec![vec![0, 1, 0, 0, 0], vec![0, 0, 0, 1, 0]]);
    assert_eq!(r1cs.output(), vec![vec![0, 0, 1, 0, 0], vec![0, 0, 0, 0, 3]]);
}

#[test]
fn blank_allocates_zero_matrices() {
    let r1cs = R1CS::blank(vec![1, 2, 3], Some(2));
    assert_eq!(r1cs.left(), vec![vec![0, 0, 0], vec![0, 0, 0]]);
    let default_rows = R1CS::blank(vec![1, 2, 3], None);
    assert_eq!(default_rows.left().len(), 1);
}

#[test]
fn unsatisfying_witness_is_rejected() {
    // Row zero demands w0 * w1 == w2, but 1 * 2 != 3.
    let r1cs = R1CS::new(two_gates(), vec![1, 2, 3, 4, 5]);
    assert_eq!(r1cs.verify(vec![1, 2, 3, 4, 5]), Err(ZkError::ConstraintViolation));
}

#[test]
fn satisfying_witness_is_accepted() {
    // w0 * w1 == w2 and (2 w2) * w3 == 3 w4: 1 * 2 == 2, 4 * 3 == 12.
    let r1cs = R1CS::new(two_gates(), vec![1, 2, 2, 3, 4]);
    assert_eq!(r1cs.verify(vec![1, 2, 2, 3, 4]), Ok(()));
}

#[test]
fn verify_rejects_wrong_witness_width() {
    let r1cs = R1CS::new(two_gates(), vec![1, 2, 3, 4, 5]);
    assert_eq!(r1cs.verify(vec![1, 2, 3]), Err(ZkError::DimensionMismatch));
}

#[test]
fn witness_multiply_takes_row_dot_products() {
    let matrix = vec![vec![1, 0, 2], vec![0, 3, 0]];
    assert_eq!(witness_multiply(matrix, vec![5, 6, 7]), Ok(vec![19, 18]));
}

#[test]
fn witness_multiply_rejects_ragged_rows() {
    let matrix = vec![vec![1, 0], vec![0, 3, 1]];
    assert_eq!(
        witness_multiply(matrix, vec![5, 6]),
        Err(ZkError::DimensionMismatch)
    );
}

#[test]
fn hadamard_multiplies_elementwise() {
    assert_eq!(hadamard_multiply(vec![1, -2, 3], vec![4, 5, -6]), vec![4, -10, -18]);
}
