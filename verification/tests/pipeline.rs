use zkqap::errors::ZkError;
use zkqap::field::FieldElement64;
use zkqap::qap::QAP;
use zkqap::r1cs::{Constraint, Element, R1CS};
use zkqap::trustedsetup::{srs_creator, trustedsetup};

fn fe(x: u64) -> FieldElement64 {
    FieldElement64::new(x)
}

/// A two-gate system with a witness that satisfies the Hadamard identity:
/// w0 * w1 == w2 plus one all-zero gate.
fn exact_gates() -> Vec<Constraint> {
    vec![
        Constraint::new(Element::new(0, 1), Element::new(1, 1), Element::new(2, 1)),
        Constraint::new(Element::new(0, 0), Element::new(0, 0), Element::new(0, 0)),
    ]
}

#[test]
fn pipeline_reports_the_srs_length_mismatch() {
    // The QAP vectors have one entry per constraint, while every SRS
    // column has one entry more; the prover's strict inner products
    // therefore report the mismatch instead of a proof.
    let witness: Vec<i64> = vec![1, 2, 2];
    let r1cs = R1CS::new(exact_gates(), witness.clone());
    assert_eq!(r1cs.verify(witness.clone()), Ok(()));

    let qap = QAP::from_r1cs(r1cs, witness).expect("reduction must succeed");
    assert_eq!(qap.t_val(), 2);

    let srs = trustedsetup(qap.t_val()).expect("setup must find the generator");
    assert_eq!(srs[0].len(), 3);
    let err = match qap.evaluate(srs) {
        Ok(_) => panic!("a two-entry vector cannot meet a three-entry column"),
        Err(e) => e,
    };
    assert_eq!(err, ZkError::DimensionMismatch);
}

#[test]
fn verifier_accepts_consistent_commitments() {
    let tau = fe(3);
    let g = fe(2);
    let srs = [srs_creator(2, tau, g), srs_creator(2, tau, g), srs_creator(2, tau, g)];
    // a1 * b2 == c1 * srs[1][0]: 10 * 7 == 35 * 2.
    let prover = [fe(10), fe(7), fe(35)];
    assert_eq!(QAP::verify(prover, srs), Ok(()));
}

#[test]
fn verifier_rejects_a_corrupted_srs_entry() {
    let tau = fe(3);
    let g = fe(2);
    let mut srs = [srs_creator(2, tau, g), srs_creator(2, tau, g), srs_creator(2, tau, g)];
    let prover = [fe(10), fe(7), fe(35)];
    // Corrupt the single SRS entry the verifier pairs against.
    srs[1][0] = srs[1][0].add(fe(1));
    assert_eq!(QAP::verify(prover, srs), Err(ZkError::VerificationFailure));
}

#[test]
fn verifier_rejects_an_inconsistent_proof() {
    let tau = fe(3);
    let g = fe(2);
    let srs = [srs_creator(2, tau, g), srs_creator(2, tau, g), srs_creator(2, tau, g)];
    let prover = [fe(10), fe(7), fe(36)];
    assert_eq!(QAP::verify(prover, srs), Err(ZkError::VerificationFailure));
}

#[test]
fn from_r1cs_computes_the_quotient() {
    // For the gates (0,1)x(1,1)=(2,1) and (2,2)x(3,1)=(4,3) with witness
    // [1,2,3,4,5]: A = [1,6], B = [2,4], C = [3,15], A*B = [2,16,24],
    // A*B - C = [-1,1,24], T = [2,-3,1], quotient = [24].
    let gates = vec![
        Constraint::new(Element::new(0, 1), Element::new(1, 1), Element::new(2, 1)),
        Constraint::new(Element::new(2, 2), Element::new(3, 1), Element::new(4, 3)),
    ];
    let witness: Vec<i64> = vec![1, 2, 3, 4, 5];
    let r1cs = R1CS::new(gates, witness.clone());
    let qap = QAP::from_r1cs(r1cs, witness).expect("reduction must succeed");
    assert_eq!(qap.t_val(), 2);

    // Columns [1, 0], [1, 0] and [1] read the constant coefficients back
    // out: a1 = A[0], b2 = B[0], c1 = C[0] + H[0].
    let picked = [
        srs_creator(1, fe(0), fe(1)),
        srs_creator(1, fe(0), fe(1)),
        srs_creator(0, fe(0), fe(1)),
    ];
    let proof = qap.evaluate(picked).expect("column lengths match");
    assert_eq!(proof[0].value(), 1);
    assert_eq!(proof[1].value(), 2);
    assert_eq!(proof[2].value(), 27);
}

#[test]
fn from_r1cs_rejects_a_mismatched_witness() {
    let r1cs = R1CS::new(exact_gates(), vec![1, 2, 2]);
    let err = match QAP::from_r1cs(r1cs, vec![1, 2]) {
        Ok(_) => panic!("a short witness must be rejected"),
        Err(e) => e,
    };
    assert_eq!(err, ZkError::DimensionMismatch);
}

#[test]
fn evaluate_rejects_mismatched_srs_columns() {
    let witness: Vec<i64> = vec![1, 2, 2];
    let r1cs = R1CS::new(exact_gates(), witness.clone());
    let qap = QAP::from_r1cs(r1cs, witness).expect("reduction must succeed");
    let short = [Vec::new(), Vec::new(), Vec::new()];
    let err = match qap.evaluate(short) {
        Ok(_) => panic!("mismatched columns must be rejected"),
        Err(e) => e,
    };
    assert_eq!(err, ZkError::DimensionMismatch);
}
