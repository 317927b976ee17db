use zkqap::field::{FieldElement64, MODULUS64};
use zkqap::trustedsetup::{generator, mod_exp, mod_sqrt, srs_creator, trustedsetup};

#[test]
fn mod_exp_matches_known_values() {
    assert_eq!(mod_exp(2, 10, 1000), 24);
    assert_eq!(mod_exp(3, 0, 7), 1);
    assert_eq!(mod_exp(5, 3, 13), 8);
    assert_eq!(mod_exp(7, 1, 7), 0);
    // 2^64 mod (2^64 - 59) = 59.
    assert_eq!(mod_exp(2, 64, MODULUS64), 59);
}

#[test]
fn mod_sqrt_finds_roots_of_residues() {
    // The refinement is deterministic: of the two roots of 4, these
    // moduli both yield 2.
    assert_eq!(mod_sqrt(4, 7), Some(2));
    assert_eq!(mod_sqrt(4, 17), Some(2));
    let y = mod_sqrt(4, 17).expect("4 is a quadratic residue mod 17");
    assert_eq!(y * y % 17, 4);
    let y = mod_sqrt(16, 17).expect("16 is a quadratic residue mod 17");
    assert_eq!(y * y % 17, 16);
    assert_eq!(mod_sqrt(1, 17), Some(1));
    assert_eq!(mod_sqrt(0, 17), Some(0));
    let four = mod_sqrt(4, MODULUS64).expect("4 is always a square");
    assert_eq!(
        (four as u128 * four as u128 % MODULUS64 as u128) as u64,
        4
    );
}

#[test]
fn mod_sqrt_rejects_non_residues() {
    // The quadratic residues mod 17 are {1, 2, 4, 8, 9, 13, 15, 16}.
    assert_eq!(mod_sqrt(3, 17), None);
    assert_eq!(mod_sqrt(5, 17), None);
}

#[test]
fn generator_is_deterministic_and_on_curve() {
    let (x, y) = generator().expect("the curve admits a point");
    let p = MODULUS64 as u128;
    let lhs = (y as u128 * y as u128) % p;
    let rhs = ((x as u128 * x as u128 % p) * x as u128 + 3) % p;
    assert_eq!(lhs, rhs);
    // The scan takes the lowest abscissa first: x = 1 gives 1 + 3 = 4,
    // which is a square.
    assert_eq!(x, 1);
    assert_eq!(lhs, 4);
    assert_eq!(generator(), generator());
}

#[test]
fn srs_creator_builds_a_geometric_column() {
    let tau = FieldElement64::new(2);
    let g = FieldElement64::new(3);
    let column = srs_creator(3, tau, g);
    let values: Vec<u64> = column.iter().map(|e| e.value()).collect();
    assert_eq!(values, vec![3, 6, 12, 24]);
}

#[test]
fn trustedsetup_returns_three_columns() {
    let srs = trustedsetup(2).expect("setup must find the generator");
    assert_eq!(srs[0].len(), 3);
    assert_eq!(srs[1].len(), 3);
    assert_eq!(srs[2].len(), 3);
    // Both basis points come from the same deterministic scan.
    assert_eq!(srs[0][0], srs[1][0]);
}
