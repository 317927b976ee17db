//! The quadratic arithmetic program: reduction of an R1CS plus witness into
//! field-element vectors and the quotient polynomial, the prover's
//! commitment evaluation, and the verifier's field identity check.

use vstd::prelude::*;
use vstd::arithmetic::div_mod::{
    lemma_small_mod, lemma_mod_bound, lemma_mod_add_multiples_vanish, lemma_mod_twice,
};
use crate::errors::ZkError;
use crate::field::{FieldElement64, MODULUS64, fadd, fsub, fmul, finv, gcd};
use crate::poly::{
    ints_of, poly_mul, poly_sub, poly_div_q, conv_fits, sub_fits, div_fits, van_fits, vanishing,
    multiply_polynomials, subtract_polynomials, divide_polynomials, generate_t,
    lemma_vanishing_shape,
};
use crate::r1cs::{R1CS, witness_multiply, dot, dot_fits, rows_fit};
use crate::vector::{i64_to_i128_vec, i128_to_u64_vec, i64_to_i128_matrix, i128_to_u64_matrix};

verus! {

/// The views of a sequence of field elements.
pub open spec fn vals_of(s: Seq<FieldElement64>) -> Seq<int> {
    s.map_values(|e: FieldElement64| e@)
}

/// Each entry reduced into the field.
pub open spec fn mod_p_seq(s: Seq<int>) -> Seq<int> {
    s.map_values(|v: int| v % (MODULUS64 as int))
}

/// The dot products of every matrix row with the witness.
pub open spec fn mat_vec(rows: Seq<Seq<i64>>, w: Seq<i64>) -> Seq<int> {
    Seq::new(rows.len(), |i: int| dot(rows[i], w))
}

/// The running field inner product over the first `k` positions.
pub open spec fn inner_prefix(a: Seq<int>, b: Seq<int>, k: int) -> int
    decreases k,
{
    if k <= 0 {
        0
    } else {
        fadd(inner_prefix(a, b, k - 1), fmul(a[k - 1], b[k - 1]))
    }
}

/// The field inner product of two equal-length value sequences.
pub open spec fn inner_spec(a: Seq<int>, b: Seq<int>) -> int {
    inner_prefix(a, b, a.len() as int)
}

/// The running product of the falling factorial after `n` factors.
pub open spec fn falling_spec(x: int, n: nat) -> int
    decreases n,
{
    if n == 0 {
        1
    } else {
        fmul(falling_spec(x, (n - 1) as nat), fsub(x, (n as int) % (MODULUS64 as int)))
    }
}

/// Evaluates the product `(x - 1)(x - 2) ... (x - n)` at the field element
/// `x` directly.
pub fn falling_factorial(x: FieldElement64, n: u64) -> (r: FieldElement64)
    requires
        n < u64::MAX,
    ensures
        r@ == falling_spec(x@, n as nat),
{
    let mut value = FieldElement64::new(1);
    proof {
        lemma_small_mod(1nat, MODULUS64 as nat);
    }
    let mut i: u64 = 1;
    while i <= n
        invariant
            n < u64::MAX,
            1 <= i <= n + 1,
            value@ == falling_spec(x@, (i - 1) as nat),
        decreases n + 1 - i,
    {
        value = value.multiply(x.subtract(FieldElement64::new(i)));
        i = i + 1;
    }
    value
}

/// Maps each signed entry to its unsigned fully reduced field
/// representative, widening so that no reduction can overflow.
pub fn field_compatible_vector(input: &mut Vec<i64>) -> (r: Vec<u64>)
    ensures
        final(input)@ == old(input)@,
        r@.len() == old(input)@.len(),
        forall|i: int|
            0 <= i < r@.len() ==> #[trigger] r@[i] as int == old(input)@[i] as int % (
            MODULUS64 as int),
{
    let mut wide: Vec<i128> = i64_to_i128_vec(input);
    let n = wide.len();
    let mut shifted: Vec<i128> = Vec::new();
    for k in 0..n
        invariant
            input@ == old(input)@,
            n == wide@.len(),
            wide@.len() == input@.len(),
            forall|i: int| 0 <= i < n ==> #[trigger] wide@[i] == input@[i] as i128,
            shifted@.len() == k,
            forall|i: int|
                0 <= i < k ==> #[trigger] shifted@[i] as int == input@[i] as int % (
                MODULUS64 as int) && 0 <= shifted@[i] < MODULUS64 as i128,
    {
        let x: i128 = wide[k];
        let y: i128 = if x >= 0 {
            proof {
                lemma_small_mod(x as nat, MODULUS64 as nat);
            }
            x
        } else {
            proof {
                lemma_mod_add_multiples_vanish(x as int, MODULUS64 as int);
                lemma_small_mod((x + MODULUS64 as int) as nat, MODULUS64 as nat);
            }
            x + MODULUS64 as i128
        };
        shifted.push(y);
    }
    let out = i128_to_u64_vec(&mut shifted);
    out
}

/// `field_compatible_vector` applied to every row of a matrix.
pub fn field_compatible_matrix(input: &mut Vec<Vec<i64>>) -> (r: Vec<Vec<u64>>)
    ensures
        final(input)@ == old(input)@,
        r@.len() == old(input)@.len(),
        forall|i: int| 0 <= i < r@.len() ==> #[trigger] r@[i]@.len() == old(input)@[i]@.len(),
        forall|i: int, j: int|
            0 <= i < r@.len() && 0 <= j < r@[i]@.len()
                ==> #[trigger] r@[i]@[j] as int == old(input)@[i]@[j] as int % (MODULUS64 as int),
{
    let mut wide: Vec<Vec<i128>> = i64_to_i128_matrix(input);
    let n = wide.len();
    let mut shifted: Vec<Vec<i128>> = Vec::new();
    for k in 0..n
        invariant
            input@ == old(input)@,
            n == wide@.len(),
            wide@.len() == input@.len(),
            forall|i: int| 0 <= i < n ==> #[trigger] wide@[i]@.len() == input@[i]@.len(),
            forall|i: int, j: int|
                0 <= i < n && 0 <= j < wide@[i]@.len()
                    ==> #[trigger] wide@[i]@[j] == input@[i]@[j] as i128,
            shifted@.len() == k,
            forall|i: int| 0 <= i < k ==> #[trigger] shifted@[i]@.len() == input@[i]@.len(),
            forall|i: int, j: int|
                0 <= i < k && 0 <= j < shifted@[i]@.len()
                    ==> #[trigger] shifted@[i]@[j] as int == input@[i]@[j] as int % (
                    MODULUS64 as int) && 0 <= shifted@[i]@[j] < MODULUS64 as i128,
    {
        let width = wide[k].len();
        let mut row: Vec<i128> = Vec::new();
        for j in 0..width
            invariant
                input@ == old(input)@,
                n == wide@.len(),
                wide@.len() == input@.len(),
                k < n,
                forall|i: int| 0 <= i < n ==> #[trigger] wide@[i]@.len() == input@[i]@.len(),
                forall|i: int, jj: int|
                    0 <= i < n && 0 <= jj < wide@[i]@.len()
                        ==> #[trigger] wide@[i]@[jj] == input@[i]@[jj] as i128,
                width == wide@[k as int]@.len(),
                row@.len() == j,
                forall|jj: int|
                    0 <= jj < j ==> #[trigger] row@[jj] as int == input@[k as int]@[jj] as int % (
                    MODULUS64 as int) && 0 <= row@[jj] < MODULUS64 as i128,
        {
            let x: i128 = wide[k][j];
            let y: i128 = if x >= 0 {
                proof {
                    lemma_small_mod(x as nat, MODULUS64 as nat);
                }
                x
            } else {
                proof {
                    lemma_mod_add_multiples_vanish(x as int, MODULUS64 as int);
                    lemma_small_mod((x + MODULUS64 as int) as nat, MODULUS64 as nat);
                }
                x + MODULUS64 as i128
            };
            row.push(y);
        }
        shifted.push(row);
    }
    let out = i128_to_u64_matrix(&mut shifted);
    out
}

/// An elementwise copy of a witness vector.
fn copy_witness(w: &Vec<i64>) -> (r: Vec<i64>)
    ensures
        r@ == w@,
{
    let mut out: Vec<i64> = Vec::new();
    let n = w.len();
    for k in 0..n
        invariant
            n == w@.len(),
            out@.len() == k,
            forall|i: int| 0 <= i < k ==> #[trigger] out@[i] == w@[i],
    {
        out.push(w[k]);
    }
    proof {
        assert(out@ =~= w@);
    }
    out
}

/// A quadratic arithmetic program built once from an R1CS and a witness:
/// the three per-constraint field vectors, the constraint count, and the
/// quotient polynomial of `(A*B - C) / T`.
pub struct QAP {
    u: Vec<FieldElement64>,
    v: Vec<FieldElement64>,
    w: Vec<FieldElement64>,
    t: u64,
    h: Vec<FieldElement64>,
}

impl QAP {
    /// The values of the left per-constraint vector.
    pub closed spec fn u_spec(self) -> Seq<int> {
        vals_of(self.u@)
    }

    /// The values of the right per-constraint vector.
    pub closed spec fn v_spec(self) -> Seq<int> {
        vals_of(self.v@)
    }

    /// The values of the output per-constraint vector.
    pub closed spec fn w_spec(self) -> Seq<int> {
        vals_of(self.w@)
    }

    /// The values of the quotient polynomial's coefficients.
    pub closed spec fn h_spec(self) -> Seq<int> {
        vals_of(self.h@)
    }

    /// The constraint count.
    pub closed spec fn t_spec(self) -> int {
        self.t as int
    }

    /// Every intermediate of the reduction stays within the machine width.
    pub open spec fn qap_inputs_fit(r1cs: R1CS, w: Seq<i64>) -> bool {
        &&& rows_fit(r1cs.left_rows(), w)
        &&& rows_fit(r1cs.right_rows(), w)
        &&& rows_fit(r1cs.output_rows(), w)
        &&& van_fits(r1cs.num_constraints() as nat)
        &&& conv_fits(mat_vec(r1cs.left_rows(), w), mat_vec(r1cs.right_rows(), w))
        &&& sub_fits(
            poly_mul(mat_vec(r1cs.left_rows(), w), mat_vec(r1cs.right_rows(), w)),
            mat_vec(r1cs.output_rows(), w),
        )
        &&& div_fits(
            poly_sub(
                poly_mul(mat_vec(r1cs.left_rows(), w), mat_vec(r1cs.right_rows(), w)),
                mat_vec(r1cs.output_rows(), w),
            ),
            vanishing(r1cs.num_constraints() as nat),
        )
    }

    /// Reduces an R1CS and witness to a QAP: per-constraint dot products,
    /// the vanishing polynomial, the quotient `H = (A*B - C) / T`, and the
    /// conversion of all four vectors into the field.
    pub fn from_r1cs(r1cs: R1CS, witness: Vec<i64>) -> (r: Result<QAP, ZkError>)
        requires
            r1cs.num_constraints() >= 2,
            r1cs.num_constraints() * 2 <= usize::MAX,
            r1cs.num_constraints() <= i64::MAX,
            r1cs.width() == witness@.len() ==> Self::qap_inputs_fit(r1cs, witness@),
        ensures
            r matches Ok(q) ==> {
                &&& r1cs.width() == witness@.len()
                &&& q.t_spec() == r1cs.num_constraints()
                &&& q.u_spec() == mod_p_seq(mat_vec(r1cs.left_rows(), witness@))
                &&& q.v_spec() == mod_p_seq(mat_vec(r1cs.right_rows(), witness@))
                &&& q.w_spec() == mod_p_seq(mat_vec(r1cs.output_rows(), witness@))
                &&& q.h_spec() == mod_p_seq(
                    poly_div_q(
                        poly_sub(
                            poly_mul(
                                mat_vec(r1cs.left_rows(), witness@),
                                mat_vec(r1cs.right_rows(), witness@),
                            ),
                            mat_vec(r1cs.output_rows(), witness@),
                        ),
                        vanishing(r1cs.num_constraints() as nat),
                    ),
                )
            },
            r matches Err(e) ==> e == ZkError::DimensionMismatch && r1cs.width()
                != witness@.len(),
    {
        let l_rows = r1cs.left();
        let r_rows = r1cs.right();
        let o_rows = r1cs.output();
        let ghost lr = r1cs.left_rows();
        let ghost rr = r1cs.right_rows();
        let ghost or = r1cs.output_rows();
        let ghost ws = witness@;
        let ghost l_rows_s = l_rows@;

        proof {
            lemma_fits_bridge(r1cs, l_rows@, r1cs.left_rows(), witness@);
            lemma_fits_bridge(r1cs, r_rows@, r1cs.right_rows(), witness@);
            lemma_fits_bridge(r1cs, o_rows@, r1cs.output_rows(), witness@);
        }
        let mut l_vec = match witness_multiply(l_rows, copy_witness(&witness)) {
            Ok(v) => v,
            Err(_e) => {
                return Err(ZkError::DimensionMismatch);
            },
        };
        let mut r_vec = match witness_multiply(r_rows, copy_witness(&witness)) {
            Ok(v) => v,
            Err(_e) => {
                return Err(ZkError::DimensionMismatch);
            },
        };
        let mut o_vec = match witness_multiply(o_rows, copy_witness(&witness)) {
            Ok(v) => v,
            Err(_e) => {
                return Err(ZkError::DimensionMismatch);
            },
        };
        proof {
            assert(l_rows_s[0]@.len() == witness@.len());
            assert(r1cs.width() == witness@.len());
            assert(QAP::qap_inputs_fit(r1cs, ws));
            assert(ints_of(l_vec@) =~= mat_vec(lr, ws));
            assert(ints_of(r_vec@) =~= mat_vec(rr, ws));
            assert(ints_of(o_vec@) =~= mat_vec(or, ws));
        }
        let t_val = o_vec.len();
        proof {
            lemma_vanishing_shape(t_val as nat);
        }
        let t_poly = generate_t(t_val);
        let uv = multiply_polynomials(&l_vec, &r_vec);
        let uvw = subtract_polynomials(&uv, &o_vec);
        let division = divide_polynomials(&uvw, &t_poly);
        let mut h = division.0;
        let ghost h_ints = poly_div_q(
            poly_sub(poly_mul(mat_vec(lr, ws), mat_vec(rr, ws)), mat_vec(or, ws)),
            vanishing(t_val as nat),
        );
        proof {
            assert(ints_of(h@) == h_ints);
        }

        let mut lc = field_compatible_vector(&mut l_vec);
        let left = FieldElement64::convert1D(&mut lc);
        let mut rc = field_compatible_vector(&mut r_vec);
        let right = FieldElement64::convert1D(&mut rc);
        let mut oc = field_compatible_vector(&mut o_vec);
        let output = FieldElement64::convert1D(&mut oc);
        let mut hc = field_compatible_vector(&mut h);
        let h_vec = FieldElement64::convert1D(&mut hc);
        proof {
            lemma_reduce_compose(l_vec@, lc@, left@, mat_vec(lr, ws));
            lemma_reduce_compose(r_vec@, rc@, right@, mat_vec(rr, ws));
            lemma_reduce_compose(o_vec@, oc@, output@, mat_vec(or, ws));
            lemma_reduce_compose(h@, hc@, h_vec@, h_ints);
        }

        Ok(
            QAP {
                u: left,
                v: right,
                w: output,
                t: t_val as u64,
                h: h_vec,
            },
        )
    }

    // Prover
    /// Computes the three commitments: inner products of the QAP vectors
    /// with the SRS columns, the third combining the output vector and the
    /// quotient polynomial.
    pub fn evaluate(&self, srs_values: [Vec<FieldElement64>; 3]) -> (r: Result<
        [FieldElement64; 3],
        ZkError,
    >)
        ensures
            r matches Ok(p) ==> {
                &&& self.u_spec().len() == srs_values@[0]@.len()
                &&& self.v_spec().len() == srs_values@[1]@.len()
                &&& self.w_spec().len() == srs_values@[0]@.len()
                &&& self.h_spec().len() == srs_values@[2]@.len()
                &&& p@[0]@ == inner_spec(self.u_spec(), vals_of(srs_values@[0]@))
                &&& p@[1]@ == inner_spec(self.v_spec(), vals_of(srs_values@[1]@))
                &&& p@[2]@ == fadd(
                    inner_spec(self.w_spec(), vals_of(srs_values@[0]@)),
                    inner_spec(self.h_spec(), vals_of(srs_values@[2]@)),
                )
            },
            r matches Err(e) ==> e == ZkError::DimensionMismatch && !(self.u_spec().len()
                == srs_values@[0]@.len() && self.v_spec().len() == srs_values@[1]@.len()
                && self.w_spec().len() == srs_values@[0]@.len() && self.h_spec().len()
                == srs_values@[2]@.len()),
    {
        let a1 = match inner_product(&self.u, &srs_values[0]) {
            Ok(v) => v,
            Err(e) => {
                return Err(e);
            },
        };
        let b2 = match inner_product(&self.v, &srs_values[1]) {
            Ok(v) => v,
            Err(e) => {
                return Err(e);
            },
        };
        let w1 = match inner_product(&self.w, &srs_values[0]) {
            Ok(v) => v,
            Err(e) => {
                return Err(e);
            },
        };
        let h1 = match inner_product(&self.h, &srs_values[2]) {
            Ok(v) => v,
            Err(e) => {
                return Err(e);
            },
        };
        let c1 = w1.add(h1);
        Ok([a1, b2, c1])
    }

    // Verifier
    /// Checks the single field identity `a1 * b2 == c1 * srs[1][0]`.
    pub fn verify(prover: [FieldElement64; 3], srs_values: [Vec<FieldElement64>; 3]) -> (r: Result<
        (),
        ZkError,
    >)
        requires
            srs_values@[1]@.len() >= 1,
        ensures
            r matches Ok(()) <==> fmul(prover@[0]@, prover@[1]@) == fmul(
                prover@[2]@,
                srs_values@[1]@[0]@,
            ),
            r matches Err(e) ==> e == ZkError::VerificationFailure,
    {
        let lhs = prover[0].multiply(prover[1]);
        let rhs = prover[2].multiply(srs_values[1][0]);
        if lhs.value() == rhs.value() {
            Ok(())
        } else {
            Err(ZkError::VerificationFailure)
        }
    }

    /// The constraint count the QAP was built over.
    pub fn t_val(&self) -> (r: u64)
        ensures
            r as int == self.t_spec(),
    {
        self.t
    }
}

/// Composing the unsigned shift with field construction reduces each
/// signed entry into the field.
proof fn lemma_reduce_compose(
    signed: Seq<i64>,
    unsigned: Seq<u64>,
    elems: Seq<FieldElement64>,
    source: Seq<int>,
)
    requires
        ints_of(signed) == source,
        unsigned.len() == signed.len(),
        forall|i: int|
            0 <= i < unsigned.len() ==> #[trigger] unsigned[i] as int == signed[i] as int % (
            MODULUS64 as int),
        elems.len() == unsigned.len(),
        forall|i: int|
            0 <= i < elems.len() ==> #[trigger] elems[i]@ == unsigned[i] as int % (
            MODULUS64 as int),
    ensures
        vals_of(elems) == mod_p_seq(source),
{
    assert forall|i: int| 0 <= i < elems.len() implies #[trigger] elems[i]@ == source[i] % (
    MODULUS64 as int) by {
        lemma_mod_twice(signed[i] as int, MODULUS64 as int);
    }
    assert(vals_of(elems) =~= mod_p_seq(source));
}

/// Carries the fit conditions of the reduction onto the matrix copies that
/// the dot products are taken over.
proof fn lemma_fits_bridge(r1cs: R1CS, rows: Seq<Vec<i64>>, spec_rows: Seq<Seq<i64>>, w: Seq<i64>)
    requires
        r1cs.num_constraints() >= 1,
        rows.len() == spec_rows.len(),
        rows.len() == r1cs.num_constraints(),
        forall|i: int| 0 <= i < rows.len() ==> #[trigger] rows[i]@ == spec_rows[i],
        forall|i: int| 0 <= i < rows.len() ==> #[trigger] rows[i]@.len() == r1cs.width(),
        r1cs.width() == w.len() ==> QAP::qap_inputs_fit(r1cs, w),
        spec_rows == r1cs.left_rows() || spec_rows == r1cs.right_rows() || spec_rows
            == r1cs.output_rows(),
    ensures
        (forall|i: int| 0 <= i < rows.len() ==> #[trigger] rows[i]@.len() == w.len()) ==> (
        forall|i: int| 0 <= i < rows.len() ==> dot_fits(#[trigger] rows[i]@, w)),
{
    if forall|i: int| 0 <= i < rows.len() ==> #[trigger] rows[i]@.len() == w.len() {
        assert(rows[0]@.len() == w.len());
        assert(r1cs.width() == w.len());
        assert forall|i: int| 0 <= i < rows.len() implies dot_fits(#[trigger] rows[i]@, w) by {
            assert(rows[i]@ == spec_rows[i]);
            if spec_rows == r1cs.left_rows() {
                assert(rows_fit(r1cs.left_rows(), w));
                assert(dot_fits(r1cs.left_rows()[i], w));
            } else if spec_rows == r1cs.right_rows() {
                assert(rows_fit(r1cs.right_rows(), w));
                assert(dot_fits(r1cs.right_rows()[i], w));
            } else {
                assert(rows_fit(r1cs.output_rows(), w));
                assert(dot_fits(r1cs.output_rows()[i], w));
            }
        }
    }
}

/// Field inner product of two vectors; they must have equal length, else
/// the product is refused.
pub fn inner_product(vec1: &Vec<FieldElement64>, vec2: &Vec<FieldElement64>) -> (r: Result<
    FieldElement64,
    ZkError,
>)
    ensures
        r matches Ok(v) ==> vec1@.len() == vec2@.len() && v@ == inner_spec(
            vals_of(vec1@),
            vals_of(vec2@),
        ),
        r matches Err(e) ==> e == ZkError::DimensionMismatch && vec1@.len() != vec2@.len(),
{
    if vec1.len() != vec2.len() {
        return Err(ZkError::DimensionMismatch);
    }
    let mut result = FieldElement64::new(0);
    proof {
        lemma_small_mod(0nat, MODULUS64 as nat);
    }
    let n = vec1.len();
    for k in 0..n
        invariant
            n == vec1@.len(),
            vec1@.len() == vec2@.len(),
            result@ == inner_prefix(vals_of(vec1@), vals_of(vec2@), k as int),
    {
        result = result.add(vec1[k].multiply(vec2[k]));
    }
    Ok(result)
}

/// The running value of the `i`-th Lagrange basis term after the factors
/// for sample indices below `j` have been folded in.
pub open spec fn lagrange_term(x: int, xs: Seq<int>, y0: int, i: int, j: int) -> int
    decreases j,
{
    if j <= 0 {
        y0
    } else if j - 1 == i {
        lagrange_term(x, xs, y0, i, j - 1)
    } else {
        fmul(
            fmul(lagrange_term(x, xs, y0, i, j - 1), fsub(x, xs[j - 1])),
            finv(fsub(xs[i], xs[j - 1])),
        )
    }
}

/// The running Lagrange interpolation sum over the first `k` basis terms.
pub open spec fn lagrange_sum(x: int, xs: Seq<int>, ys: Seq<int>, k: int) -> int
    decreases k,
{
    if k <= 0 {
        0
    } else {
        fadd(
            lagrange_sum(x, xs, ys, k - 1),
            lagrange_term(x, xs, ys[k - 1], k - 1, xs.len() as int),
        )
    }
}

/// Classic quadratic-time Lagrange interpolation at `x`: none for an empty
/// sample set, and none when two sample abscissas coincide, since their
/// difference then has no inverse; a value therefore comes back only for
/// pairwise distinct abscissas.
pub fn lagrange_interpolation(
    x: FieldElement64,
    x_points: &Vec<FieldElement64>,
    y_points: &Vec<FieldElement64>,
) -> (r: Option<FieldElement64>)
    requires
        y_points@.len() == x_points@.len(),
    ensures
        x_points@.len() == 0 ==> r is None,
        r matches Some(v) ==> x_points@.len() > 0 && v@ == lagrange_sum(
            x@,
            vals_of(x_points@),
            vals_of(y_points@),
            x_points@.len() as int,
        ),
        r is Some ==> forall|i: int, j: int|
            0 <= i < x_points@.len() && 0 <= j < x_points@.len() && i != j ==> #[trigger] fsub(
                vals_of(x_points@)[i],
                vals_of(x_points@)[j],
            ) != 0,
        r is None ==> x_points@.len() == 0 || exists|i: int, j: int|
            0 <= i < x_points@.len() && 0 <= j < x_points@.len() && i != j && gcd(
                MODULUS64 as nat,
                fsub(vals_of(x_points@)[i], vals_of(x_points@)[j]) as nat,
            ) != 1,
{
    if x_points.len() == 0 {
        return None;
    }
    let ghost xs = vals_of(x_points@);
    let ghost ys = vals_of(y_points@);

    let mut result = FieldElement64::new(0);
    proof {
        lemma_small_mod(0nat, MODULUS64 as nat);
    }
    let n = x_points.len();
    for i in 0..n
        invariant
            n == x_points@.len(),
            y_points@.len() == x_points@.len(),
            n > 0,
            xs == vals_of(x_points@),
            ys == vals_of(y_points@),
            result@ == lagrange_sum(x@, xs, ys, i as int),
            forall|ii: int, jj: int|
                0 <= ii < i && 0 <= jj < n && ii != jj ==> #[trigger] fsub(xs[ii], xs[jj]) != 0,
    {
        let mut term = y_points[i];
        proof {
            assert(term@ == lagrange_term(x@, xs, ys[i as int], i as int, 0));
        }
        for j in 0..n
            invariant
                n == x_points@.len(),
                y_points@.len() == x_points@.len(),
                i < n,
                xs == vals_of(x_points@),
                ys == vals_of(y_points@),
                term@ == lagrange_term(x@, xs, ys[i as int], i as int, j as int),
                forall|ii: int, jj: int|
                    0 <= ii < i && 0 <= jj < n && ii != jj ==> #[trigger] fsub(xs[ii], xs[jj])
                        != 0,
                forall|jj: int|
                    0 <= jj < j && jj != i ==> #[trigger] fsub(xs[i as int], xs[jj]) != 0,
        {
            if i != j {
                let num = x.subtract(x_points[j]);
                let den = x_points[i].subtract(x_points[j]);
                let den_inv = match den.inverse() {
                    Ok(v) => v,
                    Err(_e) => {
                        proof {
                            assert(fsub(xs[i as int], xs[j as int]) == den@);
                            lemma_mod_bound(
                                xs[i as int] - xs[j as int],
                                MODULUS64 as int,
                            );
                        }
                        return None;
                    },
                };
                proof {
                    assert(exists|b: int|
                        0 <= b < MODULUS64 as int && fmul(den@, b) == 1) by {
                        assert(0 <= den_inv@ < MODULUS64 as int && fmul(den@, den_inv@) == 1);
                    }
                    assert(den_inv@ == finv(den@));
                    assert(den@ == fsub(xs[i as int], xs[j as int]));
                    assert(num@ == fsub(x@, xs[j as int]));
                    // An invertible difference cannot be zero.
                    assert(gcd(MODULUS64 as nat, 0nat) == MODULUS64 as nat);
                    assert(fsub(xs[i as int], xs[j as int]) != 0);
                }
                term = term.multiply(num).multiply(den_inv);
            }
        }
        result = result.add(term);
    }
    Some(result)
}

} // verus!
