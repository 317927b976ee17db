//! Rank-1 constraint systems: three coefficient matrices built by
//! scattering single-term constraints, matrix-witness products, and the
//! Hadamard identity check `(L*w) o (R*w) == O*w`.

use vstd::prelude::*;
use crate::errors::ZkError;

verus! {

/// One term of a constraint: a variable index paired with a signed
/// coefficient.
#[derive(Clone, Copy, Debug)]
pub struct Element {
    variable: usize,
    coeff: i64,
}

impl Element {
    /// The index of the witness variable this term multiplies.
    pub closed spec fn var_spec(self) -> int {
        self.variable as int
    }

    /// The signed coefficient of this term.
    pub closed spec fn coeff_spec(self) -> int {
        self.coeff as int
    }

    pub fn new(var: usize, coeff: i64) -> (r: Element)
        ensures
            r.var_spec() == var as int,
            r.coeff_spec() == coeff as int,
    {
        Element { variable: var, coeff: coeff }
    }
}

/// A single multiplication gate: one term each for the left, right and
/// output positions of an R1CS row.
#[derive(Clone, Copy, Debug)]
pub struct Constraint {
    x: Element,
    y: Element,
    z: Element,
}

impl Constraint {
    /// The left term.
    pub closed spec fn x_spec(self) -> Element {
        self.x
    }

    /// The right term.
    pub closed spec fn y_spec(self) -> Element {
        self.y
    }

    /// The output term.
    pub closed spec fn z_spec(self) -> Element {
        self.z
    }

    pub fn new(e1: Element, e2: Element, e3: Element) -> (r: Constraint)
        ensures
            r.x_spec() == e1,
            r.y_spec() == e2,
            r.z_spec() == e3,
    {
        Constraint { x: e1, y: e2, z: e3 }
    }
}

/// The sum of the first `k` products `row[j] * w[j]`.
pub open spec fn dot_prefix(row: Seq<i64>, w: Seq<i64>, k: int) -> int
    decreases k,
{
    if k <= 0 {
        0
    } else {
        dot_prefix(row, w, k - 1) + row[k - 1] * w[k - 1]
    }
}

/// The dot product of a matrix row with the witness.
pub open spec fn dot(row: Seq<i64>, w: Seq<i64>) -> int {
    dot_prefix(row, w, w.len() as int)
}

/// Every product and every partial sum of the dot product stays within the
/// machine width.
pub open spec fn dot_fits(row: Seq<i64>, w: Seq<i64>) -> bool {
    &&& forall|k: int| 0 <= k < w.len() ==> i64::MIN <= #[trigger] (row[k] * w[k]) <= i64::MAX
    &&& forall|k: int| 0 <= k <= w.len() ==> i64::MIN <= #[trigger] dot_prefix(row, w, k)
        <= i64::MAX
}

/// `dot_fits` for every row of a matrix.
pub open spec fn rows_fit(rows: Seq<Seq<i64>>, w: Seq<i64>) -> bool {
    forall|i: int| 0 <= i < rows.len() ==> dot_fits(#[trigger] rows[i], w)
}

/// Multiplies each row of `matrix` with `witness`; every row must have
/// exactly the witness's length, else the whole product is refused.
pub fn witness_multiply(matrix: Vec<Vec<i64>>, witness: Vec<i64>) -> (r: Result<Vec<i64>, ZkError>)
    requires
        (forall|i: int| 0 <= i < matrix@.len() ==> #[trigger] matrix@[i]@.len() == witness@.len())
            ==> (forall|i: int|
            0 <= i < matrix@.len() ==> dot_fits(#[trigger] matrix@[i]@, witness@)),
    ensures
        r matches Ok(v) ==> {
            &&& forall|i: int|
                0 <= i < matrix@.len() ==> #[trigger] matrix@[i]@.len() == witness@.len()
            &&& v@.len() == matrix@.len()
            &&& forall|i: int|
                0 <= i < v@.len() ==> #[trigger] v@[i] as int == dot(matrix@[i]@, witness@)
        },
        r matches Err(e) ==> {
            &&& e == ZkError::DimensionMismatch
            &&& !(forall|i: int|
                0 <= i < matrix@.len() ==> #[trigger] matrix@[i]@.len() == witness@.len())
        },
{
    let n = matrix.len();
    for i in 0..n
        invariant
            n == matrix@.len(),
            forall|ii: int| 0 <= ii < i ==> #[trigger] matrix@[ii]@.len() == witness@.len(),
    {
        if matrix[i].len() != witness.len() {
            return Err(ZkError::DimensionMismatch);
        }
    }
    let mut vector: Vec<i64> = Vec::new();
    let w = witness.len();
    for i in 0..n
        invariant
            n == matrix@.len(),
            w == witness@.len(),
            forall|ii: int| 0 <= ii < n ==> #[trigger] matrix@[ii]@.len() == witness@.len(),
            forall|ii: int|
                0 <= ii < n ==> dot_fits(#[trigger] matrix@[ii]@, witness@),
            vector@.len() == i,
            forall|ii: int|
                0 <= ii < i ==> #[trigger] vector@[ii] as int == dot(matrix@[ii]@, witness@),
    {
        let mut sum: i64 = 0;
        let mut count: usize = 0;
        while count < w
            invariant
                n == matrix@.len(),
                w == witness@.len(),
                i < n,
                count <= w,
                matrix@[i as int]@.len() == w,
                dot_fits(matrix@[i as int]@, witness@),
                sum as int == dot_prefix(matrix@[i as int]@, witness@, count as int),
            decreases w - count,
        {
            let prod: i64 = matrix[i][count] * witness[count];
            proof {
                assert(dot_prefix(matrix@[i as int]@, witness@, count + 1) == dot_prefix(
                    matrix@[i as int]@,
                    witness@,
                    count as int,
                ) + matrix@[i as int]@[count as int] * witness@[count as int]);
            }
            sum = sum + prod;
            count = count + 1;
        }
        vector.push(sum);
    }
    Ok(vector)
}

/// The elementwise product of two vectors, over the leading prefix of the
/// first operand's length.
pub fn hadamard_multiply(m1: Vec<i64>, m2: Vec<i64>) -> (r: Vec<i64>)
    requires
        m1@.len() <= m2@.len(),
        forall|i: int| 0 <= i < m1@.len() ==> i64::MIN <= #[trigger] (m1@[i] * m2@[i]) <= i64::MAX,
    ensures
        r@.len() == m1@.len(),
        forall|i: int| 0 <= i < r@.len() ==> #[trigger] r@[i] as int == m1@[i] * m2@[i],
{
    let mut vector: Vec<i64> = Vec::new();
    let mut count: usize = 0;
    while count < m1.len()
        invariant
            m1@.len() <= m2@.len(),
            forall|i: int|
                0 <= i < m1@.len() ==> i64::MIN <= #[trigger] (m1@[i] * m2@[i]) <= i64::MAX,
            count <= m1@.len(),
            vector@.len() == count,
            forall|i: int| 0 <= i < count ==> #[trigger] vector@[i] as int == m1@[i] * m2@[i],
        decreases m1@.len() - count,
    {
        vector.push(m1[count] * m2[count]);
        count = count + 1;
    }
    vector
}

/// A rank-1 constraint system: left, right and output matrices of identical
/// shape, one row per constraint.
pub struct R1CS {
    l: Vec<Vec<i64>>,
    r: Vec<Vec<i64>>,
    o: Vec<Vec<i64>>,
}

impl R1CS {
    /// The number of witness variables each row spans.
    pub closed spec fn width(self) -> int {
        if self.l@.len() > 0 {
            self.l@[0]@.len() as int
        } else {
            0
        }
    }

    /// The number of constraint rows.
    pub closed spec fn num_constraints(self) -> int {
        self.l@.len() as int
    }

    /// The rows of the left matrix.
    pub closed spec fn left_rows(self) -> Seq<Seq<i64>> {
        Seq::new(self.l@.len(), |i: int| self.l@[i]@)
    }

    /// The rows of the right matrix.
    pub closed spec fn right_rows(self) -> Seq<Seq<i64>> {
        Seq::new(self.r@.len(), |i: int| self.r@[i]@)
    }

    /// The rows of the output matrix.
    pub closed spec fn output_rows(self) -> Seq<Seq<i64>> {
        Seq::new(self.o@.len(), |i: int| self.o@[i]@)
    }

    /// All three matrices share one shape.
    #[verifier::type_invariant]
    spec fn wf(self) -> bool {
        &&& self.l@.len() == self.r@.len()
        &&& self.l@.len() == self.o@.len()
        &&& forall|i: int| 0 <= i < self.l@.len() ==> #[trigger] self.l@[i]@.len() == self.width()
        &&& forall|i: int| 0 <= i < self.r@.len() ==> #[trigger] self.r@[i]@.len() == self.width()
        &&& forall|i: int| 0 <= i < self.o@.len() ==> #[trigger] self.o@[i]@.len() == self.width()
    }

    /// An all-zero system of the given number of rows (one by default),
    /// sized for the given witness.
    pub fn blank(witness: Vec<i64>, eqn_count: Option<usize>) -> (r: R1CS)
        ensures
            r.num_constraints() == match eqn_count {
                Some(n) => n as int,
                None => 1,
            },
            r.num_constraints() > 0 ==> r.width() == witness@.len(),
            forall|i: int, j: int|
                0 <= i < r.num_constraints() && 0 <= j < r.width()
                    ==> #[trigger] r.left_rows()[i][j] == 0 && r.right_rows()[i][j] == 0
                    && r.output_rows()[i][j] == 0,
    {
        let witnesses = witness.len();
        let eqns: usize = match eqn_count {
            Some(n) => n,
            None => 1,
        };
        R1CS {
            l: zero_matrix(eqns, witnesses),
            r: zero_matrix(eqns, witnesses),
            o: zero_matrix(eqns, witnesses),
        }
    }

    /// Builds the three matrices by scattering each constraint's three
    /// coefficients into its row, at each term's variable index; every
    /// other entry is zero.
    pub fn new(constraints: Vec<Constraint>, witness: Vec<i64>) -> (r: R1CS)
        requires
            forall|i: int|
                0 <= i < constraints@.len()
                    ==> (#[trigger] constraints@[i]).x_spec().var_spec() < witness@.len()
                    && constraints@[i].y_spec().var_spec() < witness@.len()
                    && constraints@[i].z_spec().var_spec() < witness@.len(),
        ensures
            r.num_constraints() == constraints@.len(),
            constraints@.len() > 0 ==> r.width() == witness@.len(),
            forall|i: int, j: int|
                0 <= i < constraints@.len() && 0 <= j < witness@.len()
                    ==> #[trigger] r.left_rows()[i][j] as int == (if j == constraints@[i].x_spec().var_spec() {
                    constraints@[i].x_spec().coeff_spec()
                } else {
                    0
                }),
            forall|i: int, j: int|
                0 <= i < constraints@.len() && 0 <= j < witness@.len()
                    ==> #[trigger] r.right_rows()[i][j] as int == (if j == constraints@[i].y_spec().var_spec() {
                    constraints@[i].y_spec().coeff_spec()
                } else {
                    0
                }),
            forall|i: int, j: int|
                0 <= i < constraints@.len() && 0 <= j < witness@.len()
                    ==> #[trigger] r.output_rows()[i][j] as int == (if j == constraints@[i].z_spec().var_spec() {
                    constraints@[i].z_spec().coeff_spec()
                } else {
                    0
                }),
    {
        let witnesses = witness.len();
        let eqn_count = constraints.len();
        let mut left: Vec<Vec<i64>> = Vec::new();
        let mut right: Vec<Vec<i64>> = Vec::new();
        let mut out: Vec<Vec<i64>> = Vec::new();

        let mut count: usize = 0;
        while count < eqn_count
            invariant
                eqn_count == constraints@.len(),
                witnesses == witness@.len(),
                count <= eqn_count,
                forall|i: int|
                    0 <= i < constraints@.len()
                        ==> (#[trigger] constraints@[i]).x_spec().var_spec() < witness@.len()
                        && constraints@[i].y_spec().var_spec() < witness@.len()
                        && constraints@[i].z_spec().var_spec() < witness@.len(),
                left@.len() == count,
                right@.len() == count,
                out@.len() == count,
                forall|i: int| 0 <= i < count ==> #[trigger] left@[i]@.len() == witnesses,
                forall|i: int| 0 <= i < count ==> #[trigger] right@[i]@.len() == witnesses,
                forall|i: int| 0 <= i < count ==> #[trigger] out@[i]@.len() == witnesses,
                forall|i: int, j: int|
                    0 <= i < count && 0 <= j < witnesses
                        ==> #[trigger] left@[i]@[j] as int == (if j == constraints@[i].x_spec().var_spec() {
                        constraints@[i].x_spec().coeff_spec()
                    } else {
                        0
                    }),
                forall|i: int, j: int|
                    0 <= i < count && 0 <= j < witnesses
                        ==> #[trigger] right@[i]@[j] as int == (if j == constraints@[i].y_spec().var_spec() {
                        constraints@[i].y_spec().coeff_spec()
                    } else {
                        0
                    }),
                forall|i: int, j: int|
                    0 <= i < count && 0 <= j < witnesses
                        ==> #[trigger] out@[i]@[j] as int == (if j == constraints@[i].z_spec().var_spec() {
                        constraints@[i].z_spec().coeff_spec()
                    } else {
                        0
                    }),
            decreases eqn_count - count,
        {
            let c = constraints[count];
            let mut lrow = zero_row(witnesses);
            lrow[c.x.variable] = c.x.coeff;
            left.push(lrow);
            let mut rrow = zero_row(witnesses);
            rrow[c.y.variable] = c.y.coeff;
            right.push(rrow);
            let mut orow = zero_row(witnesses);
            orow[c.z.variable] = c.z.coeff;
            out.push(orow);
            count = count + 1;
        }

        R1CS { l: left, r: right, o: out }
    }

    /// A copy of the left matrix.
    pub fn left(&self) -> (r: Vec<Vec<i64>>)
        ensures
            r@.len() == self.num_constraints(),
            self.left_rows().len() == self.num_constraints(),
            forall|i: int| 0 <= i < r@.len() ==> #[trigger] r@[i]@ == self.left_rows()[i],
            forall|i: int| 0 <= i < r@.len() ==> #[trigger] r@[i]@.len() == self.width(),
    {
        proof {
            use_type_invariant(&*self);
        }
        copy_matrix(&self.l)
    }

    /// A copy of the right matrix.
    pub fn right(&self) -> (r: Vec<Vec<i64>>)
        ensures
            r@.len() == self.num_constraints(),
            self.right_rows().len() == self.num_constraints(),
            forall|i: int| 0 <= i < r@.len() ==> #[trigger] r@[i]@ == self.right_rows()[i],
            forall|i: int| 0 <= i < r@.len() ==> #[trigger] r@[i]@.len() == self.width(),
    {
        proof {
            use_type_invariant(&*self);
        }
        copy_matrix(&self.r)
    }

    /// A copy of the output matrix.
    pub fn output(&self) -> (r: Vec<Vec<i64>>)
        ensures
            r@.len() == self.num_constraints(),
            self.output_rows().len() == self.num_constraints(),
            forall|i: int| 0 <= i < r@.len() ==> #[trigger] r@[i]@ == self.output_rows()[i],
            forall|i: int| 0 <= i < r@.len() ==> #[trigger] r@[i]@.len() == self.width(),
    {
        proof {
            use_type_invariant(&*self);
        }
        copy_matrix(&self.o)
    }

    /// Every product and partial sum met while verifying a witness stays
    /// within the machine width.
    pub open spec fn verify_fits(self, w: Seq<i64>) -> bool {
        &&& rows_fit(self.left_rows(), w)
        &&& rows_fit(self.right_rows(), w)
        &&& rows_fit(self.output_rows(), w)
        &&& forall|i: int|
            0 <= i < self.num_constraints() ==> i64::MIN <= #[trigger] (dot(
                self.left_rows()[i],
                w,
            ) * dot(self.right_rows()[i], w)) <= i64::MAX
    }

    /// Checks the Hadamard identity `(L*w) o (R*w) == O*w` for a candidate
    /// witness: succeeds silently exactly when every row's left-right
    /// product equals its output value.
    pub fn verify(&self, witness: Vec<i64>) -> (res: Result<(), ZkError>)
        requires
            self.num_constraints() > 0,
            self.width() == witness@.len() ==> self.verify_fits(witness@),
        ensures
            res matches Ok(()) ==> {
                &&& self.width() == witness@.len()
                &&& forall|i: int|
                    0 <= i < self.num_constraints() ==> #[trigger] (dot(
                        self.left_rows()[i],
                        witness@,
                    ) * dot(self.right_rows()[i], witness@)) == dot(
                        self.output_rows()[i],
                        witness@,
                    )
            },
            res matches Err(e) ==> e == ZkError::DimensionMismatch || e
                == ZkError::ConstraintViolation,
            res matches Err(e) && e == ZkError::DimensionMismatch ==> self.width()
                != witness@.len(),
            res matches Err(e) && e == ZkError::ConstraintViolation ==> {
                &&& self.width() == witness@.len()
                &&& exists|i: int|
                    0 <= i < self.num_constraints() && #[trigger] (dot(
                        self.left_rows()[i],
                        witness@,
                    ) * dot(self.right_rows()[i], witness@)) != dot(
                        self.output_rows()[i],
                        witness@,
                    )
            },
    {
        proof {
            use_type_invariant(&*self);
        }
        if self.l[0].len() != witness.len() {
            return Err(ZkError::DimensionMismatch);
        }

        let l_mult = match witness_multiply(self.left(), clone_witness(&witness)) {
            Ok(v) => v,
            Err(e) => {
                return Err(e);
            },
        };
        let r_mult = match witness_multiply(self.right(), clone_witness(&witness)) {
            Ok(v) => v,
            Err(e) => {
                return Err(e);
            },
        };
        let o_mult = match witness_multiply(self.output(), clone_witness(&witness)) {
            Ok(v) => v,
            Err(e) => {
                return Err(e);
            },
        };
        let lhs = hadamard_multiply(l_mult, r_mult);

        let n = lhs.len();
        for i in 0..n
            invariant
                n == self.num_constraints(),
                lhs@.len() == n,
                o_mult@.len() == n,
                self.width() == witness@.len(),
                forall|ii: int|
                    0 <= ii < n ==> #[trigger] lhs@[ii] as int == dot(
                        self.left_rows()[ii],
                        witness@,
                    ) * dot(self.right_rows()[ii], witness@),
                forall|ii: int|
                    0 <= ii < n ==> #[trigger] o_mult@[ii] as int == dot(
                        self.output_rows()[ii],
                        witness@,
                    ),
                forall|ii: int|
                    0 <= ii < i ==> #[trigger] (dot(self.left_rows()[ii], witness@) * dot(
                        self.right_rows()[ii],
                        witness@,
                    )) == dot(self.output_rows()[ii], witness@),
        {
            if lhs[i] != o_mult[i] {
                return Err(ZkError::ConstraintViolation);
            }
        }
        Ok(())
    }
}

/// A row of zero coefficients.
fn zero_row(width: usize) -> (r: Vec<i64>)
    ensures
        r@.len() == width,
        forall|j: int| 0 <= j < width ==> #[trigger] r@[j] == 0,
{
    let mut row: Vec<i64> = Vec::new();
    for _j in 0..width
        invariant
            row@.len() == _j,
            forall|jj: int| 0 <= jj < _j ==> #[trigger] row@[jj] == 0,
    {
        row.push(0);
    }
    row
}

/// An all-zero matrix of the given shape.
fn zero_matrix(rows: usize, width: usize) -> (m: Vec<Vec<i64>>)
    ensures
        m@.len() == rows,
        forall|i: int| 0 <= i < rows ==> #[trigger] m@[i]@.len() == width,
        forall|i: int, j: int| 0 <= i < rows && 0 <= j < width ==> #[trigger] m@[i]@[j] == 0,
{
    let mut m: Vec<Vec<i64>> = Vec::new();
    for _i in 0..rows
        invariant
            m@.len() == _i,
            forall|i: int| 0 <= i < _i ==> #[trigger] m@[i]@.len() == width,
            forall|i: int, j: int| 0 <= i < _i && 0 <= j < width ==> #[trigger] m@[i]@[j] == 0,
    {
        m.push(zero_row(width));
    }
    m
}

/// An elementwise copy of a coefficient matrix.
fn copy_matrix(m: &Vec<Vec<i64>>) -> (r: Vec<Vec<i64>>)
    ensures
        r@.len() == m@.len(),
        forall|i: int| 0 <= i < r@.len() ==> #[trigger] r@[i]@ == m@[i]@,
{
    let mut out: Vec<Vec<i64>> = Vec::new();
    let n = m.len();
    for k in 0..n
        invariant
            n == m@.len(),
            out@.len() == k,
            forall|i: int| 0 <= i < k ==> #[trigger] out@[i]@ == m@[i]@,
    {
        let mut row: Vec<i64> = Vec::new();
        let width = m[k].len();
        for j in 0..width
            invariant
                n == m@.len(),
                k < n,
                width == m@[k as int]@.len(),
                row@.len() == j,
                forall|jj: int| 0 <= jj < j ==> #[trigger] row@[jj] == m@[k as int]@[jj],
        {
            row.push(m[k][j]);
        }
        proof {
            assert(row@ =~= m@[k as int]@);
        }
        out.push(row);
    }
    out
}

/// An elementwise copy of a witness vector.
fn clone_witness(w: &Vec<i64>) -> (r: Vec<i64>)
    ensures
        r@ == w@,
{
    let mut out: Vec<i64> = Vec::new();
    let n = w.len();
    for k in 0..n
        invariant
            n == w@.len(),
            out@.len() == k,
            forall|i: int| 0 <= i < k ==> #[trigger] out@[i] == w@[i],
    {
        out.push(w[k]);
    }
    proof {
        assert(out@ =~= w@);
    }
    out
}

} // verus!
