//! Exact arithmetic over the prime field of modulus `2^64 - 59`: addition,
//! subtraction, multiplication, multiplicative inverse by the extended
//! Euclidean algorithm, and uniform random sampling. Every stored element is
//! fully reduced into `[0, MODULUS64)`.

use vstd::prelude::*;
use vstd::arithmetic::div_mod::{
    lemma_small_mod, lemma_mod_bound, lemma_mod_add_multiples_vanish, lemma_sub_mod_noop,
    lemma_mul_mod_noop_left, lemma_mul_mod_noop_right, lemma_fundamental_div_mod,
};
use vstd::arithmetic::mul::lemma_mul_upper_bound;
use crate::errors::ZkError;
use rand::Rng;

verus! {

/// The field modulus: the prime `2^64 - 59`.
pub const MODULUS64: u64 = 0xFFFFFFFFFFFFFFC5;

/// Field addition on fully reduced representatives.
pub open spec fn fadd(a: int, b: int) -> int {
    (a + b) % (MODULUS64 as int)
}

/// Field subtraction on fully reduced representatives.
pub open spec fn fsub(a: int, b: int) -> int {
    (a - b) % (MODULUS64 as int)
}

/// Field multiplication on fully reduced representatives.
pub open spec fn fmul(a: int, b: int) -> int {
    (a * b) % (MODULUS64 as int)
}

/// Greatest common divisor, by Euclid's recurrence.
pub open spec fn gcd(a: nat, b: nat) -> nat
    decreases b,
{
    if b == 0 {
        a
    } else {
        gcd(b, a % b)
    }
}

/// The multiplicative inverse of `a` in the field, where one exists.
pub open spec fn finv(a: int) -> int {
    choose|b: int| 0 <= b < MODULUS64 as int && fmul(a, b) == 1
}

/// One element of the prime field, wrapping a single fully reduced machine
/// word.
#[derive(Clone, Copy, Debug, PartialEq, Eq, Structural)]
pub struct FieldElement64 {
    value: u64,
}

impl View for FieldElement64 {
    type V = int;

    closed spec fn view(&self) -> int {
        self.value as int
    }
}

impl FieldElement64 {
    /// Full reduction: the stored word is always below the modulus.
    #[verifier::type_invariant]
    spec fn reduced(self) -> bool {
        self.value < MODULUS64
    }

    /// Reduces `value` modulo the field modulus and wraps it.
    pub fn new(value: u64) -> (r: Self)
        ensures
            r@ == value as int % (MODULUS64 as int),
    {
        FieldElement64 { value: value % MODULUS64 }
    }

    /// Field addition; the sum is reduced without ever overflowing the
    /// working width.
    pub fn add(self, addend: FieldElement64) -> (r: FieldElement64)
        ensures
            r@ == fadd(self@, addend@),
    {
        proof {
            use_type_invariant(&self);
            use_type_invariant(&addend);
        }
        let sum: u128 = self.value as u128 + addend.value as u128;
        let reduced: u64 = if sum >= MODULUS64 as u128 {
            proof {
                lemma_mod_add_multiples_vanish(self@ + addend@ - MODULUS64 as int, MODULUS64 as int);
                lemma_small_mod((self@ + addend@ - MODULUS64 as int) as nat, MODULUS64 as nat);
            }
            (sum - MODULUS64 as u128) as u64
        } else {
            proof {
                lemma_small_mod((self@ + addend@) as nat, MODULUS64 as nat);
            }
            sum as u64
        };
        FieldElement64 { value: reduced }
    }

    /// Field subtraction; on underflow the modulus is added back exactly
    /// once, which suffices because both operands are fully reduced.
    pub fn subtract(self, subtrahend: FieldElement64) -> (r: FieldElement64)
        ensures
            r@ == fsub(self@, subtrahend@),
    {
        proof {
            use_type_invariant(&self);
            use_type_invariant(&subtrahend);
        }
        if self.value >= subtrahend.value {
            proof {
                lemma_small_mod((self@ - subtrahend@) as nat, MODULUS64 as nat);
            }
            FieldElement64 { value: self.value - subtrahend.value }
        } else {
            proof {
                lemma_mod_add_multiples_vanish(self@ - subtrahend@, MODULUS64 as int);
                lemma_small_mod((self@ - subtrahend@ + MODULUS64 as int) as nat, MODULUS64 as nat);
            }
            FieldElement64 { value: self.value + (MODULUS64 - subtrahend.value) }
        }
    }

    /// Field multiplication; the product is formed at double width before
    /// reduction, so it cannot overflow.
    pub fn multiply(self, multiplier: FieldElement64) -> (r: FieldElement64)
        ensures
            r@ == fmul(self@, multiplier@),
    {
        proof {
            use_type_invariant(&self);
            use_type_invariant(&multiplier);
            lemma_mul_upper_bound(self@, MODULUS64 as int, multiplier@, MODULUS64 as int);
            lemma_mod_bound(self@ * multiplier@, MODULUS64 as int);
        }
        let product: u128 = self.value as u128 * multiplier.value as u128;
        FieldElement64 { value: (product % (MODULUS64 as u128)) as u64 }
    }

    /// Multiplicative inverse by the extended Euclidean algorithm on
    /// `(MODULUS64, value)`, tracking the Bezout coefficient of `value`
    /// modulo the field modulus. The additive identity is not invertible.
    pub fn inverse(self) -> (r: Result<FieldElement64, ZkError>)
        ensures
            self@ == 0 ==> r is Err,
            r matches Ok(v) ==> 0 <= v@ < MODULUS64 as int && v@ == finv(self@) && fmul(self@, v@)
                == 1 && gcd(MODULUS64 as nat, self@ as nat) == 1,
            r matches Err(e) ==> e == ZkError::NotInvertible
                && gcd(MODULUS64 as nat, self@ as nat) != 1,
    {
        proof {
            use_type_invariant(&self);
        }
        let a: u64 = self.value;
        let ghost pm: int = MODULUS64 as int;
        let mut t: u64 = 0;
        let mut new_t: u64 = 1;
        let mut r: u64 = MODULUS64;
        let mut new_r: u64 = a;

        while new_r != 0
            invariant
                a == self@,
                a < MODULUS64,
                pm == MODULUS64 as int,
                1 <= r,
                new_r < r,
                t < MODULUS64,
                new_t < MODULUS64,
                gcd(r as nat, new_r as nat) == gcd(MODULUS64 as nat, a as nat),
                (t as int * a as int) % pm == r as int % pm,
                (new_t as int * a as int) % pm == new_r as int % pm,
            decreases new_r,
        {
            let quotient: u64 = r / new_r;
            proof {
                lemma_mul_upper_bound(quotient as int, u64::MAX as int, new_t as int, u64::MAX as int);
                lemma_mod_bound(quotient as int * new_t as int, pm);
            }
            let qt: u128 = quotient as u128 * new_t as u128;
            let qt_mod: u64 = (qt % (MODULUS64 as u128)) as u64;
            let t_next: u64 = if t >= qt_mod {
                t - qt_mod
            } else {
                t + (MODULUS64 - qt_mod)
            };
            let r_next: u64 = r % new_r;
            proof {
                let q = quotient as int;
                let ai = a as int;
                let ti = t as int;
                let nti = new_t as int;
                let ri = r as int;
                let nri = new_r as int;
                // r_next is the Euclidean remainder of the division step.
                lemma_fundamental_div_mod(ri, nri);
                assert(r_next as int == ri - q * nri);
                // t_next is congruent to t - quotient * new_t.
                assert(qt_mod as int == (q * nti) % pm);
                if t >= qt_mod {
                    lemma_sub_mod_noop(ti, q * nti, pm);
                    lemma_small_mod(ti as nat, MODULUS64 as nat);
                    lemma_small_mod(t_next as nat, MODULUS64 as nat);
                    assert(t_next as int % pm == (ti - q * nti) % pm);
                } else {
                    lemma_sub_mod_noop(ti, q * nti, pm);
                    lemma_small_mod(ti as nat, MODULUS64 as nat);
                    lemma_mod_add_multiples_vanish(ti - (q * nti) % pm, pm);
                    lemma_small_mod(t_next as nat, MODULUS64 as nat);
                    assert(t_next as int % pm == (ti - q * nti) % pm);
                }
                // The Bezout congruence is preserved by the step.
                assert((t_next as int * ai) % pm == r_next as int % pm) by {
                    lemma_mul_mod_noop_left(t_next as int, ai, pm);
                    lemma_mul_mod_noop_left(ti - q * nti, ai, pm);
                    assert((t_next as int * ai) % pm == ((ti - q * nti) * ai) % pm);
                    assert((ti - q * nti) * ai == ti * ai - q * (nti * ai)) by (nonlinear_arith);
                    lemma_sub_mod_noop(ti * ai, q * (nti * ai), pm);
                    lemma_mul_mod_noop_right(q, nti * ai, pm);
                    lemma_mul_mod_noop_right(q, nri, pm);
                    assert((q * (nti * ai)) % pm == (q * nri) % pm);
                    lemma_sub_mod_noop(ri, q * nri, pm);
                    assert((ti * ai - q * (nti * ai)) % pm == (ri - q * nri) % pm);
                };
                // One unfolding of Euclid's recurrence keeps the gcd.
                assert(gcd(ri as nat, nri as nat) == gcd(nri as nat, (ri % nri) as nat));
            }
            t = new_t;
            new_t = t_next;
            r = new_r;
            new_r = r_next;
        }

        proof {
            assert(gcd(r as nat, 0) == r as nat);
            if a == 0 {
                assert(gcd(MODULUS64 as nat, 0) == MODULUS64 as nat);
            }
        }
        if r == 1 {
            proof {
                lemma_small_mod(1nat, MODULUS64 as nat);
                lemma_small_mod(t as nat, MODULUS64 as nat);
                assert((self@ * t as int) % pm == (t as int * self@) % pm) by (nonlinear_arith);
                assert(fmul(self@, t as int) == 1);
                assert(exists|b: int| 0 <= b < MODULUS64 as int && fmul(self@, b) == 1);
                lemma_inverse_unique(self@, t as int, finv(self@));
            }
            Ok(FieldElement64 { value: t })
        } else {
            Err(ZkError::NotInvertible)
        }
    }

    /// Uniform random sampling: a random machine word, reduced into the
    /// field.
    pub fn random() -> (r: Self)
        ensures
            0 <= r@ < MODULUS64 as int,
    {
        let raw = random_u64();
        FieldElement64 { value: raw % MODULUS64 }
    }

    /// The fully reduced representative of this element.
    pub fn value(&self) -> (r: u64)
        ensures
            r == self@,
            r < MODULUS64,
    {
        proof {
            use_type_invariant(self);
        }
        self.value
    }

    /// Reduces every entry of a vector into the field.
    #[allow(non_snake_case)]
    pub fn convert1D(matrix: &mut Vec<u64>) -> (r: Vec<FieldElement64>)
        ensures
            final(matrix)@ == old(matrix)@,
            r@.len() == old(matrix)@.len(),
            forall|i: int|
                0 <= i < r@.len() ==> #[trigger] r@[i]@ == old(matrix)@[i] as int % (
                MODULUS64 as int),
    {
        let mut out: Vec<FieldElement64> = Vec::new();
        let n = matrix.len();
        for k in 0..n
            invariant
                matrix@ == old(matrix)@,
                n == matrix@.len(),
                out@.len() == k,
                forall|i: int|
                    0 <= i < k ==> #[trigger] out@[i]@ == matrix@[i] as int % (MODULUS64 as int),
        {
            let e = FieldElement64::new(matrix[k]);
            out.push(e);
        }
        out
    }

    /// Reduces every entry of a matrix into the field.
    #[allow(non_snake_case)]
    pub fn convert2D(matrix: &mut Vec<Vec<u64>>) -> (r: Vec<Vec<FieldElement64>>)
        ensures
            final(matrix)@ == old(matrix)@,
            r@.len() == old(matrix)@.len(),
            forall|i: int| 0 <= i < r@.len() ==> #[trigger] r@[i]@.len() == old(matrix)@[i]@.len(),
            forall|i: int, j: int|
                0 <= i < r@.len() && 0 <= j < r@[i]@.len()
                    ==> #[trigger] r@[i]@[j]@ == old(matrix)@[i]@[j] as int % (MODULUS64 as int),
    {
        let mut out: Vec<Vec<FieldElement64>> = Vec::new();
        let n = matrix.len();
        for k in 0..n
            invariant
                matrix@ == old(matrix)@,
                n == matrix@.len(),
                out@.len() == k,
                forall|i: int| 0 <= i < k ==> #[trigger] out@[i]@.len() == matrix@[i]@.len(),
                forall|i: int, j: int|
                    0 <= i < k && 0 <= j < out@[i]@.len()
                        ==> #[trigger] out@[i]@[j]@ == matrix@[i]@[j] as int % (MODULUS64 as int),
        {
            let mut row: Vec<FieldElement64> = Vec::new();
            let width = matrix[k].len();
            for j in 0..width
                invariant
                    matrix@ == old(matrix)@,
                    n == matrix@.len(),
                    k < n,
                    width == matrix@[k as int]@.len(),
                    row@.len() == j,
                    forall|jj: int|
                        0 <= jj < j
                            ==> #[trigger] row@[jj]@ == matrix@[k as int]@[jj] as int % (
                            MODULUS64 as int),
            {
                let e = FieldElement64::new(matrix[k][j]);
                row.push(e);
            }
            out.push(row);
        }
        out
    }
}

/// Law: adding an element and then subtracting it returns the original,
/// for any two fully reduced field values.
pub proof fn lemma_add_subtract_cancel(a: int, b: int)
    requires
        0 <= a < MODULUS64 as int,
        0 <= b < MODULUS64 as int,
    ensures
        fsub(fadd(a, b), b) == a,
{
    let pm = MODULUS64 as int;
    lemma_mod_bound(a + b, pm);
    lemma_sub_mod_noop(a + b, b, pm);
    lemma_small_mod(b as nat, MODULUS64 as nat);
    lemma_small_mod(a as nat, MODULUS64 as nat);
    assert(((a + b) % pm - b % pm) % pm == (a + b - b) % pm);
}

/// Law: whenever an element has a multiplicative inverse in the field,
/// multiplying the element by that inverse yields one.
pub proof fn lemma_multiply_by_inverse(a: int)
    requires
        exists|b: int| 0 <= b < MODULUS64 as int && fmul(a, b) == 1,
    ensures
        0 <= finv(a) < MODULUS64 as int,
        fmul(a, finv(a)) == 1,
{
    let b = choose|b: int| 0 <= b < MODULUS64 as int && fmul(a, b) == 1;
    assert(0 <= b < MODULUS64 as int && fmul(a, b) == 1);
}

/// Law: a fully reduced element has at most one fully reduced
/// multiplicative inverse.
pub proof fn lemma_inverse_unique(a: int, t: int, b: int)
    requires
        0 <= t < MODULUS64 as int,
        0 <= b < MODULUS64 as int,
        fmul(a, t) == 1,
        fmul(a, b) == 1,
    ensures
        t == b,
{
    let pm = MODULUS64 as int;
    lemma_small_mod(t as nat, MODULUS64 as nat);
    lemma_small_mod(b as nat, MODULUS64 as nat);
    assert((t * (a * b)) % pm == (t * ((a * b) % pm)) % pm) by {
        lemma_mul_mod_noop_right(t, a * b, pm);
    }
    assert((t * (a * b)) % pm == ((t * a) * b) % pm) by (nonlinear_arith);
    assert(((t * a) * b) % pm == (((t * a) % pm) * b) % pm) by {
        lemma_mul_mod_noop_left(t * a, b, pm);
    }
    assert((t * a) % pm == (a * t) % pm) by (nonlinear_arith);
    assert((((a * t) % pm) * b) % pm == b % pm);
    assert(t % pm == (t * 1) % pm);
    assert(t == b);
}

/// Relies on rand's thread-local generator (`rand::Rng::gen::<u64>`) for a
/// random machine word; nothing is assumed of the value drawn.
#[verifier::external_body]
fn random_u64() -> u64 {
    let mut rng = rand::thread_rng();
    rng.gen::<u64>()
}

} // verus!
