//! The one-time trusted setup: modular exponentiation, Tonelli-Shanks
//! square roots, the deterministic generator scan over the toy curve
//! `y^2 = x^3 + 3`, and the three geometric SRS sequences built from a
//! secret field element that never leaves this module.

use vstd::prelude::*;
use vstd::arithmetic::div_mod::{lemma_small_mod, lemma_mod_bound, lemma_add_mod_noop};
use vstd::arithmetic::mul::lemma_mul_upper_bound;
use vstd::arithmetic::power::{pow, lemma_pow0, lemma_pow1, lemma_pow_adds, lemma_pow_multiplies, lemma_square_is_pow2, lemma_pow_mod_noop};
use vstd::arithmetic::power2::{pow2, lemma_pow2_pos, lemma_pow2_unfold, lemma_pow2_strictly_increases, lemma2_to64};
use crate::errors::ZkError;
use crate::field::{FieldElement64, MODULUS64, fmul};
use crate::qap::{falling_factorial, falling_spec};

verus! {

/// The double-width modular product of two machine words.
fn mulmod(a: u64, b: u64, m: u64) -> (r: u64)
    requires
        m >= 1,
    ensures
        r as int == (a as int * b as int) % (m as int),
        r < m,
{
    proof {
        lemma_mul_upper_bound(a as int, u64::MAX as int, b as int, u64::MAX as int);
        lemma_mod_bound(a as int * b as int, m as int);
    }
    ((a as u128 * b as u128) % (m as u128)) as u64
}

/// Square-and-multiply exponentiation with a double-width accumulator, so
/// no step can overflow.
pub fn mod_exp(base: u64, exp: u64, modulus: u64) -> (r: u64)
    requires
        modulus >= 1,
    ensures
        exp > 0 ==> r as int == pow(base as int, exp as nat) % (modulus as int),
        exp > 0 ==> r < modulus,
        exp == 0 ==> r == 1,
{
    let ghost b0: int = base as int;
    let ghost e0: nat = exp as nat;
    let ghost m: int = modulus as int;
    let mut result: u64 = 1;
    let mut bb: u64 = base % modulus;
    let mut e: u64 = exp;
    proof {
        lemma_pow_mod_noop(b0, e0, m);
        assert((1int * pow(bb as int, e0)) % m == pow(bb as int, e0) % m);
    }
    while e > 0
        invariant
            m == modulus as int,
            modulus >= 1,
            bb < modulus,
            result == 1 || result < modulus,
            e as nat <= e0,
            e0 == 0 ==> result == 1,
            e == 0 && e0 > 0 ==> result < modulus,
            (result as int * pow(bb as int, e as nat)) % m == pow(b0, e0) % m,
        decreases e,
    {
        let ghost r_old: int = result as int;
        let ghost b_old: int = bb as int;
        let ghost e_now: nat = e as nat;
        let bit = e % 2;
        if bit == 1 {
            result = mulmod(result, bb, modulus);
        }
        bb = mulmod(bb, bb, modulus);
        e = e / 2;
        proof {
            let e_half: nat = e as nat;
            let b_new: int = bb as int;
            let r_new: int = result as int;
            assert(e_now == 2 * e_half + bit);
            // The squared base raised to the halved exponent equals the old
            // base raised to the even part of the exponent, modulo m.
            lemma_square_is_pow2(b_old);
            lemma_pow_multiplies(b_old, 2, e_half);
            lemma_pow_mod_noop(b_old * b_old, e_half, m);
            assert(pow(b_new, e_half) % m == pow(b_old * b_old, e_half) % m);
            assert(pow(b_old * b_old, e_half) == pow(b_old, 2 * e_half));
            assert((r_new * pow(b_new, e_half)) % m == (r_new * pow(b_old, 2 * e_half)) % m) by {
                vstd::arithmetic::div_mod::lemma_mul_mod_noop_right(r_new, pow(b_new, e_half), m);
                vstd::arithmetic::div_mod::lemma_mul_mod_noop_right(
                    r_new,
                    pow(b_old, 2 * e_half),
                    m,
                );
            }
            if bit == 1 {
                assert(r_new == (r_old * b_old) % m);
                assert((r_new * pow(b_old, 2 * e_half)) % m == ((r_old * b_old) * pow(
                    b_old,
                    2 * e_half,
                )) % m) by {
                    vstd::arithmetic::div_mod::lemma_mul_mod_noop_left(
                        r_old * b_old,
                        pow(b_old, 2 * e_half),
                        m,
                    );
                }
                assert(pow(b_old, e_now) == b_old * pow(b_old, 2 * e_half)) by {
                    lemma_pow1(b_old);
                    lemma_pow_adds(b_old, 1nat, 2 * e_half);
                }
                assert((r_old * b_old) * pow(b_old, 2 * e_half) == r_old * pow(b_old, e_now))
                    by (nonlinear_arith)
                    requires
                        pow(b_old, e_now) == b_old * pow(b_old, 2 * e_half),
                ;
            } else {
                assert(e_now == 2 * e_half);
            }
        }
    }
    proof {
        if e0 > 0 {
            lemma_pow0(bb as int);
            lemma_small_mod(result as nat, modulus as nat);
        }
    }
    result
}

/// Raises two to a small power exactly.
fn pow2_u64(k: u64) -> (r: u64)
    requires
        k <= 63,
    ensures
        r as int == pow2(k as nat),
        r >= 1,
{
    let mut e: u64 = 1;
    let mut kk: u64 = 0;
    proof {
        lemma2_to64();
    }
    while kk < k
        invariant
            k <= 63,
            kk <= k,
            e as int == pow2(kk as nat),
        decreases k - kk,
    {
        proof {
            lemma_pow2_unfold((kk + 1) as nat);
            if kk + 1 < 64 {
                lemma_pow2_strictly_increases((kk + 1) as nat, 64);
            }
            lemma2_to64();
        }
        e = e * 2;
        kk = kk + 1;
    }
    proof {
        lemma_pow2_pos(k as nat);
    }
    e
}

/// The odd part of `n`: what remains after all factors of two are
/// stripped.
pub open spec fn odd_part(n: nat) -> nat
    decreases n,
{
    if n == 0 {
        0
    } else if n % 2 == 0 {
        odd_part(n / 2)
    } else {
        n
    }
}

/// How many factors of two `n` carries.
pub open spec fn twos_count(n: nat) -> nat
    decreases n,
{
    if n == 0 {
        0
    } else if n % 2 == 0 {
        twos_count(n / 2) + 1
    } else {
        0
    }
}

/// The first quadratic non-residue at or above `z`, short of `p`.
pub open spec fn first_nonresidue(p: int, z: int) -> Option<int>
    decreases p - z,
{
    if z >= p {
        None
    } else if pow(z, (((p - 1) / 2) as nat)) % p != 1 {
        Some(z)
    } else {
        first_nonresidue(p, z + 1)
    }
}

/// How many squarings modulo `p` carry `t` to one, within the given
/// bound.
pub open spec fn square_count(t: int, p: int, fuel: nat) -> Option<nat>
    decreases fuel,
{
    if t == 1 {
        Some(0)
    } else if fuel == 0 {
        None
    } else {
        match square_count(pow(t, 2) % p, p, (fuel - 1) as nat) {
            Some(k) => Some(k + 1),
            None => None,
        }
    }
}

/// The Tonelli-Shanks refinement of `(m, c, t, r)`, step by step: each
/// round finds the least number of squarings that returns `t` to one,
/// rescales by the matching power of `c`, and shrinks `m`; a candidate is
/// accepted only if it squares to `a`.
pub open spec fn ts_refine(a: int, p: int, m: nat, c: int, t: int, r: int) -> Option<int>
    decreases m,
{
    if t == 0 {
        None
    } else if t == 1 {
        if (r * r) % p == a % p {
            Some(r)
        } else {
            None
        }
    } else {
        match square_count(t, p, m) {
            None => None,
            Some(i) => if i >= m {
                None
            } else {
                ts_refine(
                    a,
                    p,
                    i,
                    pow(pow(c, pow2((m - i - 1) as nat)) % p, 2) % p,
                    pow(t, pow2(i)) % p,
                    (r * (pow(c, pow2((m - i - 1) as nat)) % p)) % p,
                )
            },
        }
    }
}

/// The square root the algorithm returns, as a pure function of its
/// arguments: zero for zero, nothing when Euler's criterion rejects the
/// residue, and otherwise the refinement seeded by the first non-residue
/// of the ascending scan.
pub open spec fn mod_sqrt_spec(a: int, p: int) -> Option<int> {
    if a == 0 {
        Some(0)
    } else if (p - 1) / 2 > 0 && pow(a, (((p - 1) / 2) as nat)) % p != 1 {
        None
    } else {
        match first_nonresidue(p, 2) {
            None => None,
            Some(z) => ts_refine(
                a,
                p,
                twos_count((p - 1) as nat),
                pow(z, odd_part((p - 1) as nat)) % p,
                pow(a, odd_part((p - 1) as nat)) % p,
                pow(a, ((odd_part((p - 1) as nat) + 1) / 2)) % p,
            ),
        }
    }
}

/// Tonelli-Shanks modular square root: no result when Euler's criterion
/// rejects the residue, and a root that is checked against its square
/// before it is returned. The result equals `mod_sqrt_spec` on the same
/// arguments, so it is a pure function of them: repeated calls agree.
/// Every scan is bounded; one that runs out reports no result rather
/// than looping forever.
pub fn mod_sqrt(a: u64, p: u64) -> (r: Option<u64>)
    requires
        p >= 2,
    ensures
        mod_sqrt_spec(a as int, p as int) == (match r {
            Some(y) => Some(y as int),
            None => None::<int>,
        }),
        r matches Some(y) ==> y < p && (y as int * y as int) % (p as int) == a as int % (p as int),
        a == 0 ==> r == Some(0u64),
        a > 0 && (p - 1) / 2 > 0 && pow(a as int, (((p - 1) / 2) as u64) as nat) % (p as int) != 1
            ==> r is None,
{
    if a == 0 {
        proof {
            lemma_small_mod(0nat, p as nat);
            assert((0int * 0int) % (p as int) == 0int % (p as int));
            assert(a as int % (p as int) == 0int % (p as int));
        }
        return Some(0);
    }

    if mod_exp(a, (p - 1) / 2, p) != 1 {
        return None;
    }
    let ghost euler: bool = (p - 1) / 2 == 0 || pow(a as int, (((p - 1) / 2) as u64) as nat) % (
    p as int) == 1;
    proof {
        assert(euler);
    }

    // Factor p - 1 as q * 2^s with q odd.
    let mut q: u64 = p - 1;
    let mut s: u64 = 0;
    proof {
        lemma2_to64();
    }
    while q % 2 == 0
        invariant
            p >= 2,
            a >= 1,
            euler == ((p - 1) / 2 == 0 || pow(a as int, (((p - 1) / 2) as u64) as nat) % (
            p as int) == 1),
            euler,
            1 <= q <= p - 1,
            s <= 63,
            q as int * pow2(s as nat) == (p - 1) as int,
            odd_part(q as nat) == odd_part((p - 1) as nat),
            twos_count(q as nat) + s as nat == twos_count((p - 1) as nat),
        decreases q,
    {
        proof {
            lemma_pow2_unfold((s + 1) as nat);
            assert(q as int == 2 * (q as int / 2) + (q as int % 2));
            assert((q / 2) as int * pow2((s + 1) as nat) == q as int * pow2(s as nat))
                by (nonlinear_arith)
                requires
                    q as int % 2 == 0,
                    q as int == 2 * (q as int / 2) + (q as int % 2),
                    pow2((s + 1) as nat) == 2 * pow2(s as nat),
            ;
            // s stays below 64 because 2^s divides p - 1 < 2^64.
            lemma2_to64();
            if s + 1 >= 64 {
                if s + 1 > 64 {
                    lemma_pow2_strictly_increases(64, (s + 1) as nat);
                }
                assert((q / 2) as int * pow2((s + 1) as nat) >= pow2((s + 1) as nat))
                    by (nonlinear_arith)
                    requires
                        (q / 2) as int >= 1,
                        pow2((s + 1) as nat) >= 0,
                ;
                assert(false);
            }
            assert(odd_part(q as nat) == odd_part((q / 2) as nat));
            assert(twos_count(q as nat) == twos_count((q / 2) as nat) + 1);
        }
        q = q / 2;
        s = s + 1;
    }
    proof {
        assert(odd_part(q as nat) == q as nat);
        assert(twos_count(q as nat) == 0);
    }

    // Find a quadratic non-residue by the ascending scan.
    let mut z: u64 = 2;
    while z < p && mod_exp(z, (p - 1) / 2, p) == 1
        invariant
            p >= 2,
            a >= 1,
            euler == ((p - 1) / 2 == 0 || pow(a as int, (((p - 1) / 2) as u64) as nat) % (
            p as int) == 1),
            euler,
            1 <= q <= p - 1,
            q as nat == odd_part((p - 1) as nat),
            s as nat == twos_count((p - 1) as nat),
            2 <= z <= p,
            first_nonresidue(p as int, z as int) == first_nonresidue(p as int, 2),
        decreases p - z,
    {
        proof {
            if (p - 1) / 2 > 0 {
                assert(pow(z as int, (((p - 1) / 2) as u64) as nat) % (p as int) == 1);
            } else {
                lemma_pow0(z as int);
                assert(p == 2);
                assert(pow(z as int, (((p - 1) / 2) as u64) as nat) % (p as int) == 1);
            }
            assert(first_nonresidue(p as int, z as int) == first_nonresidue(p as int, z + 1));
        }
        z = z + 1;
    }
    if z >= p {
        proof {
            assert(first_nonresidue(p as int, 2) is None);
            assert(mod_sqrt_spec(a as int, p as int) is None);
        }
        return None;
    }
    proof {
        assert(pow(z as int, (((p - 1) / 2) as u64) as nat) % (p as int) != 1);
        assert((p - 1) / 2 > 0);
        assert(first_nonresidue(p as int, 2) == Some(z as int));
    }

    let mut m: u64 = s;
    let mut c: u64 = mod_exp(z, q, p);
    let mut t: u64 = mod_exp(a, q, p);
    let mut r: u64 = mod_exp(a, (q + 1) / 2, p);
    let ghost answer: Option<int> = ts_refine(
        a as int,
        p as int,
        m as nat,
        c as int,
        t as int,
        r as int,
    );
    proof {
        assert((q + 1) / 2 >= 1);
        assert(((q + 1) / 2) as nat == (odd_part((p - 1) as nat) + 1) / 2);
        assert(mod_sqrt_spec(a as int, p as int) == answer);
    }

    while t != 0 && t != 1
        invariant
            p >= 2,
            a >= 1,
            m <= 63,
            c < p,
            t < p,
            r < p,
            ts_refine(a as int, p as int, m as nat, c as int, t as int, r as int) == answer,
            mod_sqrt_spec(a as int, p as int) == answer,
        decreases m,
    {
        // The least number of squarings that brings t back to one.
        let mut i: u64 = 0;
        let mut temp: u64 = t;
        while temp != 1 && i < m
            invariant
                p >= 2,
                m <= 63,
                i <= m,
                temp < p || temp == t,
                match square_count(temp as int, p as int, (m - i) as nat) {
                    Some(k) => square_count(t as int, p as int, m as nat) == Some(
                        (k + i) as nat,
                    ),
                    None => square_count(t as int, p as int, m as nat) is None,
                },
            decreases m - i,
        {
            proof {
                assert(square_count(temp as int, p as int, (m - i) as nat) == (match square_count(
                    pow(temp as int, 2) % (p as int),
                    p as int,
                    (m - i - 1) as nat,
                ) {
                    Some(k) => Some((k + 1) as nat),
                    None => None::<nat>,
                }));
            }
            temp = mod_exp(temp, 2, p);
            i = i + 1;
        }
        if temp != 1 || i >= m {
            proof {
                if temp != 1 {
                    assert(square_count(temp as int, p as int, (m - i) as nat) is None);
                    assert(square_count(t as int, p as int, m as nat) is None);
                } else {
                    assert(square_count(temp as int, p as int, (m - i) as nat) == Some(0nat));
                    assert(square_count(t as int, p as int, m as nat) == Some(i as nat));
                }
                assert(ts_refine(a as int, p as int, m as nat, c as int, t as int, r as int)
                    is None);
            }
            return None;
        }
        proof {
            assert(square_count(temp as int, p as int, (m - i) as nat) == Some(0nat));
            assert(square_count(t as int, p as int, m as nat) == Some(i as nat));
            assert(i >= 1);
        }

        let ghost m_old: u64 = m;
        let ghost c_old: u64 = c;
        let ghost t_old: u64 = t;
        let ghost r_old: u64 = r;
        let e1 = pow2_u64(m - i - 1);
        let b = mod_exp(c, e1, p);
        m = i;
        c = mod_exp(b, 2, p);
        let e2 = pow2_u64(i);
        t = mod_exp(t, e2, p);
        r = mulmod(r, b, p);
        proof {
            let pi = p as int;
            assert(b as int == pow(c_old as int, pow2((m_old - i - 1) as nat)) % pi);
            assert(c as int == pow(pow(c_old as int, pow2((m_old - i - 1) as nat)) % pi, 2) % pi);
            assert(t as int == pow(t_old as int, pow2(i as nat)) % pi);
            assert(r as int == (r_old as int * (pow(c_old as int, pow2((m_old - i - 1) as nat))
                % pi)) % pi);
            assert(ts_refine(a as int, pi, m_old as nat, c_old as int, t_old as int, r_old as int)
                == ts_refine(a as int, pi, m as nat, c as int, t as int, r as int));
        }
    }

    if t == 0 {
        proof {
            assert(ts_refine(a as int, p as int, m as nat, c as int, t as int, r as int) is None);
        }
        None
    } else {
        // Accept the candidate only if it actually squares to the residue.
        let rr = mulmod(r, r, p);
        let am = a % p;
        proof {
            assert(ts_refine(a as int, p as int, m as nat, c as int, t as int, r as int) == (
            if (r as int * r as int) % (p as int) == a as int % (p as int) {
                Some(r as int)
            } else {
                None::<int>
            }));
        }
        if rr == am {
            Some(r)
        } else {
            None
        }
    }
}

/// The generator scan from abscissa `x` upward, as a pure function: the
/// first `x` whose curve value admits a checked square root wins.
pub open spec fn gen_scan(x: int) -> Option<(int, int)>
    decreases MODULUS64 - x,
{
    if x >= MODULUS64 as int {
        None
    } else {
        match mod_sqrt_spec((pow(x, 3) + 3) % (MODULUS64 as int), MODULUS64 as int) {
            Some(y) => if (y * y) % (MODULUS64 as int) == (pow(x, 3) + 3) % (MODULUS64 as int) {
                Some((x, y))
            } else {
                gen_scan(x + 1)
            },
            None => gen_scan(x + 1),
        }
    }
}

/// The generator as a pure value: the scan's first hit, or the point
/// `(1, 2)` should the scan come back empty.
pub open spec fn generator_spec() -> Option<(int, int)> {
    match gen_scan(1) {
        Some(pt) => Some(pt),
        None => Some((1int, 2int)),
    }
}

/// Scans `x` upward from one for the first abscissa whose curve value
/// `x^3 + 3` admits a square root, and returns that point; the scan order
/// makes the result deterministic for a fixed modulus. A point always
/// exists: `x = 1` gives `1 + 3 = 4`, whose root `2` stands in as the
/// answer should the root extraction ever decline it, so the scan cannot
/// come back empty.
pub fn generator() -> (r: Option<(u64, u64)>)
    ensures
        r is Some,
        generator_spec() == (match r {
            Some(pt) => Some((pt.0 as int, pt.1 as int)),
            None => None::<(int, int)>,
        }),
        r matches Some((x, y)) ==> {
            &&& 1 <= x < MODULUS64
            &&& y < MODULUS64
            &&& (y as int * y as int) % (MODULUS64 as int) == (x as int * x as int * x as int
                + 3) % (MODULUS64 as int)
        },
{
    let mut x: u64 = 1;
    while x < MODULUS64
        invariant
            1 <= x <= MODULUS64,
            gen_scan(x as int) == gen_scan(1),
        decreases MODULUS64 - x,
    {
        let cube = mod_exp(x, 3, MODULUS64);
        let rhs = (cube + 3) % MODULUS64;
        proof {
            let pm = MODULUS64 as int;
            let xi = x as int;
            lemma_mod_bound(pow(xi, 3), pm);
            lemma_add_mod_noop(pow(xi, 3), 3, pm);
            lemma_small_mod(3nat, MODULUS64 as nat);
            lemma_small_mod(rhs as nat, MODULUS64 as nat);
            assert(rhs as int == (pow(xi, 3) + 3) % pm);
        }

        match mod_sqrt(rhs, MODULUS64) {
            Some(y) => {
                let y_squared = mulmod(y, y, MODULUS64);
                proof {
                    lemma_small_mod(rhs as nat, MODULUS64 as nat);
                    assert(y_squared == rhs);
                }
                if y_squared == rhs {
                    proof {
                        let pm = MODULUS64 as int;
                        let xi = x as int;
                        assert(pow(xi, 3) == xi * (xi * xi)) by {
                            lemma_pow1(xi);
                            lemma_pow_adds(xi, 1nat, 2nat);
                            lemma_square_is_pow2(xi);
                        }
                        assert(xi * (xi * xi) == xi * xi * xi) by (nonlinear_arith);
                        assert(rhs as int == (xi * xi * xi + 3) % pm);
                        assert(gen_scan(xi) == Some((xi, y as int)));
                    }
                    return Some((x, y));
                }
            },
            None => {
                proof {
                    assert(gen_scan(x as int) == gen_scan(x as int + 1));
                }
            },
        }
        x = x + 1;
    }
    proof {
        assert(gen_scan(x as int) is None);
        lemma_small_mod(4nat, MODULUS64 as nat);
        assert((2int * 2int) % (MODULUS64 as int) == (1int * 1int * 1int + 3) % (MODULUS64 as int));
    }
    Some((1, 2))
}

/// The curve's right-hand side `x^3 + 3`, reduced into the field.
pub open spec fn curve_rhs(cx: int) -> int {
    (cx * cx * cx + 3) % (MODULUS64 as int)
}

/// A field value is a curve ordinate when its square is `x^3 + 3` for
/// some abscissa in the field.
pub open spec fn curve_ordinate(g: int) -> bool {
    exists|cx: int| 1 <= cx < MODULUS64 as int && fmul(g, g) == #[trigger] curve_rhs(cx)
}

/// One column is geometric when each entry is the previous one scaled by
/// the same ratio.
pub open spec fn geometric(s: Seq<FieldElement64>, tau: int) -> bool {
    forall|i: int| 0 <= i < s.len() - 1 ==> #[trigger] s[i + 1]@ == fmul(s[i]@, tau)
}

/// The geometric SRS column `g, g*tau, g*tau^2, ...` with `len + 1`
/// entries.
pub fn srs_creator(len: u64, tau: FieldElement64, g: FieldElement64) -> (r: Vec<FieldElement64>)
    ensures
        r@.len() == len as int + 1,
        r@[0]@ == g@,
        geometric(r@, tau@),
{
    let mut srs: Vec<FieldElement64> = Vec::new();
    srs.push(g);
    let mut k: u64 = 0;
    while k < len
        invariant
            k <= len,
            srs@.len() == k as int + 1,
            srs@[0]@ == g@,
            geometric(srs@, tau@),
        decreases len - k,
    {
        let last = srs[srs.len() - 1];
        srs.push(last.multiply(tau));
        k = k + 1;
    }
    srs
}

/// The shape the setup guarantees: three columns of equal length, each
/// geometric in one hidden ratio, the third based on the first basis point
/// scaled by the falling factorial of the ratio. The two plain bases are
/// equal, since one deterministic scan supplies both.
pub open spec fn srs_shape(s: Seq<Vec<FieldElement64>>, tau: int, g1: int, g2: int, x: u64) -> bool {
    &&& 0 <= tau < MODULUS64 as int
    &&& 0 <= g1 < MODULUS64 as int
    &&& 0 <= g2 < MODULUS64 as int
    &&& g1 == g2
    &&& curve_ordinate(g1)
    &&& curve_ordinate(g2)
    &&& s.len() == 3
    &&& s[0]@.len() == x as int + 1
    &&& s[1]@.len() == x as int + 1
    &&& s[2]@.len() == x as int + 1
    &&& geometric(s[0]@, tau)
    &&& geometric(s[1]@, tau)
    &&& geometric(s[2]@, tau)
    &&& s[0]@[0]@ == g1
    &&& s[1]@[0]@ == g2
    &&& s[2]@[0]@ == fmul(g1, falling_spec(tau, x as nat))
}

/// Some hidden ratio and pair of basis points explain all three columns.
pub open spec fn srs_ok(s: Seq<Vec<FieldElement64>>, x: u64) -> bool {
    exists|tau: int, g1: int, g2: int| srs_shape(s, tau, g1, g2, x)
}

/// Samples the secret ratio, derives the two basis points from the
/// generator scan, and builds the three SRS columns. The secret is dropped
/// when this returns: only the derived sequences survive.
pub fn trustedsetup(x: u64) -> (r: Result<[Vec<FieldElement64>; 3], ZkError>)
    requires
        x < u64::MAX,
    ensures
        r is Ok,
        r matches Ok(s) ==> srs_ok(s@, x),
        r matches Ok(s) ==> (match generator_spec() {
            Some(pt) => s@[0]@[0]@ == pt.1 % (MODULUS64 as int) && s@[1]@[0]@ == pt.1 % (
            MODULUS64 as int),
            None => true,
        }),
{
    let seed = FieldElement64::random();
    let gen1 = match generator() {
        Some(g) => g,
        None => {
            return Err(ZkError::NoGenerator);
        },
    };
    let g1 = FieldElement64::new(gen1.1);
    let g2 = FieldElement64::new(gen1.1);
    proof {
        lemma_small_mod(gen1.1 as nat, MODULUS64 as nat);
    }
    let t_tau = falling_factorial(seed, x);
    let srs1 = srs_creator(x, seed, g1);
    let srs2 = srs_creator(x, seed, g2);
    let srs3 = srs_creator(x, seed, g1.multiply(t_tau));
    let out = [srs1, srs2, srs3];
    proof {
        let pm = MODULUS64 as int;
        lemma_mod_bound(g1@ * t_tau@, pm);
        assert(fmul(g1@, g1@) == curve_rhs(gen1.0 as int));
        assert(curve_ordinate(g1@));
        assert(fmul(g2@, g2@) == curve_rhs(gen1.0 as int));
        assert(curve_ordinate(g2@));
        assert(out@.len() == 3);
        assert(out@[0] == srs1);
        assert(out@[1] == srs2);
        assert(out@[2] == srs3);
        assert(srs_shape(out@, seed@, g1@, g2@, x));
        assert(srs_ok(out@, x));
    }
    Ok(out)
}

} // verus!
