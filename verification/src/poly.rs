//! Dense polynomial arithmetic on low-degree-first coefficient vectors:
//! convolution multiply, padded subtract, schoolbook long division, and the
//! vanishing polynomial over the constraint indices.

use vstd::prelude::*;
use vstd::arithmetic::div_mod::lemma_fundamental_div_mod;

verus! {

/// The coefficients of a machine-word polynomial, as mathematical integers.
pub open spec fn ints_of(s: Seq<i64>) -> Seq<int> {
    s.map_values(|x: i64| x as int)
}

/// The coefficient of a sequence at `i`, padding with zero out of range.
pub open spec fn pad(s: Seq<int>, i: int) -> int {
    if 0 <= i < s.len() {
        s[i]
    } else {
        0
    }
}

/// The partial convolution coefficient at `k`: contributions of the first
/// `i` coefficients of `a`.
pub open spec fn conv_row(a: Seq<int>, b: Seq<int>, k: int, i: int) -> int
    decreases i,
{
    if i <= 0 {
        0
    } else {
        conv_row(a, b, k, i - 1) + (if 0 <= k - (i - 1) < b.len() {
            a[i - 1] * b[k - (i - 1)]
        } else {
            0
        })
    }
}

/// The full convolution coefficient at `k`.
pub open spec fn conv_at(a: Seq<int>, b: Seq<int>, k: int) -> int {
    conv_row(a, b, k, a.len() as int)
}

/// The product polynomial: length `len(a) + len(b) - 1`, coefficient `k`
/// the sum of all `a[i] * b[k - i]`.
pub open spec fn poly_mul(a: Seq<int>, b: Seq<int>) -> Seq<int> {
    Seq::new((a.len() + b.len() - 1) as nat, |k: int| conv_at(a, b, k))
}

/// Every coefficient product and every partial convolution sum stays within
/// the machine width.
pub open spec fn conv_fits(a: Seq<int>, b: Seq<int>) -> bool {
    &&& forall|i: int, j: int|
        0 <= i < a.len() && 0 <= j < b.len() ==> i64::MIN <= #[trigger] (a[i] * b[j]) <= i64::MAX
    &&& forall|k: int, i: int|
        0 <= k < a.len() + b.len() - 1 && 0 <= i <= a.len() ==> i64::MIN <= #[trigger] conv_row(
            a,
            b,
            k,
            i,
        ) <= i64::MAX
}

/// The difference polynomial: the shorter operand is padded with zeros to
/// the longer length.
pub open spec fn poly_sub(a: Seq<int>, b: Seq<int>) -> Seq<int> {
    Seq::new(
        (if a.len() >= b.len() {
            a.len()
        } else {
            b.len()
        }),
        |i: int| pad(a, i) - pad(b, i),
    )
}

/// Every coefficient difference stays within the machine width.
pub open spec fn sub_fits(a: Seq<int>, b: Seq<int>) -> bool {
    forall|i: int|
        0 <= i < a.len() || 0 <= i < b.len() ==> i64::MIN <= #[trigger] (pad(a, i) - pad(b, i))
            <= i64::MAX
}

/// Truncating (round-toward-zero) integer division, exactly as the machine
/// performs it on signed words.
pub open spec fn trunc_div(x: int, d: int) -> int {
    ((if x >= 0 {
        x / d
    } else {
        -((-x) / d)
    }) as i64) as int
}

/// One long-division step at position `i`: the leading coefficient of the
/// running remainder is divided by the divisor's leading coefficient, and
/// that multiple of the shifted divisor is subtracted.
pub open spec fn apply_step(rem: Seq<int>, b: Seq<int>, i: int) -> Seq<int> {
    let dl = b.len() as int;
    let lead = trunc_div(rem[i + dl - 1], b[dl - 1]);
    Seq::new(
        rem.len(),
        |k: int|
            if i <= k < i + dl {
                rem[k] - lead * b[k - i]
            } else {
                rem[k]
            },
    )
}

/// The running remainder after the long-division steps at positions
/// `len(a) - len(b)` down to `i` have been applied to `a`.
pub open spec fn rem_state(a: Seq<int>, b: Seq<int>, i: int) -> Seq<int>
    decreases a.len() - b.len() + 1 - i,
{
    if i > a.len() - b.len() {
        a
    } else {
        apply_step(rem_state(a, b, i + 1), b, i)
    }
}

/// The quotient coefficient produced by the long-division step at `i`.
pub open spec fn q_coeff(a: Seq<int>, b: Seq<int>, i: int) -> int {
    let dl = b.len() as int;
    trunc_div(rem_state(a, b, i + 1)[i + dl - 1], b[dl - 1])
}

/// The quotient of schoolbook long division of `a` by `b`.
pub open spec fn poly_div_q(a: Seq<int>, b: Seq<int>) -> Seq<int> {
    Seq::new((a.len() - b.len() + 1) as nat, |i: int| q_coeff(a, b, i))
}

/// The final remainder of schoolbook long division of `a` by `b`.
pub open spec fn poly_div_r(a: Seq<int>, b: Seq<int>) -> Seq<int> {
    rem_state(a, b, 0)
}

/// Every value met during the long-division step at `i` stays within the
/// machine width, and the leading division cannot overflow.
pub open spec fn step_fits(a: Seq<int>, b: Seq<int>, i: int) -> bool {
    &&& !(rem_state(a, b, i + 1)[i + b.len() - 1] == i64::MIN && b[b.len() - 1] == -1)
    &&& forall|j: int|
        0 <= j < b.len() ==> i64::MIN <= #[trigger] (q_coeff(a, b, i) * b[j]) <= i64::MAX
    &&& forall|j: int|
        0 <= j < b.len() ==> i64::MIN <= rem_state(a, b, i + 1)[i + j] - #[trigger] (q_coeff(
            a,
            b,
            i,
        ) * b[j]) <= i64::MAX
}

/// `step_fits` at every long-division step.
pub open spec fn div_fits(a: Seq<int>, b: Seq<int>) -> bool {
    forall|i: int| 0 <= i <= a.len() - b.len() ==> #[trigger] step_fits(a, b, i)
}

/// The degree-one factor `(x - i)`, low-degree first.
pub open spec fn linear_factor(i: int) -> Seq<int> {
    seq![-i, 1int]
}

/// The vanishing polynomial over the first `n` constraint indices:
/// the product of the factors `(x - i)` for `i` in `1..=n`.
pub open spec fn vanishing(n: nat) -> Seq<int>
    decreases n,
{
    if n == 0 {
        seq![1int]
    } else {
        poly_mul(vanishing((n - 1) as nat), linear_factor(n as int))
    }
}

/// Every multiplication made while building the vanishing polynomial of
/// degree `n` stays within the machine width.
pub open spec fn van_fits(n: nat) -> bool {
    forall|i: int|
        1 <= i <= n ==> #[trigger] conv_fits(vanishing((i - 1) as nat), linear_factor(i))
}

/// Only the highest coefficient of `a` contributes to the top coefficient
/// of the product of `a` with a monic degree-one factor.
proof fn lemma_top_coeff_linear(a: Seq<int>, c: int, i: int)
    requires
        0 <= i <= a.len(),
    ensures
        conv_row(a, linear_factor(c), a.len() as int, i) == (if i == a.len() && a.len() >= 1 {
            a[a.len() - 1]
        } else {
            0
        }),
    decreases i,
{
    if i > 0 {
        lemma_top_coeff_linear(a, c, i - 1);
    }
}

/// The vanishing polynomial of degree `n` has `n + 1` coefficients and is
/// monic.
pub proof fn lemma_vanishing_shape(n: nat)
    ensures
        vanishing(n).len() == n + 1,
        vanishing(n)[n as int] == 1,
    decreases n,
{
    if n == 0 {
        assert(vanishing(0) == seq![1int]);
    } else {
        lemma_vanishing_shape((n - 1) as nat);
        let a = vanishing((n - 1) as nat);
        lemma_top_coeff_linear(a, n as int, a.len() as int);
        assert(vanishing(n)[n as int] == conv_at(a, linear_factor(n as int), n as int));
    }
}

/// The value of a polynomial at `x`, by Horner's recurrence.
pub open spec fn poly_eval(s: Seq<int>, x: int) -> int
    decreases s.len(),
{
    if s.len() == 0 {
        0
    } else {
        s[0] + x * poly_eval(s.subrange(1, s.len() as int), x)
    }
}

/// The convolution of `a` with the degree-one factor `(x - c)`, written
/// out coefficient by coefficient.
proof fn lemma_conv_row_linear(a: Seq<int>, c: int, k: int, i: int)
    requires
        0 <= i <= a.len(),
    ensures
        conv_row(a, linear_factor(c), k, i) == (if 0 <= k < i {
            a[k] * (-c)
        } else {
            0
        }) + (if 1 <= k && k - 1 < i {
            a[k - 1]
        } else {
            0
        }),
    decreases i,
{
    if i > 0 {
        lemma_conv_row_linear(a, c, k, i - 1);
        let bb = linear_factor(c);
        assert(bb.len() == 2);
        assert(bb[0] == -c);
        assert(bb[1] == 1int);
        let prev = conv_row(a, bb, k, i - 1);
        assert(conv_row(a, bb, k, i) == prev + (if 0 <= k - (i - 1) < 2 {
            a[i - 1] * bb[k - (i - 1)]
        } else {
            0
        }));
        if k == i - 1 {
            assert(a[i - 1] * bb[0] == a[k] * (-c));
        } else if k == i {
            assert(a[i - 1] * bb[1] == a[k - 1] * 1int);
            assert(a[k - 1] * 1int == a[k - 1]) by (nonlinear_arith);
        }
    }
}

/// Adding to the constant coefficient adds to the value.
proof fn lemma_eval_update0(s: Seq<int>, v: int, x: int)
    requires
        s.len() >= 1,
    ensures
        poly_eval(s.update(0, s[0] + v), x) == poly_eval(s, x) + v,
{
    let su = s.update(0, s[0] + v);
    assert(su.subrange(1, su.len() as int) =~= s.subrange(1, s.len() as int));
}

/// Multiplying by the factor `(x - c)` multiplies the value at `x` by
/// `(x - c)`.
proof fn lemma_eval_linear_step(a: Seq<int>, c: int, x: int)
    requires
        a.len() >= 1,
    ensures
        poly_eval(poly_mul(a, linear_factor(c)), x) == poly_eval(a, x) * (x - c),
    decreases a.len(),
{
    let m = poly_mul(a, linear_factor(c));
    assert(m.len() == a.len() + 1);
    assert forall|k: int| 0 <= k < m.len() implies #[trigger] m[k] == (if 0 <= k < a.len() {
        a[k] * (-c)
    } else {
        0
    }) + (if 1 <= k && k - 1 < a.len() {
        a[k - 1]
    } else {
        0
    }) by {
        lemma_conv_row_linear(a, c, k, a.len() as int);
    }
    if a.len() == 1 {
        let tail = m.subrange(1, m.len() as int);
        assert(tail.len() == 1);
        assert(tail[0] == a[0]);
        let tail2 = tail.subrange(1, tail.len() as int);
        assert(tail2.len() == 0);
        assert(poly_eval(tail2, x) == 0);
        assert(poly_eval(tail, x) == a[0]);
        assert(poly_eval(m, x) == a[0] * (-c) + x * a[0]);
        assert(a[0] * (-c) + x * a[0] == a[0] * (x - c)) by (nonlinear_arith);
        let atail = a.subrange(1, a.len() as int);
        assert(atail.len() == 0);
        assert(poly_eval(atail, x) == 0);
        assert(poly_eval(a, x) == a[0]);
    } else {
        let a1 = a.subrange(1, a.len() as int);
        lemma_eval_linear_step(a1, c, x);
        let m1 = poly_mul(a1, linear_factor(c));
        assert forall|k: int| 0 <= k < m1.len() implies #[trigger] m1[k] == (if 0 <= k
            < a1.len() {
            a1[k] * (-c)
        } else {
            0
        }) + (if 1 <= k && k - 1 < a1.len() {
            a1[k - 1]
        } else {
            0
        }) by {
            lemma_conv_row_linear(a1, c, k, a1.len() as int);
        }
        let mtail = m.subrange(1, m.len() as int);
        assert(mtail =~= m1.update(0, m1[0] + a[0]));
        lemma_eval_update0(m1, a[0], x);
        assert(poly_eval(mtail, x) == poly_eval(a1, x) * (x - c) + a[0]);
        assert(poly_eval(m, x) == a[0] * (-c) + x * (poly_eval(a1, x) * (x - c) + a[0]));
        assert(poly_eval(a, x) == a[0] + x * poly_eval(a1, x));
        assert(a[0] * (-c) + x * (poly_eval(a1, x) * (x - c) + a[0]) == (a[0] + x * poly_eval(
            a1,
            x,
        )) * (x - c)) by (nonlinear_arith);
    }
}

/// Law: the vanishing polynomial of degree `n` takes the value zero at
/// every integer from one through `n`.
pub proof fn lemma_vanishing_eval(n: nat, k: int)
    requires
        1 <= k <= n,
    ensures
        poly_eval(vanishing(n), k) == 0,
    decreases n,
{
    let a = vanishing((n - 1) as nat);
    lemma_vanishing_shape((n - 1) as nat);
    lemma_eval_linear_step(a, n as int, k);
    if k == n as int {
        assert(poly_eval(a, k) * (k - n) == 0) by (nonlinear_arith)
            requires
                k == n,
        ;
    } else {
        lemma_vanishing_eval((n - 1) as nat, k);
        assert(poly_eval(a, k) * (k - n) == 0) by (nonlinear_arith)
            requires
                poly_eval(a, k) == 0,
        ;
    }
}

/// A convolution with an all-zero left operand vanishes.
proof fn lemma_conv_row_zero(a: Seq<int>, b: Seq<int>, k: int, i: int)
    requires
        0 <= i <= a.len(),
        forall|j: int| 0 <= j < a.len() ==> a[j] == 0,
    ensures
        conv_row(a, b, k, i) == 0,
    decreases i,
{
    if i > 0 {
        lemma_conv_row_zero(a, b, k, i - 1);
        if 0 <= k - (i - 1) < b.len() {
            assert(a[i - 1] * b[k - (i - 1)] == 0) by (nonlinear_arith)
                requires
                    a[i - 1] == 0,
            ;
        }
    }
}

/// Adding `v` to one coefficient of the left operand adds `v * b[k - i]`
/// to the convolution at `k`.
proof fn lemma_conv_row_update(a: Seq<int>, b: Seq<int>, i: int, v: int, k: int, j: int)
    requires
        0 <= i < a.len(),
        0 <= j <= a.len(),
    ensures
        conv_row(a.update(i, a[i] + v), b, k, j) == conv_row(a, b, k, j) + (if i < j && 0 <= k - i
            < b.len() {
            v * b[k - i]
        } else {
            0
        }),
    decreases j,
{
    let au = a.update(i, a[i] + v);
    if j > 0 {
        lemma_conv_row_update(a, b, i, v, k, j - 1);
        if j - 1 == i && 0 <= k - i < b.len() {
            assert((a[i] + v) * b[k - i] == a[i] * b[k - i] + v * b[k - i]) by (nonlinear_arith);
        }
    }
}

/// When every coefficient of `cp` above index `i` is zero, only `cp[i]`
/// reaches the convolution at position `i + len(b) - 1`.
proof fn lemma_conv_top_general(cp: Seq<int>, b: Seq<int>, i: int, j: int)
    requires
        b.len() >= 1,
        0 <= i < cp.len(),
        0 <= j <= cp.len(),
        forall|jj: int| i < jj < cp.len() ==> cp[jj] == 0,
    ensures
        conv_row(cp, b, i + b.len() - 1, j) == (if j > i {
            cp[i] * b[b.len() - 1]
        } else {
            0
        }),
    decreases j,
{
    if j > 0 {
        lemma_conv_top_general(cp, b, i, j - 1);
        let k = i + b.len() - 1;
        if 0 <= k - (j - 1) < b.len() {
            // only j - 1 >= i can contribute, and above i the coefficient
            // is zero
            if j - 1 > i {
                assert(cp[j - 1] * b[k - (j - 1)] == 0) by (nonlinear_arith)
                    requires
                        cp[j - 1] == 0,
                ;
            }
        }
    }
}

/// Long division never changes the length of the running remainder.
proof fn lemma_rem_state_len(a: Seq<int>, b: Seq<int>, i: int)
    requires
        b.len() >= 1,
    ensures
        rem_state(a, b, i).len() == a.len(),
    decreases a.len() - b.len() + 1 - i,
{
    if i <= a.len() - b.len() {
        lemma_rem_state_len(a, b, i + 1);
    }
}

/// The quotient entries at positions `i` and above, zero elsewhere.
spec fn q_upper(a: Seq<int>, b: Seq<int>, i: int) -> Seq<int> {
    Seq::new(
        (a.len() - b.len() + 1) as nat,
        |j: int|
            if j >= i {
                q_coeff(a, b, j)
            } else {
                0
            },
    )
}

/// After the steps above `i` have run, the dividend equals the partial
/// quotient times the divisor plus the running remainder.
proof fn lemma_div_identity_aux(a: Seq<int>, b: Seq<int>, i: int)
    requires
        b.len() >= 1,
        a.len() >= b.len(),
        0 <= i <= a.len() - b.len() + 1,
    ensures
        forall|k: int|
            0 <= k < a.len() ==> a[k] == #[trigger] conv_at(q_upper(a, b, i), b, k) + rem_state(
                a,
                b,
                i,
            )[k],
    decreases a.len() - b.len() + 1 - i,
{
    let diff = a.len() - b.len();
    if i == diff + 1 {
        assert forall|k: int| 0 <= k < a.len() implies a[k] == #[trigger] conv_at(
            q_upper(a, b, i),
            b,
            k,
        ) + rem_state(a, b, i)[k] by {
            lemma_conv_row_zero(q_upper(a, b, i), b, k, q_upper(a, b, i).len() as int);
        }
    } else {
        lemma_div_identity_aux(a, b, i + 1);
        lemma_rem_state_len(a, b, i);
        lemma_rem_state_len(a, b, i + 1);
        let qu1 = q_upper(a, b, i + 1);
        let qu0 = q_upper(a, b, i);
        let lead = q_coeff(a, b, i);
        assert(qu0 =~= qu1.update(i, qu1[i] + lead));
        let dl = b.len() as int;
        assert forall|k: int| 0 <= k < a.len() implies a[k] == #[trigger] conv_at(qu0, b, k)
            + rem_state(a, b, i)[k] by {
            lemma_conv_row_update(qu1, b, i, lead, k, qu1.len() as int);
            assert(conv_at(qu0, b, k) == conv_at(qu1, b, k) + (if 0 <= k - i < dl {
                lead * b[k - i]
            } else {
                0
            }));
            assert(rem_state(a, b, i) == apply_step(rem_state(a, b, i + 1), b, i));
            assert(rem_state(a, b, i)[k] == rem_state(a, b, i + 1)[k] - (if i <= k < i + dl {
                lead * b[k - i]
            } else {
                0
            }));
        }
    }
}

/// Law: schoolbook division decomposes the dividend exactly: it equals the
/// quotient times the divisor plus the final remainder, coefficient by
/// coefficient.
pub proof fn lemma_division_identity(a: Seq<int>, b: Seq<int>)
    requires
        b.len() >= 1,
        a.len() >= b.len(),
    ensures
        poly_mul(poly_div_q(a, b), b).len() == a.len(),
        poly_div_r(a, b).len() == a.len(),
        forall|k: int|
            0 <= k < a.len() ==> a[k] == #[trigger] poly_mul(poly_div_q(a, b), b)[k] + poly_div_r(
                a,
                b,
            )[k],
{
    lemma_div_identity_aux(a, b, 0);
    lemma_rem_state_len(a, b, 0);
    assert(q_upper(a, b, 0) =~= poly_div_q(a, b));
}

/// Exact multiples divide back out under Euclidean division, whatever the
/// divisor's sign.
proof fn lemma_mul_div_exact(x: int, d: int)
    requires
        d != 0,
    ensures
        (x * d) / d == x,
{
    lemma_fundamental_div_mod(x * d, d);
    let q = (x * d) / d;
    let r = (x * d) % d;
    assert(0 <= r < (if d > 0 {
        d
    } else {
        -d
    })) by (nonlinear_arith)
        requires
            d != 0,
            r == (x * d) % d,
    ;
    assert(q == x) by (nonlinear_arith)
        requires
            x * d == d * q + r,
            0 <= r < (if d > 0 {
                d
            } else {
                -d
            }),
    ;
}

/// Machine truncating division of an exact product by its factor returns
/// the cofactor, for any nonzero divisor.
proof fn lemma_trunc_div_cancel(x: int, d: int)
    requires
        d != 0,
        i64::MIN <= x <= i64::MAX,
    ensures
        trunc_div(x * d, d) == x,
{
    lemma_mul_div_exact(x, d);
    if x * d < 0 {
        lemma_mul_div_exact(-x, d);
        assert(-(x * d) == (-x) * d) by (nonlinear_arith);
    }
}

/// Zeroes the coefficients of `c` at positions `i` and above.
spec fn c_low(c: Seq<int>, i: int) -> Seq<int> {
    Seq::new(
        c.len(),
        |j: int|
            if j < i {
                c[j]
            } else {
                0
            },
    )
}

/// Dividing an exact product by a factor with nonzero lead walks the
/// cofactor's coefficients off the running remainder from the top down.
proof fn lemma_mul_divide_aux(c: Seq<int>, b: Seq<int>, i: int)
    requires
        b.len() >= 1,
        c.len() >= 1,
        b[b.len() - 1] != 0,
        forall|j: int| 0 <= j < c.len() ==> i64::MIN <= #[trigger] c[j] <= i64::MAX,
        0 <= i <= c.len(),
    ensures
        rem_state(poly_mul(c, b), b, i) =~= poly_mul(c_low(c, i), b),
        forall|j: int| i <= j < c.len() ==> #[trigger] q_coeff(poly_mul(c, b), b, j) == c[j],
    decreases c.len() - i,
{
    let a = poly_mul(c, b);
    let dl = b.len() as int;
    let diff = a.len() - b.len();
    assert(a.len() == c.len() + b.len() - 1);
    assert(diff == c.len() - 1);
    if i == c.len() {
        assert(c_low(c, i) =~= c);
        assert(rem_state(a, b, i) == a);
    } else {
        lemma_mul_divide_aux(c, b, i + 1);
        lemma_rem_state_len(a, b, i);
        lemma_rem_state_len(a, b, i + 1);
        let prev = rem_state(a, b, i + 1);
        let cl1 = c_low(c, i + 1);
        let cl0 = c_low(c, i);
        // The leading coefficient of the running remainder is exactly c[i].
        assert(prev[i + dl - 1] == conv_at(cl1, b, i + dl - 1));
        lemma_conv_top_general(cl1, b, i, cl1.len() as int);
        assert(prev[i + dl - 1] == cl1[i] * b[dl - 1]);
        // Dividing the exact product by the lead returns c[i] itself.
        lemma_trunc_div_cancel(c[i], b[dl - 1]);
        assert(q_coeff(a, b, i) == trunc_div(c[i] * b[dl - 1], b[dl - 1]));
        assert(q_coeff(a, b, i) == c[i]);
        // Subtracting c[i] times the shifted divisor zeroes that
        // coefficient of the cofactor.
        assert(cl0 =~= cl1.update(i, cl1[i] + (-c[i])));
        assert forall|k: int| 0 <= k < a.len() implies rem_state(a, b, i)[k] == #[trigger] conv_at(
            cl0,
            b,
            k,
        ) by {
            lemma_conv_row_update(cl1, b, i, -c[i], k, cl1.len() as int);
            assert(conv_at(cl0, b, k) == conv_at(cl1, b, k) + (if 0 <= k - i < dl {
                (-c[i]) * b[k - i]
            } else {
                0
            }));
            if 0 <= k - i < dl {
                assert((-c[i]) * b[k - i] == -(c[i] * b[k - i])) by (nonlinear_arith);
            }
            assert(rem_state(a, b, i) == apply_step(prev, b, i));
        }
        assert(rem_state(a, b, i) =~= poly_mul(cl0, b));
    }
}

/// Law: multiplying a cofactor by a factor with nonzero leading
/// coefficient and then dividing by that factor recovers the cofactor
/// exactly, with an all-zero remainder.
pub proof fn lemma_multiply_divide_cancel(c: Seq<int>, b: Seq<int>)
    requires
        b.len() >= 1,
        c.len() >= 1,
        b[b.len() - 1] != 0,
        forall|j: int| 0 <= j < c.len() ==> i64::MIN <= #[trigger] c[j] <= i64::MAX,
    ensures
        poly_div_q(poly_mul(c, b), b) == c,
        forall|k: int| 0 <= k < poly_mul(c, b).len() ==> #[trigger] poly_div_r(poly_mul(c, b), b)[k]
            == 0,
{
    let a = poly_mul(c, b);
    lemma_mul_divide_aux(c, b, 0);
    lemma_rem_state_len(a, b, 0);
    assert(poly_div_q(a, b) =~= c);
    assert forall|k: int| 0 <= k < a.len() implies #[trigger] poly_div_r(a, b)[k] == 0 by {
        assert(poly_div_r(a, b) == rem_state(a, b, 0));
        assert(rem_state(a, b, 0)[k] == conv_at(c_low(c, 0), b, k));
        lemma_conv_row_zero(c_low(c, 0), b, k, c_low(c, 0).len() as int);
    }
}

/// A vector of zero coefficients.
fn zeros(len: usize) -> (r: Vec<i64>)
    ensures
        r@.len() == len,
        forall|i: int| 0 <= i < len ==> #[trigger] r@[i] == 0,
{
    let mut out: Vec<i64> = Vec::new();
    for _k in 0..len
        invariant
            out@.len() == _k,
            forall|i: int| 0 <= i < _k ==> #[trigger] out@[i] == 0,
    {
        out.push(0);
    }
    out
}

/// An elementwise copy of a coefficient vector.
fn copy_coeffs(s: &Vec<i64>) -> (r: Vec<i64>)
    ensures
        r@ == s@,
{
    let mut out: Vec<i64> = Vec::new();
    let n = s.len();
    for k in 0..n
        invariant
            n == s@.len(),
            out@.len() == k,
            forall|i: int| 0 <= i < k ==> #[trigger] out@[i] == s@[i],
    {
        out.push(s[k]);
    }
    proof {
        assert(out@ =~= s@);
    }
    out
}

/// Convolution product of two coefficient vectors.
pub fn multiply_polynomials(a: &Vec<i64>, b: &Vec<i64>) -> (r: Vec<i64>)
    requires
        a@.len() + b@.len() >= 1,
        a@.len() + b@.len() <= usize::MAX,
        conv_fits(ints_of(a@), ints_of(b@)),
    ensures
        r@.len() == a@.len() + b@.len() - 1,
        ints_of(r@) == poly_mul(ints_of(a@), ints_of(b@)),
{
    let ghost aa: Seq<int> = ints_of(a@);
    let ghost bb: Seq<int> = ints_of(b@);
    let la = a.len();
    let lb = b.len();
    let len_r = la + lb - 1;
    let mut result: Vec<i64> = zeros(len_r);
    proof {
        assert(forall|k: int| 0 <= k < len_r ==> #[trigger] conv_row(aa, bb, k, 0) == 0);
    }
    for i in 0..la
        invariant
            aa == ints_of(a@),
            bb == ints_of(b@),
            la == a@.len(),
            lb == b@.len(),
            la + lb >= 1,
            len_r == la + lb - 1,
            conv_fits(aa, bb),
            result@.len() == len_r,
            forall|k: int|
                0 <= k < len_r ==> #[trigger] result@[k] as int == conv_row(aa, bb, k, i as int),
    {
        for j in 0..lb
            invariant
                aa == ints_of(a@),
                bb == ints_of(b@),
                la == a@.len(),
                lb == b@.len(),
                la + lb >= 1,
                len_r == la + lb - 1,
                i < la,
                conv_fits(aa, bb),
                result@.len() == len_r,
                forall|k: int|
                    0 <= k < len_r ==> #[trigger] result@[k] as int == conv_row(aa, bb, k, i as int)
                        + (if i <= k < i + j {
                        aa[i as int] * bb[k - i]
                    } else {
                        0
                    }),
        {
            proof {
                assert(aa[i as int] == a@[i as int] as int);
                assert(bb[j as int] == b@[j as int] as int);
            }
            let prod: i64 = a[i] * b[j];
            let idx = i + j;
            proof {
                assert(conv_row(aa, bb, idx as int, i + 1) == conv_row(aa, bb, idx as int, i as int)
                    + aa[i as int] * bb[j as int]);
            }
            result[idx] = result[idx] + prod;
        }
        proof {
            assert forall|k: int| 0 <= k < len_r implies #[trigger] result@[k] as int == conv_row(
                aa,
                bb,
                k,
                i + 1,
            ) by {
                assert(conv_row(aa, bb, k, i + 1) == conv_row(aa, bb, k, i as int) + (if 0 <= k - i
                    < bb.len() {
                    aa[i as int] * bb[k - i]
                } else {
                    0
                }));
            }
        }
    }
    proof {
        assert(ints_of(result@) =~= poly_mul(aa, bb));
    }
    result
}

/// Coefficientwise difference; the shorter operand is padded with zeros.
pub fn subtract_polynomials(a: &Vec<i64>, b: &Vec<i64>) -> (r: Vec<i64>)
    requires
        sub_fits(ints_of(a@), ints_of(b@)),
    ensures
        r@.len() == (if a@.len() >= b@.len() {
            a@.len()
        } else {
            b@.len()
        }),
        ints_of(r@) == poly_sub(ints_of(a@), ints_of(b@)),
{
    let ghost aa: Seq<int> = ints_of(a@);
    let ghost bb: Seq<int> = ints_of(b@);
    let la = a.len();
    let lb = b.len();
    let max_len = if la >= lb {
        la
    } else {
        lb
    };
    let mut result: Vec<i64> = Vec::new();
    for i in 0..max_len
        invariant
            aa == ints_of(a@),
            bb == ints_of(b@),
            la == a@.len(),
            lb == b@.len(),
            max_len == (if la >= lb {
                la
            } else {
                lb
            }),
            sub_fits(aa, bb),
            result@.len() == i,
            forall|k: int|
                0 <= k < i ==> #[trigger] result@[k] as int == pad(aa, k) - pad(bb, k),
    {
        let coeff_a: i64 = if i < la {
            a[i]
        } else {
            0
        };
        let coeff_b: i64 = if i < lb {
            b[i]
        } else {
            0
        };
        proof {
            assert(pad(aa, i as int) == coeff_a as int);
            assert(pad(bb, i as int) == coeff_b as int);
            assert(i64::MIN <= pad(aa, i as int) - pad(bb, i as int) <= i64::MAX);
        }
        result.push(coeff_a - coeff_b);
    }
    proof {
        assert(ints_of(result@) =~= poly_sub(aa, bb));
    }
    result
}

/// Schoolbook long division from the highest degree downward; returns the
/// quotient and the final running remainder. The divisor's leading
/// coefficient must be nonzero; a nonzero final remainder means the divisor
/// does not divide exactly.
pub fn divide_polynomials(dividend: &Vec<i64>, divisor: &Vec<i64>) -> (r: (Vec<i64>, Vec<i64>))
    requires
        divisor@.len() >= 1,
        dividend@.len() >= divisor@.len(),
        ints_of(divisor@)[divisor@.len() - 1] != 0,
        div_fits(ints_of(dividend@), ints_of(divisor@)),
    ensures
        r.0@.len() == dividend@.len() - divisor@.len() + 1,
        r.1@.len() == dividend@.len(),
        ints_of(r.0@) == poly_div_q(ints_of(dividend@), ints_of(divisor@)),
        ints_of(r.1@) == poly_div_r(ints_of(dividend@), ints_of(divisor@)),
{
    let ghost aa: Seq<int> = ints_of(dividend@);
    let ghost bb: Seq<int> = ints_of(divisor@);
    let la = dividend.len();
    let lb = divisor.len();
    let diff = la - lb;
    let mut quotient: Vec<i64> = zeros(diff + 1);
    let mut remainder: Vec<i64> = copy_coeffs(dividend);
    proof {
        assert(ints_of(remainder@) =~= rem_state(aa, bb, diff + 1));
    }

    let mut i = diff + 1;
    while i > 0
        invariant
            aa == ints_of(dividend@),
            bb == ints_of(divisor@),
            la == dividend@.len(),
            lb == divisor@.len(),
            lb >= 1,
            la >= lb,
            diff == la - lb,
            bb[lb - 1] != 0,
            div_fits(aa, bb),
            i <= diff + 1,
            quotient@.len() == diff + 1,
            remainder@.len() == la,
            ints_of(remainder@) == rem_state(aa, bb, i as int),
            forall|j: int| i <= j <= diff ==> #[trigger] quotient@[j] as int == q_coeff(aa, bb, j),
        decreases i,
    {
        i = i - 1;
        let ghost prev: Seq<int> = rem_state(aa, bb, i + 1);
        proof {
            assert(step_fits(aa, bb, i as int));
            assert(prev[i + lb - 1] == remainder@[i + lb - 1] as int);
        }
        let lead: i64 = remainder[i + lb - 1] / divisor[lb - 1];
        proof {
            assert(lead as int == q_coeff(aa, bb, i as int));
        }
        quotient[i] = lead;
        for j in 0..lb
            invariant
                aa == ints_of(dividend@),
                bb == ints_of(divisor@),
                la == dividend@.len(),
                lb == divisor@.len(),
                lb >= 1,
                la >= lb,
                diff == la - lb,
                i <= diff,
                prev == rem_state(aa, bb, i + 1),
                step_fits(aa, bb, i as int),
                lead as int == trunc_div(prev[i + lb - 1], bb[lb - 1]),
                remainder@.len() == la,
                forall|k: int|
                    0 <= k < la ==> #[trigger] remainder@[k] as int == (if i <= k < i + j {
                        prev[k] - lead * bb[k - i]
                    } else {
                        prev[k]
                    }),
        {
            proof {
                assert(i64::MIN <= q_coeff(aa, bb, i as int) * bb[j as int] <= i64::MAX);
                assert(lead as int * divisor@[j as int] as int == q_coeff(aa, bb, i as int)
                    * bb[j as int]);
                assert(i64::MIN <= prev[i + j] - q_coeff(aa, bb, i as int) * bb[j as int]
                    <= i64::MAX);
            }
            let p: i64 = lead * divisor[j];
            let idx = i + j;
            remainder[idx] = remainder[idx] - p;
        }
        proof {
            assert(ints_of(remainder@) =~= apply_step(prev, bb, i as int));
            assert(rem_state(aa, bb, i as int) == apply_step(prev, bb, i as int));
        }
    }
    proof {
        assert(ints_of(quotient@) =~= poly_div_q(aa, bb));
    }
    (quotient, remainder)
}

/// Builds the vanishing polynomial `(x - 1)(x - 2) ... (x - n)` by repeated
/// multiplication with the degree-one factors.
pub fn generate_t(n: usize) -> (r: Vec<i64>)
    requires
        n <= i64::MAX,
        n + 2 <= usize::MAX,
        van_fits(n as nat),
    ensures
        r@.len() == n + 1,
        ints_of(r@) == vanishing(n as nat),
{
    let mut t: Vec<i64> = Vec::new();
    t.push(1);
    proof {
        assert(ints_of(t@) =~= vanishing(0));
    }
    let mut i: usize = 1;
    while i <= n
        invariant
            n <= i64::MAX,
            n + 2 <= usize::MAX,
            van_fits(n as nat),
            1 <= i <= n + 1,
            t@.len() == i,
            ints_of(t@) == vanishing((i - 1) as nat),
        decreases n + 1 - i,
    {
        let mut factor: Vec<i64> = Vec::new();
        factor.push(-(i as i64));
        factor.push(1);
        proof {
            assert(ints_of(factor@) =~= linear_factor(i as int));
            assert(conv_fits(vanishing((i - 1) as nat), linear_factor(i as int)));
        }
        let next = multiply_polynomials(&t, &factor);
        t = next;
        proof {
            assert(ints_of(t@) == poly_mul(vanishing((i - 1) as nat), linear_factor(i as int)));
            assert(vanishing(i as nat) == poly_mul(
                vanishing((i - 1) as nat),
                linear_factor(i as int),
            ));
        }
        i = i + 1;
    }
    t
}

} // verus!
