//! Uniqueness of polynomial division by a divisor with an invertible leading
//! coefficient: the quotient and the remainder are determined by the
//! dividend and the divisor. The proof
//! works coefficient by coefficient on the product `raw_mul`.
use crate::field::fr_modulus;
use crate::poly_spec::{
    coeff, cong, is_trimmed, lemma_cong_add, lemma_cong_mod, lemma_cong_mul,
    lemma_cong_reduced_eq, lemma_cong_sub, lemma_trim, max_len, poly_add, poly_mul, raw_add, raw_mul,
    raw_scale, raw_sub, shift, tail, trim,
};
use crate::interpolation::lemma_cancel_invertible;
use crate::poly_spec::invertible;
use crate::qap::is_division;
use vstd::arithmetic::div_mod::*;
use vstd::arithmetic::mul::*;
use vstd::prelude::*;

verus! {

/// The leading coefficient is one.
pub open spec fn is_monic(t: Seq<int>) -> bool {
    t.len() > 0 && t.last() == 1
}

/// Trimming keeps every coefficient.
pub proof fn lemma_coeff_trim(c: Seq<int>, i: int)
    ensures
        coeff(trim(c), i) == coeff(c, i),
{
    lemma_trim(c);
    if 0 <= i < trim(c).len() {
        assert(trim(c)[i] == c[i]);
    } else if trim(c).len() <= i < c.len() {
        assert(c[i] == 0);
    }
}

/// Coefficients of a sum.
pub proof fn lemma_coeff_raw_add(a: Seq<int>, b: Seq<int>, i: int)
    requires
        i >= 0,
    ensures
        coeff(raw_add(a, b), i) == (coeff(a, i) + coeff(b, i)) % fr_modulus(),
{
    if i >= max_len(a, b) {
        lemma_small_mod(0, fr_modulus() as nat);
    }
}

/// Coefficients of a difference.
pub proof fn lemma_coeff_raw_sub(a: Seq<int>, b: Seq<int>, i: int)
    requires
        i >= 0,
    ensures
        coeff(raw_sub(a, b), i) == (coeff(a, i) - coeff(b, i)) % fr_modulus(),
{
    if i >= max_len(a, b) {
        lemma_small_mod(0, fr_modulus() as nat);
    }
}

/// One step of the product's coefficients: coefficient `i` of `a * b` is
/// `b_i * a_0` plus coefficient `i - 1` of `tail(a) * b`, modulo the field
/// order (for an empty `a` both sides are zero).
pub proof fn lemma_coeff_raw_mul_step(a: Seq<int>, b: Seq<int>, i: int)
    requires
        i >= 0,
    ensures
        cong(
            coeff(raw_mul(a, b), i),
            coeff(b, i) * coeff(a, 0) + (if i >= 1 {
                coeff(raw_mul(tail(a), b), i - 1)
            } else {
                0
            }),
        ),
{
    let r = fr_modulus();
    if a.len() == 0 {
        assert(coeff(b, i) * 0 == 0) by (nonlinear_arith);
        assert(raw_mul(tail(a), b) == Seq::<int>::empty());
    } else {
        let k = a[0];
        let rest = raw_mul(a.drop_first(), b);
        let sc = raw_scale(b, k);
        let sh = shift(rest);
        lemma_coeff_raw_add(sc, sh, i);
        let cs = coeff(sc, i);
        let ch = coeff(sh, i);
        if i >= b.len() {
            assert(coeff(b, i) * k == 0 * k);
            assert(0 * k == 0) by (nonlinear_arith);
        }
        lemma_small_mod(0, r as nat);
        assert(cs == (coeff(b, i) * k) % r);
        if i >= 1 {
            assert(ch == coeff(rest, i - 1));
        } else {
            assert(ch == 0);
        }
        lemma_cong_mod(coeff(b, i) * k);
        lemma_cong_add(cs, coeff(b, i) * k, ch, ch);
        lemma_cong_mod(cs + ch);
    }
}

/// The product is linear in its first factor: coefficient `i` of
/// `(a1 - a2) * b` is that of `a1 * b` minus that of `a2 * b`.
pub proof fn lemma_coeff_raw_mul_sub(a1: Seq<int>, a2: Seq<int>, b: Seq<int>, i: int)
    requires
        i >= 0,
    ensures
        cong(coeff(raw_mul(raw_sub(a1, a2), b), i), coeff(raw_mul(a1, b), i) - coeff(raw_mul(a2, b), i)),
    decreases max_len(a1, a2),
{
    let d = raw_sub(a1, a2);
    let bi = coeff(b, i);
    lemma_coeff_raw_mul_step(d, b, i);
    lemma_coeff_raw_mul_step(a1, b, i);
    lemma_coeff_raw_mul_step(a2, b, i);
    let c1 = coeff(a1, 0);
    let c2 = coeff(a2, 0);
    if max_len(a1, a2) == 0 {
        assert(d.len() == 0);
        assert(a1.len() == 0 && a2.len() == 0);
        assert(tail(d) == d && tail(a1) == a1 && tail(a2) == a2);
        if i >= 1 {
            lemma_coeff_raw_mul_sub_empty_tail(a1, a2, b, i);
        }
        assert(bi * 0 == 0) by (nonlinear_arith);
    } else {
        lemma_coeff_raw_sub(a1, a2, 0);
        assert(tail(d) =~= raw_sub(tail(a1), tail(a2))) by {
            assert forall|j: int| 0 <= j < max_len(tail(a1), tail(a2)) implies coeff(tail(a1), j) == coeff(
                a1,
                j + 1,
            ) && coeff(tail(a2), j) == coeff(a2, j + 1) by {}
        }
        let n1 = if i >= 1 { coeff(raw_mul(tail(a1), b), i - 1) } else { 0 };
        let n2 = if i >= 1 { coeff(raw_mul(tail(a2), b), i - 1) } else { 0 };
        let nd = if i >= 1 { coeff(raw_mul(tail(d), b), i - 1) } else { 0 };
        if i >= 1 {
            lemma_coeff_raw_mul_sub(tail(a1), tail(a2), b, i - 1);
        }
        assert(cong(nd, n1 - n2));
        // d_0 ~ c1 - c2
        lemma_cong_mod(c1 - c2);
        lemma_cong_mul(bi, bi, coeff(d, 0), c1 - c2);
        lemma_cong_add(bi * coeff(d, 0), bi * (c1 - c2), nd, n1 - n2);
        lemma_mul_is_distributive_sub(bi, c1, c2);
        assert(bi * (c1 - c2) + (n1 - n2) == (bi * c1 + n1) - (bi * c2 + n2));
        lemma_cong_sub(coeff(raw_mul(a1, b), i), bi * c1 + n1, coeff(raw_mul(a2, b), i), bi * c2 + n2);
    }
}

/// Both factors empty: every product coefficient is zero.
proof fn lemma_coeff_raw_mul_sub_empty_tail(a1: Seq<int>, a2: Seq<int>, b: Seq<int>, i: int)
    requires
        a1.len() == 0,
        a2.len() == 0,
    ensures
        coeff(raw_mul(raw_sub(a1, a2), b), i) == 0,
        coeff(raw_mul(a1, b), i) == 0,
        coeff(raw_mul(a2, b), i) == 0,
{
    assert(raw_sub(a1, a2).len() == 0);
}

/// A first factor of zeros gives a product with only zero coefficients
/// (modulo the field order).
pub proof fn lemma_coeff_raw_mul_zeros(a: Seq<int>, b: Seq<int>, i: int)
    requires
        i >= 0,
        forall|j: int| 0 <= j < a.len() ==> #[trigger] a[j] == 0,
    ensures
        cong(coeff(raw_mul(a, b), i), 0),
    decreases a.len(),
{
    lemma_coeff_raw_mul_step(a, b, i);
    assert(coeff(b, i) * coeff(a, 0) == 0) by {
        assert(coeff(a, 0) == 0);
        lemma_mul_basics(coeff(b, i));
    }
    if a.len() > 0 && i >= 1 {
        assert forall|j: int| 0 <= j < tail(a).len() implies #[trigger] tail(a)[j] == 0 by {
            assert(tail(a)[j] == a[j + 1]);
        }
        lemma_coeff_raw_mul_zeros(tail(a), b, i - 1);
    } else if i >= 1 {
        assert(raw_mul(tail(a), b) == Seq::<int>::empty());
    }
}

/// For a `t` of `n > 0` coefficients, if `k` is the last index where `d` is
/// non-zero, coefficient `k + n - 1` of `d * t` is `d_k` times the leading
/// coefficient of `t` (modulo the field order).
pub proof fn lemma_coeff_raw_mul_lead(d: Seq<int>, t: Seq<int>, k: int)
    requires
        t.len() > 0,
        0 <= k < d.len(),
        forall|j: int| k < j < d.len() ==> #[trigger] d[j] == 0,
    ensures
        cong(coeff(raw_mul(d, t), k + t.len() - 1), d[k] * t.last()),
    decreases k,
{
    let n = t.len() as int;
    let idx = k + n - 1;
    lemma_coeff_raw_mul_step(d, t, idx);
    if k == 0 {
        assert(coeff(t, idx) == t.last());
        lemma_mul_is_commutative(t.last(), d[0]);
        if idx >= 1 {
            assert forall|j: int| 0 <= j < tail(d).len() implies #[trigger] tail(d)[j] == 0 by {
                assert(tail(d)[j] == d[j + 1]);
            }
            lemma_coeff_raw_mul_zeros(tail(d), t, idx - 1);
            lemma_cong_add(coeff(t, idx) * coeff(d, 0), d[0] * t.last(), coeff(raw_mul(tail(d), t), idx - 1), 0);
        }
    } else {
        assert(coeff(t, idx) == 0);
        lemma_mul_basics(coeff(d, 0));
        assert forall|j: int| k - 1 < j < tail(d).len() implies #[trigger] tail(d)[j] == 0 by {
            assert(tail(d)[j] == d[j + 1]);
        }
        assert(tail(d)[k - 1] == d[k]);
        lemma_coeff_raw_mul_lead(tail(d), t, k - 1);
        assert(idx - 1 == (k - 1) + n - 1);
    }
}

/// With a monic `t` the top coefficient of `d * t` is that of `d`.
pub proof fn lemma_coeff_raw_mul_top(d: Seq<int>, t: Seq<int>, k: int)
    requires
        is_monic(t),
        0 <= k < d.len(),
        forall|j: int| k < j < d.len() ==> #[trigger] d[j] == 0,
    ensures
        cong(coeff(raw_mul(d, t), k + t.len() - 1), d[k]),
{
    lemma_coeff_raw_mul_lead(d, t, k);
    lemma_mul_basics(d[k]);
}

/// The leading coefficient of `t` has an inverse in the field.
pub open spec fn lead_invertible(t: Seq<int>) -> bool {
    t.len() > 0 && invertible(t.last())
}

/// Two trimmed sequences with the same coefficients are equal.
pub proof fn lemma_same_coeffs_equal(a: Seq<int>, b: Seq<int>)
    requires
        is_trimmed(a),
        is_trimmed(b),
        forall|i: int| 0 <= i ==> #[trigger] coeff(a, i) == coeff(b, i),
    ensures
        a == b,
{
    if a.len() > b.len() {
        assert(coeff(a, a.len() - 1) == coeff(b, a.len() - 1));
    } else if b.len() > a.len() {
        assert(coeff(a, b.len() - 1) == coeff(b, b.len() - 1));
    }
    assert forall|i: int| 0 <= i < a.len() implies a[i] == b[i] by {
        assert(coeff(a, i) == coeff(b, i));
    }
    assert(a =~= b);
}

/// Coefficient `i` of a division's dividend, from the quotient and remainder.
pub proof fn lemma_coeff_division(p: Seq<int>, t: Seq<int>, q: Seq<int>, rem: Seq<int>, i: int)
    requires
        i >= 0,
        p == poly_add(poly_mul(q, t), rem),
    ensures
        coeff(p, i) == (coeff(raw_mul(q, t), i) + coeff(rem, i)) % fr_modulus(),
{
    lemma_coeff_trim(raw_add(poly_mul(q, t), rem), i);
    lemma_coeff_raw_add(poly_mul(q, t), rem, i);
    lemma_coeff_trim(raw_mul(q, t), i);
}

/// Division is unique for a divisor whose leading coefficient is invertible
/// (in the field, any non-zero divisor): two divisions of `p` by `t` with
/// canonical quotients and remainders shorter than `t` have the same
/// quotient and the same remainder.
pub proof fn lemma_division_unique(p: Seq<int>, t: Seq<int>, q1: Seq<int>, r1: Seq<int>, q2: Seq<int>, r2: Seq<int>)
    requires
        lead_invertible(t),
        is_division(p, t, q1, r1),
        is_division(p, t, q2, r2),
    ensures
        q1 == q2,
        r1 == r2,
{
    let r = fr_modulus();
    let n = t.len() as int;
    let d = raw_sub(q1, q2);
    // coefficient by coefficient: d * t ~ r2 - r1
    assert forall|i: int| 0 <= i implies cong(#[trigger] coeff(raw_mul(d, t), i), coeff(r2, i) - coeff(r1, i)) by {
        lemma_coeff_division(p, t, q1, r1, i);
        lemma_coeff_division(p, t, q2, r2, i);
        lemma_coeff_raw_mul_sub(q1, q2, t, i);
        let m1 = coeff(raw_mul(q1, t), i);
        let m2 = coeff(raw_mul(q2, t), i);
        lemma_cong_mod(m1 + coeff(r1, i));
        lemma_cong_mod(m2 + coeff(r2, i));
        assert(cong(m1 + coeff(r1, i), m2 + coeff(r2, i)));
        lemma_cong_sub(m1 + coeff(r1, i), m2 + coeff(r2, i), m2 + coeff(r1, i), m2 + coeff(r1, i));
        assert((m1 + coeff(r1, i)) - (m2 + coeff(r1, i)) == m1 - m2);
        assert((m2 + coeff(r2, i)) - (m2 + coeff(r1, i)) == coeff(r2, i) - coeff(r1, i));
    }
    // every entry of d is zero
    assert forall|j: int| 0 <= j < d.len() implies #[trigger] d[j] == 0 by {
        if d[j] != 0 {
            // the last non-zero entry of d
            let k = choose|k: int| j <= k < d.len() && d[k] != 0 && (forall|l: int| k < l < d.len() ==> #[trigger] d[l] == 0);
            lemma_last_nonzero_exists(d, j);
            lemma_coeff_raw_mul_lead(d, t, k);
            assert(coeff(r1, k + n - 1) == 0 && coeff(r2, k + n - 1) == 0);
            let c = coeff(raw_mul(d, t), k + n - 1);
            assert(cong(c, 0));
            lemma_mod_bound(coeff(q1, k) - coeff(q2, k), r);
            lemma_mul_is_commutative(d[k], t.last());
            lemma_cancel_invertible(t.last(), d[k]);
        }
    }
    // the quotients agree
    assert forall|i: int| 0 <= i implies #[trigger] coeff(q1, i) == coeff(q2, i) by {
        if i < d.len() {
            lemma_coeff_raw_sub(q1, q2, i);
            assert(d[i] == 0);
            lemma_canonical_sub_zero(coeff(q1, i), coeff(q2, i));
        }
    }
    lemma_same_coeffs_equal(q1, q2);
    // then so do the remainders
    assert forall|i: int| 0 <= i implies #[trigger] coeff(r1, i) == coeff(r2, i) by {
        lemma_coeff_division(p, t, q1, r1, i);
        lemma_coeff_division(p, t, q2, r2, i);
        let m = coeff(raw_mul(q1, t), i);
        lemma_cong_mod(m + coeff(r1, i));
        lemma_cong_mod(m + coeff(r2, i));
        lemma_cong_sub(m + coeff(r1, i), m + coeff(r2, i), m, m);
        assert((m + coeff(r1, i)) - m == coeff(r1, i));
        assert((m + coeff(r2, i)) - m == coeff(r2, i));
        lemma_cong_reduced_eq(coeff(r1, i), coeff(r2, i));
    }
    lemma_same_coeffs_equal(r1, r2);
}

/// A non-zero entry at `j` has a last non-zero entry at or after `j`.
proof fn lemma_last_nonzero_exists(d: Seq<int>, j: int)
    requires
        0 <= j < d.len(),
        d[j] != 0,
    ensures
        exists|k: int| j <= k < d.len() && d[k] != 0 && (forall|l: int| k < l < d.len() ==> #[trigger] d[l] == 0),
    decreases d.len() - j,
{
    if exists|l: int| j < l < d.len() && d[l] != 0 {
        let l = choose|l: int| j < l < d.len() && d[l] != 0;
        lemma_last_nonzero_exists(d, l);
    } else {
        assert(forall|l: int| j < l < d.len() ==> #[trigger] d[l] == 0);
    }
}

/// Two canonical values whose difference reduces to zero are equal.
proof fn lemma_canonical_sub_zero(a: int, b: int)
    requires
        (a - b) % fr_modulus() == 0,
        0 <= a < fr_modulus(),
        0 <= b < fr_modulus(),
    ensures
        a == b,
{
    lemma_cong_mod(a - b);
    lemma_cong_add(a - b, 0, b, b);
    lemma_cong_reduced_eq(a, b);
}

} // verus!
