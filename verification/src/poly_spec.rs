//! The mathematical model of dense polynomials over the BN254 scalar field:
//! coefficient sequences (lowest degree first) of canonical field values,
//! the ring operations on them, and evaluation, with the laws that tie
//! evaluation to the operations.
use crate::field::fr_modulus;
use vstd::arithmetic::div_mod::*;
use vstd::arithmetic::mul::*;
use vstd::prelude::*;

verus! {

/// Coefficient `i`, zero beyond the stored ones.
pub open spec fn coeff(c: Seq<int>, i: int) -> int {
    if 0 <= i < c.len() {
        c[i]
    } else {
        0
    }
}

/// Every coefficient is a canonical field value.
pub open spec fn is_canonical(c: Seq<int>) -> bool {
    forall|i: int| 0 <= i < c.len() ==> 0 <= #[trigger] c[i] < fr_modulus()
}

/// The highest stored coefficient, if any, is non-zero.
pub open spec fn is_trimmed(c: Seq<int>) -> bool {
    c.len() == 0 || c.last() != 0
}

/// The coefficients with the trailing zeros removed.
pub open spec fn trim(c: Seq<int>) -> Seq<int>
    decreases c.len(),
{
    if c.len() > 0 && c.last() == 0 {
        trim(c.drop_last())
    } else {
        c
    }
}

/// The coefficients after the constant one.
pub open spec fn tail(c: Seq<int>) -> Seq<int> {
    if c.len() == 0 {
        c
    } else {
        c.drop_first()
    }
}

pub open spec fn max_len(a: Seq<int>, b: Seq<int>) -> nat {
    if a.len() >= b.len() {
        a.len()
    } else {
        b.len()
    }
}

/// Coefficient-wise sum, of the length of the longer operand.
pub open spec fn raw_add(a: Seq<int>, b: Seq<int>) -> Seq<int> {
    Seq::new(max_len(a, b), |i: int| (coeff(a, i) + coeff(b, i)) % fr_modulus())
}

/// Coefficient-wise difference, of the length of the longer operand.
pub open spec fn raw_sub(a: Seq<int>, b: Seq<int>) -> Seq<int> {
    Seq::new(max_len(a, b), |i: int| (coeff(a, i) - coeff(b, i)) % fr_modulus())
}

/// Every coefficient multiplied by `k`.
pub open spec fn raw_scale(a: Seq<int>, k: int) -> Seq<int> {
    Seq::new(a.len(), |i: int| (a[i] * k) % fr_modulus())
}

/// Multiplication by the indeterminate.
pub open spec fn shift(c: Seq<int>) -> Seq<int> {
    seq![0int].add(c)
}

/// The product `a(x) * b(x) = a_0 * b(x) + x * (tail(a)(x) * b(x))`.
pub open spec fn raw_mul(a: Seq<int>, b: Seq<int>) -> Seq<int>
    decreases a.len(),
{
    if a.len() == 0 {
        seq![]
    } else {
        raw_add(raw_scale(b, a[0]), shift(raw_mul(a.drop_first(), b)))
    }
}

/// Polynomial sum.
pub open spec fn poly_add(a: Seq<int>, b: Seq<int>) -> Seq<int> {
    trim(raw_add(a, b))
}

/// Polynomial difference.
pub open spec fn poly_sub(a: Seq<int>, b: Seq<int>) -> Seq<int> {
    trim(raw_sub(a, b))
}

/// A polynomial multiplied by a constant.
pub open spec fn poly_scale(a: Seq<int>, k: int) -> Seq<int> {
    trim(raw_scale(a, k))
}

/// Polynomial product.
pub open spec fn poly_mul(a: Seq<int>, b: Seq<int>) -> Seq<int> {
    trim(raw_mul(a, b))
}

/// The value of the polynomial at `x`, by Horner's rule.
pub open spec fn eval(c: Seq<int>, x: int) -> int
    decreases c.len(),
{
    if c.len() == 0 {
        0
    } else {
        (c[0] + x * eval(c.drop_first(), x)) % fr_modulus()
    }
}

/// `a` and `b` are congruent modulo the field order.
pub open spec fn cong(a: int, b: int) -> bool {
    a % fr_modulus() == b % fr_modulus()
}

/// `(x * u) mod r`.
pub open spec fn mul_mod(x: int, u: int) -> int {
    (x * u) % fr_modulus()
}

/// `x` has an inverse modulo the field order.
pub open spec fn invertible(x: int) -> bool {
    exists|u: int| #[trigger] mul_mod(x, u) == 1
}

// ---------------------------------------------------------------------------
// Modular arithmetic
// ---------------------------------------------------------------------------

pub proof fn lemma_cong_mod(a: int)
    ensures
        cong(a % fr_modulus(), a),
        0 <= a % fr_modulus() < fr_modulus(),
{
    lemma_mod_twice(a, fr_modulus());
    lemma_mod_bound(a, fr_modulus());
}

pub proof fn lemma_cong_add(a: int, a2: int, b: int, b2: int)
    requires
        cong(a, a2),
        cong(b, b2),
    ensures
        cong(a + b, a2 + b2),
{
    lemma_add_mod_noop(a, b, fr_modulus());
    lemma_add_mod_noop(a2, b2, fr_modulus());
}

pub proof fn lemma_cong_sub(a: int, a2: int, b: int, b2: int)
    requires
        cong(a, a2),
        cong(b, b2),
    ensures
        cong(a - b, a2 - b2),
{
    lemma_sub_mod_noop(a, b, fr_modulus());
    lemma_sub_mod_noop(a2, b2, fr_modulus());
}

pub proof fn lemma_cong_mul(a: int, a2: int, b: int, b2: int)
    requires
        cong(a, a2),
        cong(b, b2),
    ensures
        cong(a * b, a2 * b2),
{
    lemma_mul_mod_noop(a, b, fr_modulus());
    lemma_mul_mod_noop(a2, b2, fr_modulus());
}

/// Two reduced values that are congruent are equal.
pub proof fn lemma_cong_reduced_eq(a: int, b: int)
    requires
        cong(a, b),
        0 <= a < fr_modulus(),
        0 <= b < fr_modulus(),
    ensures
        a == b,
{
    lemma_small_mod(a as nat, fr_modulus() as nat);
    lemma_small_mod(b as nat, fr_modulus() as nat);
}

// ---------------------------------------------------------------------------
// Trimming
// ---------------------------------------------------------------------------

/// Trimming keeps a prefix, drops only zeros, and yields a trimmed sequence.
pub proof fn lemma_trim(c: Seq<int>)
    ensures
        trim(c).len() <= c.len(),
        is_trimmed(trim(c)),
        forall|i: int| 0 <= i < trim(c).len() ==> #[trigger] trim(c)[i] == c[i],
        forall|i: int| trim(c).len() <= i < c.len() ==> #[trigger] c[i] == 0,
        is_trimmed(c) ==> trim(c) == c,
        is_canonical(c) ==> is_canonical(trim(c)),
    decreases c.len(),
{
    if c.len() > 0 && c.last() == 0 {
        lemma_trim(c.drop_last());
        assert forall|i: int| trim(c).len() <= i < c.len() implies #[trigger] c[i] == 0 by {
            if i < c.len() - 1 {
                assert(c.drop_last()[i] == c[i]);
            }
        }
    }
}

/// Trimming twice is trimming once.
pub proof fn lemma_trim_idempotent(c: Seq<int>)
    ensures
        trim(trim(c)) == trim(c),
{
    lemma_trim(c);
    lemma_trim(trim(c));
}

// ---------------------------------------------------------------------------
// Evaluation
// ---------------------------------------------------------------------------

pub proof fn lemma_eval_range(c: Seq<int>, x: int)
    ensures
        0 <= eval(c, x) < fr_modulus(),
{
    if c.len() > 0 {
        lemma_mod_bound(c[0] + x * eval(c.drop_first(), x), fr_modulus());
    }
}

/// One Horner step, for any sequence, empty or not.
pub proof fn lemma_eval_unfold(c: Seq<int>, x: int)
    ensures
        eval(c, x) == (coeff(c, 0) + x * eval(tail(c), x)) % fr_modulus(),
{
    if c.len() == 0 {
        assert(x * 0 == 0) by (nonlinear_arith);
    }
}

pub proof fn lemma_eval_push_zero(s: Seq<int>, x: int)
    ensures
        eval(s.push(0), x) == eval(s, x),
    decreases s.len(),
{
    if s.len() == 0 {
        assert(s.push(0).drop_first() =~= Seq::<int>::empty());
        assert(s.push(0)[0] == 0);
        assert(eval(s.push(0).drop_first(), x) == 0);
        assert(x * 0 == 0) by (nonlinear_arith);
        lemma_small_mod(0, fr_modulus() as nat);
        assert(eval(s.push(0), x) == (0 + x * 0) % fr_modulus());
    } else {
        assert(s.push(0).drop_first() =~= s.drop_first().push(0));
        assert(s.push(0)[0] == s[0]);
        lemma_eval_push_zero(s.drop_first(), x);
    }
}

/// Trailing zeros do not change the value.
pub proof fn lemma_eval_trim(c: Seq<int>, x: int)
    ensures
        eval(trim(c), x) == eval(c, x),
    decreases c.len(),
{
    if c.len() > 0 && c.last() == 0 {
        lemma_eval_trim(c.drop_last(), x);
        assert(c =~= c.drop_last().push(0));
        lemma_eval_push_zero(c.drop_last(), x);
    }
}

proof fn lemma_tail_raw_add(a: Seq<int>, b: Seq<int>)
    requires
        max_len(a, b) > 0,
    ensures
        raw_add(a, b).drop_first() =~= raw_add(tail(a), tail(b)),
        raw_add(a, b)[0] == (coeff(a, 0) + coeff(b, 0)) % fr_modulus(),
{
    assert forall|i: int| 0 <= i < max_len(tail(a), tail(b)) implies coeff(tail(a), i) == coeff(a, i + 1)
        && coeff(tail(b), i) == coeff(b, i + 1) by {}
}

proof fn lemma_tail_raw_sub(a: Seq<int>, b: Seq<int>)
    requires
        max_len(a, b) > 0,
    ensures
        raw_sub(a, b).drop_first() =~= raw_sub(tail(a), tail(b)),
        raw_sub(a, b)[0] == (coeff(a, 0) - coeff(b, 0)) % fr_modulus(),
{
    assert forall|i: int| 0 <= i < max_len(tail(a), tail(b)) implies coeff(tail(a), i) == coeff(a, i + 1)
        && coeff(tail(b), i) == coeff(b, i + 1) by {}
}

/// Evaluation of a coefficient-wise sum.
pub proof fn lemma_eval_raw_add(a: Seq<int>, b: Seq<int>, x: int)
    ensures
        eval(raw_add(a, b), x) == (eval(a, x) + eval(b, x)) % fr_modulus(),
    decreases max_len(a, b),
{
    let s = raw_add(a, b);
    lemma_eval_unfold(a, x);
    lemma_eval_unfold(b, x);
    lemma_eval_range(s, x);
    if max_len(a, b) == 0 {
        lemma_eval_range(a, x);
        assert(a.len() == 0 && b.len() == 0);
        lemma_small_mod(0, fr_modulus() as nat);
    } else {
        lemma_tail_raw_add(a, b);
        lemma_eval_raw_add(tail(a), tail(b), x);
        let ca = coeff(a, 0);
        let cb = coeff(b, 0);
        let ea = eval(tail(a), x);
        let eb = eval(tail(b), x);
        let e = eval(raw_add(tail(a), tail(b)), x);
        // eval(s) = ((ca + cb) % r + x * e) % r, with e = (ea + eb) % r
        assert(eval(s, x) == (s[0] + x * e) % fr_modulus());
        lemma_cong_mod(ca + cb);
        lemma_cong_mod(ea + eb);
        lemma_cong_mul(x, x, e, ea + eb);
        lemma_cong_add(s[0], ca + cb, x * e, x * (ea + eb));
        lemma_cong_mod(s[0] + x * e);
        lemma_mul_is_distributive_add(x, ea, eb);
        lemma_cong_mod(ca + x * ea);
        lemma_cong_mod(cb + x * eb);
        lemma_cong_add(eval(a, x), ca + x * ea, eval(b, x), cb + x * eb);
        lemma_cong_mod(eval(a, x) + eval(b, x));
        lemma_cong_reduced_eq(eval(s, x), (eval(a, x) + eval(b, x)) % fr_modulus());
    }
}

/// Evaluation of a coefficient-wise difference.
pub proof fn lemma_eval_raw_sub(a: Seq<int>, b: Seq<int>, x: int)
    ensures
        eval(raw_sub(a, b), x) == (eval(a, x) - eval(b, x)) % fr_modulus(),
    decreases max_len(a, b),
{
    let s = raw_sub(a, b);
    lemma_eval_unfold(a, x);
    lemma_eval_unfold(b, x);
    lemma_eval_range(s, x);
    if max_len(a, b) == 0 {
        assert(a.len() == 0 && b.len() == 0);
        lemma_small_mod(0, fr_modulus() as nat);
    } else {
        lemma_tail_raw_sub(a, b);
        lemma_eval_raw_sub(tail(a), tail(b), x);
        let ca = coeff(a, 0);
        let cb = coeff(b, 0);
        let ea = eval(tail(a), x);
        let eb = eval(tail(b), x);
        let e = eval(raw_sub(tail(a), tail(b)), x);
        assert(eval(s, x) == (s[0] + x * e) % fr_modulus());
        lemma_cong_mod(ca - cb);
        lemma_cong_mod(ea - eb);
        lemma_cong_mul(x, x, e, ea - eb);
        lemma_cong_add(s[0], ca - cb, x * e, x * (ea - eb));
        lemma_cong_mod(s[0] + x * e);
        lemma_mul_is_distributive_sub(x, ea, eb);
        lemma_cong_mod(ca + x * ea);
        lemma_cong_mod(cb + x * eb);
        lemma_cong_sub(eval(a, x), ca + x * ea, eval(b, x), cb + x * eb);
        lemma_cong_mod(eval(a, x) - eval(b, x));
        lemma_cong_reduced_eq(eval(s, x), (eval(a, x) - eval(b, x)) % fr_modulus());
    }
}

/// Evaluation of a polynomial multiplied by a constant.
pub proof fn lemma_eval_raw_scale(a: Seq<int>, k: int, x: int)
    ensures
        eval(raw_scale(a, k), x) == (k * eval(a, x)) % fr_modulus(),
    decreases a.len(),
{
    let s = raw_scale(a, k);
    lemma_eval_range(s, x);
    if a.len() == 0 {
        assert(k * 0 == 0) by (nonlinear_arith);
        lemma_small_mod(0, fr_modulus() as nat);
    } else {
        assert(s.drop_first() =~= raw_scale(a.drop_first(), k));
        lemma_eval_raw_scale(a.drop_first(), k, x);
        let a0 = a[0];
        let ea = eval(a.drop_first(), x);
        let e = eval(raw_scale(a.drop_first(), k), x);
        lemma_cong_mod(a0 * k);
        lemma_cong_mod(k * ea);
        lemma_cong_mul(x, x, e, k * ea);
        lemma_cong_add(s[0], a0 * k, x * e, x * (k * ea));
        lemma_cong_mod(s[0] + x * e);
        lemma_cong_mod(a0 + x * ea);
        lemma_cong_mul(k, k, eval(a, x), a0 + x * ea);
        lemma_cong_mod(k * eval(a, x));
        assert(k * (a0 + x * ea) == a0 * k + x * (k * ea)) by (nonlinear_arith);
        lemma_cong_reduced_eq(eval(s, x), (k * eval(a, x)) % fr_modulus());
    }
}

/// Evaluation of a polynomial multiplied by the indeterminate.
pub proof fn lemma_eval_shift(c: Seq<int>, x: int)
    ensures
        eval(shift(c), x) == (x * eval(c, x)) % fr_modulus(),
{
    assert(shift(c).drop_first() =~= c);
}

/// Evaluation of a product.
pub proof fn lemma_eval_raw_mul(a: Seq<int>, b: Seq<int>, x: int)
    ensures
        eval(raw_mul(a, b), x) == (eval(a, x) * eval(b, x)) % fr_modulus(),
    decreases a.len(),
{
    let s = raw_mul(a, b);
    lemma_eval_range(s, x);
    if a.len() == 0 {
        assert(0 * eval(b, x) == 0) by (nonlinear_arith);
        lemma_small_mod(0, fr_modulus() as nat);
    } else {
        let rest = raw_mul(a.drop_first(), b);
        lemma_eval_raw_mul(a.drop_first(), b, x);
        lemma_eval_raw_add(raw_scale(b, a[0]), shift(rest), x);
        lemma_eval_raw_scale(b, a[0], x);
        lemma_eval_shift(rest, x);
        let a0 = a[0];
        let ea = eval(a.drop_first(), x);
        let eb = eval(b, x);
        let er = eval(rest, x);
        // eval(s) ~ a0 * eb + x * (ea * eb)
        lemma_cong_mod(a0 * eb);
        lemma_cong_mod(ea * eb);
        lemma_cong_mul(x, x, er, ea * eb);
        lemma_cong_mod(x * er);
        lemma_cong_add(
            eval(raw_scale(b, a0), x),
            a0 * eb,
            eval(shift(rest), x),
            x * (ea * eb),
        );
        lemma_cong_mod(eval(raw_scale(b, a0), x) + eval(shift(rest), x));
        lemma_cong_mod(a0 + x * ea);
        lemma_cong_mul(eval(a, x), a0 + x * ea, eb, eb);
        lemma_cong_mod(eval(a, x) * eb);
        assert((a0 + x * ea) * eb == a0 * eb + x * (ea * eb)) by (nonlinear_arith);
        lemma_cong_reduced_eq(eval(s, x), (eval(a, x) * eb) % fr_modulus());
    }
}

/// Evaluation is additive.
pub proof fn lemma_eval_poly_add(a: Seq<int>, b: Seq<int>, x: int)
    ensures
        eval(poly_add(a, b), x) == (eval(a, x) + eval(b, x)) % fr_modulus(),
{
    lemma_eval_trim(raw_add(a, b), x);
    lemma_eval_raw_add(a, b, x);
}

/// Evaluation respects subtraction.
pub proof fn lemma_eval_poly_sub(a: Seq<int>, b: Seq<int>, x: int)
    ensures
        eval(poly_sub(a, b), x) == (eval(a, x) - eval(b, x)) % fr_modulus(),
{
    lemma_eval_trim(raw_sub(a, b), x);
    lemma_eval_raw_sub(a, b, x);
}

/// Evaluation respects scaling by a constant.
pub proof fn lemma_eval_poly_scale(a: Seq<int>, k: int, x: int)
    ensures
        eval(poly_scale(a, k), x) == (k * eval(a, x)) % fr_modulus(),
{
    lemma_eval_trim(raw_scale(a, k), x);
    lemma_eval_raw_scale(a, k, x);
}

/// Evaluation is multiplicative.
pub proof fn lemma_eval_poly_mul(a: Seq<int>, b: Seq<int>, x: int)
    ensures
        eval(poly_mul(a, b), x) == (eval(a, x) * eval(b, x)) % fr_modulus(),
{
    lemma_eval_trim(raw_mul(a, b), x);
    lemma_eval_raw_mul(a, b, x);
}

} // verus!
