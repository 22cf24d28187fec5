//! Ring laws of the polynomial product, coefficient by coefficient and
//! modulo the field order: linearity in each factor, commutativity and
//! associativity, and agreement of products of congruent factors.
use crate::division::{lemma_coeff_raw_add, lemma_coeff_raw_mul_step, lemma_coeff_raw_sub, lemma_coeff_trim};
use crate::field::fr_modulus;
use crate::poly_spec::{
    coeff, cong, eval, lemma_cong_add, lemma_cong_mod, lemma_cong_mul, lemma_cong_sub, lemma_eval_unfold,
    max_len, poly_add, poly_mul, poly_scale, poly_sub, raw_add, raw_mul, raw_scale, raw_sub, shift,
    tail, trim,
};
use crate::qap::lin_comb;
use vstd::arithmetic::div_mod::*;
use vstd::arithmetic::mul::*;
use vstd::prelude::*;

verus! {

/// `a` and `b` have congruent coefficients: they are the same polynomial.
pub open spec fn peq(a: Seq<int>, b: Seq<int>) -> bool {
    forall|i: int| 0 <= i ==> #[trigger] cong(coeff(a, i), coeff(b, i))
}

/// Coefficient `i` of the product `a * b`.
pub open spec fn mc(a: Seq<int>, b: Seq<int>, i: int) -> int {
    coeff(raw_mul(a, b), i)
}

/// A trimmed sequence is the same polynomial.
pub proof fn lemma_peq_trim(c: Seq<int>)
    ensures
        peq(trim(c), c),
        peq(c, trim(c)),
{
    assert forall|i: int| 0 <= i implies #[trigger] cong(coeff(trim(c), i), coeff(c, i)) by {
        lemma_coeff_trim(c, i);
    }
    assert forall|i: int| 0 <= i implies #[trigger] cong(coeff(c, i), coeff(trim(c), i)) by {
        lemma_coeff_trim(c, i);
    }
}

/// The tails of congruent sequences are congruent.
proof fn lemma_peq_tail(a: Seq<int>, b: Seq<int>)
    requires
        peq(a, b),
    ensures
        peq(tail(a), tail(b)),
        cong(coeff(a, 0), coeff(b, 0)),
{
    assert(cong(coeff(a, 0), coeff(b, 0)));
    assert forall|i: int| 0 <= i implies #[trigger] cong(coeff(tail(a), i), coeff(tail(b), i)) by {
        assert(cong(coeff(a, i + 1), coeff(b, i + 1)));
        assert(coeff(tail(a), i) == coeff(a, i + 1));
        assert(coeff(tail(b), i) == coeff(b, i + 1));
    }
}

/// A product with an empty factor has zero coefficients.
pub proof fn lemma_mc_empty(a: Seq<int>, i: int)
    requires
        i >= 0,
    ensures
        cong(mc(a, seq![], i), 0),
        mc(seq![], a, i) == 0,
    decreases a.len(),
{
    lemma_coeff_raw_mul_step(a, seq![], i);
    assert(coeff(Seq::<int>::empty(), i) == 0);
    lemma_mul_basics(coeff(a, 0));
    if i >= 1 && a.len() > 0 {
        lemma_mc_empty(tail(a), i - 1);
    } else if i >= 1 {
        assert(raw_mul(tail(a), Seq::<int>::empty()) == Seq::<int>::empty());
    }
    assert(raw_mul(Seq::<int>::empty(), a) == Seq::<int>::empty());
}

/// The product is additive in its first factor.
pub proof fn lemma_mc_add_left(a1: Seq<int>, a2: Seq<int>, b: Seq<int>, i: int)
    requires
        i >= 0,
    ensures
        cong(mc(raw_add(a1, a2), b, i), mc(a1, b, i) + mc(a2, b, i)),
    decreases max_len(a1, a2),
{
    let d = raw_add(a1, a2);
    let bi = coeff(b, i);
    lemma_coeff_raw_mul_step(d, b, i);
    lemma_coeff_raw_mul_step(a1, b, i);
    lemma_coeff_raw_mul_step(a2, b, i);
    let c1 = coeff(a1, 0);
    let c2 = coeff(a2, 0);
    if max_len(a1, a2) == 0 {
        assert(d.len() == 0 && a1.len() == 0 && a2.len() == 0);
        assert(raw_mul(d, b) == Seq::<int>::empty());
        assert(raw_mul(a1, b) == Seq::<int>::empty());
        assert(raw_mul(a2, b) == Seq::<int>::empty());
    } else {
        lemma_coeff_raw_add(a1, a2, 0);
        assert(tail(d) =~= raw_add(tail(a1), tail(a2))) by {
            assert forall|j: int| 0 <= j < max_len(tail(a1), tail(a2)) implies coeff(tail(a1), j) == coeff(
                a1,
                j + 1,
            ) && coeff(tail(a2), j) == coeff(a2, j + 1) by {}
        }
        let n1 = if i >= 1 { mc(tail(a1), b, i - 1) } else { 0 };
        let n2 = if i >= 1 { mc(tail(a2), b, i - 1) } else { 0 };
        let nd = if i >= 1 { mc(tail(d), b, i - 1) } else { 0 };
        if i >= 1 {
            lemma_mc_add_left(tail(a1), tail(a2), b, i - 1);
        }
        lemma_cong_mod(c1 + c2);
        lemma_cong_mul(bi, bi, coeff(d, 0), c1 + c2);
        lemma_cong_add(bi * coeff(d, 0), bi * (c1 + c2), nd, n1 + n2);
        lemma_mul_is_distributive_add(bi, c1, c2);
        lemma_cong_add(mc(a1, b, i), bi * c1 + n1, mc(a2, b, i), bi * c2 + n2);
    }
}

/// The product scales with its first factor.
pub proof fn lemma_mc_scale_left(a: Seq<int>, k: int, b: Seq<int>, i: int)
    requires
        i >= 0,
    ensures
        cong(mc(raw_scale(a, k), b, i), k * mc(a, b, i)),
    decreases a.len(),
{
    let s = raw_scale(a, k);
    let bi = coeff(b, i);
    lemma_coeff_raw_mul_step(s, b, i);
    lemma_coeff_raw_mul_step(a, b, i);
    if a.len() == 0 {
        assert(s.len() == 0);
        assert(raw_mul(s, b) == Seq::<int>::empty());
        assert(raw_mul(a, b) == Seq::<int>::empty());
        lemma_mul_basics(k);
    } else {
        assert(tail(s) =~= raw_scale(tail(a), k));
        let na = if i >= 1 { mc(tail(a), b, i - 1) } else { 0 };
        let ns = if i >= 1 { mc(tail(s), b, i - 1) } else { 0 };
        if i >= 1 {
            lemma_mc_scale_left(tail(a), k, b, i - 1);
        } else {
            lemma_mul_basics(k);
        }
        assert(cong(ns, k * na));
        let a0 = a[0];
        assert(coeff(s, 0) == (a0 * k) % fr_modulus());
        lemma_cong_mod(a0 * k);
        lemma_cong_mul(bi, bi, coeff(s, 0), a0 * k);
        lemma_cong_add(bi * coeff(s, 0), bi * (a0 * k), ns, k * na);
        lemma_cong_mul(k, k, mc(a, b, i), bi * a0 + na);
        assert(bi * (a0 * k) + k * na == k * (bi * a0 + na)) by (nonlinear_arith);
    }
}

/// Multiplying the first factor by the indeterminate shifts the product.
pub proof fn lemma_mc_shift_left(z: Seq<int>, c: Seq<int>, i: int)
    requires
        i >= 0,
    ensures
        cong(mc(shift(z), c, i), if i >= 1 { mc(z, c, i - 1) } else { 0 }),
{
    lemma_coeff_raw_mul_step(shift(z), c, i);
    assert(tail(shift(z)) =~= z);
    assert(coeff(shift(z), 0) == 0);
    lemma_mul_basics(coeff(c, i));
}

/// Congruent first factors give congruent products.
pub proof fn lemma_mc_congr_left(a: Seq<int>, a2: Seq<int>, b: Seq<int>, i: int)
    requires
        i >= 0,
        peq(a, a2),
    ensures
        cong(mc(a, b, i), mc(a2, b, i)),
    decreases max_len(a, a2),
{
    lemma_coeff_raw_mul_step(a, b, i);
    lemma_coeff_raw_mul_step(a2, b, i);
    lemma_peq_tail(a, a2);
    let bi = coeff(b, i);
    lemma_cong_mul(bi, bi, coeff(a, 0), coeff(a2, 0));
    if i >= 1 {
        if max_len(a, a2) > 0 {
            lemma_mc_congr_left(tail(a), tail(a2), b, i - 1);
        } else {
            assert(tail(a) == a && tail(a2) == a2);
            assert(a.len() == 0 && a2.len() == 0);
            assert(a =~= a2);
        }
        lemma_cong_add(bi * coeff(a, 0), bi * coeff(a2, 0), mc(tail(a), b, i - 1), mc(tail(a2), b, i - 1));
    }
}

/// The product is commutative.
pub proof fn lemma_mc_comm(a: Seq<int>, b: Seq<int>, i: int)
    requires
        i >= 0,
    ensures
        cong(mc(a, b, i), mc(b, a, i)),
    decreases a.len() + b.len(),
{
    if a.len() == 0 {
        assert(a =~= Seq::<int>::empty());
        lemma_mc_empty(b, i);
    } else if b.len() == 0 {
        assert(b =~= Seq::<int>::empty());
        lemma_mc_empty(a, i);
    } else {
        let a0 = coeff(a, 0);
        let b0 = coeff(b, 0);
        lemma_coeff_raw_mul_step(a, b, i);
        lemma_coeff_raw_mul_step(b, a, i);
        if i == 0 {
            lemma_mul_is_commutative(b0, a0);
        } else {
            // a * b ~ b_i a0 + (tail a * b)_{i-1} ~ b_i a0 + a_i b0 + (tail b * tail a)_{i-2}
            lemma_mc_comm(tail(a), b, i - 1);
            lemma_coeff_raw_mul_step(b, tail(a), i - 1);
            assert(coeff(tail(a), i - 1) == coeff(a, i));
            lemma_mc_comm(tail(b), a, i - 1);
            lemma_coeff_raw_mul_step(a, tail(b), i - 1);
            assert(coeff(tail(b), i - 1) == coeff(b, i));
            let r1 = if i >= 2 { mc(tail(b), tail(a), i - 2) } else { 0 };
            let r2 = if i >= 2 { mc(tail(a), tail(b), i - 2) } else { 0 };
            if i >= 2 {
                lemma_mc_comm(tail(b), tail(a), i - 2);
            }
            let bi = coeff(b, i);
            let ai = coeff(a, i);
            // mc(tail a, b, i-1) ~ ai * b0 + r1; mc(tail b, a, i-1) ~ bi * a0 + r2
            lemma_cong_add(bi * a0, bi * a0, mc(tail(a), b, i - 1), ai * b0 + r1);
            lemma_cong_add(ai * b0, ai * b0, mc(tail(b), a, i - 1), bi * a0 + r2);
            assert(cong(bi * a0 + (ai * b0 + r1), ai * b0 + (bi * a0 + r2))) by {
                lemma_cong_add(bi * a0 + ai * b0, bi * a0 + ai * b0, r1, r2);
            }
        }
    }
}

/// The product is associative.
pub proof fn lemma_mc_assoc(a: Seq<int>, b: Seq<int>, c: Seq<int>, i: int)
    requires
        i >= 0,
    ensures
        cong(mc(raw_mul(a, b), c, i), mc(a, raw_mul(b, c), i)),
    decreases a.len(),
{
    if a.len() == 0 {
        assert(raw_mul(a, b) == Seq::<int>::empty());
        assert(raw_mul(Seq::<int>::empty(), c) == Seq::<int>::empty());
        assert(raw_mul(a, raw_mul(b, c)) == Seq::<int>::empty());
    } else {
        let a0 = a[0];
        let rest = raw_mul(a.drop_first(), b);
        assert(raw_mul(a, b) == raw_add(raw_scale(b, a0), shift(rest)));
        lemma_mc_add_left(raw_scale(b, a0), shift(rest), c, i);
        lemma_mc_scale_left(b, a0, c, i);
        lemma_mc_shift_left(rest, c, i);
        assert(tail(a) == a.drop_first());
        let n = if i >= 1 { mc(rest, c, i - 1) } else { 0 };
        let m = if i >= 1 { mc(tail(a), raw_mul(b, c), i - 1) } else { 0 };
        if i >= 1 {
            lemma_mc_assoc(a.drop_first(), b, c, i - 1);
        }
        lemma_coeff_raw_mul_step(a, raw_mul(b, c), i);
        assert(coeff(a, 0) == a0);
        lemma_cong_add(mc(raw_scale(b, a0), c, i), a0 * mc(b, c, i), mc(shift(rest), c, i), n);
        lemma_mul_is_commutative(a0, mc(b, c, i));
        lemma_cong_add(a0 * mc(b, c, i), mc(b, c, i) * a0, n, m);
    }
}

/// The product is additive in its second factor.
pub proof fn lemma_mc_add_right(a: Seq<int>, b1: Seq<int>, b2: Seq<int>, i: int)
    requires
        i >= 0,
    ensures
        cong(mc(a, raw_add(b1, b2), i), mc(a, b1, i) + mc(a, b2, i)),
{
    lemma_mc_comm(a, raw_add(b1, b2), i);
    lemma_mc_add_left(b1, b2, a, i);
    lemma_mc_comm(b1, a, i);
    lemma_mc_comm(b2, a, i);
    lemma_cong_add(mc(b1, a, i), mc(a, b1, i), mc(b2, a, i), mc(a, b2, i));
}

/// The product is subtractive in its second factor.
pub proof fn lemma_mc_sub_right(a: Seq<int>, b1: Seq<int>, b2: Seq<int>, i: int)
    requires
        i >= 0,
    ensures
        cong(mc(a, raw_sub(b1, b2), i), mc(a, b1, i) - mc(a, b2, i)),
{
    lemma_mc_comm(a, raw_sub(b1, b2), i);
    crate::division::lemma_coeff_raw_mul_sub(b1, b2, a, i);
    lemma_mc_comm(b1, a, i);
    lemma_mc_comm(b2, a, i);
    lemma_cong_sub(mc(b1, a, i), mc(a, b1, i), mc(b2, a, i), mc(a, b2, i));
}

/// The product scales with its second factor.
pub proof fn lemma_mc_scale_right(a: Seq<int>, b: Seq<int>, k: int, i: int)
    requires
        i >= 0,
    ensures
        cong(mc(a, raw_scale(b, k), i), k * mc(a, b, i)),
{
    lemma_mc_comm(a, raw_scale(b, k), i);
    lemma_mc_scale_left(b, k, a, i);
    lemma_mc_comm(b, a, i);
    lemma_cong_mul(k, k, mc(b, a, i), mc(a, b, i));
}

/// Congruent second factors give congruent products.
pub proof fn lemma_mc_congr_right(a: Seq<int>, b: Seq<int>, b2: Seq<int>, i: int)
    requires
        i >= 0,
        peq(b, b2),
    ensures
        cong(mc(a, b, i), mc(a, b2, i)),
{
    lemma_mc_comm(a, b, i);
    lemma_mc_congr_left(b, b2, a, i);
    lemma_mc_comm(b2, a, i);
}


/// Congruent polynomials have the same value everywhere.
pub proof fn lemma_eval_peq(a: Seq<int>, b: Seq<int>, x: int)
    requires
        peq(a, b),
    ensures
        eval(a, x) == eval(b, x),
    decreases max_len(a, b),
{
    lemma_eval_unfold(a, x);
    lemma_eval_unfold(b, x);
    lemma_peq_tail(a, b);
    if max_len(a, b) == 0 {
        assert(a =~= b);
    } else {
        lemma_eval_peq(tail(a), tail(b), x);
        lemma_cong_add(coeff(a, 0), coeff(b, 0), x * eval(tail(a), x), x * eval(tail(b), x));
    }
}

/// Coefficients of a polynomial scaled by a constant.
pub proof fn lemma_coeff_poly_scale(p: Seq<int>, k: int, i: int)
    requires
        i >= 0,
    ensures
        cong(coeff(poly_scale(p, k), i), coeff(p, i) * k),
{
    lemma_coeff_trim(raw_scale(p, k), i);
    if i < p.len() {
        lemma_cong_mod(p[i] * k);
    } else {
        lemma_mul_basics(k);
        lemma_small_mod(0, fr_modulus() as nat);
    }
}

/// Coefficients of a sum of polynomials.
pub proof fn lemma_coeff_poly_add(a: Seq<int>, b: Seq<int>, i: int)
    requires
        i >= 0,
    ensures
        cong(coeff(poly_add(a, b), i), coeff(a, i) + coeff(b, i)),
{
    lemma_coeff_trim(raw_add(a, b), i);
    lemma_coeff_raw_add(a, b, i);
    lemma_cong_mod(coeff(a, i) + coeff(b, i));
}

/// Coefficients of a difference of polynomials.
pub proof fn lemma_coeff_poly_sub(a: Seq<int>, b: Seq<int>, i: int)
    requires
        i >= 0,
    ensures
        cong(coeff(poly_sub(a, b), i), coeff(a, i) - coeff(b, i)),
{
    lemma_coeff_trim(raw_sub(a, b), i);
    lemma_coeff_raw_sub(a, b, i);
    lemma_cong_mod(coeff(a, i) - coeff(b, i));
}

/// Coefficients of a product of polynomials.
pub proof fn lemma_coeff_poly_mul(a: Seq<int>, b: Seq<int>, i: int)
    requires
        i >= 0,
    ensures
        coeff(poly_mul(a, b), i) == mc(a, b, i),
{
    lemma_coeff_trim(raw_mul(a, b), i);
}

/// One step of a witness combination, coefficient by coefficient.
pub proof fn lemma_coeff_lin_comb_step(polys: Seq<Seq<int>>, ws: Seq<int>, lo: int, hi: int, i: int)
    requires
        lo < hi,
        i >= 0,
    ensures
        cong(
            coeff(lin_comb(polys, ws, lo, hi), i),
            coeff(lin_comb(polys, ws, lo, hi - 1), i) + coeff(polys[hi - 1], i) * ws[hi - 1],
        ),
{
    let prev = lin_comb(polys, ws, lo, hi - 1);
    let term = poly_scale(polys[hi - 1], ws[hi - 1]);
    lemma_coeff_poly_add(prev, term, i);
    lemma_coeff_poly_scale(polys[hi - 1], ws[hi - 1], i);
    lemma_cong_add(coeff(prev, i), coeff(prev, i), coeff(term, i), coeff(polys[hi - 1], i) * ws[hi - 1]);
}

/// The arithmetic of one step of `lemma_lin_comb_lift`.
proof fn lemma_lift_arith(
    cs: int,
    cp: int,
    ma: int,
    sk: int,
    pk: int,
    mk: int,
    w: int,
    mqt: int,
    ts: int,
    tp: int,
    tm: int,
)
    requires
        cong(cs, cp + ma),
        cong(sk, pk + mk),
        cong(mqt, w * mk),
        cong(ts, cs + sk * w),
        cong(tp, cp + pk * w),
        cong(tm, ma + mqt),
    ensures
        cong(ts, tp + tm),
{
    lemma_cong_mul(sk, pk + mk, w, w);
    lemma_cong_add(cs, cp + ma, sk * w, (pk + mk) * w);
    assert((cp + ma) + (pk + mk) * w == (cp + pk * w) + (ma + w * mk)) by (nonlinear_arith);
    lemma_cong_add(cp + pk * w, tp, ma + w * mk, tm);
}

/// Lifting every polynomial by a multiple of `t` lifts the combination by a
/// multiple of `t`: if `s_k = p_k + t * q_k` for every `k`, the combination of
/// the `s_k` is that of the `p_k` plus `t` times that of the `q_k`.
pub proof fn lemma_lin_comb_lift(
    s: Seq<Seq<int>>,
    p: Seq<Seq<int>>,
    t: Seq<int>,
    q: Seq<Seq<int>>,
    ws: Seq<int>,
    hi: int,
    i: int,
)
    requires
        i >= 0,
        forall|k: int, j: int|
            0 <= k < hi && 0 <= j ==> #[trigger] cong(coeff(s[k], j), coeff(p[k], j) + mc(t, q[k], j)),
    ensures
        cong(
            coeff(lin_comb(s, ws, 0, hi), i),
            coeff(lin_comb(p, ws, 0, hi), i) + mc(t, lin_comb(q, ws, 0, hi), i),
        ),
    decreases hi,
{
    if hi <= 0 {
        assert(coeff(Seq::<int>::empty(), i) == 0);
        lemma_mc_empty(t, i);
    } else {
        let k = hi - 1;
        let w = ws[k];
        lemma_lin_comb_lift(s, p, t, q, ws, k, i);
        lemma_coeff_lin_comb_step(s, ws, 0, hi, i);
        lemma_coeff_lin_comb_step(p, ws, 0, hi, i);
        let qa = lin_comb(q, ws, 0, k);
        let qt = poly_scale(q[k], w);
        // t * (qa + qt) ~ t * qa + w * (t * q_k)
        lemma_peq_trim(raw_add(qa, qt));
        lemma_mc_congr_right(t, lin_comb(q, ws, 0, hi), raw_add(qa, qt), i);
        lemma_mc_add_right(t, qa, qt, i);
        lemma_peq_trim(raw_scale(q[k], w));
        lemma_mc_congr_right(t, qt, raw_scale(q[k], w), i);
        lemma_mc_scale_right(t, q[k], w, i);
        assert(cong(coeff(s[k], i), coeff(p[k], i) + mc(t, q[k], i)));
        lemma_lift_arith(
            coeff(lin_comb(s, ws, 0, k), i),
            coeff(lin_comb(p, ws, 0, k), i),
            mc(t, qa, i),
            coeff(s[k], i),
            coeff(p[k], i),
            mc(t, q[k], i),
            w,
            mc(t, qt, i),
            coeff(lin_comb(s, ws, 0, hi), i),
            coeff(lin_comb(p, ws, 0, hi), i),
            mc(t, lin_comb(q, ws, 0, hi), i),
        );
    }
}


/// The quotient of `k` by `x - p` (synthetic division): coefficient `j` is
/// the value at `p` of `k_{j+1} + k_{j+2} x + ...`.
pub open spec fn synth_quotient(k: Seq<int>, p: int) -> Seq<int> {
    Seq::new(
        if k.len() > 0 { (k.len() - 1) as nat } else { 0 },
        |j: int| eval(k.subrange(j + 1, k.len() as int), p),
    )
}

/// One Horner step on a suffix: the value of `k_j + k_{j+1} x + ...` at `p`.
proof fn lemma_eval_suffix(k: Seq<int>, p: int, j: int)
    requires
        0 <= j < k.len(),
    ensures
        eval(k.subrange(j, k.len() as int), p) == (k[j] + p * eval(k.subrange(j + 1, k.len() as int), p))
            % fr_modulus(),
{
    let sj = k.subrange(j, k.len() as int);
    assert(sj.drop_first() =~= k.subrange(j + 1, k.len() as int));
    assert(sj[0] == k[j]);
}

/// The factor theorem: a polynomial that vanishes at `p` is `x - p` times its
/// synthetic quotient.
pub proof fn lemma_factor_theorem(k: Seq<int>, p: int)
    requires
        eval(k, p) == 0,
    ensures
        peq(k, raw_mul(seq![(-p) % fr_modulus(), 1int], synth_quotient(k, p))),
{
    let r = fr_modulus();
    let lin = seq![(-p) % r, 1int];
    let q = synth_quotient(k, p);
    let n = k.len() as int;
    assert(tail(lin) =~= seq![1int]);
    assert(tail(seq![1int]) =~= Seq::<int>::empty());
    assert(k.subrange(n, n) =~= Seq::<int>::empty());
    assert(k.subrange(0, n) =~= k);
    assert forall|i: int| 0 <= i implies #[trigger] cong(coeff(k, i), coeff(raw_mul(lin, q), i)) by {
        lemma_coeff_raw_mul_step(lin, q, i);
        let qi = coeff(q, i);
        let q1 = if i >= 1 { coeff(q, i - 1) } else { 0 };
        if i >= 1 {
            lemma_coeff_raw_mul_step(seq![1int], q, i - 1);
            lemma_mul_basics(coeff(q, i - 1));
            if i >= 2 {
                lemma_mc_empty(q, i - 2);
                assert(raw_mul(tail(seq![1int]), q) == Seq::<int>::empty());
            }
            assert(cong(mc(seq![1int], q, i - 1), q1));
        }
        // coefficient i of lin * q ~ -p * q_i + q_{i-1}
        lemma_cong_mod(-p);
        lemma_cong_mul(qi, qi, (-p) % r, -p);
        lemma_cong_add(qi * ((-p) % r), qi * (-p), if i >= 1 { mc(tail(lin), q, i - 1) } else { 0 }, q1);
        assert(cong(coeff(raw_mul(lin, q), i), qi * (-p) + q1));
        if i < n {
            // q_i = e(i + 1) (zero at the end), q_{i-1} = e(i)
            let e1 = eval(k.subrange(i + 1, n), p);
            assert(qi == e1) by {
                if i + 1 == n {
                    assert(k.subrange(i + 1, n) =~= Seq::<int>::empty());
                }
            }
            lemma_eval_suffix(k, p, i);
            let e0 = eval(k.subrange(i, n), p);
            lemma_cong_mod(k[i] + p * e1);
            if i >= 1 {
                assert(q1 == e0);
            } else {
                assert(e0 == eval(k, p));
            }
            assert(cong(q1, k[i] + p * e1));
            assert(qi * (-p) == -(p * e1)) by (nonlinear_arith)
                requires
                    qi == e1,
            ;
            lemma_cong_add(qi * (-p), qi * (-p), q1, k[i] + p * e1);
        } else {
            assert(coeff(k, i) == 0);
            assert(qi == 0);
            if i >= 1 && i - 1 < q.len() {
                assert(i - 1 == n - 1);
                assert(k.subrange(n, n) =~= Seq::<int>::empty());
                assert(q1 == 0);
            }
            lemma_mul_basics(-p);
            lemma_small_mod(0, r as nat);
        }
    }
}

} // verus!
