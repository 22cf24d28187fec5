//! Quadratic arithmetic programs: the witness-weighted combinations of the
//! QAP polynomials, the divisibility condition, and the laws that relate
//! them to evaluation at a point.
use crate::field::fr_modulus;
use crate::poly_spec::{
    cong, eval, is_canonical, is_trimmed, lemma_cong_add, lemma_cong_mod,
    lemma_cong_reduced_eq, lemma_cong_sub, lemma_eval_poly_add, lemma_eval_poly_mul, lemma_eval_poly_scale,
    lemma_eval_poly_sub, lemma_eval_range, lemma_trim, poly_add, poly_mul, poly_scale, poly_sub,
    raw_add, raw_scale, trim,
};
use crate::division::{lemma_coeff_raw_add, lemma_coeff_trim, lemma_same_coeffs_equal};
use crate::interpolation::lemma_poly_add_len;
use crate::poly_ring::lemma_coeff_poly_add;
use crate::poly_spec::coeff;
use vstd::arithmetic::div_mod::*;
use vstd::prelude::*;

verus! {

/// `sum_{lo <= i < hi} ws[i] * polys[i]`, accumulated left to right.
pub open spec fn lin_comb(polys: Seq<Seq<int>>, ws: Seq<int>, lo: int, hi: int) -> Seq<int>
    decreases hi - lo,
{
    if hi <= lo {
        seq![]
    } else {
        poly_add(lin_comb(polys, ws, lo, hi - 1), poly_scale(polys[hi - 1], ws[hi - 1]))
    }
}

/// `sum_{lo <= i < hi} ws[i] * polys[i](z)`, reduced modulo the field order.
pub open spec fn weighted_eval(polys: Seq<Seq<int>>, ws: Seq<int>, lo: int, hi: int, z: int) -> int
    decreases hi - lo,
{
    if hi <= lo {
        0
    } else {
        (weighted_eval(polys, ws, lo, hi - 1, z) + ws[hi - 1] * eval(polys[hi - 1], z)) % fr_modulus()
    }
}

/// `(q, rem)` is the quotient and remainder of `a` divided by `d`: canonical
/// and trimmed, with `a = q * d + rem` and the remainder shorter than `d`.
pub open spec fn is_division(a: Seq<int>, d: Seq<int>, q: Seq<int>, rem: Seq<int>) -> bool {
    &&& is_canonical(q)
    &&& is_canonical(rem)
    &&& is_trimmed(q)
    &&& is_trimmed(rem)
    &&& rem.len() < d.len()
    &&& poly_add(poly_mul(q, d), rem) == a
}

/// `t` divides `p`: the division leaves no remainder.
pub open spec fn divides(t: Seq<int>, p: Seq<int>) -> bool {
    exists|h: Seq<int>| #[trigger] is_division(p, t, h, seq![])
}

/// Dividing `p` by `t` leaves a non-zero remainder.
pub open spec fn leaves_remainder(t: Seq<int>, p: Seq<int>) -> bool {
    exists|q: Seq<int>, rem: Seq<int>| #[trigger] is_division(p, t, q, rem) && rem.len() > 0
}

/// `v(x) * w(x) - y(x)` for the witness-weighted combinations of the first `n`
/// QAP polynomials.
pub open spec fn qap_poly(v: Seq<Seq<int>>, w: Seq<Seq<int>>, y: Seq<Seq<int>>, ws: Seq<int>, n: int) -> Seq<int> {
    poly_sub(poly_mul(lin_comb(v, ws, 0, n), lin_comb(w, ws, 0, n)), lin_comb(y, ws, 0, n))
}

/// Coefficient by coefficient, the combination over `[0, n)` is the one over
/// `[0, k)` plus the one over `[k, n)`.
proof fn lemma_lin_comb_split_coeff(polys: Seq<Seq<int>>, ws: Seq<int>, k: int, n: int, i: int)
    requires
        0 <= k <= n,
        i >= 0,
    ensures
        cong(
            coeff(lin_comb(polys, ws, 0, n), i),
            coeff(lin_comb(polys, ws, 0, k), i) + coeff(lin_comb(polys, ws, k, n), i),
        ),
    decreases n - k,
{
    if n > k {
        lemma_lin_comb_split_coeff(polys, ws, k, n - 1, i);
        let term = poly_scale(polys[n - 1], ws[n - 1]);
        let whole = lin_comb(polys, ws, 0, n - 1);
        let head = lin_comb(polys, ws, 0, k);
        let tail = lin_comb(polys, ws, k, n - 1);
        lemma_coeff_poly_add(whole, term, i);
        lemma_coeff_poly_add(tail, term, i);
        lemma_cong_add(coeff(whole, i), coeff(head, i) + coeff(tail, i), coeff(term, i), coeff(term, i));
        lemma_cong_add(
            coeff(head, i),
            coeff(head, i),
            coeff(lin_comb(polys, ws, k, n), i),
            coeff(tail, i) + coeff(term, i),
        );
    }
}

/// Splitting the range of a combination at `k` and adding the two parts
/// gives the whole combination back.
pub proof fn lemma_lin_comb_split(polys: Seq<Seq<int>>, ws: Seq<int>, k: int, n: int)
    requires
        0 <= k <= n,
    ensures
        poly_add(lin_comb(polys, ws, 0, k), lin_comb(polys, ws, k, n)) == lin_comb(polys, ws, 0, n),
{
    let a = lin_comb(polys, ws, 0, k);
    let b = lin_comb(polys, ws, k, n);
    let x = lin_comb(polys, ws, 0, n);
    lemma_lin_comb_shape(polys, ws, 0, n);
    lemma_poly_add_len(a, b);
    assert forall|i: int| 0 <= i implies #[trigger] coeff(poly_add(a, b), i) == coeff(x, i) by {
        lemma_lin_comb_split_coeff(polys, ws, k, n, i);
        lemma_coeff_poly_add(a, b, i);
        lemma_coeff_trim(raw_add(a, b), i);
        lemma_coeff_raw_add(a, b, i);
        lemma_mod_bound(coeff(a, i) + coeff(b, i), fr_modulus());
        lemma_cong_reduced_eq(coeff(poly_add(a, b), i), coeff(x, i));
    }
    lemma_same_coeffs_equal(poly_add(a, b), x);
}

/// A combination reads only the weights in its range.
pub proof fn lemma_lin_comb_weights(polys: Seq<Seq<int>>, ws1: Seq<int>, ws2: Seq<int>, lo: int, hi: int)
    requires
        forall|k: int| lo <= k < hi ==> #[trigger] ws1[k] == ws2[k],
    ensures
        lin_comb(polys, ws1, lo, hi) == lin_comb(polys, ws2, lo, hi),
    decreases hi - lo,
{
    if hi > lo {
        lemma_lin_comb_weights(polys, ws1, ws2, lo, hi - 1);
        assert(ws1[hi - 1] == ws2[hi - 1]);
    }
}

/// A combination is trimmed, and canonical when its parts are.
pub proof fn lemma_lin_comb_shape(polys: Seq<Seq<int>>, ws: Seq<int>, lo: int, hi: int)
    ensures
        is_trimmed(lin_comb(polys, ws, lo, hi)),
        is_canonical(lin_comb(polys, ws, lo, hi)),
    decreases hi - lo,
{
    if hi > lo {
        let prev = lin_comb(polys, ws, lo, hi - 1);
        let term = poly_scale(polys[hi - 1], ws[hi - 1]);
        lemma_lin_comb_shape(polys, ws, lo, hi - 1);
        let s = raw_add(prev, term);
        assert forall|i: int| 0 <= i < s.len() implies 0 <= #[trigger] s[i] < fr_modulus() by {
            lemma_mod_bound(
                crate::poly_spec::coeff(prev, i) + crate::poly_spec::coeff(term, i),
                fr_modulus(),
            );
        }
        lemma_trim(s);
    }
}

/// Evaluating a combination gives the combination of the values.
pub proof fn lemma_lin_comb_eval(polys: Seq<Seq<int>>, ws: Seq<int>, lo: int, hi: int, z: int)
    ensures
        eval(lin_comb(polys, ws, lo, hi), z) == weighted_eval(polys, ws, lo, hi, z),
    decreases hi - lo,
{
    if hi > lo {
        let prev = lin_comb(polys, ws, lo, hi - 1);
        let p = polys[hi - 1];
        let k = ws[hi - 1];
        lemma_lin_comb_eval(polys, ws, lo, hi - 1, z);
        lemma_eval_poly_add(prev, poly_scale(p, k), z);
        lemma_eval_poly_scale(p, k, z);
        lemma_cong_mod(k * eval(p, z));
        lemma_cong_add(eval(prev, z), eval(prev, z), eval(poly_scale(p, k), z), k * eval(p, z));
        lemma_cong_mod(eval(prev, z) + eval(poly_scale(p, k), z));
        lemma_eval_range(lin_comb(polys, ws, lo, hi), z);
        lemma_cong_mod(weighted_eval(polys, ws, lo, hi - 1, z) + k * eval(p, z));
        lemma_cong_reduced_eq(
            eval(lin_comb(polys, ws, lo, hi), z),
            weighted_eval(polys, ws, lo, hi, z),
        );
    }
}

/// Adding a zero-weighted term leaves a combination unchanged.
pub proof fn lemma_lin_comb_zero_weight(polys: Seq<Seq<int>>, ws: Seq<int>, lo: int, hi: int)
    requires
        lo < hi,
        ws[hi - 1] == 0,
    ensures
        lin_comb(polys, ws, lo, hi) == lin_comb(polys, ws, lo, hi - 1),
{
    let prev = lin_comb(polys, ws, lo, hi - 1);
    let p = polys[hi - 1];
    lemma_lin_comb_shape(polys, ws, lo, hi - 1);
    let sc = raw_scale(p, 0);
    assert forall|i: int| 0 <= i < sc.len() implies #[trigger] sc[i] == 0 by {
        assert(p[i] * 0 == 0);
        lemma_small_mod(0, fr_modulus() as nat);
    }
    lemma_trim(sc);
    if trim(sc).len() > 0 {
        assert(trim(sc)[trim(sc).len() - 1] == sc[trim(sc).len() - 1]);
    }
    assert(poly_scale(p, 0) =~= Seq::<int>::empty());
    let s = raw_add(prev, Seq::<int>::empty());
    assert forall|i: int| 0 <= i < s.len() implies #[trigger] s[i] == prev[i] by {
        lemma_small_mod(prev[i] as nat, fr_modulus() as nat);
    }
    assert(s =~= prev);
    lemma_trim(prev);
}

/// The quotient-remainder identity, evaluated: with a zero remainder,
/// `v(s) * w(s) = h(s) * t(s) + y(s)` at every point `s`.
pub proof fn lemma_qap_division_eval(
    vx: Seq<int>,
    wx: Seq<int>,
    yx: Seq<int>,
    t: Seq<int>,
    h: Seq<int>,
    s: int,
)
    requires
        is_division(poly_sub(poly_mul(vx, wx), yx), t, h, seq![]),
    ensures
        cong(eval(vx, s) * eval(wx, s), eval(h, s) * eval(t, s) + eval(yx, s)),
{
    let p = poly_sub(poly_mul(vx, wx), yx);
    lemma_eval_poly_sub(poly_mul(vx, wx), yx, s);
    lemma_eval_poly_mul(vx, wx, s);
    lemma_eval_poly_add(poly_mul(h, t), seq![], s);
    lemma_eval_poly_mul(h, t, s);
    let ev = eval(vx, s);
    let ew = eval(wx, s);
    let ey = eval(yx, s);
    let eh = eval(h, s);
    let et = eval(t, s);
    // p(s) ~ v w - y and p(s) ~ h t
    lemma_cong_mod(ev * ew);
    lemma_cong_sub(eval(poly_mul(vx, wx), s), ev * ew, ey, ey);
    lemma_cong_mod(eval(poly_mul(vx, wx), s) - ey);
    lemma_cong_mod(eh * et);
    assert(eval(Seq::<int>::empty(), s) == 0);
    lemma_cong_mod(eval(poly_mul(h, t), s) + 0);
    lemma_cong_add(ev * ew - ey, eh * et, ey, ey);
}

} // verus!
