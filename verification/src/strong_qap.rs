//! The GGPR13 strong-QAP transformation: every QAP polynomial is re-interpolated
//! so that it keeps its values at the roots of the target polynomial and takes
//! prescribed 0/1 values at `2m` extra points, and the target polynomial is
//! multiplied by the vanishing polynomial of those points.
use crate::field::{fr_modulus, fr_neg, test_rng_draws, test_rng_scalars, Scalar};
use crate::interpolation::{
    all_distinct, crt_interpolate, lagrange_factor, lemma_eval_constant, lemma_eval_monic_linear,
    lemma_cancel_invertible, lemma_poly_mul_len, lemma_poly_ops_canonical,
};
use crate::poly::{max_product_terms, poly_evaluate_op, poly_mul_op, sanitize, scalar_values, Poly};
use crate::poly_spec::{
    coeff, cong, eval, invertible, lemma_eval_poly_add, is_canonical, mul_mod, is_trimmed, lemma_cong_add, lemma_cong_mod, lemma_cong_mul,
    lemma_cong_reduced_eq, lemma_cong_sub, lemma_eval_poly_mul, lemma_eval_poly_sub, lemma_eval_range, lemma_eval_raw_mul, lemma_eval_raw_sub,
    lemma_trim, lemma_trim_idempotent, poly_add, poly_mul, raw_add, raw_mul, raw_scale, raw_sub, shift,
    tail, trim,
};
use crate::division::{
    is_monic, lemma_coeff_division, lemma_coeff_raw_add, lemma_coeff_raw_mul_step, lemma_coeff_raw_mul_top,
    lemma_coeff_trim,
    lemma_same_coeffs_equal,
};
use crate::poly_ring::{
    lemma_coeff_poly_add, lemma_coeff_poly_mul, lemma_coeff_poly_sub, lemma_eval_peq, lemma_factor_theorem,
    lemma_lin_comb_lift, lemma_mc_add_left, lemma_mc_add_right, lemma_mc_assoc, lemma_mc_comm,
    lemma_mc_congr_left, lemma_mc_congr_right, lemma_mc_empty, lemma_mc_sub_right, lemma_peq_trim, mc, peq,
    synth_quotient,
};
use crate::qap::{divides, is_division, lemma_lin_comb_eval, lin_comb, qap_poly, weighted_eval};
use vstd::arithmetic::div_mod::*;
use vstd::prelude::*;

verus! {

/// The value prescribed for the strong `v_k` at extra point `i` (of `2m`).
pub open spec fn strong_v_target(k: int, i: int, m: int) -> int {
    if k == 0 {
        if i >= m {
            1
        } else {
            0
        }
    } else if i == k - 1 {
        1
    } else {
        0
    }
}

/// The value prescribed for the strong `w_k` at extra point `i`.
pub open spec fn strong_w_target(k: int, i: int, m: int) -> int {
    if k == 0 {
        if i < m {
            1
        } else {
            0
        }
    } else if i == m + k - 1 {
        1
    } else {
        0
    }
}

/// The value prescribed for the strong `y_k` at extra point `i`.
pub open spec fn strong_y_target(k: int, i: int, m: int) -> int {
    if k == 0 {
        0
    } else if i == k - 1 || i == m + k - 1 {
        1
    } else {
        0
    }
}

/// `prod_{j < count} (z - points[j])`, reduced modulo the field order.
pub open spec fn points_product(points: Seq<int>, count: int, z: int) -> int
    decreases count,
{
    if count <= 0 {
        1
    } else {
        (points_product(points, count - 1, z) * (z - points[count - 1])) % fr_modulus()
    }
}

/// The target polynomial multiplied, one factor at a time, by `x - points[j]`.
pub open spec fn extended_target(t: Seq<int>, points: Seq<int>, count: int) -> Seq<int>
    decreases count,
{
    if count <= 0 {
        t
    } else {
        poly_mul(
            extended_target(t, points, count - 1),
            seq![(-points[count - 1]) % fr_modulus(), 1int],
        )
    }
}

/// The strong QAP polynomial `s` stands for `p`: it is `p + t * q` for some
/// canonical `q` with fewer than `2m + 1` coefficients, it equals `p` at every root of
/// `t`, and it takes the value `target(i)` at `points[i]`.
pub open spec fn crt_lifted(s: Seq<int>, p: Seq<int>, t: Seq<int>, points: Seq<int>) -> bool {
    &&& is_trimmed(s)
    &&& exists|q: Seq<int>| is_canonical(q) && q.len() <= points.len() && s == poly_add(p, poly_mul(t, q))
    &&& forall|z: int| eval(t, z) == 0 ==> eval(s, z) == eval(p, z)
}

/// The values of a sequence of polynomials.
pub open spec fn polys_view(v: Seq<Poly>) -> Seq<Seq<int>> {
    v.map_values(|p: Poly| p@)
}

/// `(sv, sw, sy, st)` is the strong QAP of `(v, w, y, t)` for the `2m` extra
/// points `pts`: each polynomial is lifted from its regular counterpart and
/// takes its prescribed values at the points, and `st` is `t` times
/// `prod_j (x - pts[j])`.
pub open spec fn is_strong_qap(
    v: Seq<Seq<int>>,
    w: Seq<Seq<int>>,
    y: Seq<Seq<int>>,
    t: Seq<int>,
    m: int,
    pts: Seq<int>,
    sv: Seq<Seq<int>>,
    sw: Seq<Seq<int>>,
    sy: Seq<Seq<int>>,
    st: Seq<int>,
) -> bool {
    &&& sv.len() == m + 1
    &&& sw.len() == m + 1
    &&& sy.len() == m + 1
    &&& forall|k: int| 0 <= k <= m ==> crt_lifted(#[trigger] sv[k], v[k], t, pts)
    &&& forall|k: int| 0 <= k <= m ==> crt_lifted(#[trigger] sw[k], w[k], t, pts)
    &&& forall|k: int| 0 <= k <= m ==> crt_lifted(#[trigger] sy[k], y[k], t, pts)
    &&& forall|k: int, i: int|
        0 <= k <= m && 0 <= i < 2 * m ==> eval(#[trigger] sv[k], #[trigger] pts[i])
            == strong_v_target(k, i, m)
    &&& forall|k: int, i: int|
        0 <= k <= m && 0 <= i < 2 * m ==> eval(#[trigger] sw[k], #[trigger] pts[i])
            == strong_w_target(k, i, m)
    &&& forall|k: int, i: int|
        0 <= k <= m && 0 <= i < 2 * m ==> eval(#[trigger] sy[k], #[trigger] pts[i])
            == strong_y_target(k, i, m)
    &&& st == extended_target(t, pts, 2 * m)
}

/// The extended target polynomial is the product of `t` and the factors
/// `x - points[j]`, as a function.
pub proof fn lemma_extended_target_eval(t: Seq<int>, points: Seq<int>, count: int, z: int)
    requires
        0 <= count <= points.len(),
        0 <= eval(t, z),
    ensures
        eval(extended_target(t, points, count), z) == (eval(t, z) * points_product(points, count, z))
            % fr_modulus(),
    decreases count,
{
    lemma_eval_range(t, z);
    if count <= 0 {
        assert(eval(t, z) * 1 == eval(t, z));
        lemma_small_mod(eval(t, z) as nat, fr_modulus() as nat);
    } else {
        let prev = extended_target(t, points, count - 1);
        let p = points[count - 1];
        let term = seq![(-p) % fr_modulus(), 1int];
        lemma_extended_target_eval(t, points, count - 1, z);
        lemma_eval_poly_mul(prev, term, z);
        lemma_cong_mod(-p);
        lemma_eval_monic_linear((-p) % fr_modulus(), z);
        lemma_cong_add((-p) % fr_modulus(), -p, z, z);
        let et = eval(t, z);
        let pp = points_product(points, count - 1, z);
        lemma_cong_mod(et * pp);
        lemma_cong_mod(z - p);
        lemma_cong_mul(eval(prev, z), et * pp, eval(term, z), z - p);
        lemma_cong_mod(eval(prev, z) * eval(term, z));
        lemma_cong_mod(pp * (z - p));
        lemma_cong_mul(et, et, points_product(points, count, z), pp * (z - p));
        lemma_cong_mod(et * points_product(points, count, z));
        assert((et * pp) * (z - p) == et * (pp * (z - p))) by (nonlinear_arith);
        lemma_eval_range(extended_target(t, points, count), z);
        lemma_cong_reduced_eq(
            eval(extended_target(t, points, count), z),
            (et * points_product(points, count, z)) % fr_modulus(),
        );
    }
}

/// The product of the factors `z - points[j]` vanishes at every point.
pub proof fn lemma_points_product_vanishes(points: Seq<int>, count: int, i: int)
    requires
        0 <= i < count <= points.len(),
    ensures
        points_product(points, count, points[i]) == 0,
    decreases count,
{
    let pp = points_product(points, count - 1, points[i]);
    if i == count - 1 {
        assert(pp * (points[i] - points[count - 1]) == 0) by (nonlinear_arith)
            requires
                points[i] - points[count - 1] == 0,
        ;
    } else {
        lemma_points_product_vanishes(points, count - 1, i);
        assert(0 * (points[i] - points[count - 1]) == 0) by (nonlinear_arith);
    }
    lemma_small_mod(0, fr_modulus() as nat);
}

/// The extended target vanishes at every extra point and at every root of
/// the regular target `t`.
pub proof fn lemma_extended_target_roots(t: Seq<int>, points: Seq<int>, z: int)
    requires
        eval(t, z) == 0 || exists|i: int| 0 <= i < points.len() && points[i] == z,
    ensures
        eval(extended_target(t, points, points.len() as int), z) == 0,
{
    lemma_eval_range(t, z);
    lemma_extended_target_eval(t, points, points.len() as int, z);
    let pp = points_product(points, points.len() as int, z);
    if eval(t, z) == 0 {
        assert(0 * pp == 0) by (nonlinear_arith);
    } else {
        let i = choose|i: int| 0 <= i < points.len() && points[i] == z;
        lemma_points_product_vanishes(points, points.len() as int, i);
        assert(eval(t, z) * 0 == 0) by (nonlinear_arith);
    }
    lemma_small_mod(0, fr_modulus() as nat);
}

/// A vector whose entry `i` (of `len`) is one when `lo1 <= i < hi1` or
/// `lo2 <= i < hi2`, and zero elsewhere.
fn indicator(len: usize, lo1: usize, hi1: usize, lo2: usize, hi2: usize) -> (r: Vec<Scalar>)
    ensures
        r@.len() == len,
        forall|i: int|
            0 <= i < len ==> (#[trigger] r@[i]).wf() && r@[i]@ == (if (lo1 <= i < hi1) || (lo2
                <= i < hi2) {
                1int
            } else {
                0
            }),
{
    let mut r: Vec<Scalar> = Vec::new();
    let mut i: usize = 0;
    while i < len
        invariant
            i <= len,
            r@.len() == i,
            forall|j: int|
                0 <= j < i ==> (#[trigger] r@[j]).wf() && r@[j]@ == (if (lo1 <= j < hi1) || (lo2
                    <= j < hi2) {
                    1int
                } else {
                    0
                }),
        decreases len - i,
    {
        if (lo1 <= i && i < hi1) || (lo2 <= i && i < hi2) {
            r.push(Scalar::one());
        } else {
            r.push(Scalar::zero());
        }
        i += 1;
    }
    r
}

/// Whether `v` holds an element equal to `x`.
fn contains_scalar(v: &Vec<Scalar>, x: &Scalar) -> (b: bool)
    ensures
        b == scalar_values(v@).contains(x@),
{
    let mut i: usize = 0;
    while i < v.len()
        invariant
            i <= v.len(),
            forall|j: int| 0 <= j < i ==> (#[trigger] v@[j])@ != x@,
        decreases v.len() - i,
    {
        if v[i].equals(x) {
            assert(scalar_values(v@)[i as int] == x@);
            return true;
        }
        i += 1;
    }
    proof {
        if scalar_values(v@).contains(x@) {
            let j = choose|j: int| 0 <= j < scalar_values(v@).len() && scalar_values(v@)[j] == x@;
            assert(v@[j]@ == x@);
        }
    }
    false
}

/// The points that a scan of `draws` keeps, in draw order: each draw that is
/// not a root of `t` and not kept already, until `count` are kept.
pub open spec fn scan_points(t: Seq<int>, draws: Seq<int>, count: int) -> Seq<int>
    decreases draws.len(),
{
    if draws.len() == 0 {
        seq![]
    } else {
        let prev = scan_points(t, draws.drop_last(), count);
        let d = draws.last();
        if prev.len() < count && eval(t, d) != 0 && !prev.contains(d) {
            prev.push(d)
        } else {
            prev
        }
    }
}

/// Scanning a prefix of the draws keeps no more points than scanning them
/// all.
pub proof fn lemma_scan_points_prefix(t: Seq<int>, draws: Seq<int>, k: int, count: int)
    requires
        0 <= k <= draws.len(),
    ensures
        scan_points(t, draws.take(k), count).len() <= scan_points(t, draws, count).len(),
    decreases draws.len() - k,
{
    if k == draws.len() {
        assert(draws.take(k) =~= draws);
    } else {
        let d = draws.drop_last();
        lemma_scan_points_prefix(t, d, k, count);
        assert(d.take(k) =~= draws.take(k));
    }
}

/// The kept points are distinct non-roots of `t`, at most `count` of them.
pub proof fn lemma_scan_points(t: Seq<int>, draws: Seq<int>, count: int)
    requires
        count >= 0,
    ensures
        scan_points(t, draws, count).len() <= count,
        all_distinct(scan_points(t, draws, count)),
        forall|i: int|
            0 <= i < scan_points(t, draws, count).len() ==> eval(t, #[trigger] scan_points(t, draws, count)[i])
                != 0,
        forall|i: int|
            0 <= i < scan_points(t, draws, count).len() ==> draws.contains(
                #[trigger] scan_points(t, draws, count)[i],
            ),
    decreases draws.len(),
{
    if draws.len() > 0 {
        let prev = scan_points(t, draws.drop_last(), count);
        lemma_scan_points(t, draws.drop_last(), count);
        let d = draws.last();
        assert forall|i: int| 0 <= i < prev.len() implies draws.contains(#[trigger] prev[i]) by {
            let j = choose|j: int| 0 <= j < draws.drop_last().len() && draws.drop_last()[j] == prev[i];
            assert(draws[j] == prev[i]);
        }
        if prev.len() < count && eval(t, d) != 0 && !prev.contains(d) {
            let s = prev.push(d);
            assert(draws[draws.len() - 1] == d);
            assert forall|i: int, j: int| 0 <= i < j < s.len() implies s[i] != s[j] by {
                if j == s.len() - 1 {
                    assert(prev[i] == s[i]);
                    if s[i] == d {
                        assert(prev.contains(d));
                    }
                }
            }
        }
    }
}

/// Selects the extra points of the strong QAP from a sequence of draws: the
/// first `count` draws, in order, that are not roots of `t_poly` and not
/// already chosen (`scan_points`). `None` exactly when the draws hold fewer
/// than `count` such points.
pub fn select_strong_qap_points(draws: &Vec<Scalar>, t_poly: &Poly, count: usize) -> (r: Option<Vec<Scalar>>)
    requires
        t_poly.wf(),
        forall|i: int| 0 <= i < draws@.len() ==> (#[trigger] draws@[i]).wf(),
    ensures
        r is Some <==> scan_points(t_poly@, scalar_values(draws@), count as int).len() == count,
        r matches Some(pts) ==> {
            &&& scalar_values(pts@) == scan_points(t_poly@, scalar_values(draws@), count as int)
            &&& pts@.len() == count
            &&& forall|i: int| 0 <= i < count ==> (#[trigger] pts@[i]).wf()
            &&& all_distinct(scalar_values(pts@))
            &&& forall|i: int| 0 <= i < count ==> eval(t_poly@, (#[trigger] pts@[i])@) != 0
        },
{
    let ghost dv = scalar_values(draws@);
    let mut pts: Vec<Scalar> = Vec::new();
    let mut k: usize = 0;
    while k < draws.len()
        invariant
            t_poly.wf(),
            k <= draws@.len(),
            dv == scalar_values(draws@),
            forall|i: int| 0 <= i < draws@.len() ==> (#[trigger] draws@[i]).wf(),
            scalar_values(pts@) == scan_points(t_poly@, dv.take(k as int), count as int),
            forall|i: int| 0 <= i < pts@.len() ==> (#[trigger] pts@[i]).wf(),
        decreases draws@.len() - k,
    {
        let cand = &draws[k];
        let ghost prev = scalar_values(pts@);
        proof {
            assert(dv.take(k + 1).drop_last() =~= dv.take(k as int));
            assert(dv.take(k + 1).last() == cand@);
        }
        if pts.len() < count {
            let value = poly_evaluate_op(t_poly, cand);
            if !value.is_zero() && !contains_scalar(&pts, cand) {
                pts.push(cand.copy());
                proof {
                    assert(scalar_values(pts@) =~= prev.push(cand@));
                }
            }
        }
        k += 1;
    }
    proof {
        assert(dv.take(draws@.len() as int) =~= dv);
        lemma_scan_points(t_poly@, dv, count as int);
    }
    if pts.len() == count {
        proof {
            assert forall|i: int| 0 <= i < count implies eval(t_poly@, (#[trigger] pts@[i])@) != 0 by {
                assert(scalar_values(pts@)[i] == pts@[i]@);
            }
        }
        Some(pts)
    } else {
        None
    }
}

/// The number of draws that `pick_strong_qap_points` settles on: the first
/// of `size, 2 * size, 4 * size, ...` whose prefix of the `test_rng` draws
/// holds `count` distinct non-roots of `t`; none once the next size would
/// overflow (or when `size` is zero and the points are not there).
pub open spec fn sufficient_draws(t: Seq<int>, count: int, size: int) -> Option<int>
    decreases usize::MAX - size,
{
    if size < 0 || size > usize::MAX {
        None
    } else if scan_points(t, test_rng_draws(size as nat), count).len() == count {
        Some(size)
    } else if size > usize::MAX / 2 || size == 0 {
        None
    } else {
        sufficient_draws(t, count, 2 * size)
    }
}

/// The points of the strong QAP, selected by `select_strong_qap_points` from
/// draws of `ark_std::test_rng()`, with the number of draws taken. Round by
/// round it draws `count`, `2 * count`, ... elements and selects from them;
/// the result is the selection from the first prefix that holds enough
/// points (`sufficient_draws`), `None` when none does before the size would
/// overflow. When no point is asked for, the (empty) selection succeeds.
pub fn pick_strong_qap_points(t_poly: &Poly, count: usize) -> (r: Option<(Vec<Scalar>, usize)>)
    requires
        t_poly.wf(),
    ensures
        count == 0 ==> r is Some,
        r is Some <==> sufficient_draws(t_poly@, count as int, count as int) is Some,
        r is None ==> forall|n: nat|
            n <= usize::MAX / 2 ==> (#[trigger] scan_points(t_poly@, test_rng_draws(n), count as int)).len() < count,
        r matches Some(out) ==> {
            &&& sufficient_draws(t_poly@, count as int, count as int) == Some(out.1 as int)
            &&& scan_points(t_poly@, test_rng_draws(out.1 as nat), count as int).len() == count
            &&& scalar_values(out.0@) == scan_points(t_poly@, test_rng_draws(out.1 as nat), count as int)
            &&& out.0@.len() == count
            &&& forall|i: int| 0 <= i < count ==> (#[trigger] out.0@[i]).wf()
            &&& all_distinct(scalar_values(out.0@))
            &&& forall|i: int| 0 <= i < count ==> eval(t_poly@, (#[trigger] out.0@[i])@) != 0
        },
{
    let mut size: usize = count;
    loop
        invariant
            t_poly.wf(),
            count == 0 ==> size == 0,
            size >= count,
            sufficient_draws(t_poly@, count as int, size as int) == sufficient_draws(
                t_poly@,
                count as int,
                count as int,
            ),
        decreases usize::MAX - size,
    {
        let draws = test_rng_scalars(size);
        let selected = select_strong_qap_points(&draws, t_poly, count);
        proof {
            lemma_scan_points(t_poly@, scalar_values(draws@), count as int);
            assert(scalar_values(draws@) == test_rng_draws(size as nat));
        }
        match selected {
            Some(pts) => {
                return Some((pts, size));
            },
            None => {},
        }
        if size > usize::MAX / 2 || size == 0 {
            proof {
                assert forall|n: nat| n <= usize::MAX / 2 implies (#[trigger] scan_points(
                    t_poly@,
                    test_rng_draws(n),
                    count as int,
                )).len() < count by {
                    assert(test_rng_draws(n) == scalar_values(draws@).take(n as int));
                    lemma_scan_points_prefix(t_poly@, scalar_values(draws@), n as int, count as int);
                }
            }
            return None;
        }
        size = size * 2;
    }
}

/// The strong QAP for given extra points (`2m` of them, `m = num_vars - 1`):
/// for each `k <= m`, the three polynomials re-interpolated by
/// `crt_interpolate` to their prescribed 0/1 values, and the target
/// multiplied by `x - p` for every point `p`.
pub fn strong_qap_from_points(
    v_polys: &[Poly],
    w_polys: &[Poly],
    y_polys: &[Poly],
    t_poly: &Poly,
    num_vars: usize,
    rs_points: &[Scalar],
) -> (r: (Vec<Poly>, Vec<Poly>, Vec<Poly>, Poly))
    requires
        num_vars >= 1,
        v_polys@.len() >= num_vars,
        w_polys@.len() >= num_vars,
        y_polys@.len() >= num_vars,
        forall|k: int| 0 <= k < num_vars ==> (#[trigger] v_polys@[k]).wf() && is_trimmed(v_polys@[k]@),
        forall|k: int| 0 <= k < num_vars ==> (#[trigger] w_polys@[k]).wf() && is_trimmed(w_polys@[k]@),
        forall|k: int| 0 <= k < num_vars ==> (#[trigger] y_polys@[k]).wf() && is_trimmed(y_polys@[k]@),
        t_poly.wf(),
        is_trimmed(t_poly@),
        rs_points@.len() == 2 * (num_vars - 1),
        t_poly@.len() + rs_points@.len() + 1 <= max_product_terms(),
        forall|i: int| 0 <= i < rs_points@.len() ==> (#[trigger] rs_points@[i]).wf(),
        all_distinct(scalar_values(rs_points@)),
        forall|i: int| 0 <= i < rs_points@.len() ==> eval(t_poly@, (#[trigger] rs_points@[i])@) != 0,
    ensures
        forall|k: int| 0 <= k < num_vars ==> (#[trigger] r.0@[k]).wf(),
        forall|k: int| 0 <= k < num_vars ==> (#[trigger] r.1@[k]).wf(),
        forall|k: int| 0 <= k < num_vars ==> (#[trigger] r.2@[k]).wf(),
        r.3.wf(),
        is_trimmed(r.3@),
        t_poly@.len() > 0 ==> r.3@.len() == t_poly@.len() + rs_points@.len(),
        is_strong_qap(
            polys_view(v_polys@),
            polys_view(w_polys@),
            polys_view(y_polys@),
            t_poly@,
            num_vars - 1,
            scalar_values(rs_points@),
            polys_view(r.0@),
            polys_view(r.1@),
            polys_view(r.2@),
            r.3@,
        ),
        points_factors_invertible(t_poly@, scalar_values(rs_points@)),
{
    let m = num_vars - 1;
    let two_m = rs_points.len();
    let ghost pts = scalar_values(rs_points@);
    let ghost vv = polys_view(v_polys@);
    let ghost wv = polys_view(w_polys@);
    let ghost yv = polys_view(y_polys@);
    let mut strong_v: Vec<Poly> = Vec::new();
    let mut strong_w: Vec<Poly> = Vec::new();
    let mut strong_y: Vec<Poly> = Vec::new();
    let mut k: usize = 0;
    while k <= m
        invariant
            m == num_vars - 1,
            two_m == 2 * m,
            k <= m + 1,
            pts == scalar_values(rs_points@),
            vv == polys_view(v_polys@),
            wv == polys_view(w_polys@),
            yv == polys_view(y_polys@),
            v_polys@.len() >= num_vars,
            w_polys@.len() >= num_vars,
            y_polys@.len() >= num_vars,
            forall|kk: int| 0 <= kk < num_vars ==> (#[trigger] v_polys@[kk]).wf() && is_trimmed(v_polys@[kk]@),
            forall|kk: int| 0 <= kk < num_vars ==> (#[trigger] w_polys@[kk]).wf() && is_trimmed(w_polys@[kk]@),
            forall|kk: int| 0 <= kk < num_vars ==> (#[trigger] y_polys@[kk]).wf() && is_trimmed(y_polys@[kk]@),
            t_poly.wf(),
            rs_points@.len() == two_m,
            t_poly@.len() + rs_points@.len() + 1 <= max_product_terms(),
            forall|i: int| 0 <= i < rs_points@.len() ==> (#[trigger] rs_points@[i]).wf(),
            all_distinct(pts),
            forall|i: int| 0 <= i < rs_points@.len() ==> eval(t_poly@, (#[trigger] rs_points@[i])@) != 0,
            strong_v@.len() == k,
            strong_w@.len() == k,
            strong_y@.len() == k,
            k > 0 ==> points_factors_invertible(t_poly@, pts),
            forall|kk: int| 0 <= kk < k ==> (#[trigger] strong_v@[kk]).wf(),
            forall|kk: int| 0 <= kk < k ==> (#[trigger] strong_w@[kk]).wf(),
            forall|kk: int| 0 <= kk < k ==> (#[trigger] strong_y@[kk]).wf(),
            forall|kk: int| 0 <= kk < k ==> crt_lifted(#[trigger] polys_view(strong_v@)[kk], vv[kk], t_poly@, pts),
            forall|kk: int| 0 <= kk < k ==> crt_lifted(#[trigger] polys_view(strong_w@)[kk], wv[kk], t_poly@, pts),
            forall|kk: int| 0 <= kk < k ==> crt_lifted(#[trigger] polys_view(strong_y@)[kk], yv[kk], t_poly@, pts),
            forall|kk: int, i: int|
                0 <= kk < k && 0 <= i < two_m ==> eval(#[trigger] polys_view(strong_v@)[kk], #[trigger] pts[i])
                    == strong_v_target(kk, i, m as int),
            forall|kk: int, i: int|
                0 <= kk < k && 0 <= i < two_m ==> eval(#[trigger] polys_view(strong_w@)[kk], #[trigger] pts[i])
                    == strong_w_target(kk, i, m as int),
            forall|kk: int, i: int|
                0 <= kk < k && 0 <= i < two_m ==> eval(#[trigger] polys_view(strong_y@)[kk], #[trigger] pts[i])
                    == strong_y_target(kk, i, m as int),
        decreases m + 1 - k,
    {
        let (v_targets, w_targets, y_targets) = if k == 0 {
            (indicator(two_m, m, two_m, 0, 0), indicator(two_m, 0, m, 0, 0), indicator(two_m, 0, 0, 0, 0))
        } else {
            let idx = k - 1;
            (
                indicator(two_m, idx, idx + 1, 0, 0),
                indicator(two_m, m + idx, m + idx + 1, 0, 0),
                indicator(two_m, idx, idx + 1, m + idx, m + idx + 1),
            )
        };
        let sv = crt_interpolate(&v_polys[k], t_poly, rs_points, v_targets.as_slice());
        proof {
            assert forall|i: int| 0 <= i < pts.len() implies invertible(#[trigger] eval(t_poly@, pts[i])) && invertible(
                lagrange_factor(pts, i, pts.len() as int, pts[i]),
            ) by {
                assert(pts[i] == rs_points@[i]@);
            }
        }
        let sw = crt_interpolate(&w_polys[k], t_poly, rs_points, w_targets.as_slice());
        let sy = crt_interpolate(&y_polys[k], t_poly, rs_points, y_targets.as_slice());
        proof {
            assert forall|i: int| 0 <= i < two_m implies eval(sv@, #[trigger] pts[i]) == strong_v_target(k as int, i, m as int)
                && eval(sw@, pts[i]) == strong_w_target(k as int, i, m as int)
                && eval(sy@, pts[i]) == strong_y_target(k as int, i, m as int) by {
                assert(pts[i] == rs_points@[i]@);
            }
        }
        let ghost old_v = strong_v@;
        let ghost old_w = strong_w@;
        let ghost old_y = strong_y@;
        strong_v.push(sv);
        strong_w.push(sw);
        strong_y.push(sy);
        proof {
            assert(polys_view(strong_v@) =~= polys_view(old_v).push(sv@));
            assert(polys_view(strong_w@) =~= polys_view(old_w).push(sw@));
            assert(polys_view(strong_y@) =~= polys_view(old_y).push(sy@));
            assert(vv[k as int] == v_polys@[k as int]@);
            assert(wv[k as int] == w_polys@[k as int]@);
            assert(yv[k as int] == y_polys@[k as int]@);
        }
        k += 1;
    }
    let mut t_prime = t_poly.copy();
    let mut j: usize = 0;
    while j < two_m
        invariant
            j <= two_m,
            two_m == rs_points@.len(),
            pts == scalar_values(rs_points@),
            forall|i: int| 0 <= i < rs_points@.len() ==> (#[trigger] rs_points@[i]).wf(),
            t_poly@.len() + rs_points@.len() + 1 <= max_product_terms(),
            t_prime.wf(),
            t_prime@ == extended_target(t_poly@, pts, j as int),
            t_prime@.len() <= t_poly@.len() + j,
            is_trimmed(t_poly@),
            t_poly@.len() > 0 ==> t_prime@.len() == t_poly@.len() + j,
            is_trimmed(t_prime@),
        decreases two_m - j,
    {
        let neg = fr_neg(&rs_points[j]);
        let one = Scalar::one();
        let lin = vec![neg, one];
        proof {
            assert(pts[j as int] == rs_points@[j as int]@);
            assert(scalar_values(lin@) =~= seq![neg@, 1int]);
            lemma_trim(seq![neg@, 1int]);
        }
        let term = Poly::from_coefficients_vec(lin);
        let ghost old_t = t_prime@;
        let prod = poly_mul_op(&t_prime, &term);
        proof {
            lemma_poly_mul_len(old_t, term@);
            lemma_trim_idempotent(raw_mul(old_t, term@));
        }
        t_prime = sanitize(prod);
        proof {
            lemma_trim(raw_mul(old_t, term@));
        }
        j += 1;
    }
    (strong_v, strong_w, strong_y, t_prime)
}

/// `(sv, sw, sy, st)` is the strong QAP of `(v, w, y, t)` for `2m` extra
/// points (`m = num_vars - 1`) that are distinct non-roots of `t`, with the
/// inverses that interpolating at them finds.
pub open spec fn strong_qap_for_points(
    v: Seq<Seq<int>>,
    w: Seq<Seq<int>>,
    y: Seq<Seq<int>>,
    t: Seq<int>,
    num_vars: int,
    pts: Seq<int>,
    sv: Seq<Seq<int>>,
    sw: Seq<Seq<int>>,
    sy: Seq<Seq<int>>,
    st: Seq<int>,
) -> bool {
    &&& pts.len() == 2 * (num_vars - 1)
    &&& all_distinct(pts)
    &&& forall|i: int| 0 <= i < pts.len() ==> eval(t, #[trigger] pts[i]) != 0
    &&& points_factors_invertible(t, pts)
    &&& is_strong_qap(v, w, y, t, num_vars - 1, pts, sv, sw, sy, st)
}

/// The `2 * (num_vars - 1)` extra points that the first `used` draws of
/// `test_rng` give for the target `t`.
pub open spec fn drawn_points(t: Seq<int>, num_vars: int, used: int) -> Seq<int> {
    scan_points(t, test_rng_draws(used as nat), 2 * (num_vars - 1))
}

/// GGPR13's strong QAP: draws the `2m` extra points with
/// `pick_strong_qap_points` and builds the strong QAP for them, returning
/// also how many draws the points were selected from (`sufficient_draws`);
/// `None` exactly when no prefix of the draws holds enough points, so never
/// when none are needed (`m = 0`).
pub fn elevate_to_strong_qap(
    v_polys: &[Poly],
    w_polys: &[Poly],
    y_polys: &[Poly],
    t_poly: &Poly,
    num_vars: usize,
) -> (r: Option<(Vec<Poly>, Vec<Poly>, Vec<Poly>, Poly, usize)>)
    requires
        num_vars >= 1,
        v_polys@.len() >= num_vars,
        w_polys@.len() >= num_vars,
        y_polys@.len() >= num_vars,
        forall|k: int| 0 <= k < num_vars ==> (#[trigger] v_polys@[k]).wf() && is_trimmed(v_polys@[k]@),
        forall|k: int| 0 <= k < num_vars ==> (#[trigger] w_polys@[k]).wf() && is_trimmed(w_polys@[k]@),
        forall|k: int| 0 <= k < num_vars ==> (#[trigger] y_polys@[k]).wf() && is_trimmed(y_polys@[k]@),
        t_poly.wf(),
        is_trimmed(t_poly@),
        t_poly@.len() > 0,
        t_poly@.len() + 2 * (num_vars - 1) + 1 <= max_product_terms(),
    ensures
        num_vars == 1 ==> r is Some,
        r is Some <==> sufficient_draws(t_poly@, 2 * (num_vars - 1), 2 * (num_vars - 1)) is Some,
        (exists|n: nat|
            n <= usize::MAX / 2 && (#[trigger] scan_points(t_poly@, test_rng_draws(n), 2 * (num_vars - 1))).len()
                == 2 * (num_vars - 1)) ==> r is Some,
        r matches Some(q) ==> {
            &&& forall|k: int| 0 <= k < num_vars ==> (#[trigger] q.0@[k]).wf()
            &&& forall|k: int| 0 <= k < num_vars ==> (#[trigger] q.1@[k]).wf()
            &&& forall|k: int| 0 <= k < num_vars ==> (#[trigger] q.2@[k]).wf()
            &&& q.3.wf()
            &&& is_trimmed(q.3@)
            &&& q.3@.len() == t_poly@.len() + 2 * (num_vars - 1)
            &&& sufficient_draws(t_poly@, 2 * (num_vars - 1), 2 * (num_vars - 1)) == Some(q.4 as int)
            &&& strong_qap_for_points(
                polys_view(v_polys@),
                polys_view(w_polys@),
                polys_view(y_polys@),
                t_poly@,
                num_vars as int,
                drawn_points(t_poly@, num_vars as int, q.4 as int),
                polys_view(q.0@),
                polys_view(q.1@),
                polys_view(q.2@),
                q.3@,
            )
        },
{
    let m = num_vars - 1;
    let picked = pick_strong_qap_points(t_poly, 2 * m);
    match picked {
        Some((points, used)) => {
            let r = strong_qap_from_points(v_polys, w_polys, y_polys, t_poly, num_vars, points.as_slice());
            proof {
                let pts = scalar_values(points@);
                assert forall|i: int| 0 <= i < pts.len() implies eval(t_poly@, #[trigger] pts[i]) != 0 by {
                    assert(pts[i] == points@[i]@);
                }
                assert(pts == drawn_points(t_poly@, num_vars as int, used as int));
            }
            Some((r.0, r.1, r.2, r.3, used))
        },
        None => None,
    }
}

/// A weighted evaluation where exactly polynomial `j` takes the value one at
/// `z` and every other takes zero picks the weight of `j`.
proof fn lemma_weighted_eval_indicator(polys: Seq<Seq<int>>, ws: Seq<int>, lo: int, hi: int, z: int, j: int)
    requires
        forall|k: int| lo <= k < hi ==> eval(#[trigger] polys[k], z) == (if k == j { 1int } else { 0 }),
    ensures
        weighted_eval(polys, ws, lo, hi, z) == (if lo <= j < hi {
            ws[j] % fr_modulus()
        } else {
            0
        }),
    decreases hi - lo,
{
    if hi > lo {
        lemma_weighted_eval_indicator(polys, ws, lo, hi - 1, z, j);
        let prev = weighted_eval(polys, ws, lo, hi - 1, z);
        if hi - 1 == j {
            assert(ws[j] * 1 == ws[j]);
            lemma_small_mod(0, fr_modulus() as nat);
            assert(prev == 0);
        } else {
            assert(ws[hi - 1] * 0 == 0);
            lemma_mod_twice(ws[j], fr_modulus());
            lemma_mod_bound(ws[j], fr_modulus());
            lemma_small_mod(0, fr_modulus() as nat);
        }
    }
}

/// Weighted evaluations agree where the polynomials agree.
proof fn lemma_weighted_eval_agree(a: Seq<Seq<int>>, b: Seq<Seq<int>>, ws: Seq<int>, lo: int, hi: int, z: int)
    requires
        forall|k: int| lo <= k < hi ==> eval(#[trigger] a[k], z) == eval(b[k], z),
    ensures
        weighted_eval(a, ws, lo, hi, z) == weighted_eval(b, ws, lo, hi, z),
    decreases hi - lo,
{
    if hi > lo {
        lemma_weighted_eval_agree(a, b, ws, lo, hi - 1, z);
        assert(eval(a[hi - 1], z) == eval(b[hi - 1], z));
    }
}

/// The value of `v(x) * w(x) - y(x)` at `z` from the values of the three
/// combinations there.
proof fn lemma_qap_poly_eval(v: Seq<Seq<int>>, w: Seq<Seq<int>>, y: Seq<Seq<int>>, ws: Seq<int>, n: int, z: int)
    ensures
        eval(qap_poly(v, w, y, ws, n), z) == ((weighted_eval(v, ws, 0, n, z) * weighted_eval(w, ws, 0, n, z))
            % fr_modulus() - weighted_eval(y, ws, 0, n, z)) % fr_modulus(),
{
    let vx = lin_comb(v, ws, 0, n);
    let wx = lin_comb(w, ws, 0, n);
    let yx = lin_comb(y, ws, 0, n);
    lemma_lin_comb_eval(v, ws, 0, n, z);
    lemma_lin_comb_eval(w, ws, 0, n, z);
    lemma_lin_comb_eval(y, ws, 0, n, z);
    lemma_eval_poly_mul(vx, wx, z);
    lemma_eval_poly_sub(poly_mul(vx, wx), yx, z);
}

/// At every root of `t`, the strong QAP's `v(x) * w(x) - y(x)` takes the same
/// value as the regular QAP's, for any witness.
pub proof fn lemma_strong_qap_agrees_at_roots(
    v: Seq<Seq<int>>,
    w: Seq<Seq<int>>,
    y: Seq<Seq<int>>,
    t: Seq<int>,
    m: int,
    pts: Seq<int>,
    sv: Seq<Seq<int>>,
    sw: Seq<Seq<int>>,
    sy: Seq<Seq<int>>,
    st: Seq<int>,
    ws: Seq<int>,
    z: int,
)
    requires
        m >= 0,
        is_strong_qap(v, w, y, t, m, pts, sv, sw, sy, st),
        eval(t, z) == 0,
    ensures
        eval(qap_poly(sv, sw, sy, ws, m + 1), z) == eval(qap_poly(v, w, y, ws, m + 1), z),
{
    assert forall|k: int| 0 <= k < m + 1 implies eval(#[trigger] sv[k], z) == eval(v[k], z) by {
        assert(crt_lifted(sv[k], v[k], t, pts));
    }
    assert forall|k: int| 0 <= k < m + 1 implies eval(#[trigger] sw[k], z) == eval(w[k], z) by {
        assert(crt_lifted(sw[k], w[k], t, pts));
    }
    assert forall|k: int| 0 <= k < m + 1 implies eval(#[trigger] sy[k], z) == eval(y[k], z) by {
        assert(crt_lifted(sy[k], y[k], t, pts));
    }
    lemma_weighted_eval_agree(sv, v, ws, 0, m + 1, z);
    lemma_weighted_eval_agree(sw, w, ws, 0, m + 1, z);
    lemma_weighted_eval_agree(sy, y, ws, 0, m + 1, z);
    lemma_qap_poly_eval(sv, sw, sy, ws, m + 1, z);
    lemma_qap_poly_eval(v, w, y, ws, m + 1, z);
}

/// At extra point `i` the strong QAP's `v(x) * w(x) - y(x)` is
/// `ws[j] * (ws[0] - 1)`, with `j = i + 1` for the first `m` points and
/// `j = i - m + 1` for the others.
pub proof fn lemma_strong_qap_eval_at_points(
    v: Seq<Seq<int>>,
    w: Seq<Seq<int>>,
    y: Seq<Seq<int>>,
    t: Seq<int>,
    m: int,
    pts: Seq<int>,
    sv: Seq<Seq<int>>,
    sw: Seq<Seq<int>>,
    sy: Seq<Seq<int>>,
    st: Seq<int>,
    ws: Seq<int>,
    i: int,
)
    requires
        m >= 0,
        is_strong_qap(v, w, y, t, m, pts, sv, sw, sy, st),
        ws.len() >= m + 1,
        forall|k: int| 0 <= k < m + 1 ==> 0 <= #[trigger] ws[k] < fr_modulus(),
        0 <= i < 2 * m,
    ensures
        eval(qap_poly(sv, sw, sy, ws, m + 1), pts[i]) == (ws[if i < m { i + 1 } else { i - m + 1 }] * (ws[0]
            - 1)) % fr_modulus(),
{
    let z = pts[i];
    let r = fr_modulus();
    // the index of the witness entry that the point selects
    let j = if i < m { i + 1 } else { i - m + 1 };
    let jv = if i < m { j } else { 0 };
    let jw = if i < m { 0 } else { j };
    assert forall|k: int| 0 <= k < m + 1 implies eval(#[trigger] sv[k], z) == (if k == jv { 1int } else { 0 }) by {
        assert(eval(sv[k], pts[i]) == strong_v_target(k, i, m));
    }
    assert forall|k: int| 0 <= k < m + 1 implies eval(#[trigger] sw[k], z) == (if k == jw { 1int } else { 0 }) by {
        assert(eval(sw[k], pts[i]) == strong_w_target(k, i, m));
    }
    assert forall|k: int| 0 <= k < m + 1 implies eval(#[trigger] sy[k], z) == (if k == j { 1int } else { 0 }) by {
        assert(eval(sy[k], pts[i]) == strong_y_target(k, i, m));
    }
    lemma_weighted_eval_indicator(sv, ws, 0, m + 1, z, jv);
    lemma_weighted_eval_indicator(sw, ws, 0, m + 1, z, jw);
    lemma_weighted_eval_indicator(sy, ws, 0, m + 1, z, j);
    lemma_qap_poly_eval(sv, sw, sy, ws, m + 1, z);
    let x = ws[j];
    let c = ws[0];
    lemma_small_mod(x as nat, r as nat);
    lemma_small_mod(c as nat, r as nat);
    assert(ws[jv] * ws[jw] == x * c) by {
        vstd::arithmetic::mul::lemma_mul_is_commutative(x, c);
    }
    lemma_cong_mod(x * c);
    lemma_cong_sub((x * c) % r, x * c, x, x);
    assert(x * c - x == x * (c - 1)) by (nonlinear_arith);
}

/// The strong QAP forces the witness's first entry: when the strong target
/// divides the strong `v(x) * w(x) - y(x)`, every `ws[k] * (ws[0] - 1)` with
/// `1 <= k <= m` is zero, so a witness that does not start with 1 is zero
/// past its first entry.
pub proof fn lemma_strong_qap_forces_first_entry(
    v: Seq<Seq<int>>,
    w: Seq<Seq<int>>,
    y: Seq<Seq<int>>,
    t: Seq<int>,
    m: int,
    pts: Seq<int>,
    sv: Seq<Seq<int>>,
    sw: Seq<Seq<int>>,
    sy: Seq<Seq<int>>,
    st: Seq<int>,
    ws: Seq<int>,
)
    requires
        m >= 0,
        is_strong_qap(v, w, y, t, m, pts, sv, sw, sy, st),
        pts.len() == 2 * m,
        ws.len() >= m + 1,
        forall|k: int| 0 <= k < m + 1 ==> 0 <= #[trigger] ws[k] < fr_modulus(),
        divides(st, qap_poly(sv, sw, sy, ws, m + 1)),
    ensures
        forall|k: int| 1 <= k <= m ==> (#[trigger] ws[k] * (ws[0] - 1)) % fr_modulus() == 0,
{
    let r = fr_modulus();
    let pp = qap_poly(sv, sw, sy, ws, m + 1);
    let h = choose|h: Seq<int>| #[trigger] is_division(pp, st, h, seq![]);
    assert forall|k: int| 1 <= k <= m implies (#[trigger] ws[k] * (ws[0] - 1)) % r == 0 by {
        let i = k - 1;
        let z = pts[i];
        lemma_strong_qap_eval_at_points(v, w, y, t, m, pts, sv, sw, sy, st, ws, i);
        lemma_extended_target_roots(t, pts, z);
        assert(eval(st, z) == 0);
        lemma_eval_poly_add(poly_mul(h, st), seq![], z);
        lemma_eval_poly_mul(h, st, z);
        assert(eval(h, z) * 0 == 0);
        assert(eval(Seq::<int>::empty(), z) == 0);
    }
}

/// The extended target is `t` times the product of the factors
/// `x - points[j]`, coefficient by coefficient.
proof fn lemma_extended_target_over_t(t: Seq<int>, pts: Seq<int>, j: int)
    requires
        0 <= j <= pts.len(),
    ensures
        peq(extended_target(t, pts, j), raw_mul(t, extended_target(seq![1int], pts, j))),
    decreases j,
{
    let one = seq![1int];
    if j == 0 {
        assert forall|i: int| 0 <= i implies #[trigger] cong(
            coeff(t, i),
            coeff(raw_mul(t, one), i),
        ) by {
            lemma_mc_comm(t, one, i);
            lemma_coeff_raw_mul_step(one, t, i);
            assert(tail(one) =~= Seq::<int>::empty());
            if i >= 1 {
                lemma_mc_empty(t, i - 1);
            }
            assert(coeff(t, i) * 1 == coeff(t, i));
        }
    } else {
        lemma_extended_target_over_t(t, pts, j - 1);
        let e = extended_target(t, pts, j - 1);
        let x = extended_target(one, pts, j - 1);
        let lin = seq![(-pts[j - 1]) % fr_modulus(), 1int];
        lemma_peq_trim(raw_mul(x, lin));
        assert forall|i: int| 0 <= i implies #[trigger] cong(
            coeff(extended_target(t, pts, j), i),
            coeff(raw_mul(t, extended_target(one, pts, j)), i),
        ) by {
            lemma_coeff_poly_mul(e, lin, i);
            lemma_mc_congr_left(e, raw_mul(t, x), lin, i);
            lemma_mc_assoc(t, x, lin, i);
            lemma_mc_congr_right(t, raw_mul(x, lin), poly_mul(x, lin), i);
        }
    }
}

/// `p ~ m - y`, `pp ~ mp - yp`, `pp ~ g`, `mp ~ m + x1 + x2`, `yp ~ y + c`,
/// `f ~ z + x1 + x2 - c`, `z ~ 0` and `d ~ g - f` give `p ~ d`.
proof fn lemma_arith_unlift(
    p: int,
    m: int,
    y: int,
    pp: int,
    mp: int,
    yp: int,
    g: int,
    x1: int,
    x2: int,
    c: int,
    z: int,
    f: int,
    d: int,
)
    requires
        cong(p, m - y),
        cong(pp, mp - yp),
        cong(pp, g),
        cong(mp, m + x1 + x2),
        cong(yp, y + c),
        cong(f, z + x1 + x2 - c),
        cong(z, 0),
        cong(d, g - f),
    ensures
        cong(p, d),
{
    lemma_cong_sub(mp, m + x1 + x2, yp, y + c);
    lemma_cong_add(z, 0, x1 + x2 - c, x1 + x2 - c);
    assert(z + (x1 + x2 - c) == z + x1 + x2 - c);
    lemma_cong_sub(g, (m + x1 + x2) - (y + c), f, 0 + (x1 + x2 - c));
    assert((m + x1 + x2) - (y + c) - (0 + (x1 + x2 - c)) == m - y);
}

/// The strong QAP keeps the regular one: when the strong target divides the
/// strong `v(x) * w(x) - y(x)` of a witness, `t` divides the regular one.
#[verifier::rlimit(40)]
pub proof fn lemma_strong_qap_keeps_regular(
    v: Seq<Seq<int>>,
    w: Seq<Seq<int>>,
    y: Seq<Seq<int>>,
    t: Seq<int>,
    m: int,
    pts: Seq<int>,
    sv: Seq<Seq<int>>,
    sw: Seq<Seq<int>>,
    sy: Seq<Seq<int>>,
    st: Seq<int>,
    ws: Seq<int>,
)
    requires
        m >= 0,
        is_strong_qap(v, w, y, t, m, pts, sv, sw, sy, st),
        pts.len() == 2 * m,
        t.len() > 0,
        divides(st, qap_poly(sv, sw, sy, ws, m + 1)),
    ensures
        divides(t, qap_poly(v, w, y, ws, m + 1)),
{
    let n = m + 1;
    let one = seq![1int];
    let p = qap_poly(v, w, y, ws, n);
    let pp = qap_poly(sv, sw, sy, ws, n);
    let h1 = choose|h: Seq<int>| #[trigger] is_division(pp, st, h, seq![]);
    let x = extended_target(one, pts, 2 * m);
    lemma_extended_target_over_t(t, pts, 2 * m);
    let kp = raw_mul(x, h1);
    assert forall|i: int| 0 <= i implies #[trigger] cong(coeff(pp, i), mc(t, kp, i)) by {
        lemma_coeff_division(pp, st, h1, seq![], i);
        assert(coeff(Seq::<int>::empty(), i) == 0);
        lemma_cong_mod(mc(h1, st, i));
        lemma_mc_comm(h1, st, i);
        lemma_mc_congr_left(st, raw_mul(t, x), h1, i);
        lemma_mc_assoc(t, x, h1, i);
    }
    let qv = Seq::new(n as nat, |k: int| choose|q: Seq<int>| is_canonical(q) && q.len() <= pts.len() && sv[k] == poly_add(v[k], poly_mul(t, q)));
    let qw = Seq::new(n as nat, |k: int| choose|q: Seq<int>| is_canonical(q) && q.len() <= pts.len() && sw[k] == poly_add(w[k], poly_mul(t, q)));
    let qy = Seq::new(n as nat, |k: int| choose|q: Seq<int>| is_canonical(q) && q.len() <= pts.len() && sy[k] == poly_add(y[k], poly_mul(t, q)));
    assert forall|k: int, j: int| 0 <= k < n && 0 <= j implies #[trigger] cong(coeff(sv[k], j), coeff(v[k], j) + mc(t, qv[k], j)) by {
        assert(crt_lifted(sv[k], v[k], t, pts));
        lemma_coeff_poly_add(v[k], poly_mul(t, qv[k]), j);
        lemma_coeff_poly_mul(t, qv[k], j);
    }
    assert forall|k: int, j: int| 0 <= k < n && 0 <= j implies #[trigger] cong(coeff(sw[k], j), coeff(w[k], j) + mc(t, qw[k], j)) by {
        assert(crt_lifted(sw[k], w[k], t, pts));
        lemma_coeff_poly_add(w[k], poly_mul(t, qw[k]), j);
        lemma_coeff_poly_mul(t, qw[k], j);
    }
    assert forall|k: int, j: int| 0 <= k < n && 0 <= j implies #[trigger] cong(coeff(sy[k], j), coeff(y[k], j) + mc(t, qy[k], j)) by {
        assert(crt_lifted(sy[k], y[k], t, pts));
        lemma_coeff_poly_add(y[k], poly_mul(t, qy[k]), j);
        lemma_coeff_poly_mul(t, qy[k], j);
    }
    let vx = lin_comb(v, ws, 0, n);
    let wx = lin_comb(w, ws, 0, n);
    let yx = lin_comb(y, ws, 0, n);
    let vpx = lin_comb(sv, ws, 0, n);
    let wpx = lin_comb(sw, ws, 0, n);
    let ypx = lin_comb(sy, ws, 0, n);
    let a = lin_comb(qv, ws, 0, n);
    let b = lin_comb(qw, ws, 0, n);
    let c = lin_comb(qy, ws, 0, n);
    assert forall|j: int| 0 <= j implies #[trigger] cong(coeff(vpx, j), coeff(vx, j) + mc(t, a, j)) by {
        lemma_lin_comb_lift(sv, v, t, qv, ws, n, j);
    }
    assert forall|j: int| 0 <= j implies #[trigger] cong(coeff(wpx, j), coeff(wx, j) + mc(t, b, j)) by {
        lemma_lin_comb_lift(sw, w, t, qw, ws, n, j);
    }
    let cof = lift_cofactor(vx, wx, t, a, b, c, seq![]);
    let k = raw_sub(kp, cof);
    assert forall|i: int| 0 <= i implies #[trigger] cong(coeff(p, i), coeff(raw_mul(t, k), i)) by {
        lemma_lin_comb_lift(sy, y, t, qy, ws, n, i);
        lemma_lifted_product(vpx, wpx, vx, wx, t, a, b, i);
        lemma_cofactor_product(vx, wx, t, a, b, c, seq![], i);
        lemma_mc_empty(t, i);
        lemma_coeff_poly_sub(poly_mul(vx, wx), yx, i);
        lemma_coeff_poly_mul(vx, wx, i);
        lemma_coeff_poly_sub(poly_mul(vpx, wpx), ypx, i);
        lemma_coeff_poly_mul(vpx, wpx, i);
        lemma_mc_sub_right(t, kp, cof, i);
        lemma_arith_unlift(
            coeff(p, i),
            mc(vx, wx, i),
            coeff(yx, i),
            coeff(pp, i),
            mc(vpx, wpx, i),
            coeff(ypx, i),
            mc(t, kp, i),
            mc(t, raw_mul(vx, b), i),
            mc(t, raw_mul(a, raw_add(wx, raw_mul(t, b))), i),
            mc(t, c, i),
            mc(t, seq![], i),
            mc(t, cof, i),
            mc(t, k, i),
        );
    }
    lemma_poly_ops_canonical(poly_mul(vx, wx), yx, 0);
    lemma_trim(raw_sub(poly_mul(vx, wx), yx));
    lemma_divides_from_peq(p, t, k);
}

/// At every extra point the strong QAP's `v(x) * w(x) - y(x)` is zero for a
/// witness whose first entry is 1.
pub proof fn lemma_strong_qap_vanishes_at_points(
    v: Seq<Seq<int>>,
    w: Seq<Seq<int>>,
    y: Seq<Seq<int>>,
    t: Seq<int>,
    m: int,
    pts: Seq<int>,
    sv: Seq<Seq<int>>,
    sw: Seq<Seq<int>>,
    sy: Seq<Seq<int>>,
    st: Seq<int>,
    ws: Seq<int>,
    i: int,
)
    requires
        m >= 0,
        is_strong_qap(v, w, y, t, m, pts, sv, sw, sy, st),
        ws.len() >= m + 1,
        forall|k: int| 0 <= k < m + 1 ==> 0 <= #[trigger] ws[k] < fr_modulus(),
        ws[0] == 1,
        0 <= i < 2 * m,
    ensures
        eval(qap_poly(sv, sw, sy, ws, m + 1), pts[i]) == 0,
{
    lemma_strong_qap_eval_at_points(v, w, y, t, m, pts, sv, sw, sy, st, ws, i);
    let j = if i < m { i + 1 } else { i - m + 1 };
    assert(ws[j] * (ws[0] - 1) == 0);
    lemma_small_mod(0, fr_modulus() as nat);
}


/// Every extra point is a non-root of `t` with an inverse of `t(p)`, and
/// the product of its differences to the other points is invertible (as
/// `crt_interpolate` finds them).
pub open spec fn points_factors_invertible(t: Seq<int>, pts: Seq<int>) -> bool {
    forall|j: int|
        0 <= j < pts.len() ==> invertible(#[trigger] eval(t, pts[j])) && invertible(
            lagrange_factor(pts, j, pts.len() as int, pts[j]),
        )
}

/// `prod_{i < count, i != j} (z - x_i)` is `prod_{i < j} (z - x_i)` times
/// the factors past `j`.
proof fn lemma_lagrange_factor_prefix(xs: Seq<int>, j: int, count: int, z: int) -> (x: int)
    requires
        0 <= j,
        j <= count,
    ensures
        cong(lagrange_factor(xs, j, count, z), points_product(xs, j, z) * x),
    decreases count,
{
    if count == j {
        lemma_lagrange_factor_below(xs, j, count, z);
        vstd::arithmetic::mul::lemma_mul_basics(points_product(xs, j, z));
        1
    } else {
        let x0 = lemma_lagrange_factor_prefix(xs, j, count - 1, z);
        if count - 1 == j {
            x0
        } else {
            let f = z - xs[count - 1];
            let lf = lagrange_factor(xs, j, count - 1, z);
            lemma_cong_mod(lf * f);
            lemma_cong_mul(lf, points_product(xs, j, z) * x0, f, f);
            assert((points_product(xs, j, z) * x0) * f == points_product(xs, j, z) * (x0 * f))
                by (nonlinear_arith);
            x0 * f
        }
    }
}

/// Below `j` the Lagrange factor of `j` is the points product.
proof fn lemma_lagrange_factor_below(xs: Seq<int>, j: int, count: int, z: int)
    requires
        0 <= count <= j,
    ensures
        lagrange_factor(xs, j, count, z) == points_product(xs, count, z),
    decreases count,
{
    if count > 0 {
        lemma_lagrange_factor_below(xs, j, count - 1, z);
    }
}

/// The inverses that `crt_interpolate` finds give the invertibility that the
/// strong-QAP law needs.
pub proof fn lemma_points_invertible(t: Seq<int>, pts: Seq<int>)
    requires
        points_factors_invertible(t, pts),
    ensures
        extra_points_invertible(t, pts),
{
    assert forall|j: int| 0 <= j < pts.len() implies #[trigger] invertible(
        eval(t, pts[j]) * points_product(pts, j, pts[j]),
    ) by {
        let z = pts[j];
        let te = eval(t, z);
        let pp = points_product(pts, j, z);
        let lf = lagrange_factor(pts, j, pts.len() as int, z);
        assert(invertible(te) && invertible(lf));
        let u1 = choose|u: int| #[trigger] mul_mod(te, u) == 1;
        let u2 = choose|u: int| #[trigger] mul_mod(lf, u) == 1;
        let x = lemma_lagrange_factor_prefix(pts, j, pts.len() as int, z);
        // (te * pp) * (u1 * (x * u2)) = (te * u1) * ((pp * x) * u2) ~ 1 * (lf * u2) ~ 1
        assert((te * pp) * (u1 * (x * u2)) == (te * u1) * ((pp * x) * u2)) by (nonlinear_arith);
        lemma_cong_mul(pp * x, lf, u2, u2);
        lemma_cong_mul(te * u1, 1, (pp * x) * u2, lf * u2);
        vstd::arithmetic::mul::lemma_mul_basics(lf * u2);
        lemma_small_mod(1, fr_modulus() as nat);
        assert(mul_mod(te * pp, u1 * (x * u2)) == 1);
    }
}

/// For every extra point `p_j`, `t(p_j) * prod_{i < j} (p_j - p_i)` is
/// invertible. In the prime field this holds of distinct non-roots of `t`;
/// the executable code obtains the inverses from `Fr` (`lemma_points_invertible`).
pub open spec fn extra_points_invertible(t: Seq<int>, pts: Seq<int>) -> bool {
    forall|j: int|
        0 <= j < pts.len() ==> #[trigger] invertible(eval(t, pts[j]) * points_product(pts, j, pts[j]))
}

/// Multiplying by the factors `x - p_j` keeps a canonical, trimmed, non-zero
/// target so, and keeps its leading coefficient.
pub proof fn lemma_extended_target_shape(t: Seq<int>, pts: Seq<int>, j: int)
    requires
        0 <= j <= pts.len(),
        is_canonical(t),
        is_trimmed(t),
        t.len() > 0,
    ensures
        is_canonical(extended_target(t, pts, j)),
        is_trimmed(extended_target(t, pts, j)),
        extended_target(t, pts, j).len() == t.len() + j,
        extended_target(t, pts, j).last() == t.last(),
        is_monic(t) ==> is_monic(extended_target(t, pts, j)),
    decreases j,
{
    if j > 0 {
        lemma_extended_target_shape(t, pts, j - 1);
        let e = extended_target(t, pts, j - 1);
        let lin = seq![(-pts[j - 1]) % fr_modulus(), 1int];
        let c = raw_mul(e, lin);
        let k = e.len() - 1;
        assert(is_monic(lin));
        lemma_coeff_raw_mul_top(e, lin, k);
        assert(e[k] != 0 && 0 <= e[k] < fr_modulus());
        lemma_small_mod(e[k] as nat, fr_modulus() as nat);
        let ck = coeff(c, k + 1);
        if ck == 0 {
            lemma_small_mod(0, fr_modulus() as nat);
        }
        lemma_coeff_trim(c, k + 1);
        assert(coeff(trim(c), k + 1) != 0);
        // the product's entries are reduced (its first factor is not empty)
        assert(c == raw_add(raw_scale(lin, e[0]), shift(raw_mul(e.drop_first(), lin))));
        assert forall|i: int| 0 <= i < c.len() implies 0 <= #[trigger] c[i] < fr_modulus() by {
            lemma_mod_bound(
                coeff(raw_scale(lin, e[0]), i) + coeff(shift(raw_mul(e.drop_first(), lin)), i),
                fr_modulus(),
            );
        }
        lemma_trim(c);
        lemma_poly_mul_len(e, lin);
        assert(trim(c).len() == k + 2);
        assert(trim(c).last() == c[k + 1]);
        lemma_small_mod(1, fr_modulus() as nat);
        lemma_cong_reduced_eq(c[k + 1], e[k]);
    }
}

/// If `pq` is `t` times some polynomial and vanishes at the first `j` extra
/// points, it is the extended target over those points times some polynomial.
proof fn lemma_extended_target_factor(pq: Seq<int>, t: Seq<int>, pts: Seq<int>, j: int, k0: Seq<int>) -> (k: Seq<int>)
    requires
        0 <= j <= pts.len(),
        peq(pq, raw_mul(t, k0)),
        forall|i: int| 0 <= i < pts.len() ==> eval(pq, #[trigger] pts[i]) == 0,
        extra_points_invertible(t, pts),
    ensures
        peq(pq, raw_mul(extended_target(t, pts, j), k)),
    decreases j,
{
    if j == 0 {
        k0
    } else {
        let r = fr_modulus();
        let kp = lemma_extended_target_factor(pq, t, pts, j - 1, k0);
        let e = extended_target(t, pts, j - 1);
        let p = pts[j - 1];
        let lin = seq![(-p) % r, 1int];
        // the cofactor vanishes at p
        lemma_eval_peq(pq, raw_mul(e, kp), p);
        lemma_eval_raw_mul(e, kp, p);
        lemma_eval_range(t, p);
        lemma_extended_target_eval(t, pts, j - 1, p);
        let ee = eval(e, p);
        let ek = eval(kp, p);
        let tp = eval(t, p) * points_product(pts, j - 1, p);
        assert(invertible(tp));
        let u = choose|u: int| #[trigger] mul_mod(tp, u) == 1;
        lemma_cong_mod(tp);
        lemma_cong_mul(ee, tp, ek, ek);
        // ek ~ (tp * u) * ek = u * (tp * ek) ~ u * (ee * ek) ~ 0
        lemma_cong_mul(tp * u, 1, ek, ek);
        lemma_cong_mul(u, u, tp * ek, ee * ek);
        assert((tp * u) * ek == u * (tp * ek)) by (nonlinear_arith);
        lemma_cong_mod(ee * ek);
        lemma_cong_mul(u, u, ee * ek, 0);
        vstd::arithmetic::mul::lemma_mul_basics(u);
        vstd::arithmetic::mul::lemma_mul_basics(ek);
        lemma_eval_range(kp, p);
        lemma_small_mod(0, r as nat);
        lemma_cong_reduced_eq(ek, 0);
        // factor out x - p
        let q = synth_quotient(kp, p);
        lemma_factor_theorem(kp, p);
        let e2 = extended_target(t, pts, j);
        assert(e2 == poly_mul(e, lin));
        lemma_peq_trim(raw_mul(e, lin));
        assert forall|i: int| 0 <= i implies #[trigger] cong(coeff(pq, i), coeff(raw_mul(e2, q), i)) by {
            assert(cong(coeff(pq, i), coeff(raw_mul(e, kp), i)));
            lemma_mc_congr_right(e, kp, raw_mul(lin, q), i);
            lemma_mc_assoc(e, lin, q, i);
            lemma_mc_congr_left(raw_mul(e, lin), e2, q, i);
        }
        q
    }
}


/// A polynomial that vanishes at points whose Lagrange factors are
/// invertible is the product of the factors `x - xs[j]` times some
/// polynomial.
proof fn lemma_vanishing_factor(d: Seq<int>, xs: Seq<int>) -> (k: Seq<int>)
    requires
        forall|i: int| 0 <= i < xs.len() ==> eval(d, #[trigger] xs[i]) == 0,
        forall|k: int|
            0 <= k < xs.len() ==> invertible(#[trigger] lagrange_factor(xs, k, xs.len() as int, xs[k])),
    ensures
        peq(d, raw_mul(extended_target(seq![1int], xs, xs.len() as int), k)),
{
    let r = fr_modulus();
    let n = xs.len() as int;
    let one = seq![1int];
    lemma_small_mod(1, r as nat);
    assert(mul_mod(1, 1) == 1);
    assert forall|j: int| 0 <= j < n implies invertible(#[trigger] eval(one, xs[j])) && invertible(
        lagrange_factor(xs, j, n, xs[j]),
    ) by {
        assert(trim(one) == one);
        lemma_eval_constant(1, xs[j]);
    }
    lemma_points_invertible(one, xs);
    assert forall|i: int| 0 <= i implies #[trigger] cong(coeff(d, i), coeff(raw_mul(one, d), i)) by {
        lemma_coeff_raw_mul_step(one, d, i);
        assert(tail(one) =~= Seq::<int>::empty());
        if i >= 1 {
            lemma_mc_empty(d, i - 1);
        }
        assert(coeff(d, i) * 1 == coeff(d, i));
    }
    lemma_extended_target_factor(d, one, xs, n, d)
}

/// A canonical, trimmed polynomial that vanishes at points whose Lagrange
/// factors are invertible is divisible by `prod_j (x - xs[j])`.
pub proof fn lemma_vanishing_divisible(d: Seq<int>, xs: Seq<int>)
    requires
        is_canonical(d),
        is_trimmed(d),
        forall|i: int| 0 <= i < xs.len() ==> eval(d, #[trigger] xs[i]) == 0,
        forall|k: int|
            0 <= k < xs.len() ==> invertible(#[trigger] lagrange_factor(xs, k, xs.len() as int, xs[k])),
    ensures
        divides(extended_target(seq![1int], xs, xs.len() as int), d),
{
    let k = lemma_vanishing_factor(d, xs);
    lemma_small_mod(1, fr_modulus() as nat);
    lemma_extended_target_shape(seq![1int], xs, xs.len() as int);
    lemma_divides_from_peq(d, extended_target(seq![1int], xs, xs.len() as int), k);
}

/// A polynomial with at most `n` coefficients that vanishes at `n` points
/// whose Lagrange factors are invertible is zero.
pub proof fn lemma_vanishing_is_zero(d: Seq<int>, xs: Seq<int>)
    requires
        is_canonical(d),
        is_trimmed(d),
        d.len() <= xs.len(),
        forall|i: int| 0 <= i < xs.len() ==> eval(d, #[trigger] xs[i]) == 0,
        forall|k: int|
            0 <= k < xs.len() ==> invertible(#[trigger] lagrange_factor(xs, k, xs.len() as int, xs[k])),
    ensures
        d.len() == 0,
{
    let r = fr_modulus();
    let n = xs.len() as int;
    let one = seq![1int];
    lemma_small_mod(1, r as nat);
    let k = lemma_vanishing_factor(d, xs);
    let e = extended_target(one, xs, n);
    lemma_extended_target_shape(one, xs, n);
    // reduce the cofactor
    let kk = poly_add(k, Seq::<int>::empty());
    lemma_trim(raw_add(k, Seq::<int>::empty()));
    assert forall|j: int| 0 <= j implies #[trigger] cong(coeff(k, j), coeff(kk, j)) by {
        lemma_coeff_poly_add(k, Seq::<int>::empty(), j);
    }
    assert forall|i: int| 0 <= i implies #[trigger] cong(coeff(d, i), mc(e, kk, i)) by {
        lemma_mc_congr_right(e, k, kk, i);
    }
    if kk.len() > 0 {
        let top = kk.len() - 1;
        let idx = top + e.len() - 1;
        assert forall|i: int| 0 <= i < kk.len() implies 0 <= #[trigger] kk[i] < r by {
            lemma_coeff_raw_add(k, Seq::<int>::empty(), i);
            lemma_mod_bound(coeff(k, i), r);
        }
        lemma_coeff_raw_mul_top(kk, e, top);
        lemma_mc_comm(kk, e, idx);
        assert(cong(coeff(d, idx), mc(e, kk, idx)));
        assert(coeff(d, idx) == 0);
        lemma_small_mod(0, r as nat);
        lemma_cong_reduced_eq(0, kk[top]);
    }
    assert(kk =~= Seq::<int>::empty());
    if d.len() > 0 {
        let last = d.len() - 1;
        lemma_mc_empty(e, last);
        assert(cong(coeff(d, last), mc(e, kk, last)));
        assert(mc(e, kk, last) == mc(e, seq![], last));
        lemma_small_mod(0, r as nat);
        lemma_cong_reduced_eq(d[last], 0);
    }
}

/// The cofactor that `lemma_qap_lift` finds: with `v' = v + t a`,
/// `w' = w + t b`, `y' = y + t c` and `v w - y = t h`,
/// `v' w' - y' = t (h + v b + a w' - c)`.
pub open spec fn lift_cofactor(
    v: Seq<int>,
    w: Seq<int>,
    t: Seq<int>,
    a: Seq<int>,
    b: Seq<int>,
    c: Seq<int>,
    h: Seq<int>,
) -> Seq<int> {
    raw_sub(raw_add(raw_add(h, raw_mul(v, b)), raw_mul(a, raw_add(w, raw_mul(t, b)))), c)
}

/// The product of two lifted polynomials: `(v + t a) (w + t b)` is
/// `v w + t (v b) + t (a (w + t b))`, coefficient by coefficient.
proof fn lemma_lifted_product(vp: Seq<int>, wp: Seq<int>, v: Seq<int>, w: Seq<int>, t: Seq<int>, a: Seq<int>, b: Seq<int>, i: int)
    requires
        i >= 0,
        forall|j: int| 0 <= j ==> #[trigger] cong(coeff(vp, j), coeff(v, j) + mc(t, a, j)),
        forall|j: int| 0 <= j ==> #[trigger] cong(coeff(wp, j), coeff(w, j) + mc(t, b, j)),
    ensures
        cong(
            mc(vp, wp, i),
            mc(v, w, i) + mc(t, raw_mul(v, b), i) + mc(t, raw_mul(a, raw_add(w, raw_mul(t, b))), i),
        ),
{
    lemma_lifted_congr(vp, wp, v, w, t, a, b, i);
    lemma_expand_lifted(v, w, t, a, b, i);
}

/// `(v + t a) (w + t b)` expanded as `v w + t (v b) + t (a (w + t b))`.
proof fn lemma_expand_lifted(v: Seq<int>, w: Seq<int>, t: Seq<int>, a: Seq<int>, b: Seq<int>, i: int)
    requires
        i >= 0,
    ensures
        cong(
            mc(raw_add(v, raw_mul(t, a)), raw_add(w, raw_mul(t, b)), i),
            mc(v, w, i) + mc(t, raw_mul(v, b), i) + mc(t, raw_mul(a, raw_add(w, raw_mul(t, b))), i),
        ),
{
    let wx = raw_add(w, raw_mul(t, b));
    lemma_mc_add_left(v, raw_mul(t, a), wx, i);
    lemma_mc_add_right(v, w, raw_mul(t, b), i);
    lemma_commuted_assoc(v, t, b, i);
    lemma_mc_assoc(t, a, wx, i);
    lemma_cong_combine(
        mc(raw_add(v, raw_mul(t, a)), wx, i),
        mc(v, wx, i),
        mc(raw_mul(t, a), wx, i),
        mc(v, w, i),
        mc(v, raw_mul(t, b), i),
        mc(t, raw_mul(v, b), i),
        mc(t, raw_mul(a, wx), i),
    );
}

/// `x ~ y + z`, `y ~ d + e`, `e ~ f` and `z ~ g` give `x ~ d + f + g`.
proof fn lemma_cong_combine(x: int, y: int, z: int, d: int, e: int, f: int, g: int)
    requires
        cong(x, y + z),
        cong(y, d + e),
        cong(e, f),
        cong(z, g),
    ensures
        cong(x, d + f + g),
{
    lemma_cong_add(y, d + e, z, g);
    lemma_cong_add(d, d, e, f);
    lemma_cong_add(d + e, d + f, g, g);
}

/// Products of coefficientwise-congruent lifts are congruent to the
/// product of the sum polynomials.
proof fn lemma_lifted_congr(vp: Seq<int>, wp: Seq<int>, v: Seq<int>, w: Seq<int>, t: Seq<int>, a: Seq<int>, b: Seq<int>, i: int)
    requires
        i >= 0,
        forall|j: int| 0 <= j ==> #[trigger] cong(coeff(vp, j), coeff(v, j) + mc(t, a, j)),
        forall|j: int| 0 <= j ==> #[trigger] cong(coeff(wp, j), coeff(w, j) + mc(t, b, j)),
    ensures
        cong(mc(vp, wp, i), mc(raw_add(v, raw_mul(t, a)), raw_add(w, raw_mul(t, b)), i)),
{
    let vx = raw_add(v, raw_mul(t, a));
    let wx = raw_add(w, raw_mul(t, b));
    lemma_lift_peq(vp, v, t, a);
    lemma_lift_peq(wp, w, t, b);
    lemma_mc_congr_left(vp, vx, wp, i);
    lemma_mc_congr_right(vx, wp, wx, i);
}

/// A polynomial lifted coefficient by coefficient is the sum polynomial.
proof fn lemma_lift_peq(vp: Seq<int>, v: Seq<int>, t: Seq<int>, a: Seq<int>)
    requires
        forall|j: int| 0 <= j ==> #[trigger] cong(coeff(vp, j), coeff(v, j) + mc(t, a, j)),
    ensures
        peq(vp, raw_add(v, raw_mul(t, a))),
{
    let vx = raw_add(v, raw_mul(t, a));
    assert forall|j: int| 0 <= j implies #[trigger] cong(coeff(vp, j), coeff(vx, j)) by {
        lemma_coeff_raw_add(v, raw_mul(t, a), j);
        assert(cong(coeff(vp, j), coeff(v, j) + mc(t, a, j)));
        lemma_cong_mod(coeff(v, j) + mc(t, a, j));
    }
}

/// `v (t b)` is `t (v b)`.
proof fn lemma_commuted_assoc(v: Seq<int>, t: Seq<int>, b: Seq<int>, i: int)
    requires
        i >= 0,
    ensures
        cong(mc(v, raw_mul(t, b), i), mc(t, raw_mul(v, b), i)),
{
    lemma_mc_assoc(v, t, b, i);
    assert forall|j: int| 0 <= j implies #[trigger] cong(coeff(raw_mul(v, t), j), coeff(raw_mul(t, v), j)) by {
        lemma_mc_comm(v, t, j);
    }
    lemma_mc_congr_left(raw_mul(v, t), raw_mul(t, v), b, i);
    lemma_mc_assoc(t, v, b, i);
}

/// `t` times the lift cofactor, expanded.
proof fn lemma_cofactor_product(
    v: Seq<int>,
    w: Seq<int>,
    t: Seq<int>,
    a: Seq<int>,
    b: Seq<int>,
    c: Seq<int>,
    h: Seq<int>,
    i: int,
)
    requires
        i >= 0,
    ensures
        cong(
            mc(t, lift_cofactor(v, w, t, a, b, c, h), i),
            mc(t, h, i) + mc(t, raw_mul(v, b), i) + mc(t, raw_mul(a, raw_add(w, raw_mul(t, b))), i) - mc(
                t,
                c,
                i,
            ),
        ),
{
    let wx = raw_add(w, raw_mul(t, b));
    let hv = raw_add(h, raw_mul(v, b));
    let hva = raw_add(hv, raw_mul(a, wx));
    lemma_mc_sub_right(t, hva, c, i);
    lemma_mc_add_right(t, hv, raw_mul(a, wx), i);
    lemma_mc_add_right(t, h, raw_mul(v, b), i);
    lemma_cong_add(mc(t, hv, i), mc(t, h, i) + mc(t, raw_mul(v, b), i), mc(t, raw_mul(a, wx), i), mc(t, raw_mul(a, wx), i));
    lemma_cong_sub(mc(t, hva, i), mc(t, h, i) + mc(t, raw_mul(v, b), i) + mc(t, raw_mul(a, wx), i), mc(t, c, i), mc(t, c, i));
}

/// `v' w' - y'` is `t` times the lift cofactor, coefficient by coefficient.
proof fn lemma_qap_lift(
    vp: Seq<int>,
    wp: Seq<int>,
    yp: Seq<int>,
    v: Seq<int>,
    w: Seq<int>,
    y: Seq<int>,
    t: Seq<int>,
    a: Seq<int>,
    b: Seq<int>,
    c: Seq<int>,
    h: Seq<int>,
    i: int,
)
    requires
        i >= 0,
        forall|j: int| 0 <= j ==> #[trigger] cong(coeff(vp, j), coeff(v, j) + mc(t, a, j)),
        forall|j: int| 0 <= j ==> #[trigger] cong(coeff(wp, j), coeff(w, j) + mc(t, b, j)),
        cong(coeff(yp, i), coeff(y, i) + mc(t, c, i)),
        cong(mc(v, w, i) - coeff(y, i), mc(t, h, i)),
    ensures
        cong(mc(vp, wp, i) - coeff(yp, i), mc(t, lift_cofactor(v, w, t, a, b, c, h), i)),
{
    lemma_lifted_product(vp, wp, v, w, t, a, b, i);
    lemma_cofactor_product(v, w, t, a, b, c, h, i);
    let x1 = mc(t, raw_mul(v, b), i);
    let x2 = mc(t, raw_mul(a, raw_add(w, raw_mul(t, b))), i);
    lemma_arith_lift(mc(vp, wp, i), coeff(yp, i), mc(v, w, i), coeff(y, i), mc(t, c, i), mc(t, h, i), x1, x2);
}

/// The arithmetic of `lemma_qap_lift`.
proof fn lemma_arith_lift(pw: int, yp: int, vw: int, y: int, tc: int, th: int, x1: int, x2: int)
    requires
        cong(pw, vw + x1 + x2),
        cong(yp, y + tc),
        cong(vw - y, th),
    ensures
        cong(pw - yp, th + x1 + x2 - tc),
{
    lemma_cong_sub(pw, vw + x1 + x2, yp, y + tc);
    lemma_cong_add(vw - y, th, x1 + x2 - tc, x1 + x2 - tc);
    assert((vw + x1 + x2) - (y + tc) == (vw - y) + (x1 + x2 - tc));
    assert(th + (x1 + x2 - tc) == th + x1 + x2 - tc);
}

/// The strong QAP's `v(x) * w(x) - y(x)` is `t` times some polynomial when
/// the regular one is `t * h`.
proof fn lemma_strong_qap_lift(
    v: Seq<Seq<int>>,
    w: Seq<Seq<int>>,
    y: Seq<Seq<int>>,
    t: Seq<int>,
    m: int,
    pts: Seq<int>,
    sv: Seq<Seq<int>>,
    sw: Seq<Seq<int>>,
    sy: Seq<Seq<int>>,
    st: Seq<int>,
    ws: Seq<int>,
    h: Seq<int>,
) -> (k0: Seq<int>)
    requires
        m >= 0,
        is_strong_qap(v, w, y, t, m, pts, sv, sw, sy, st),
        is_division(qap_poly(v, w, y, ws, m + 1), t, h, seq![]),
    ensures
        peq(qap_poly(sv, sw, sy, ws, m + 1), raw_mul(t, k0)),
{
    let n = m + 1;
    let p = qap_poly(v, w, y, ws, n);
    let pp = qap_poly(sv, sw, sy, ws, n);
    let qv = Seq::new(n as nat, |k: int| choose|q: Seq<int>| is_canonical(q) && q.len() <= pts.len() && sv[k] == poly_add(v[k], poly_mul(t, q)));
    let qw = Seq::new(n as nat, |k: int| choose|q: Seq<int>| is_canonical(q) && q.len() <= pts.len() && sw[k] == poly_add(w[k], poly_mul(t, q)));
    let qy = Seq::new(n as nat, |k: int| choose|q: Seq<int>| is_canonical(q) && q.len() <= pts.len() && sy[k] == poly_add(y[k], poly_mul(t, q)));
    assert forall|k: int, j: int| 0 <= k < n && 0 <= j implies #[trigger] cong(coeff(sv[k], j), coeff(v[k], j) + mc(t, qv[k], j)) by {
        assert(crt_lifted(sv[k], v[k], t, pts));
        lemma_coeff_poly_add(v[k], poly_mul(t, qv[k]), j);
        lemma_coeff_poly_mul(t, qv[k], j);
    }
    assert forall|k: int, j: int| 0 <= k < n && 0 <= j implies #[trigger] cong(coeff(sw[k], j), coeff(w[k], j) + mc(t, qw[k], j)) by {
        assert(crt_lifted(sw[k], w[k], t, pts));
        lemma_coeff_poly_add(w[k], poly_mul(t, qw[k]), j);
        lemma_coeff_poly_mul(t, qw[k], j);
    }
    assert forall|k: int, j: int| 0 <= k < n && 0 <= j implies #[trigger] cong(coeff(sy[k], j), coeff(y[k], j) + mc(t, qy[k], j)) by {
        assert(crt_lifted(sy[k], y[k], t, pts));
        lemma_coeff_poly_add(y[k], poly_mul(t, qy[k]), j);
        lemma_coeff_poly_mul(t, qy[k], j);
    }
    let vx = lin_comb(v, ws, 0, n);
    let wx = lin_comb(w, ws, 0, n);
    let yx = lin_comb(y, ws, 0, n);
    let vpx = lin_comb(sv, ws, 0, n);
    let wpx = lin_comb(sw, ws, 0, n);
    let ypx = lin_comb(sy, ws, 0, n);
    let a = lin_comb(qv, ws, 0, n);
    let b = lin_comb(qw, ws, 0, n);
    let c = lin_comb(qy, ws, 0, n);
    assert forall|j: int| 0 <= j implies #[trigger] cong(coeff(vpx, j), coeff(vx, j) + mc(t, a, j)) by {
        lemma_lin_comb_lift(sv, v, t, qv, ws, n, j);
    }
    assert forall|j: int| 0 <= j implies #[trigger] cong(coeff(wpx, j), coeff(wx, j) + mc(t, b, j)) by {
        lemma_lin_comb_lift(sw, w, t, qw, ws, n, j);
    }
    let k0 = lift_cofactor(vx, wx, t, a, b, c, h);
    assert forall|i: int| 0 <= i implies #[trigger] cong(coeff(pp, i), coeff(raw_mul(t, k0), i)) by {
        lemma_lin_comb_lift(sy, y, t, qy, ws, n, i);
        lemma_coeff_division(p, t, h, seq![], i);
        assert(coeff(Seq::<int>::empty(), i) == 0);
        lemma_mc_comm(h, t, i);
        lemma_coeff_poly_sub(poly_mul(vx, wx), yx, i);
        lemma_coeff_poly_mul(vx, wx, i);
        lemma_cong_mod(mc(h, t, i));
        assert(cong(mc(vx, wx, i) - coeff(yx, i), mc(t, h, i)));
        lemma_qap_lift(vpx, wpx, ypx, vx, wx, yx, t, a, b, c, h, i);
        lemma_coeff_poly_sub(poly_mul(vpx, wpx), ypx, i);
        lemma_coeff_poly_mul(vpx, wpx, i);
    }
    k0
}

/// A canonical, trimmed polynomial that is `d` times some polynomial is
/// divisible by `d`.
proof fn lemma_divides_from_peq(p: Seq<int>, d: Seq<int>, k: Seq<int>)
    requires
        peq(p, raw_mul(d, k)),
        is_canonical(p),
        is_trimmed(p),
        d.len() > 0,
    ensures
        divides(d, p),
{
    let r = fr_modulus();
    let hq = trim(raw_scale(k, 1));
    lemma_trim(raw_scale(k, 1));
    lemma_peq_trim(raw_scale(k, 1));
    assert forall|j: int| 0 <= j implies #[trigger] cong(coeff(hq, j), coeff(k, j)) by {
        assert(cong(coeff(hq, j), coeff(raw_scale(k, 1), j)));
        if j < k.len() {
            lemma_cong_mod(k[j] * 1);
        } else {
            lemma_small_mod(0, r as nat);
        }
    }
    let lhs = poly_add(poly_mul(hq, d), seq![]);
    assert forall|i: int| 0 <= i implies #[trigger] coeff(lhs, i) == coeff(p, i) by {
        lemma_coeff_poly_add(poly_mul(hq, d), seq![], i);
        assert(coeff(Seq::<int>::empty(), i) == 0);
        lemma_coeff_poly_mul(hq, d, i);
        lemma_mc_congr_left(hq, k, d, i);
        lemma_mc_comm(k, d, i);
        assert(cong(coeff(p, i), mc(d, k, i)));
        lemma_coeff_trim(raw_add(poly_mul(hq, d), seq![]), i);
        lemma_coeff_raw_add(poly_mul(hq, d), seq![], i);
        lemma_mod_bound(coeff(poly_mul(hq, d), i) + 0, r);
        if i < p.len() {
            assert(0 <= p[i] < r);
        }
        lemma_cong_reduced_eq(coeff(lhs, i), coeff(p, i));
    }
    lemma_trim(raw_add(poly_mul(hq, d), seq![]));
    lemma_same_coeffs_equal(lhs, p);
    assert(is_canonical(hq)) by {
        assert forall|j: int| 0 <= j < raw_scale(k, 1).len() implies 0 <= #[trigger] raw_scale(k, 1)[j] < r by {
            lemma_mod_bound(k[j] * 1, r);
        }
    }
    assert(is_division(p, d, hq, seq![]));
}

/// The strong-QAP law: for a witness with every `ws[k] * (ws[0] - 1)` zero
/// (in particular one whose first entry is 1), if `t` divides the regular
/// QAP's `v(x) * w(x) - y(x)`, the strong target divides the strong QAP's.
/// The strong polynomials differ from the regular ones by multiples of `t`
/// and vanish, combined, at every extra point; the extra points' factors are
/// invertible (`extra_points_invertible`).
pub proof fn lemma_strong_qap_divides(
    v: Seq<Seq<int>>,
    w: Seq<Seq<int>>,
    y: Seq<Seq<int>>,
    t: Seq<int>,
    m: int,
    pts: Seq<int>,
    sv: Seq<Seq<int>>,
    sw: Seq<Seq<int>>,
    sy: Seq<Seq<int>>,
    st: Seq<int>,
    ws: Seq<int>,
)
    requires
        m >= 0,
        is_strong_qap(v, w, y, t, m, pts, sv, sw, sy, st),
        pts.len() == 2 * m,
        all_distinct(pts),
        forall|i: int| 0 <= i < pts.len() ==> eval(t, #[trigger] pts[i]) != 0,
        extra_points_invertible(t, pts),
        is_canonical(t),
        is_trimmed(t),
        ws.len() >= m + 1,
        forall|k: int| 0 <= k < m + 1 ==> 0 <= #[trigger] ws[k] < fr_modulus(),
        forall|k: int| 1 <= k <= m ==> (#[trigger] ws[k] * (ws[0] - 1)) % fr_modulus() == 0,
        divides(t, qap_poly(v, w, y, ws, m + 1)),
    ensures
        divides(st, qap_poly(sv, sw, sy, ws, m + 1)),
{
    let n = m + 1;
    let p = qap_poly(v, w, y, ws, n);
    let pp = qap_poly(sv, sw, sy, ws, n);
    let h = choose|h: Seq<int>| #[trigger] is_division(p, t, h, seq![]);
    let k0 = lemma_strong_qap_lift(v, w, y, t, m, pts, sv, sw, sy, st, ws, h);
    assert forall|i: int| 0 <= i < pts.len() implies eval(pp, #[trigger] pts[i]) == 0 by {
        lemma_strong_qap_eval_at_points(v, w, y, t, m, pts, sv, sw, sy, st, ws, i);
        let j = if i < m { i + 1 } else { i - m + 1 };
        assert((ws[j] * (ws[0] - 1)) % fr_modulus() == 0);
    }
    let kf = lemma_extended_target_factor(pp, t, pts, 2 * m, k0);
    lemma_extended_target_shape(t, pts, 2 * m);
    let vpx = lin_comb(sv, ws, 0, n);
    let wpx = lin_comb(sw, ws, 0, n);
    let ypx = lin_comb(sy, ws, 0, n);
    let dd = raw_sub(poly_mul(vpx, wpx), ypx);
    lemma_trim(dd);
    assert forall|j: int| 0 <= j < dd.len() implies 0 <= #[trigger] dd[j] < fr_modulus() by {
        lemma_mod_bound(coeff(poly_mul(vpx, wpx), j) - coeff(ypx, j), fr_modulus());
    }
    lemma_divides_from_peq(pp, st, kf);
}

/// The strong QAP accepts exactly the regular QAP's witnesses that start
/// with 1: when the strong target divides the strong `v(x) * w(x) - y(x)`,
/// `t` divides the regular one and every `ws[k] * (ws[0] - 1)` with
/// `1 <= k <= m` is zero; and for a witness with `ws[0] = 1`, the strong
/// target divides the strong one exactly when `t` divides the regular one.
pub proof fn lemma_strong_qap_law(
    v: Seq<Seq<int>>,
    w: Seq<Seq<int>>,
    y: Seq<Seq<int>>,
    t: Seq<int>,
    m: int,
    pts: Seq<int>,
    sv: Seq<Seq<int>>,
    sw: Seq<Seq<int>>,
    sy: Seq<Seq<int>>,
    st: Seq<int>,
    ws: Seq<int>,
)
    requires
        m >= 0,
        is_strong_qap(v, w, y, t, m, pts, sv, sw, sy, st),
        pts.len() == 2 * m,
        all_distinct(pts),
        forall|i: int| 0 <= i < pts.len() ==> eval(t, #[trigger] pts[i]) != 0,
        extra_points_invertible(t, pts),
        is_canonical(t),
        is_trimmed(t),
        t.len() > 0,
        ws.len() >= m + 1,
        forall|k: int| 0 <= k < m + 1 ==> 0 <= #[trigger] ws[k] < fr_modulus(),
    ensures
        divides(st, qap_poly(sv, sw, sy, ws, m + 1)) <==> divides(t, qap_poly(v, w, y, ws, m + 1))
            && forall|k: int| 1 <= k <= m ==> (#[trigger] ws[k] * (ws[0] - 1)) % fr_modulus() == 0,
        ws[0] == 1 ==> (divides(st, qap_poly(sv, sw, sy, ws, m + 1)) <==> divides(
            t,
            qap_poly(v, w, y, ws, m + 1),
        )),
{
    if divides(st, qap_poly(sv, sw, sy, ws, m + 1)) {
        lemma_strong_qap_keeps_regular(v, w, y, t, m, pts, sv, sw, sy, st, ws);
        lemma_strong_qap_forces_first_entry(v, w, y, t, m, pts, sv, sw, sy, st, ws);
    }
    if ws[0] == 1 {
        lemma_first_entry_one(ws, m);
    }
    if divides(t, qap_poly(v, w, y, ws, m + 1)) && forall|k: int|
        1 <= k <= m ==> (#[trigger] ws[k] * (ws[0] - 1)) % fr_modulus() == 0 {
        lemma_strong_qap_divides(v, w, y, t, m, pts, sv, sw, sy, st, ws);
    }
}

/// A witness whose first entry is 1 has every `ws[k] * (ws[0] - 1)` zero.
pub proof fn lemma_first_entry_one(ws: Seq<int>, m: int)
    requires
        ws.len() >= 1,
        ws[0] == 1,
    ensures
        forall|k: int| 1 <= k <= m ==> (#[trigger] ws[k] * (ws[0] - 1)) % fr_modulus() == 0,
{
    assert forall|k: int| 1 <= k <= m implies (#[trigger] ws[k] * (ws[0] - 1)) % fr_modulus() == 0 by {
        assert(ws[k] * (ws[0] - 1) == 0);
        lemma_small_mod(0, fr_modulus() as nat);
    }
}

/// `p + t q1` and `p + t q2` agreeing at a point `z` where `t(z)` is
/// invertible makes `(q1 - q2)(z)` zero.
proof fn lemma_cancel_lift(ep: int, et: int, eq1: int, eq2: int, e1: int, e2: int, eg: int)
    requires
        e1 == (ep + (et * eq1) % fr_modulus()) % fr_modulus(),
        e2 == (ep + (et * eq2) % fr_modulus()) % fr_modulus(),
        e1 == e2,
        eg == (eq1 - eq2) % fr_modulus(),
        invertible(et),
    ensures
        eg == 0,
{
    let r = fr_modulus();
    lemma_cong_mod(et * eq1);
    lemma_cong_mod(et * eq2);
    lemma_cong_mod(ep + (et * eq1) % r);
    lemma_cong_mod(ep + (et * eq2) % r);
    lemma_cong_add(ep, ep, (et * eq1) % r, et * eq1);
    lemma_cong_add(ep, ep, (et * eq2) % r, et * eq2);
    assert(cong(ep + et * eq1, ep + et * eq2));
    lemma_cong_sub(ep + et * eq1, ep + et * eq2, ep + et * eq2, ep + et * eq2);
    assert((ep + et * eq1) - (ep + et * eq2) == et * (eq1 - eq2)) by (nonlinear_arith);
    lemma_cong_mod(eq1 - eq2);
    lemma_cong_mul(et, et, eg, eq1 - eq2);
    lemma_small_mod(0, r as nat);
    lemma_mod_bound(eq1 - eq2, r);
    lemma_cancel_invertible(et, eg);
}

/// A lift `p + t q` (with `q` canonical and no longer than the points) is
/// determined by its values at points whose Lagrange factors and `t`-values
/// are invertible.
pub proof fn lemma_crt_lifted_unique(s1: Seq<int>, s2: Seq<int>, p: Seq<int>, t: Seq<int>, pts: Seq<int>)
    requires
        crt_lifted(s1, p, t, pts),
        crt_lifted(s2, p, t, pts),
        forall|i: int| 0 <= i < pts.len() ==> eval(s1, #[trigger] pts[i]) == eval(s2, pts[i]),
        points_factors_invertible(t, pts),
    ensures
        s1 == s2,
{
    let r = fr_modulus();
    let n = pts.len();
    let q1 = choose|q: Seq<int>| is_canonical(q) && q.len() <= n && s1 == poly_add(p, poly_mul(t, q));
    let q2 = choose|q: Seq<int>| is_canonical(q) && q.len() <= n && s2 == poly_add(p, poly_mul(t, q));
    let g = raw_sub(q1, q2);
    let gg = poly_add(g, Seq::<int>::empty());
    lemma_poly_ops_canonical(g, Seq::<int>::empty(), 0);
    lemma_trim(raw_add(g, Seq::<int>::empty()));
    assert forall|j: int| 0 <= j implies #[trigger] cong(coeff(g, j), coeff(gg, j)) by {
        lemma_coeff_poly_add(g, Seq::<int>::empty(), j);
    }
    assert forall|k: int| 0 <= k < n implies eval(gg, #[trigger] pts[k]) == 0 by {
        let z = pts[k];
        lemma_eval_poly_add(p, poly_mul(t, q1), z);
        lemma_eval_poly_add(p, poly_mul(t, q2), z);
        lemma_eval_poly_mul(t, q1, z);
        lemma_eval_poly_mul(t, q2, z);
        lemma_eval_raw_sub(q1, q2, z);
        lemma_eval_peq(g, gg, z);
        assert(invertible(eval(t, pts[k])));
        lemma_cancel_lift(eval(p, z), eval(t, z), eval(q1, z), eval(q2, z), eval(s1, z), eval(s2, z), eval(g, z));
    }
    lemma_vanishing_is_zero(gg, pts);
    assert(gg =~= Seq::<int>::empty());
    lemma_poly_ops_canonical(p, poly_mul(t, q1), 0);
    lemma_poly_ops_canonical(p, poly_mul(t, q2), 0);
    assert forall|i: int| 0 <= i implies #[trigger] coeff(s1, i) == coeff(s2, i) by {
        lemma_coeff_poly_add(p, poly_mul(t, q1), i);
        lemma_coeff_poly_add(p, poly_mul(t, q2), i);
        lemma_coeff_poly_mul(t, q1, i);
        lemma_coeff_poly_mul(t, q2, i);
        lemma_mc_sub_right(t, q1, q2, i);
        lemma_mc_congr_right(t, g, gg, i);
        lemma_mc_empty(t, i);
        assert(cong(mc(t, q1, i) - mc(t, q2, i), 0));
        lemma_cong_sub(mc(t, q1, i) - mc(t, q2, i), 0, -mc(t, q2, i), -mc(t, q2, i));
        lemma_cong_add(coeff(p, i), coeff(p, i), mc(t, q1, i), mc(t, q2, i));
        lemma_cong_reduced_eq(coeff(s1, i), coeff(s2, i));
    }
    lemma_same_coeffs_equal(s1, s2);
}

/// The strong QAP for given extra points is unique: it depends on the
/// regular QAP's first `m + 1` polynomials, `t` and the points alone.
pub proof fn lemma_strong_qap_unique(
    v1: Seq<Seq<int>>,
    w1: Seq<Seq<int>>,
    y1: Seq<Seq<int>>,
    v2: Seq<Seq<int>>,
    w2: Seq<Seq<int>>,
    y2: Seq<Seq<int>>,
    t: Seq<int>,
    m: int,
    pts: Seq<int>,
    sv1: Seq<Seq<int>>,
    sw1: Seq<Seq<int>>,
    sy1: Seq<Seq<int>>,
    st1: Seq<int>,
    sv2: Seq<Seq<int>>,
    sw2: Seq<Seq<int>>,
    sy2: Seq<Seq<int>>,
    st2: Seq<int>,
)
    requires
        m >= 0,
        pts.len() == 2 * m,
        is_strong_qap(v1, w1, y1, t, m, pts, sv1, sw1, sy1, st1),
        is_strong_qap(v2, w2, y2, t, m, pts, sv2, sw2, sy2, st2),
        points_factors_invertible(t, pts),
        forall|k: int| 0 <= k <= m ==> #[trigger] v1[k] == v2[k],
        forall|k: int| 0 <= k <= m ==> #[trigger] w1[k] == w2[k],
        forall|k: int| 0 <= k <= m ==> #[trigger] y1[k] == y2[k],
    ensures
        sv1 == sv2,
        sw1 == sw2,
        sy1 == sy2,
        st1 == st2,
{
    assert forall|k: int| 0 <= k <= m implies #[trigger] sv1[k] == sv2[k] by {
        assert(v1[k] == v2[k]);
        assert forall|i: int| 0 <= i < pts.len() implies eval(sv1[k], #[trigger] pts[i]) == eval(sv2[k], pts[i]) by {
            assert(eval(sv1[k], pts[i]) == strong_v_target(k, i, m));
            assert(eval(sv2[k], pts[i]) == strong_v_target(k, i, m));
        }
        lemma_crt_lifted_unique(sv1[k], sv2[k], v1[k], t, pts);
    }
    assert forall|k: int| 0 <= k <= m implies #[trigger] sw1[k] == sw2[k] by {
        assert(w1[k] == w2[k]);
        assert forall|i: int| 0 <= i < pts.len() implies eval(sw1[k], #[trigger] pts[i]) == eval(sw2[k], pts[i]) by {
            assert(eval(sw1[k], pts[i]) == strong_w_target(k, i, m));
            assert(eval(sw2[k], pts[i]) == strong_w_target(k, i, m));
        }
        lemma_crt_lifted_unique(sw1[k], sw2[k], w1[k], t, pts);
    }
    assert forall|k: int| 0 <= k <= m implies #[trigger] sy1[k] == sy2[k] by {
        assert(y1[k] == y2[k]);
        assert forall|i: int| 0 <= i < pts.len() implies eval(sy1[k], #[trigger] pts[i]) == eval(sy2[k], pts[i]) by {
            assert(eval(sy1[k], pts[i]) == strong_y_target(k, i, m));
            assert(eval(sy2[k], pts[i]) == strong_y_target(k, i, m));
        }
        lemma_crt_lifted_unique(sy1[k], sy2[k], y1[k], t, pts);
    }
    assert(sv1 =~= sv2);
    assert(sw1 =~= sw2);
    assert(sy1 =~= sy2);
}

} // verus!
