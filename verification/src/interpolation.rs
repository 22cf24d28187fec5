//! Lagrange interpolation, and interpolation that keeps a polynomial's
//! residue modulo a target polynomial (the Chinese-remainder construction).
use crate::field::{fr_inverse, fr_modulus, fr_mul, fr_neg, fr_sub, Scalar};
use crate::poly::{
    is_zero_poly, max_product_terms, poly_add_op, poly_evaluate_op, poly_mul_op, sanitize, scalar_values, Poly,
};
use crate::poly_spec::{
    coeff, cong, eval, invertible, is_canonical, is_trimmed, mul_mod, lemma_cong_add, lemma_cong_mod,
    lemma_cong_mul, lemma_cong_reduced_eq, lemma_cong_sub, lemma_eval_poly_add, lemma_eval_poly_mul,
    lemma_eval_poly_scale, lemma_eval_poly_sub, lemma_eval_range, lemma_eval_raw_add, lemma_eval_raw_mul,
    lemma_trim, poly_add, poly_mul,
    poly_scale, poly_sub, raw_add, raw_mul, raw_scale, raw_sub, shift, trim,
};
use crate::division::{lemma_coeff_raw_add, lemma_coeff_raw_sub, lemma_coeff_trim, lemma_same_coeffs_equal};
use crate::poly_ring::{
    lemma_coeff_poly_add, lemma_coeff_poly_mul, lemma_eval_peq, lemma_mc_add_right, lemma_mc_congr_right,
    lemma_mc_empty, lemma_mc_sub_right, mc,
};
use crate::strong_qap::lemma_vanishing_is_zero;
use vstd::arithmetic::div_mod::*;
use vstd::prelude::*;

verus! {

/// The values in `xs` are pairwise distinct.
pub open spec fn all_distinct(xs: Seq<int>) -> bool {
    forall|i: int, j: int| 0 <= i < xs.len() && 0 <= j < xs.len() && i != j ==> xs[i] != xs[j]
}

/// `prod_{j < count, j != i} (z - xs[j])`, reduced modulo the field order.
pub open spec fn lagrange_factor(xs: Seq<int>, i: int, count: int, z: int) -> int
    decreases count,
{
    if count <= 0 {
        1
    } else if count - 1 == i {
        lagrange_factor(xs, i, count - 1, z)
    } else {
        (lagrange_factor(xs, i, count - 1, z) * (z - xs[count - 1])) % fr_modulus()
    }
}

proof fn lemma_lagrange_factor_zero(xs: Seq<int>, i: int, count: int, k: int)
    requires
        0 <= k < count,
        k != i,
        count <= xs.len(),
    ensures
        lagrange_factor(xs, i, count, xs[k]) == 0,
    decreases count,
{
    let p = lagrange_factor(xs, i, count - 1, xs[k]);
    if count - 1 == k {
        assert(p * (xs[k] - xs[count - 1]) == 0) by (nonlinear_arith)
            requires
                xs[k] - xs[count - 1] == 0,
        ;
        lemma_small_mod(0, fr_modulus() as nat);
    } else {
        lemma_lagrange_factor_zero(xs, i, count - 1, k);
        if count - 1 != i {
            assert(0 * (xs[k] - xs[count - 1]) == 0) by (nonlinear_arith);
            lemma_small_mod(0, fr_modulus() as nat);
        }
    }
}

/// A difference of two distinct canonical values is not a multiple of the
/// field order.
proof fn lemma_diff_nonzero(a: int, b: int)
    requires
        0 <= a < fr_modulus(),
        0 <= b < fr_modulus(),
        a != b,
    ensures
        (a - b) % fr_modulus() != 0,
{
    if a > b {
        lemma_small_mod((a - b) as nat, fr_modulus() as nat);
    } else {
        lemma_mod_add_multiples_vanish(a - b, fr_modulus());
        lemma_small_mod((fr_modulus() + a - b) as nat, fr_modulus() as nat);
    }
}

/// A product of two polynomials has at most `a.len() + b.len() - 1`
/// coefficients.
pub proof fn lemma_poly_mul_len(a: Seq<int>, b: Seq<int>)
    requires
        b.len() > 0,
    ensures
        poly_mul(a, b).len() + 1 <= a.len() + b.len(),
        is_trimmed(poly_mul(a, b)),
{
    lemma_raw_mul_len(a, b);
    lemma_trim(raw_mul(a, b));
}

proof fn lemma_raw_mul_len(a: Seq<int>, b: Seq<int>)
    requires
        b.len() > 0,
    ensures
        a.len() > 0 ==> raw_mul(a, b).len() == a.len() + b.len() - 1,
        a.len() == 0 ==> raw_mul(a, b).len() == 0,
    decreases a.len(),
{
    if a.len() > 0 {
        lemma_raw_mul_len(a.drop_first(), b);
    }
}

/// The value of a polynomial with constant term `c0` and linear term one.
pub proof fn lemma_eval_monic_linear(c0: int, z: int)
    requires
        0 <= c0 < fr_modulus(),
    ensures
        eval(seq![c0, 1int], z) == (c0 + z) % fr_modulus(),
{
    let s = seq![c0, 1int];
    assert(s.drop_first() =~= seq![1int]);
    assert(seq![1int].drop_first() =~= Seq::<int>::empty());
    assert(eval(seq![1int].drop_first(), z) == 0);
    assert(z * 0 == 0) by (nonlinear_arith);
    lemma_small_mod(1, fr_modulus() as nat);
    assert(eval(seq![1int], z) == (1 + z * 0) % fr_modulus());
    assert(eval(seq![1int], z) == 1);
    assert(z * 1 == z) by (nonlinear_arith);
}

/// The value of a constant polynomial.
pub proof fn lemma_eval_constant(c: int, z: int)
    requires
        0 <= c < fr_modulus(),
    ensures
        eval(trim(seq![c]), z) == c,
{
    assert(seq![c].drop_last() =~= Seq::<int>::empty());
    assert(seq![c].drop_first() =~= Seq::<int>::empty());
    assert(z * 0 == 0) by (nonlinear_arith);
    lemma_small_mod(c as nat, fr_modulus() as nat);
    if c == 0 {
        assert(trim(seq![c]) == trim(Seq::<int>::empty()));
    } else {
        assert(trim(seq![c]) == seq![c]);
        assert(eval(seq![c].drop_first(), z) == 0);
        assert(eval(seq![c], z) == (c + z * 0) % fr_modulus());
    }
}

/// Builds the polynomial of degree below `n = x_vals.len()` through the points
/// `(x_vals[k], y_vals[k])`, as the sum of `y_k / prod_{j != k} (x_k - x_j)`
/// times `prod_{j != k} (x - x_j)`.
pub fn lagrange_interpolate(x_vals: &[Scalar], y_vals: &[Scalar]) -> (r: Poly)
    requires
        x_vals@.len() <= y_vals@.len(),
        x_vals@.len() + 1 <= max_product_terms(),
        forall|k: int| 0 <= k < x_vals@.len() ==> (#[trigger] x_vals@[k]).wf(),
        forall|k: int| 0 <= k < x_vals@.len() ==> (#[trigger] y_vals@[k]).wf(),
        all_distinct(scalar_values(x_vals@)),
    ensures
        r.wf(),
        is_trimmed(r@),
        r@.len() <= x_vals@.len(),
        forall|k: int|
            0 <= k < x_vals@.len() ==> eval(r@, #[trigger] x_vals@[k]@) == y_vals@[k]@,
        forall|k: int|
            0 <= k < x_vals@.len() ==> invertible(
                #[trigger] lagrange_factor(scalar_values(x_vals@), k, x_vals@.len() as int, x_vals@[k]@),
            ),
        interpolates(r@, scalar_values(x_vals@), scalar_values(y_vals@)),
        lagrange_factors_invertible(scalar_values(x_vals@)),
{
    let n = x_vals.len();
    let ghost xs = scalar_values(x_vals@);
    let mut result = Poly::zero();
    let mut i: usize = 0;
    while i < n
        invariant
            n == x_vals@.len(),
            i <= n,
            xs == scalar_values(x_vals@),
            x_vals@.len() <= y_vals@.len(),
            n + 1 <= max_product_terms(),
            forall|k: int| 0 <= k < n ==> (#[trigger] x_vals@[k]).wf(),
            forall|k: int| 0 <= k < n ==> (#[trigger] y_vals@[k]).wf(),
            all_distinct(xs),
            result.wf(),
            is_trimmed(result@),
            result@.len() <= n,
            forall|k: int| 0 <= k < i ==> invertible(#[trigger] lagrange_factor(xs, k, n as int, xs[k])),
            forall|k: int|
                0 <= k < n ==> eval(result@, #[trigger] xs[k]) == (if k < i {
                    y_vals@[k]@
                } else {
                    0
                }),
        decreases n - i,
    {
        let one = Scalar::one();
        let ones = vec![one];
        proof {
            assert(scalar_values(ones@) =~= seq![1int]);
            lemma_trim(seq![1int]);
        }
        let mut basis = Poly::from_coefficients_vec(ones);
        let mut denominator = Scalar::one();
        proof {
            assert forall|z: int| eval(basis@, z) == lagrange_factor(xs, i as int, 0, z) by {
                lemma_eval_constant(1, z);
            }
        }
        let mut j: usize = 0;
        while j < n
            invariant
                n == x_vals@.len(),
                i < n,
                j <= n,
                xs == scalar_values(x_vals@),
                n + 1 <= max_product_terms(),
                forall|k: int| 0 <= k < n ==> (#[trigger] x_vals@[k]).wf(),
                all_distinct(xs),
                basis.wf(),
                basis@.len() <= 1 + (if j > i {
                    j - 1
                } else {
                    j as int
                }),
                denominator.wf(),
                denominator@ != 0,
                denominator@ == lagrange_factor(xs, i as int, j as int, xs[i as int]),
                forall|z: int| eval(basis@, z) == lagrange_factor(xs, i as int, j as int, z),
            decreases n - j,
        {
            if i != j {
                let ghost old_basis = basis@;
                let ghost xj = xs[j as int];
                let neg = fr_neg(&x_vals[j]);
                let one = Scalar::one();
                let lin = vec![neg, one];
                proof {
                    assert(xs[j as int] == x_vals@[j as int]@);
                    assert(scalar_values(lin@) =~= seq![neg@, 1int]);
                    lemma_trim(seq![neg@, 1int]);
                }
                let term = Poly::from_coefficients_vec(lin);
                proof {
                    assert(term@ == seq![neg@, 1int]);
                    assert forall|z: int| eval(term@, z) == (z - xj) % fr_modulus() by {
                        lemma_eval_monic_linear(neg@, z);
                        lemma_cong_mod(-xj);
                        lemma_cong_add(neg@, -xj, z, z);
                    }
                    assert(term@.len() == 2);
                }
                basis = poly_mul_op(&basis, &term);
                proof {
                    lemma_poly_mul_len(old_basis, term@);
                    assert forall|z: int|
                        eval(basis@, z) == lagrange_factor(xs, i as int, j + 1, z) by {
                        lemma_eval_poly_mul(old_basis, term@, z);
                        lemma_mul_mod_noop_right(
                            lagrange_factor(xs, i as int, j as int, z),
                            z - xj,
                            fr_modulus(),
                        );
                    }
                }
                let diff = fr_sub(&x_vals[i], &x_vals[j]);
                proof {
                    assert(xs[i as int] == x_vals@[i as int]@);
                    lemma_diff_nonzero(xs[i as int], xj);
                    lemma_mul_mod_noop_right(denominator@, xs[i as int] - xj, fr_modulus());
                }
                denominator = fr_mul(&denominator, &diff);
            }
            j += 1;
        }
        let inv = match fr_inverse(&denominator) {
            Some(v) => v,
            None => {
                proof {
                    assert(false);
                }
                Scalar::zero()
            },
        };
        proof {
            assert(mul_mod(denominator@, inv@) == 1);
            assert(invertible(lagrange_factor(xs, i as int, n as int, xs[i as int])));
        }
        let c = fr_mul(&y_vals[i], &inv);
        let cv = vec![c];
        proof {
            assert(scalar_values(cv@) =~= seq![c@]);
            lemma_trim(seq![c@]);
        }
        let cpoly = Poly::from_coefficients_vec(cv);
        let ghost old_basis = basis@;
        let ghost old_result = result@;
        proof {
            if cpoly@.len() > 0 {
                assert(cpoly@.len() == 1);
            }
        }
        basis = poly_mul_op(&basis, &cpoly);
        proof {
            lemma_trim(raw_mul(old_basis, cpoly@));
            if cpoly@.len() > 0 {
                lemma_poly_mul_len(old_basis, cpoly@);
            } else {
                assert(cpoly@ =~= Seq::<int>::empty());
                lemma_raw_mul_empty(old_basis);
            }
            assert(basis@.len() <= n);
        }
        result = poly_add_op(&result, &basis);
        proof {
            lemma_poly_add_len(old_result, basis@);
            assert forall|k: int| 0 <= k < n implies eval(result@, #[trigger] xs[k]) == (if k < i + 1 {
                y_vals@[k]@
            } else {
                0
            }) by {
                lemma_eval_poly_add(old_result, basis@, xs[k]);
                lemma_eval_poly_mul(old_basis, cpoly@, xs[k]);
                lemma_eval_constant(c@, xs[k]);
                if k != i {
                    lemma_lagrange_factor_zero(xs, i as int, n as int, k);
                    assert(0 * c@ == 0) by (nonlinear_arith);
                    lemma_small_mod(0, fr_modulus() as nat);
                    lemma_eval_range(old_result, xs[k]);
                    lemma_small_mod(eval(old_result, xs[k]) as nat, fr_modulus() as nat);
                } else {
                    let d = denominator@;
                    let y = y_vals@[k]@;
                    // d * ((y * inv) % r) ~ y * (d * inv) ~ y
                    lemma_cong_mod(y * inv@);
                    lemma_cong_mul(d, d, c@, y * inv@);
                    lemma_cong_mod(d * inv@);
                    lemma_cong_mul(y, y, d * inv@, 1);
                    assert(d * (y * inv@) == y * (d * inv@)) by (nonlinear_arith);
                    lemma_cong_mod(d * c@);
                    lemma_small_mod(1, fr_modulus() as nat);
                    assert(y * 1 == y);
                    assert(cong((d * c@) % fr_modulus(), y));
                    lemma_cong_reduced_eq((d * c@) % fr_modulus(), y);
                    assert(eval(old_result, xs[k]) == 0);
                    assert(eval(basis@, xs[k]) == y);
                    lemma_small_mod(y as nat, fr_modulus() as nat);
                }
            }
        }
        i += 1;
    }
    proof {
        lemma_trim(result@);
        assert forall|k: int| 0 <= k < n implies eval(result@, #[trigger] x_vals@[k]@) == y_vals@[k]@ by {
            assert(xs[k] == x_vals@[k]@);
        }
        assert forall|k: int| 0 <= k < n implies invertible(
            #[trigger] lagrange_factor(xs, k, n as int, x_vals@[k]@),
        ) by {
            assert(xs[k] == x_vals@[k]@);
        }
        assert forall|k: int| 0 <= k < n implies eval(result@, #[trigger] xs[k]) == scalar_values(y_vals@)[k] by {
            assert(scalar_values(y_vals@)[k] == y_vals@[k]@);
        }
    }
    sanitize(result)
}

/// Builds `p_a + t * q`, with `q` the Lagrange interpolant that makes the
/// result take `target_values[i]` at `points[i]`; the result keeps the value of
/// `p_a` at every root of `t`.
pub fn crt_interpolate(p_a: &Poly, t_poly: &Poly, points: &[Scalar], target_values: &[Scalar]) -> (r: Poly)
    requires
        p_a.wf(),
        t_poly.wf(),
        is_trimmed(p_a@) || is_zero_poly(p_a@) || forall|k: int|
            0 <= k < points@.len() ==> (#[trigger] target_values@[k])@ == eval(p_a@, points@[k]@),
        points@.len() <= target_values@.len(),
        points@.len() + 1 <= max_product_terms(),
        t_poly@.len() + points@.len() <= max_product_terms(),
        forall|k: int| 0 <= k < points@.len() ==> (#[trigger] points@[k]).wf(),
        forall|k: int| 0 <= k < points@.len() ==> (#[trigger] target_values@[k]).wf(),
        all_distinct(scalar_values(points@)),
        forall|k: int| 0 <= k < points@.len() ==> eval(t_poly@, (#[trigger] points@[k])@) != 0,
    ensures
        r.wf(),
        is_trimmed(r@),
        exists|q: Seq<int>|
            is_canonical(q) && q.len() <= points@.len() && r@ == poly_add(p_a@, poly_mul(t_poly@, q)),
        forall|k: int|
            0 <= k < points@.len() ==> eval(r@, (#[trigger] points@[k])@) == target_values@[k]@,
        forall|z: int| eval(t_poly@, z) == 0 ==> eval(r@, z) == eval(p_a@, z),
        forall|k: int| 0 <= k < points@.len() ==> invertible(eval(t_poly@, (#[trigger] points@[k])@)),
        forall|k: int|
            0 <= k < points@.len() ==> invertible(
                #[trigger] lagrange_factor(scalar_values(points@), k, points@.len() as int, points@[k]@),
            ),
        crt_form(r@, p_a@, t_poly@, scalar_values(points@), scalar_values(target_values@)),
        lagrange_factors_invertible(scalar_values(points@)),
        forall|k: int|
            0 <= k < points@.len() ==> invertible(#[trigger] eval(t_poly@, scalar_values(points@)[k])),
{
    let n = points.len();
    let mut q_targets: Vec<Scalar> = Vec::new();
    let mut i: usize = 0;
    while i < n
        invariant
            n == points@.len(),
            i <= n,
            points@.len() <= target_values@.len(),
            p_a.wf(),
            t_poly.wf(),
            forall|k: int| 0 <= k < n ==> (#[trigger] points@[k]).wf(),
            forall|k: int| 0 <= k < n ==> (#[trigger] target_values@[k]).wf(),
            forall|k: int| 0 <= k < n ==> eval(t_poly@, (#[trigger] points@[k])@) != 0,
            q_targets@.len() == i,
            forall|k: int| 0 <= k < i ==> (#[trigger] q_targets@[k]).wf(),
            forall|k: int| 0 <= k < i ==> invertible(eval(t_poly@, (#[trigger] points@[k])@)),
            forall|k: int|
                0 <= k < i ==> cong(
                    eval(t_poly@, points@[k]@) * (#[trigger] q_targets@[k])@,
                    target_values@[k]@ - eval(p_a@, points@[k]@),
                ),
        decreases n - i,
    {
        let p_a_val = poly_evaluate_op(p_a, &points[i]);
        let t_val = poly_evaluate_op(t_poly, &points[i]);
        let inv = match fr_inverse(&t_val) {
            Some(v) => v,
            None => {
                proof {
                    assert(false);
                }
                Scalar::zero()
            },
        };
        proof {
            assert(mul_mod(t_val@, inv@) == 1);
        }
        let diff = fr_sub(&target_values[i], &p_a_val);
        let q_target = fr_mul(&diff, &inv);
        proof {
            let tv = t_val@;
            let d = target_values@[i as int]@ - p_a_val@;
            lemma_cong_mod(d);
            lemma_cong_mul(diff@, d, inv@, inv@);
            lemma_cong_mod(diff@ * inv@);
            lemma_cong_mul(tv, tv, q_target@, d * inv@);
            assert(tv * (d * inv@) == d * (tv * inv@)) by (nonlinear_arith);
            lemma_cong_mod(tv * inv@);
            lemma_small_mod(1, fr_modulus() as nat);
            lemma_cong_mul(d, d, tv * inv@, 1);
            assert(d * 1 == d);
        }
        q_targets.push(q_target);
        i += 1;
    }
    let q_poly = lagrange_interpolate(points, q_targets.as_slice());
    let tq = poly_mul_op(t_poly, &q_poly);
    proof {
        lemma_trim(raw_mul(t_poly@, q_poly@));
        if !is_trimmed(p_a@) && !is_zero_poly(p_a@) {
            // the targets are the values of p_a, so no correction is needed
            let xs = scalar_values(points@);
            let zs = scalar_values(q_targets@);
            assert forall|k: int| 0 <= k < n implies #[trigger] zs[k] == 0 by {
                assert(target_values@[k]@ == eval(p_a@, points@[k]@));
                lemma_small_mod(0, fr_modulus() as nat);
                assert(eval(t_poly@, points@[k]@) * q_targets@[k]@ == q_targets@[k]@ * eval(t_poly@, points@[k]@)) by (nonlinear_arith);
                lemma_cancel_invertible(eval(t_poly@, points@[k]@), q_targets@[k]@);
            }
            assert(interpolates(Seq::<int>::empty(), xs, zs));
            lemma_interpolation_unique(xs, zs, q_poly@, Seq::<int>::empty());
            lemma_raw_mul_empty(t_poly@);
            assert(tq@ =~= Seq::<int>::empty());
        }
    }
    let sum = poly_add_op(p_a, &tq);
    proof {
        lemma_trim(crate::poly_spec::raw_add(p_a@, tq@));
        lemma_trim(sum@);
        assert forall|k: int| 0 <= k < n implies eval(sum@, (#[trigger] points@[k])@)
            == target_values@[k]@ by {
            let z = points@[k]@;
            lemma_eval_poly_add(p_a@, tq@, z);
            lemma_eval_poly_mul(t_poly@, q_poly@, z);
            assert(eval(q_poly@, z) == q_targets@[k]@);
            lemma_cong_mod(eval(t_poly@, z) * q_targets@[k]@);
            lemma_cong_add(eval(p_a@, z), eval(p_a@, z), eval(tq@, z), target_values@[k]@ - eval(p_a@, z));
            lemma_cong_mod(eval(p_a@, z) + eval(tq@, z));
            lemma_eval_range(sum@, z);
            lemma_cong_reduced_eq(eval(sum@, z), target_values@[k]@);
        }
        assert forall|z: int| eval(t_poly@, z) == 0 implies eval(sum@, z) == eval(p_a@, z) by {
            lemma_eval_poly_add(p_a@, tq@, z);
            lemma_eval_poly_mul(t_poly@, q_poly@, z);
            assert(0 * eval(q_poly@, z) == 0) by (nonlinear_arith);
            lemma_small_mod(0, fr_modulus() as nat);
            lemma_eval_range(p_a@, z);
            lemma_small_mod(eval(p_a@, z) as nat, fr_modulus() as nat);
        }
    }
    let r = sanitize(sum);
    proof {
        assert(r@ == sum@);
        assert(is_canonical(q_poly@) && q_poly@.len() <= points@.len() && r@ == poly_add(p_a@, poly_mul(t_poly@, q_poly@)));
        lemma_poly_ops_canonical(p_a@, tq@, 0);
        let xs = scalar_values(points@);
        assert forall|k: int| 0 <= k < n implies eval(r@, #[trigger] xs[k]) == scalar_values(target_values@)[k] by {
            assert(xs[k] == points@[k]@);
            assert(scalar_values(target_values@)[k] == target_values@[k]@);
        }
        assert forall|k: int| 0 <= k < n implies invertible(#[trigger] lagrange_factor(xs, k, n as int, xs[k])) by {
            assert(xs[k] == points@[k]@);
        }
        assert forall|k: int| 0 <= k < n implies invertible(#[trigger] eval(t_poly@, xs[k])) by {
            assert(xs[k] == points@[k]@);
        }
    }
    r
}

/// Multiplying by the zero polynomial gives only zeros.
proof fn lemma_raw_mul_empty(a: Seq<int>)
    ensures
        trim(raw_mul(a, Seq::<int>::empty())) == Seq::<int>::empty(),
{
    lemma_raw_mul_empty_zeros(a);
    let c = raw_mul(a, Seq::<int>::empty());
    lemma_trim(c);
    if trim(c).len() > 0 {
        assert(trim(c)[trim(c).len() - 1] == c[trim(c).len() - 1]);
    }
}

proof fn lemma_raw_mul_empty_zeros(a: Seq<int>)
    ensures
        forall|i: int|
            0 <= i < raw_mul(a, Seq::<int>::empty()).len() ==> #[trigger] raw_mul(
                a,
                Seq::<int>::empty(),
            )[i] == 0,
    decreases a.len(),
{
    if a.len() > 0 {
        lemma_raw_mul_empty_zeros(a.drop_first());
        let rm = raw_mul(a.drop_first(), Seq::<int>::empty());
        let e = Seq::<int>::empty();
        assert(raw_scale(e, a[0]) =~= e);
        assert forall|i: int| 0 <= i < raw_mul(a, e).len() implies #[trigger] raw_mul(a, e)[i] == 0 by {
            assert(crate::poly_spec::coeff(shift(rm), i) == 0);
            lemma_small_mod(0, fr_modulus() as nat);
        }
    }
}

/// A sum has no more coefficients than its longer operand.
pub proof fn lemma_poly_add_len(a: Seq<int>, b: Seq<int>)
    ensures
        poly_add(a, b).len() <= if a.len() >= b.len() {
            a.len()
        } else {
            b.len()
        },
        is_trimmed(poly_add(a, b)),
{
    lemma_trim(crate::poly_spec::raw_add(a, b));
}

/// `r` is a canonical, trimmed polynomial with at most `xs.len()`
/// coefficients that takes the value `ys[k]` at `xs[k]`.
pub open spec fn interpolates(r: Seq<int>, xs: Seq<int>, ys: Seq<int>) -> bool {
    &&& is_canonical(r)
    &&& is_trimmed(r)
    &&& r.len() <= xs.len()
    &&& ys.len() >= xs.len()
    &&& forall|k: int| 0 <= k < xs.len() ==> eval(r, #[trigger] xs[k]) == ys[k]
}

/// Every Lagrange factor `prod_{j != k} (x_k - x_j)` of the points is
/// invertible (in the prime field: the points are distinct).
pub open spec fn lagrange_factors_invertible(xs: Seq<int>) -> bool {
    forall|k: int|
        0 <= k < xs.len() ==> invertible(#[trigger] lagrange_factor(xs, k, xs.len() as int, xs[k]))
}

/// Sums, differences and multiples of polynomials are canonical.
pub proof fn lemma_poly_ops_canonical(a: Seq<int>, b: Seq<int>, k: int)
    ensures
        is_canonical(poly_add(a, b)),
        is_canonical(poly_sub(a, b)),
        is_canonical(poly_scale(a, k)),
{
    let r = fr_modulus();
    let s1 = raw_add(a, b);
    let s2 = raw_sub(a, b);
    let s3 = raw_scale(a, k);
    assert forall|i: int| 0 <= i < s1.len() implies 0 <= #[trigger] s1[i] < r by {
        lemma_mod_bound(coeff(a, i) + coeff(b, i), r);
    }
    assert forall|i: int| 0 <= i < s2.len() implies 0 <= #[trigger] s2[i] < r by {
        lemma_mod_bound(coeff(a, i) - coeff(b, i), r);
    }
    assert forall|i: int| 0 <= i < s3.len() implies 0 <= #[trigger] s3[i] < r by {
        lemma_mod_bound(a[i] * k, r);
    }
    lemma_trim(s1);
    lemma_trim(s2);
    lemma_trim(s3);
}

/// Interpolation is unique: two polynomials with at most `n` coefficients
/// that take the same values at `n` points with invertible Lagrange factors
/// are equal.
pub proof fn lemma_interpolation_unique(xs: Seq<int>, ys: Seq<int>, p: Seq<int>, q: Seq<int>)
    requires
        lagrange_factors_invertible(xs),
        interpolates(p, xs, ys),
        interpolates(q, xs, ys),
    ensures
        p == q,
{
    let r = fr_modulus();
    let d = poly_sub(p, q);
    lemma_poly_ops_canonical(p, q, 0);
    lemma_trim(raw_sub(p, q));
    assert forall|i: int| 0 <= i < xs.len() implies eval(d, #[trigger] xs[i]) == 0 by {
        lemma_eval_poly_sub(p, q, xs[i]);
        lemma_small_mod(0, r as nat);
    }
    lemma_vanishing_is_zero(d, xs);
    assert forall|i: int| 0 <= i implies #[trigger] coeff(p, i) == coeff(q, i) by {
        lemma_coeff_trim(raw_sub(p, q), i);
        lemma_coeff_raw_sub(p, q, i);
        lemma_small_mod(0, r as nat);
        lemma_cong_sub(coeff(p, i) - coeff(q, i), 0, -coeff(q, i), -coeff(q, i));
        lemma_cong_reduced_eq(coeff(p, i), coeff(q, i));
    }
    lemma_same_coeffs_equal(p, q);
}

/// Interpolating the values of a polynomial with at most `n` coefficients
/// at `n` points with invertible Lagrange factors gives the polynomial back.
pub proof fn lemma_interpolation_round_trip(xs: Seq<int>, f: Seq<int>, r: Seq<int>)
    requires
        lagrange_factors_invertible(xs),
        is_canonical(f),
        is_trimmed(f),
        f.len() <= xs.len(),
        interpolates(r, xs, xs.map_values(|x: int| eval(f, x))),
    ensures
        r == f,
{
    lemma_interpolation_unique(xs, xs.map_values(|x: int| eval(f, x)), r, f);
}

/// Interpolation is linear in the values: the interpolant of
/// `a * ys1 + b * ys2` is `a` times that of `ys1` plus `b` times that of
/// `ys2`.
pub proof fn lemma_interpolation_linear(
    xs: Seq<int>,
    ys1: Seq<int>,
    ys2: Seq<int>,
    a: int,
    b: int,
    r1: Seq<int>,
    r2: Seq<int>,
    r: Seq<int>,
)
    requires
        lagrange_factors_invertible(xs),
        interpolates(r1, xs, ys1),
        interpolates(r2, xs, ys2),
        interpolates(
            r,
            xs,
            Seq::new(xs.len(), |i: int| (a * ys1[i] + b * ys2[i]) % fr_modulus()),
        ),
    ensures
        r == poly_add(poly_scale(r1, a), poly_scale(r2, b)),
{
    let m = fr_modulus();
    let ys = Seq::new(xs.len(), |i: int| (a * ys1[i] + b * ys2[i]) % m);
    let s1 = poly_scale(r1, a);
    let s2 = poly_scale(r2, b);
    let c = poly_add(s1, s2);
    lemma_poly_ops_canonical(r1, r2, a);
    lemma_poly_ops_canonical(r2, r1, b);
    lemma_poly_ops_canonical(s1, s2, 0);
    lemma_trim(raw_scale(r1, a));
    lemma_trim(raw_scale(r2, b));
    lemma_poly_add_len(s1, s2);
    assert forall|k: int| 0 <= k < xs.len() implies eval(c, #[trigger] xs[k]) == ys[k] by {
        let x = xs[k];
        lemma_eval_poly_add(s1, s2, x);
        lemma_eval_poly_scale(r1, a, x);
        lemma_eval_poly_scale(r2, b, x);
        lemma_add_mod_noop(a * ys1[k], b * ys2[k], m);
    }
    lemma_interpolation_unique(xs, ys, r, c);
}

/// The order of the `(x, y)` pairs does not matter: when every pair of
/// `(xs, ys)` is also a pair of `(xs2, ys2)`, the two interpolants are equal.
pub proof fn lemma_interpolation_order(
    xs: Seq<int>,
    ys: Seq<int>,
    xs2: Seq<int>,
    ys2: Seq<int>,
    r: Seq<int>,
    r2: Seq<int>,
)
    requires
        lagrange_factors_invertible(xs),
        xs2.len() == xs.len(),
        forall|k: int|
            #![trigger xs[k]]
            0 <= k < xs.len() ==> exists|i: int|
                #![trigger xs2[i]]
                0 <= i < xs2.len() && xs2[i] == xs[k] && ys2[i] == ys[k],
        interpolates(r, xs, ys),
        interpolates(r2, xs2, ys2),
    ensures
        r == r2,
{
    assert forall|k: int| 0 <= k < xs.len() implies eval(r2, #[trigger] xs[k]) == ys[k] by {
        let i = choose|i: int| #![trigger xs2[i]] 0 <= i < xs2.len() && xs2[i] == xs[k] && ys2[i] == ys[k];
        assert(eval(r2, xs2[i]) == ys2[i]);
    }
    lemma_interpolation_unique(xs, ys, r, r2);
}

/// `r` is `pa + t * q` for some `q` with at most `points.len()`
/// coefficients, canonical and trimmed, and takes `targets[k]` at
/// `points[k]`.
pub open spec fn crt_form(r: Seq<int>, pa: Seq<int>, t: Seq<int>, points: Seq<int>, targets: Seq<int>) -> bool {
    &&& is_canonical(r)
    &&& is_trimmed(r)
    &&& exists|q: Seq<int>| is_canonical(q) && q.len() <= points.len() && r == poly_add(pa, poly_mul(t, q))
    &&& targets.len() >= points.len()
    &&& forall|k: int| 0 <= k < points.len() ==> eval(r, #[trigger] points[k]) == targets[k]
}

/// `x ~ a + b + m`, `ra ~ a + ma`, `rb ~ b + mb` and `g ~ m - ma - mb`
/// give `x ~ ra + rb + g`.
proof fn lemma_cong_crt_sum(x: int, a: int, b: int, m: int, ra: int, ma: int, rb: int, mb: int, g: int)
    requires
        cong(x, a + b + m),
        cong(ra, a + ma),
        cong(rb, b + mb),
        cong(g, m - ma - mb),
    ensures
        cong(x, ra + rb + g),
{
    lemma_cong_add(ra, a + ma, rb, b + mb);
    lemma_cong_add(ra + rb, a + ma + (b + mb), g, m - ma - mb);
    assert(a + ma + (b + mb) + (m - ma - mb) == a + b + m);
}

/// A product `t(z) * g(z)` congruent to zero with `t(z)` invertible leaves
/// `g(z)` zero.
pub proof fn lemma_cancel_invertible(et: int, eg: int)
    requires
        invertible(et),
        cong(et * eg, 0),
        0 <= eg < fr_modulus(),
    ensures
        eg == 0,
{
    let u = choose|u: int| #[trigger] mul_mod(et, u) == 1;
    lemma_small_mod(1, fr_modulus() as nat);
    lemma_small_mod(0, fr_modulus() as nat);
    lemma_cong_mul(et * u, 1, eg, eg);
    lemma_cong_mul(u, u, et * eg, 0);
    assert((et * u) * eg == u * (et * eg)) by (nonlinear_arith);
    assert(u * 0 == 0);
    assert(1 * eg == eg);
    lemma_cong_reduced_eq(eg, 0);
}

/// The Chinese-remainder interpolation is linear in `(pa, targets)`: for
/// points with invertible Lagrange factors where `t` is invertible, the
/// result for `pa + pb` and the summed targets is the sum of the results.
pub proof fn lemma_crt_linear(
    pa: Seq<int>,
    pb: Seq<int>,
    t: Seq<int>,
    pts: Seq<int>,
    ta: Seq<int>,
    tb: Seq<int>,
    ra: Seq<int>,
    rb: Seq<int>,
    rab: Seq<int>,
)
    requires
        lagrange_factors_invertible(pts),
        forall|k: int| 0 <= k < pts.len() ==> invertible(#[trigger] eval(t, pts[k])),
        crt_form(ra, pa, t, pts, ta),
        crt_form(rb, pb, t, pts, tb),
        crt_form(
            rab,
            poly_add(pa, pb),
            t,
            pts,
            Seq::new(pts.len(), |i: int| (ta[i] + tb[i]) % fr_modulus()),
        ),
    ensures
        rab == poly_add(ra, rb),
{
    let m = fr_modulus();
    let n = pts.len();
    let qa = choose|q: Seq<int>| is_canonical(q) && q.len() <= n && ra == poly_add(pa, poly_mul(t, q));
    let qb = choose|q: Seq<int>| is_canonical(q) && q.len() <= n && rb == poly_add(pb, poly_mul(t, q));
    let qab = choose|q: Seq<int>| is_canonical(q) && q.len() <= n && rab == poly_add(poly_add(pa, pb), poly_mul(t, q));
    let g = raw_sub(qab, raw_add(qa, qb));
    assert forall|i: int| 0 <= i implies #[trigger] cong(coeff(rab, i), coeff(ra, i) + coeff(rb, i) + mc(t, g, i)) by {
        lemma_coeff_poly_add(poly_add(pa, pb), poly_mul(t, qab), i);
        lemma_coeff_poly_add(pa, pb, i);
        lemma_coeff_poly_add(pa, poly_mul(t, qa), i);
        lemma_coeff_poly_add(pb, poly_mul(t, qb), i);
        lemma_coeff_poly_mul(t, qab, i);
        lemma_coeff_poly_mul(t, qa, i);
        lemma_coeff_poly_mul(t, qb, i);
        lemma_mc_sub_right(t, qab, raw_add(qa, qb), i);
        lemma_mc_add_right(t, qa, qb, i);
        lemma_cong_sub(mc(t, qab, i), mc(t, qab, i), mc(t, raw_add(qa, qb), i), mc(t, qa, i) + mc(t, qb, i));
        lemma_cong_add(coeff(poly_add(pa, pb), i), coeff(pa, i) + coeff(pb, i), mc(t, qab, i), mc(t, qab, i));
        lemma_cong_crt_sum(
            coeff(rab, i),
            coeff(pa, i),
            coeff(pb, i),
            mc(t, qab, i),
            coeff(ra, i),
            mc(t, qa, i),
            coeff(rb, i),
            mc(t, qb, i),
            mc(t, g, i),
        );
    }
    // the cofactor vanishes at every point
    let gg = poly_add(g, Seq::<int>::empty());
    lemma_poly_ops_canonical(g, Seq::<int>::empty(), 0);
    lemma_poly_add_len(g, Seq::<int>::empty());
    assert forall|j: int| 0 <= j implies #[trigger] cong(coeff(g, j), coeff(gg, j)) by {
        lemma_coeff_poly_add(g, Seq::<int>::empty(), j);
    }
    let dx = raw_add(raw_add(ra, rb), raw_mul(t, g));
    assert forall|i: int| 0 <= i implies #[trigger] cong(coeff(rab, i), coeff(dx, i)) by {
        assert(cong(coeff(rab, i), coeff(ra, i) + coeff(rb, i) + mc(t, g, i)));
        lemma_coeff_raw_add(raw_add(ra, rb), raw_mul(t, g), i);
        lemma_coeff_raw_add(ra, rb, i);
        lemma_cong_mod(coeff(ra, i) + coeff(rb, i));
        lemma_cong_add((coeff(ra, i) + coeff(rb, i)) % m, coeff(ra, i) + coeff(rb, i), mc(t, g, i), mc(t, g, i));
        lemma_cong_mod((coeff(ra, i) + coeff(rb, i)) % m + mc(t, g, i));
    }
    assert forall|k: int| 0 <= k < n implies eval(gg, #[trigger] pts[k]) == 0 by {
        let z = pts[k];
        lemma_eval_peq(rab, dx, z);
        lemma_eval_raw_add(raw_add(ra, rb), raw_mul(t, g), z);
        lemma_eval_raw_add(ra, rb, z);
        lemma_eval_raw_mul(t, g, z);
        lemma_eval_peq(g, gg, z);
        let et = eval(t, z);
        let eg = eval(g, z);
        let sv = (ta[k] + tb[k]) % m;
        let e = (et * eg) % m;
        lemma_cong_mod(ta[k] + tb[k]);
        assert(cong(sv + e, sv));
        lemma_cong_sub(sv + e, sv, sv, sv);
        lemma_cong_mod(et * eg);
        lemma_eval_range(g, z);
        lemma_cancel_invertible(et, eg);
    }
    lemma_vanishing_is_zero(gg, pts);
    assert(gg =~= Seq::<int>::empty());
    let sum = poly_add(ra, rb);
    lemma_poly_ops_canonical(ra, rb, 0);
    lemma_poly_add_len(ra, rb);
    assert forall|i: int| 0 <= i implies #[trigger] coeff(rab, i) == coeff(sum, i) by {
        lemma_mc_congr_right(t, g, gg, i);
        lemma_mc_empty(t, i);
        assert(cong(coeff(rab, i), coeff(ra, i) + coeff(rb, i) + mc(t, g, i)));
        lemma_coeff_poly_add(ra, rb, i);
        lemma_cong_add(coeff(ra, i) + coeff(rb, i), coeff(ra, i) + coeff(rb, i), mc(t, g, i), 0);
        lemma_cong_reduced_eq(coeff(rab, i), coeff(sum, i));
    }
    lemma_same_coeffs_equal(rab, sum);
}

} // verus!
