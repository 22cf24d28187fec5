use pinocchio_demo::field::Scalar;
use pinocchio_demo::interpolation::{crt_interpolate, lagrange_interpolate};
use pinocchio_demo::poly::{sanitize, Poly};

fn s(x: u64) -> Scalar {
    Scalar::from_u64(x)
}

fn poly(coeffs: &[u64]) -> Poly {
    Poly::from_coefficients_vec(coeffs.iter().map(|&c| s(c)).collect())
}

fn same(a: &Scalar, b: u64) -> bool {
    a.equals(&s(b))
}

fn coeffs_are(p: &Poly, expected: &[u64]) -> bool {
    p.len() == expected.len() && expected.iter().enumerate().all(|(i, &c)| same(p.coeff_at(i), c))
}

/// `x - a`, built by interpolating through `(a, 0)` and `(a + 1, 1)`.
fn linear_root(a: u64) -> Poly {
    lagrange_interpolate(&[s(a), s(a + 1)], &[s(0), s(1)])
}

#[test]
fn scalar_basics() {
    assert!(Scalar::zero().is_zero());
    assert!(!Scalar::one().is_zero());
    assert!(s(7).equals(&s(7)));
    assert!(!s(7).equals(&s(8)));
    assert!(s(9).copy().equals(&s(9)));
}

#[test]
fn from_coefficients_vec_trims_trailing_zeros() {
    let p = poly(&[1, 2, 0, 0]);
    assert!(coeffs_are(&p, &[1, 2]));
    assert_eq!(poly(&[0, 0]).len(), 0);
    assert!(poly(&[0, 0]).is_zero());
    assert!(!p.is_zero());
}

#[test]
fn sanitize_removes_trailing_zeros_and_is_idempotent() {
    let p = Poly::from_coefficients_vec(vec![s(3), s(0), s(5)]);
    let once = sanitize(p.copy());
    assert!(coeffs_are(&once, &[3, 0, 5]));
    let twice = sanitize(once.copy());
    assert!(coeffs_are(&twice, &[3, 0, 5]));
    assert!(coeffs_are(&sanitize(Poly::zero()), &[]));
}

#[test]
fn evaluate_uses_horner() {
    // 1 + 2x + 3x^2 at 2 is 17
    let p = poly(&[1, 2, 3]);
    assert!(same(&p.evaluate(&s(2)), 17));
    assert!(same(&Poly::zero().evaluate(&s(5)), 0));
}

#[test]
fn lagrange_through_two_points_is_a_line() {
    // through (0, 1) and (1, 2): 1 + x
    let p = lagrange_interpolate(&[s(0), s(1)], &[s(1), s(2)]);
    assert!(coeffs_are(&p, &[1, 1]));
}

#[test]
fn lagrange_hits_every_point() {
    let xs = [s(1), s(2), s(3), s(10)];
    let ys = [s(2), s(3), s(5), s(0)];
    let p = lagrange_interpolate(&xs, &ys);
    assert!(p.len() <= 4);
    for k in 0..4 {
        assert!(p.evaluate(&xs[k]).equals(&ys[k]));
    }
}

#[test]
fn lagrange_of_no_points_is_zero() {
    let p = lagrange_interpolate(&[], &[]);
    assert_eq!(p.len(), 0);
}

#[test]
fn lagrange_of_constant_values_is_constant() {
    let p = lagrange_interpolate(&[s(4), s(5), s(6)], &[s(9), s(9), s(9)]);
    assert!(coeffs_are(&p, &[9]));
}

#[test]
fn linear_root_vanishes_at_its_root() {
    let t = linear_root(2);
    assert_eq!(t.len(), 2);
    assert!(same(&t.evaluate(&s(2)), 0));
    assert!(same(&t.evaluate(&s(7)), 5));
}

#[test]
fn crt_hits_targets_and_keeps_roots_of_t() {
    let p_a = poly(&[1, 1]);
    let t = linear_root(2);
    let points = [s(5), s(6)];
    let targets = [s(7), s(0)];
    let r = crt_interpolate(&p_a, &t, &points, &targets);
    assert!(same(&r.evaluate(&s(5)), 7));
    assert!(same(&r.evaluate(&s(6)), 0));
    // at the root of t the value of p_a (= 3) is kept
    assert!(same(&r.evaluate(&s(2)), 3));
    assert!(r.len() <= p_a.len() + t.len() + points.len());
}

#[test]
fn crt_without_points_is_the_polynomial() {
    let p_a = poly(&[4, 0, 2]);
    let t = linear_root(1);
    let r = crt_interpolate(&p_a, &t, &[], &[]);
    assert!(coeffs_are(&r, &[4, 0, 2]));
}

/// `a + b`, as the value of `a + b x` at one.
fn add(a: &Scalar, b: &Scalar) -> Scalar {
    Poly::from_coefficients_vec(vec![a.copy(), b.copy()]).evaluate(&s(1))
}

/// `k * a`, as the value of `a x` at `k`.
fn scale(a: &Scalar, k: u64) -> Scalar {
    Poly::from_coefficients_vec(vec![s(0), a.copy()]).evaluate(&s(k))
}

#[test]
fn lagrange_round_trip_recovers_the_polynomial() {
    // f = 3 + 5x^2 at 1, 2, 3
    let xs = [s(1), s(2), s(3)];
    let f = poly(&[3, 0, 5]);
    let ys: Vec<Scalar> = xs.iter().map(|x| f.evaluate(x)).collect();
    let r = lagrange_interpolate(&xs, &ys);
    assert!(coeffs_are(&r, &[3, 0, 5]));
}

#[test]
fn lagrange_is_linear_in_the_values() {
    let xs = [s(2), s(5), s(9)];
    let ys1 = [s(1), s(2), s(3)];
    let ys2 = [s(4), s(0), s(7)];
    let r1 = lagrange_interpolate(&xs, &ys1);
    let r2 = lagrange_interpolate(&xs, &ys2);
    // 2 * ys1 + 3 * ys2
    let ys = [s(14), s(4), s(27)];
    let r = lagrange_interpolate(&xs, &ys);
    for x in 0..8u64 {
        let expected = add(&scale(&r1.evaluate(&s(x)), 2), &scale(&r2.evaluate(&s(x)), 3));
        assert!(r.evaluate(&s(x)).equals(&expected));
    }
    // the same with small coefficients: 2 (1 + x) + 3 x^2 through 0, 1, 2
    let r = lagrange_interpolate(&[s(0), s(1), s(2)], &[s(2), s(7), s(18)]);
    assert!(coeffs_are(&r, &[2, 2, 3]));
}

#[test]
fn lagrange_ignores_the_order_of_the_points() {
    let r1 = lagrange_interpolate(&[s(0), s(1), s(2)], &[s(2), s(7), s(18)]);
    let r2 = lagrange_interpolate(&[s(2), s(0), s(1)], &[s(18), s(2), s(7)]);
    assert!(coeffs_are(&r1, &[2, 2, 3]));
    assert!(coeffs_are(&r2, &[2, 2, 3]));
}

#[test]
fn crt_is_linear_in_the_polynomial_and_targets() {
    let pa = poly(&[1, 1]);
    let pb = poly(&[4, 0, 2]);
    let pab = poly(&[5, 1, 2]);
    let t = linear_root(2);
    let points = [s(5), s(6)];
    let ra = crt_interpolate(&pa, &t, &points, &[s(7), s(0)]);
    let rb = crt_interpolate(&pb, &t, &points, &[s(1), s(3)]);
    let rab = crt_interpolate(&pab, &t, &points, &[s(8), s(3)]);
    for x in 0..8u64 {
        let expected = add(&ra.evaluate(&s(x)), &rb.evaluate(&s(x)));
        assert!(rab.evaluate(&s(x)).equals(&expected));
    }
}
