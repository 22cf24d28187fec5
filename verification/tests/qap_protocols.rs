use pinocchio_demo::field::Scalar;
use pinocchio_demo::ggpr13::{self, Ggpr13Trapdoor};
use pinocchio_demo::pinocchio;
use pinocchio_demo::poly::Poly;
use pinocchio_demo::r1cs::{generate_chain_circuit, r1cs_to_qap, CircuitConfig, R1csMatrices, RegularQap};
use pinocchio_demo::interpolation::lagrange_interpolate;
use pinocchio_demo::strong_qap::{
    elevate_to_strong_qap, pick_strong_qap_points, select_strong_qap_points, strong_qap_from_points,
};

fn s(x: u64) -> Scalar {
    Scalar::from_u64(x)
}

fn poly(coeffs: &[u64]) -> Poly {
    Poly::from_coefficients_vec(coeffs.iter().map(|&c| s(c)).collect())
}

fn same(a: &Scalar, b: u64) -> bool {
    a.equals(&s(b))
}

fn g1_generator_encoding() -> Vec<u8> {
    let mut b = vec![0u8; 64];
    b[0] = 1;
    b[32] = 2;
    b
}

fn g2_generator_encoding() -> Vec<u8> {
    vec![
        237, 246, 146, 217, 92, 189, 222, 70, 221, 218, 94, 247, 212, 34, 67, 103, 121, 68, 92, 94,
        102, 0, 106, 66, 118, 30, 31, 18, 239, 222, 0, 24, 194, 18, 243, 174, 183, 133, 228, 151, 18,
        231, 169, 53, 51, 73, 170, 241, 37, 93, 251, 49, 183, 191, 96, 114, 58, 72, 13, 146, 147, 147,
        142, 25, 170, 125, 250, 102, 1, 204, 230, 76, 123, 211, 67, 12, 105, 231, 209, 227, 143, 64,
        203, 141, 128, 113, 171, 74, 235, 109, 140, 219, 165, 94, 200, 18, 91, 151, 34, 209, 220, 218,
        172, 85, 243, 142, 179, 112, 51, 49, 75, 188, 149, 51, 12, 105, 173, 153, 158, 236, 117, 240,
        95, 88, 208, 137, 6, 9,
    ]
}

fn chain_qap(num_gates: usize) -> RegularQap {
    r1cs_to_qap(&generate_chain_circuit(num_gates))
}

fn tampered_chain_qap(num_gates: usize) -> RegularQap {
    let mut config = generate_chain_circuit(num_gates);
    let last = config.witness.len() - 1;
    config.witness[last] = 4;
    r1cs_to_qap(&config)
}

/// Gates `x_{g+2} = x_{g+1} * x_{g+1}` over `[1, x_1, ..., x_{n+1}]`.
fn squares_qap(num_gates: usize, x: u32, tamper: bool) -> RegularQap {
    let num_vars = num_gates + 2;
    let mut a = Vec::new();
    let mut c = Vec::new();
    for g in 0..num_gates {
        let mut row_a = vec![0u32; num_vars];
        row_a[g + 1] = 1;
        let mut row_c = vec![0u32; num_vars];
        row_c[g + 2] = 1;
        a.push(row_a);
        c.push(row_c);
    }
    let mut witness = vec![1u32, x];
    for g in 0..num_gates {
        let prev = witness[g + 1];
        witness.push(prev * prev);
    }
    if tamper {
        witness[num_vars - 1] += 1;
    }
    let config = CircuitConfig {
        num_gates,
        num_vars,
        r1cs: R1csMatrices { a: a.clone(), b: a, c },
        witness,
    };
    r1cs_to_qap(&config)
}

/// `x - 2`, by interpolation through `(2, 0)` and `(3, 1)`.
fn poly_interp_line_root2() -> Poly {
    lagrange_interpolate(&[s(2), s(3)], &[s(0), s(1)])
}

fn ones_trapdoor() -> Ggpr13Trapdoor {
    Ggpr13Trapdoor { s: s(1), alpha: s(1), beta_v: s(1), beta_w: s(1), beta_y: s(1), gamma: s(1) }
}

fn small_trapdoor() -> Ggpr13Trapdoor {
    Ggpr13Trapdoor { s: s(11), alpha: s(2), beta_v: s(3), beta_w: s(5), beta_y: s(7), gamma: s(13) }
}

#[test]
fn chain_circuit_shape() {
    let c = generate_chain_circuit(4);
    assert_eq!(c.num_gates, 4);
    assert_eq!(c.num_vars, 6);
    assert_eq!(c.witness, vec![1, 3, 3, 3, 3, 3]);
    for i in 0..4 {
        for j in 0..6 {
            assert_eq!(c.r1cs.a[i][j], if j == i + 1 { 1 } else { 0 });
            assert_eq!(c.r1cs.b[i][j], if j == 0 { 1 } else { 0 });
            assert_eq!(c.r1cs.c[i][j], if j == i + 2 { 1 } else { 0 });
        }
    }
}

#[test]
fn chain_circuit_without_gates() {
    let c = generate_chain_circuit(0);
    assert_eq!(c.num_vars, 2);
    assert!(c.r1cs.a.is_empty());
    assert_eq!(c.witness, vec![1, 3]);
}

#[test]
fn qap_target_is_vanishing_polynomial_of_domain() {
    // 4 gates: domain of 4 points, t = x^4 - 1
    let q = chain_qap(4);
    assert_eq!(q.t.len(), 5);
    assert!(same(q.t.coeff_at(4), 1));
    for i in 1..4 {
        assert!(same(q.t.coeff_at(i), 0));
    }
    assert!(!q.t.coeff_at(0).is_zero());
    assert!(same(&q.t.evaluate(&s(1)), 0));
    assert!(same(&q.t.evaluate(&s(2)), 15));
}

#[test]
fn qap_domain_size_is_next_power_of_two() {
    assert_eq!(chain_qap(3).t.len(), 5);
    assert_eq!(chain_qap(5).t.len(), 9);
    assert_eq!(chain_qap(1).t.len(), 2);
    assert_eq!(chain_qap(0).t.len(), 2);
}

#[test]
fn qap_columns_interpolate_the_matrices() {
    let q = chain_qap(4);
    assert_eq!(q.v.len(), 6);
    assert_eq!(q.w.len(), 6);
    assert_eq!(q.y.len(), 6);
    // B's column 0 is one at every gate: the constant one
    assert_eq!(q.w[0].len(), 1);
    assert!(same(q.w[0].coeff_at(0), 1));
    // A's column 0 and C's columns 0 and 1 are zero
    assert_eq!(q.v[0].len(), 0);
    assert_eq!(q.y[0].len(), 0);
    assert_eq!(q.y[1].len(), 0);
    // the first domain point is one and belongs to gate 0
    let one = s(1);
    assert!(same(&q.v[1].evaluate(&one), 1));
    assert!(same(&q.v[2].evaluate(&one), 0));
    assert!(same(&q.y[2].evaluate(&one), 1));
    assert!(q.v[1].len() <= 4);
}

#[test]
fn qap_witness_is_read_as_field_elements() {
    let q = chain_qap(2);
    assert_eq!(q.witness.len(), 4);
    assert!(same(&q.witness[0], 1));
    assert!(same(&q.witness[3], 3));
}

#[test]
fn qap_pads_columns_past_the_gates_with_zero() {
    // 3 gates over a domain of 4 points: B's column 0 is [1, 1, 1, 0]
    let q = chain_qap(3);
    assert!(q.w[0].len() > 1);
    assert!(same(&q.w[0].evaluate(&s(1)), 1));
}

#[test]
fn qap_of_hand_written_system() {
    // one gate x * x = y over [1, x, y]
    let config = CircuitConfig {
        num_gates: 1,
        num_vars: 3,
        r1cs: R1csMatrices { a: vec![vec![0, 1, 0]], b: vec![vec![0, 1, 0]], c: vec![vec![0, 0, 1]] },
        witness: vec![1, 5, 25],
    };
    let q = r1cs_to_qap(&config);
    assert!(q.v[0].len() == 0 && q.v[2].len() == 0);
    assert!(same(q.v[1].coeff_at(0), 1) && q.v[1].len() == 1);
    assert!(same(q.y[2].coeff_at(0), 1) && q.y[2].len() == 1);
    let (d1, d2, d3, ok) = pinocchio::run_benchmark(&q.v, &q.w, &q.y, &q.t, &q.witness);
    let _ = (d1, d2, d3);
    assert!(ok);
}

#[test]
fn combine_witness_is_weighted_sum() {
    let polys = vec![poly(&[1]), poly(&[0, 1])];
    let r = pinocchio::combine_witness(&polys, &[s(2), s(3)]);
    assert_eq!(r.len(), 2);
    assert!(same(r.coeff_at(0), 2) && same(r.coeff_at(1), 3));
    let zero = pinocchio::combine_witness(&polys, &[s(0), s(0)]);
    assert_eq!(zero.len(), 0);
}

#[test]
fn pinocchio_setup_of_unit_target_at_one_is_the_g2_generator() {
    let vk = pinocchio::setup(&poly(&[1]), &s(1));
    assert_eq!(vk.to_bytes(), g2_generator_encoding());
    let other = pinocchio::setup(&poly(&[2]), &s(1));
    assert_ne!(other.to_bytes(), g2_generator_encoding());
}

#[test]
fn pinocchio_accepts_valid_chain_witness() {
    let q = chain_qap(4);
    let (_, _, _, valid) = pinocchio::run_benchmark(&q.v, &q.w, &q.y, &q.t, &q.witness);
    assert!(valid);
}

#[test]
fn pinocchio_rejects_tampered_witness() {
    let q = tampered_chain_qap(4);
    let (_, _, _, valid) = pinocchio::run_benchmark(&q.v, &q.w, &q.y, &q.t, &q.witness);
    assert!(!valid);
}

#[test]
fn pinocchio_prove_and_verify() {
    let q = squares_qap(3, 2, false);
    let secret = s(12345);
    let vk = pinocchio::setup(&q.t, &secret);
    let pf = pinocchio::prove(&q.v, &q.w, &q.y, &q.t, &q.witness, &secret).expect("exact division");
    assert!(pinocchio::verify(&pf, &vk));
    // a key for another point does not match the proof
    let other_vk = pinocchio::setup(&q.t, &s(54321));
    assert!(!pinocchio::verify(&pf, &other_vk));
    let bad = squares_qap(3, 2, true);
    assert!(pinocchio::prove(&bad.v, &bad.w, &bad.y, &bad.t, &bad.witness, &secret).is_none());
}

#[test]
fn strong_points_avoid_roots_and_repeats() {
    let t = chain_qap(4).t;
    let pts = pick_strong_qap_points(&t, 6).expect("points").0;
    assert_eq!(pts.len(), 6);
    for i in 0..6 {
        assert!(!t.evaluate(&pts[i]).is_zero());
        for j in 0..i {
            assert!(!pts[i].equals(&pts[j]));
        }
    }
}

#[test]
fn strong_qap_takes_prescribed_values() {
    let q = chain_qap(2);
    let num_vars = 4;
    let m = num_vars - 1;
    let pts = pick_strong_qap_points(&q.t, 2 * m).expect("points").0;
    let (sv, sw, sy, st) = strong_qap_from_points(&q.v, &q.w, &q.y, &q.t, num_vars, &pts);
    assert_eq!(sv.len(), num_vars);
    assert_eq!(st.len(), q.t.len() + 2 * m);
    for i in 0..2 * m {
        assert!(st.evaluate(&pts[i]).is_zero());
        for k in 0..num_vars {
            let v_target = if k == 0 { i >= m } else { i == k - 1 };
            let w_target = if k == 0 { i < m } else { i == m + k - 1 };
            let y_target = k != 0 && (i == k - 1 || i == m + k - 1);
            assert!(same(&sv[k].evaluate(&pts[i]), v_target as u64));
            assert!(same(&sw[k].evaluate(&pts[i]), w_target as u64));
            assert!(same(&sy[k].evaluate(&pts[i]), y_target as u64));
        }
    }
    // at a root of t (the domain point one) the regular values are kept
    for k in 0..num_vars {
        assert!(sv[k].evaluate(&s(1)).equals(&q.v[k].evaluate(&s(1))));
        assert!(sw[k].evaluate(&s(1)).equals(&q.w[k].evaluate(&s(1))));
    }
}

#[test]
fn elevate_extends_the_target() {
    let q = chain_qap(2);
    let (sv, sw, sy, st, _) = elevate_to_strong_qap(&q.v, &q.w, &q.y, &q.t, 4).expect("strong qap");
    assert_eq!((sv.len(), sw.len(), sy.len()), (4, 4, 4));
    assert_eq!(st.len(), q.t.len() + 6);
    assert!(st.evaluate(&s(1)).is_zero());
}

#[test]
fn ggpr13_setup_with_unit_trapdoor_gives_generators() {
    let vk = ggpr13::setup(&poly(&[1]), &ones_trapdoor());
    assert_eq!(vk.g2.to_bytes(), g2_generator_encoding());
    assert_eq!(vk.alpha_g2.to_bytes(), g2_generator_encoding());
    assert_eq!(vk.alpha_g1.to_bytes(), g1_generator_encoding());
    assert_eq!(vk.t_s.to_bytes(), g2_generator_encoding());
    let other = ggpr13::setup(&poly(&[1]), &small_trapdoor());
    assert_ne!(other.alpha_g1.to_bytes(), g1_generator_encoding());
}

#[test]
fn ggpr13_combinations_split_inputs_from_the_rest() {
    let polys = vec![poly(&[1]), poly(&[0, 1]), poly(&[0, 0, 1])];
    let (v_io, v_mid, w, y) =
        ggpr13::combine_strong_witness(&polys, &polys, &polys, &[s(2), s(3), s(4)], 3, 2);
    assert!(v_io.len() == 2 && same(v_io.coeff_at(0), 2) && same(v_io.coeff_at(1), 3));
    assert!(v_mid.len() == 3 && same(v_mid.coeff_at(2), 4) && same(v_mid.coeff_at(0), 0));
    assert!(w.len() == 3 && same(w.coeff_at(1), 3));
    assert!(y.len() == 3 && same(y.coeff_at(2), 4));
}

#[test]
fn ggpr13_protocol_with_given_trapdoor_accepts_valid_witness() {
    let q = chain_qap(2);
    let (sv, sw, sy, st, _) = elevate_to_strong_qap(&q.v, &q.w, &q.y, &q.t, 4).expect("strong qap");
    let start = std::time::Instant::now();
    let (_, _, _, valid) = ggpr13::run_protocol(&sv, &sw, &sy, &st, &q.witness, 4, 2, &small_trapdoor(), &start);
    assert!(valid);
}

#[test]
fn ggpr13_prove_returns_the_input_part_of_v() {
    let q = chain_qap(2);
    let (sv, sw, sy, st, _) = elevate_to_strong_qap(&q.v, &q.w, &q.y, &q.t, 4).expect("strong qap");
    let td = small_trapdoor();
    let (_, v_io) = ggpr13::prove(&sv, &sw, &sy, &st, &q.witness, 4, 2, &td).expect("fits");
    let (expected, _, _, _) = ggpr13::combine_strong_witness(&sv, &sw, &sy, &q.witness, 4, 2);
    assert_eq!(v_io.len(), expected.len());
    for i in 0..v_io.len() {
        assert!(v_io.coeff_at(i).equals(expected.coeff_at(i)));
    }
}

#[test]
fn ggpr13_accepts_valid_chain_witness() {
    let q = chain_qap(4);
    let (_, _, _, valid, _) = ggpr13::run_benchmark(&q.v, &q.w, &q.y, &q.t, &q.witness, 4, 6, 2);
    assert!(valid);
}

#[test]
fn ggpr13_accepts_valid_squares_witness() {
    let q = squares_qap(3, 2, false);
    let (_, _, _, valid, _) = ggpr13::run_benchmark(&q.v, &q.w, &q.y, &q.t, &q.witness, 3, 5, 2);
    assert!(valid);
}

#[test]
fn ggpr13_rejects_tampered_witness() {
    // the secret point is drawn after the extra points, so the broken gate
    // shows in the QAP check
    let q = tampered_chain_qap(4);
    let (_, _, _, valid, _) = ggpr13::run_benchmark(&q.v, &q.w, &q.y, &q.t, &q.witness, 4, 6, 2);
    assert!(!valid);
}

#[test]
fn ggpr13_accepts_one_gate_identity() {
    // one gate x * 1 = x over [1, x], witness [1, 3]
    let config = CircuitConfig {
        num_gates: 1,
        num_vars: 2,
        r1cs: R1csMatrices { a: vec![vec![0, 1]], b: vec![vec![1, 0]], c: vec![vec![0, 1]] },
        witness: vec![1, 3],
    };
    let q = r1cs_to_qap(&config);
    let (_, _, _, valid, _) = ggpr13::run_benchmark(&q.v, &q.w, &q.y, &q.t, &q.witness, 1, 2, 1);
    assert!(valid);
}

#[test]
fn select_keeps_first_distinct_non_roots_in_order() {
    // t = x - 2: the draw 2 is a root, the second 5 repeats
    let t = poly_interp_line_root2();
    let draws = vec![s(2), s(5), s(5), s(7), s(9)];
    let pts = select_strong_qap_points(&draws, &t, 2).expect("enough points");
    assert!(pts.len() == 2 && same(&pts[0], 5) && same(&pts[1], 7));
    assert!(select_strong_qap_points(&draws, &t, 4).is_none());
    assert_eq!(select_strong_qap_points(&draws, &t, 0).expect("empty").len(), 0);
}

#[test]
fn pick_reports_the_draws_it_selected_from() {
    let t = chain_qap(4).t;
    let (pts, used) = pick_strong_qap_points(&t, 6).expect("points");
    assert!(used >= 6);
    let again = pinocchio_demo::strong_qap::select_strong_qap_points(
        &{
            // the same prefix of the deterministic stream, selected again
            let (p2, u2) = pick_strong_qap_points(&t, 6).expect("points");
            assert_eq!(u2, used);
            p2
        },
        &t,
        6,
    )
    .expect("the points themselves are six distinct non-roots");
    for i in 0..6 {
        assert!(again[i].equals(&pts[i]));
    }
}

#[test]
fn ggpr13_protocol_with_given_trapdoor_rejects_tampered_witness() {
    let q = squares_qap(3, 2, true);
    let (sv, sw, sy, st, _) = elevate_to_strong_qap(&q.v, &q.w, &q.y, &q.t, 5).expect("strong qap");
    let start = std::time::Instant::now();
    let (_, _, _, valid) = ggpr13::run_protocol(&sv, &sw, &sy, &st, &q.witness, 5, 2, &small_trapdoor(), &start);
    assert!(!valid);
}

#[test]
fn pinocchio_rejects_tampered_squares_witness() {
    let q = squares_qap(3, 2, true);
    let (_, _, _, valid) = pinocchio::run_benchmark(&q.v, &q.w, &q.y, &q.t, &q.witness);
    assert!(!valid);
    let good = squares_qap(3, 2, false);
    let (_, _, _, valid) = pinocchio::run_benchmark(&good.v, &good.w, &good.y, &good.t, &good.witness);
    assert!(valid);
}

#[test]
fn regular_qap_vanishes_at_the_gates() {
    // chain circuit: v(x) = 3, w(x) = 1, y(x) = 3 at every domain point
    let q = chain_qap(4);
    let v = pinocchio::combine_witness(&q.v, &q.witness);
    let w = pinocchio::combine_witness(&q.w, &q.witness);
    let y = pinocchio::combine_witness(&q.y, &q.witness);
    let one = s(1);
    assert!(same(&w.evaluate(&one), 1));
    assert!(v.evaluate(&one).equals(&y.evaluate(&one)));
    assert!(same(&v.evaluate(&one), 3));
}

#[test]
fn strong_qap_vanishes_at_the_extra_points() {
    let q = squares_qap(3, 2, true);
    let num_vars = 5;
    let m = num_vars - 1;
    let pts = pick_strong_qap_points(&q.t, 2 * m).expect("points").0;
    let (sv, sw, sy, _) = strong_qap_from_points(&q.v, &q.w, &q.y, &q.t, num_vars, &pts);
    let v = pinocchio::combine_witness(&sv, &q.witness);
    let w = pinocchio::combine_witness(&sw, &q.witness);
    let y = pinocchio::combine_witness(&sy, &q.witness);
    for i in 0..2 * m {
        let (vi, wi, yi) = (v.evaluate(&pts[i]), w.evaluate(&pts[i]), y.evaluate(&pts[i]));
        if i < m {
            assert!(same(&wi, 1) && vi.equals(&yi));
        } else {
            assert!(same(&vi, 1) && wi.equals(&yi));
        }
    }
}

#[test]
fn both_protocols_give_the_same_verdicts_on_squares() {
    for &tamper in &[false, true] {
        let q = squares_qap(3, 2, tamper);
        let (_, _, _, pinocchio_valid) = pinocchio::run_benchmark(&q.v, &q.w, &q.y, &q.t, &q.witness);
        let (_, _, _, ggpr13_valid, _) = ggpr13::run_benchmark(&q.v, &q.w, &q.y, &q.t, &q.witness, 3, 5, 2);
        assert_eq!(pinocchio_valid, !tamper);
        assert_eq!(ggpr13_valid, pinocchio_valid);
    }
}

#[test]
fn ggpr13_verdict_does_not_depend_on_the_io_split() {
    let q = chain_qap(4);
    for num_io in 0..8usize {
        let (_, _, _, valid, _) = ggpr13::run_benchmark(&q.v, &q.w, &q.y, &q.t, &q.witness, 4, 6, num_io);
        assert!(valid);
    }
}

fn same_poly(a: &Poly, b: &Poly) -> bool {
    a.len() == b.len() && (0..a.len()).all(|i| a.coeff_at(i).equals(b.coeff_at(i)))
}

#[test]
fn elevate_target_and_draws_depend_on_t_and_num_vars_only() {
    // both circuits have a four-point domain, so the same target
    let q1 = chain_qap(4);
    let q2 = squares_qap(3, 2, false);
    assert!(same_poly(&q1.t, &q2.t));
    let (_, _, _, st1, used1) = elevate_to_strong_qap(&q1.v, &q1.w, &q1.y, &q1.t, 5).expect("strong qap");
    let (_, _, _, st2, used2) = elevate_to_strong_qap(&q2.v, &q2.w, &q2.y, &q2.t, 5).expect("strong qap");
    assert!(same_poly(&st1, &st2));
    assert_eq!(used1, used2);
}

#[test]
fn elevate_is_repeatable() {
    let q = chain_qap(4);
    let (sv1, sw1, sy1, st1, used1) = elevate_to_strong_qap(&q.v, &q.w, &q.y, &q.t, 6).expect("strong qap");
    let (sv2, sw2, sy2, st2, used2) = elevate_to_strong_qap(&q.v, &q.w, &q.y, &q.t, 6).expect("strong qap");
    assert_eq!(used1, used2);
    assert!(same_poly(&st1, &st2));
    for k in 0..6 {
        assert!(same_poly(&sv1[k], &sv2[k]));
        assert!(same_poly(&sw1[k], &sw2[k]));
        assert!(same_poly(&sy1[k], &sy2[k]));
    }
}

#[test]
fn ggpr13_verdict_is_repeatable_and_ignores_the_gate_count() {
    for &tamper in &[false, true] {
        let q = squares_qap(3, 2, tamper);
        let (_, _, _, first, _) = ggpr13::run_benchmark(&q.v, &q.w, &q.y, &q.t, &q.witness, 3, 5, 2);
        let (_, _, _, second, _) = ggpr13::run_benchmark(&q.v, &q.w, &q.y, &q.t, &q.witness, 3, 5, 2);
        let (_, _, _, other_gates, _) = ggpr13::run_benchmark(&q.v, &q.w, &q.y, &q.t, &q.witness, 17, 5, 2);
        assert_eq!(first, second);
        assert_eq!(first, other_gates);
        assert_eq!(first, !tamper);
    }
}
