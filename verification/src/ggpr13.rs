//! The GGPR13 protocol over the strong QAP: preprocessing, setup, prove and
//! verify, with the QAP, knowledge-of-exponent (alpha) and span (beta/gamma)
//! pairing checks.
use crate::field::{fr_add, fr_modulus, fr_mul, test_rng_draws, test_rng_scalars, Scalar};
use crate::group::{
    bn254_pairing, g1_add, g1_generator, g1_generator_bytes, g1_mul, g1_point_add, g1_scalar_mul,
    g2_generator, g2_generator_bytes, g2_mul, g2_scalar_mul, gt_add, gt_power, gt_sum, pairing,
    G1Point, G2Point,
};
use crate::poly::{
    leading_inverse, max_product_terms, poly_add_op, poly_divide_op, poly_evaluate_op, poly_mul_op, poly_scale_op,
    poly_sub_op, sanitize, scalar_values, Poly,
};
use crate::poly_spec::{
    cong, eval, is_canonical, is_trimmed, lemma_cong_add, lemma_cong_mod, lemma_cong_mul, lemma_cong_reduced_eq,
    lemma_eval_poly_add, lemma_eval_range, lemma_trim, lemma_trim_idempotent, poly_add, poly_mul,
    poly_sub, raw_add, raw_mul, raw_sub,
};
use crate::qap::{
    divides, is_division, lemma_lin_comb_shape, lemma_lin_comb_split, lemma_lin_comb_weights,
    lemma_lin_comb_zero_weight,
    lemma_qap_division_eval, lin_comb, qap_poly,
};
use vstd::arithmetic::div_mod::lemma_mod_bound;
use vstd::arithmetic::mul::{lemma_mul_is_commutative, lemma_mul_is_distributive_add_other_way};
use crate::division::{lead_invertible, lemma_division_unique};
use crate::interpolation::all_distinct;
use crate::strong_qap::{
    elevate_to_strong_qap, is_strong_qap, lemma_extended_target_shape, lemma_first_entry_one,
    lemma_points_invertible, lemma_strong_qap_unique,
    lemma_strong_qap_divides, polys_view, scan_points, strong_qap_for_points, sufficient_draws, drawn_points,
};
use crate::timing::{elapsed_since, instant_now, zero_duration};
use std::time::{Duration, Instant};
use vstd::prelude::*;

verus! {

/// The secret values of the setup (the benchmark keeps them to compute the
/// proof elements directly).
pub struct Ggpr13Trapdoor {
    pub s: Scalar,
    pub alpha: Scalar,
    pub beta_v: Scalar,
    pub beta_w: Scalar,
    pub beta_y: Scalar,
    pub gamma: Scalar,
}

impl Ggpr13Trapdoor {
    pub open spec fn wf(&self) -> bool {
        &&& self.s.wf()
        &&& self.alpha.wf()
        &&& self.beta_v.wf()
        &&& self.beta_w.wf()
        &&& self.beta_y.wf()
        &&& self.gamma.wf()
    }
}

/// The verifying key.
pub struct Ggpr13Key {
    pub g2: G2Point,
    pub alpha_g1: G1Point,
    pub alpha_g2: G2Point,
    pub gamma: G2Point,
    pub beta_v_gamma: G2Point,
    pub beta_w_gamma: G1Point,
    pub beta_y_gamma: G2Point,
    pub t_s: G2Point,
}

/// A GGPR13 proof.
pub struct Ggpr13Proof {
    pub v_mid: G1Point,
    pub w: G2Point,
    pub y: G1Point,
    pub h: G1Point,
    pub v_mid_alpha: G1Point,
    pub w_alpha: G1Point,
    pub y_alpha: G1Point,
    pub h_alpha: G1Point,
    pub z: G1Point,
}

/// The key that `setup` derives from the trapdoor and the strong target.
pub open spec fn ggpr13_key_of(st: Seq<int>, td: Ggpr13Trapdoor, vk: Ggpr13Key) -> bool {
    &&& vk.g2@ == g2_generator_bytes()
    &&& vk.alpha_g1@ == g1_scalar_mul(g1_generator_bytes(), td.alpha@)
    &&& vk.alpha_g2@ == g2_scalar_mul(g2_generator_bytes(), td.alpha@)
    &&& vk.gamma@ == g2_scalar_mul(g2_generator_bytes(), td.gamma@)
    &&& vk.beta_v_gamma@ == g2_scalar_mul(g2_generator_bytes(), (td.beta_v@ * td.gamma@) % fr_modulus())
    &&& vk.beta_w_gamma@ == g1_scalar_mul(g1_generator_bytes(), (td.beta_w@ * td.gamma@) % fr_modulus())
    &&& vk.beta_y_gamma@ == g2_scalar_mul(g2_generator_bytes(), (td.beta_y@ * td.gamma@) % fr_modulus())
    &&& vk.t_s@ == g2_scalar_mul(g2_generator_bytes(), eval(st, td.s@))
}

/// The proof that an honest prover builds from the combinations `v_mid, w, y`
/// and the quotient `h`, each element a multiple of a group generator.
pub open spec fn ggpr13_proof_of(
    v_mid: Seq<int>,
    w: Seq<int>,
    y: Seq<int>,
    h: Seq<int>,
    td: Ggpr13Trapdoor,
    pf: Ggpr13Proof,
) -> bool {
    let s = td.s@;
    let r = fr_modulus();
    let z = (((td.beta_v@ * eval(v_mid, s)) % r + (td.beta_w@ * eval(w, s)) % r) % r + (td.beta_y@
        * eval(y, s)) % r) % r;
    &&& pf.v_mid@ == g1_scalar_mul(g1_generator_bytes(), eval(v_mid, s))
    &&& pf.w@ == g2_scalar_mul(g2_generator_bytes(), eval(w, s))
    &&& pf.y@ == g1_scalar_mul(g1_generator_bytes(), eval(y, s))
    &&& pf.h@ == g1_scalar_mul(g1_generator_bytes(), eval(h, s))
    &&& pf.v_mid_alpha@ == g1_scalar_mul(g1_generator_bytes(), (eval(v_mid, s) * td.alpha@) % r)
    &&& pf.w_alpha@ == g1_scalar_mul(g1_generator_bytes(), (eval(w, s) * td.alpha@) % r)
    &&& pf.y_alpha@ == g1_scalar_mul(g1_generator_bytes(), (eval(y, s) * td.alpha@) % r)
    &&& pf.h_alpha@ == g1_scalar_mul(g1_generator_bytes(), (eval(h, s) * td.alpha@) % r)
    &&& pf.z@ == g1_scalar_mul(g1_generator_bytes(), z)
}

/// The verifier's QAP check on the exponents of an honest key and proof:
/// `e(g, g)^(v w)` against `e(g, g)^(h t + y)`, for the values `v`, `w`,
/// `y`, `h`, `t` of the combinations, the quotient and the target at the
/// secret point.
pub open spec fn ggpr13_qap_check(v: int, w: int, y: int, h: int, t: int) -> bool {
    let r = fr_modulus();
    gt_power((v * w) % r) == gt_power(((h * t) % r + (y * 1) % r) % r)
}

/// The verifier's six pairing checks, with `v_io` the input/output part of
/// the `v` combination in the exponent of the G1 generator.
pub open spec fn ggpr13_check(vk: Ggpr13Key, pf: Ggpr13Proof, v_io: Seq<u8>) -> bool {
    let v_full = g1_point_add(v_io, pf.v_mid@);
    &&& bn254_pairing(v_full, pf.w@) == gt_add(bn254_pairing(pf.h@, vk.t_s@), bn254_pairing(pf.y@, vk.g2@))
    &&& bn254_pairing(pf.v_mid_alpha@, vk.g2@) == bn254_pairing(pf.v_mid@, vk.alpha_g2@)
    &&& bn254_pairing(pf.w_alpha@, vk.g2@) == bn254_pairing(vk.alpha_g1@, pf.w@)
    &&& bn254_pairing(pf.y_alpha@, vk.g2@) == bn254_pairing(pf.y@, vk.alpha_g2@)
    &&& bn254_pairing(pf.h_alpha@, vk.g2@) == bn254_pairing(pf.h@, vk.alpha_g2@)
    &&& bn254_pairing(pf.z@, vk.gamma@) == gt_add(
        gt_add(bn254_pairing(pf.v_mid@, vk.beta_v_gamma@), bn254_pairing(vk.beta_w_gamma@, pf.w@)),
        bn254_pairing(pf.y@, vk.beta_y_gamma@),
    )
}

/// The number of witness entries that are public inputs and outputs, capped
/// at the number of variables.
pub open spec fn io_count(num_io: int, num_vars: int) -> int {
    if num_io < num_vars {
        num_io
    } else {
        num_vars
    }
}

/// The verifying key for a trapdoor and strong target polynomial.
pub fn setup(str_t: &Poly, td: &Ggpr13Trapdoor) -> (vk: Ggpr13Key)
    requires
        str_t.wf(),
        td.wf(),
    ensures
        ggpr13_key_of(str_t@, *td, vk),
{
    let g1 = g1_generator();
    let g2 = g2_generator();
    let vk_g2 = g2_generator();
    let vk_alpha_g1 = g1_mul(&g1, &td.alpha);
    let vk_alpha_g2 = g2_mul(&g2, &td.alpha);
    let vk_gamma = g2_mul(&g2, &td.gamma);
    let vk_beta_v_gamma = g2_mul(&g2, &fr_mul(&td.beta_v, &td.gamma));
    let vk_beta_w_gamma = g1_mul(&g1, &fr_mul(&td.beta_w, &td.gamma));
    let vk_beta_y_gamma = g2_mul(&g2, &fr_mul(&td.beta_y, &td.gamma));
    let vk_t_s = g2_mul(&g2, &poly_evaluate_op(str_t, &td.s));
    Ggpr13Key {
        g2: vk_g2,
        alpha_g1: vk_alpha_g1,
        alpha_g2: vk_alpha_g2,
        gamma: vk_gamma,
        beta_v_gamma: vk_beta_v_gamma,
        beta_w_gamma: vk_beta_w_gamma,
        beta_y_gamma: vk_beta_y_gamma,
        t_s: vk_t_s,
    }
}

/// The witness combinations of the strong QAP: the input/output part and the
/// rest of `v`, and `w` and `y`.
pub open spec fn strong_combinations(
    sv: Seq<Seq<int>>,
    sw: Seq<Seq<int>>,
    sy: Seq<Seq<int>>,
    ws: Seq<int>,
    num_vars: int,
    num_io: int,
) -> (Seq<int>, Seq<int>, Seq<int>, Seq<int>) {
    (
        lin_comb(sv, ws, 0, io_count(num_io, num_vars)),
        lin_comb(sv, ws, num_io, num_vars),
        lin_comb(sw, ws, 0, num_vars),
        lin_comb(sy, ws, 0, num_vars),
    )
}

/// Combines the witness with the strong QAP polynomials, skipping zero
/// entries: the first `num_io` terms of `v` go to the input/output part.
pub fn combine_strong_witness(
    str_v: &[Poly],
    str_w: &[Poly],
    str_y: &[Poly],
    witness: &[Scalar],
    num_vars: usize,
    num_io: usize,
) -> (r: (Poly, Poly, Poly, Poly))
    requires
        str_v@.len() >= num_vars,
        str_w@.len() >= num_vars,
        str_y@.len() >= num_vars,
        witness@.len() >= num_vars,
        forall|k: int| 0 <= k < num_vars ==> (#[trigger] str_v@[k]).wf() && is_trimmed(str_v@[k]@),
        forall|k: int| 0 <= k < num_vars ==> (#[trigger] str_w@[k]).wf() && is_trimmed(str_w@[k]@),
        forall|k: int| 0 <= k < num_vars ==> (#[trigger] str_y@[k]).wf() && is_trimmed(str_y@[k]@),
        forall|k: int| 0 <= k < num_vars ==> (#[trigger] witness@[k]).wf(),
    ensures
        r.0.wf(),
        r.1.wf(),
        r.2.wf(),
        r.3.wf(),
        (r.0@, r.1@, r.2@, r.3@) == strong_combinations(
            polys_view(str_v@),
            polys_view(str_w@),
            polys_view(str_y@),
            scalar_values(witness@),
            num_vars as int,
            num_io as int,
        ),
{
    let ghost sv = polys_view(str_v@);
    let ghost sw = polys_view(str_w@);
    let ghost sy = polys_view(str_y@);
    let ghost ws = scalar_values(witness@);
    let mut v_io_x = Poly::zero();
    let mut v_mid_x = Poly::zero();
    let mut w_x = Poly::zero();
    let mut y_x = Poly::zero();
    let mut i: usize = 0;
    while i < num_vars
        invariant
            i <= num_vars,
            sv == polys_view(str_v@),
            sw == polys_view(str_w@),
            sy == polys_view(str_y@),
            ws == scalar_values(witness@),
            str_v@.len() >= num_vars,
            str_w@.len() >= num_vars,
            str_y@.len() >= num_vars,
            witness@.len() >= num_vars,
            forall|k: int| 0 <= k < num_vars ==> (#[trigger] str_v@[k]).wf() && is_trimmed(str_v@[k]@),
            forall|k: int| 0 <= k < num_vars ==> (#[trigger] str_w@[k]).wf() && is_trimmed(str_w@[k]@),
            forall|k: int| 0 <= k < num_vars ==> (#[trigger] str_y@[k]).wf() && is_trimmed(str_y@[k]@),
            forall|k: int| 0 <= k < num_vars ==> (#[trigger] witness@[k]).wf(),
            v_io_x.wf(),
            v_mid_x.wf(),
            w_x.wf(),
            y_x.wf(),
            v_io_x@ == lin_comb(sv, ws, 0, io_count(num_io as int, i as int)),
            v_mid_x@ == lin_comb(sv, ws, num_io as int, i as int),
            w_x@ == lin_comb(sw, ws, 0, i as int),
            y_x@ == lin_comb(sy, ws, 0, i as int),
        decreases num_vars - i,
    {
        let val = &witness[i];
        proof {
            assert(ws[i as int] == val@);
            assert(sv[i as int] == str_v@[i as int]@);
            assert(sw[i as int] == str_w@[i as int]@);
            assert(sy[i as int] == str_y@[i as int]@);
            lemma_lin_comb_shape(sv, ws, 0, io_count(num_io as int, i as int));
            lemma_lin_comb_shape(sv, ws, num_io as int, i as int);
            lemma_lin_comb_shape(sw, ws, 0, i as int);
            lemma_lin_comb_shape(sy, ws, 0, i as int);
        }
        if val.is_zero() {
            proof {
                if i < num_io {
                    lemma_lin_comb_zero_weight(sv, ws, 0, i + 1);
                } else {
                    lemma_lin_comb_zero_weight(sv, ws, num_io as int, i + 1);
                }
                lemma_lin_comb_zero_weight(sw, ws, 0, i + 1);
                lemma_lin_comb_zero_weight(sy, ws, 0, i + 1);
            }
            i += 1;
            continue;
        }
        let p_v = poly_scale_op(&str_v[i], val);
        let p_w = poly_scale_op(&str_w[i], val);
        let p_y = poly_scale_op(&str_y[i], val);
        proof {
            lemma_trim(crate::poly_spec::raw_scale(sv[i as int], val@));
            lemma_trim(crate::poly_spec::raw_scale(sw[i as int], val@));
            lemma_trim(crate::poly_spec::raw_scale(sy[i as int], val@));
        }
        if i < num_io {
            let ghost old_io = v_io_x@;
            v_io_x = sanitize(poly_add_op(&v_io_x, &p_v));
            proof {
                lemma_trim_idempotent(raw_add(old_io, p_v@));
            }
        } else {
            let ghost old_mid = v_mid_x@;
            v_mid_x = sanitize(poly_add_op(&v_mid_x, &p_v));
            proof {
                lemma_trim_idempotent(raw_add(old_mid, p_v@));
            }
        }
        let ghost old_w = w_x@;
        let ghost old_y = y_x@;
        w_x = sanitize(poly_add_op(&w_x, &p_w));
        y_x = sanitize(poly_add_op(&y_x, &p_y));
        proof {
            lemma_trim_idempotent(raw_add(old_w, p_w@));
            lemma_trim_idempotent(raw_add(old_y, p_y@));
        }
        i += 1;
    }
    (v_io_x, v_mid_x, w_x, y_x)
}

/// The prover's second half: `p = (v_io + v_mid) * w - y`, its quotient by
/// the strong target (the remainder is discarded), and the proof elements at
/// the trapdoor's point.
pub fn prove_from_combinations(
    v_io_x: &Poly,
    v_mid_x: &Poly,
    w_x: &Poly,
    y_x: &Poly,
    str_t: &Poly,
    td: &Ggpr13Trapdoor,
) -> (pf: Ggpr13Proof)
    requires
        v_io_x.wf(),
        v_mid_x.wf(),
        w_x.wf(),
        y_x.wf(),
        is_trimmed(v_io_x@),
        is_trimmed(v_mid_x@),
        is_trimmed(y_x@),
        str_t.wf(),
        is_trimmed(str_t@),
        str_t@.len() > 0,
        td.wf(),
        poly_add(v_io_x@, v_mid_x@).len() + w_x@.len() <= max_product_terms(),
    ensures
        exists|h: Seq<int>, rem: Seq<int>|
            #[trigger] is_division(
                poly_sub(poly_mul(poly_add(v_io_x@, v_mid_x@), w_x@), y_x@),
                str_t@,
                h,
                rem,
            ) && ggpr13_proof_of(v_mid_x@, w_x@, y_x@, h, *td, pf),
{
    let v_full_x = sanitize(poly_add_op(v_io_x, v_mid_x));
    proof {
        lemma_trim_idempotent(raw_add(v_io_x@, v_mid_x@));
    }
    let vw_x = poly_mul_op(&v_full_x, w_x);
    proof {
        lemma_trim(raw_mul(v_full_x@, w_x@));
    }
    let p_x = sanitize(poly_sub_op(&vw_x, y_x));
    proof {
        lemma_trim_idempotent(raw_sub(vw_x@, y_x@));
        lemma_trim(raw_sub(vw_x@, y_x@));
    }
    let (h_x, rem) = poly_divide_op(&p_x, str_t);
    let g1 = g1_generator();
    let g2 = g2_generator();
    let s = &td.s;
    let v_mid_s = poly_evaluate_op(v_mid_x, s);
    let w_s = poly_evaluate_op(w_x, s);
    let y_s = poly_evaluate_op(y_x, s);
    let h_s = poly_evaluate_op(&h_x, s);
    let proof_v_mid = g1_mul(&g1, &v_mid_s);
    let proof_w = g2_mul(&g2, &w_s);
    let proof_y = g1_mul(&g1, &y_s);
    let proof_h = g1_mul(&g1, &h_s);
    let proof_v_mid_alpha = g1_mul(&proof_v_mid, &td.alpha);
    let proof_w_alpha = g1_mul(&g1, &fr_mul(&w_s, &td.alpha));
    let proof_y_alpha = g1_mul(&proof_y, &td.alpha);
    let proof_h_alpha = g1_mul(&proof_h, &td.alpha);
    let z_v = fr_mul(&td.beta_v, &v_mid_s);
    let z_w = fr_mul(&td.beta_w, &w_s);
    let z_y = fr_mul(&td.beta_y, &y_s);
    let z_val = fr_add(&fr_add(&z_v, &z_w), &z_y);
    let proof_z = g1_mul(&g1, &z_val);
    let pf = Ggpr13Proof {
        v_mid: proof_v_mid,
        w: proof_w,
        y: proof_y,
        h: proof_h,
        v_mid_alpha: proof_v_mid_alpha,
        w_alpha: proof_w_alpha,
        y_alpha: proof_y_alpha,
        h_alpha: proof_h_alpha,
        z: proof_z,
    };
    proof {
        assert(is_division(
            poly_sub(poly_mul(poly_add(v_io_x@, v_mid_x@), w_x@), y_x@),
            str_t@,
            h_x@,
            rem@,
        ));
        assert(ggpr13_proof_of(v_mid_x@, w_x@, y_x@, h_x@, *td, pf));
    }
    pf
}

/// The prover: the witness combinations and the proof. `None` exactly when
/// the product `(v_io + v_mid) * w` would need a larger FFT domain than the
/// field offers (where `ark_poly`'s multiplication panics).
pub fn prove(
    str_v: &[Poly],
    str_w: &[Poly],
    str_y: &[Poly],
    str_t: &Poly,
    witness: &[Scalar],
    num_vars: usize,
    num_io: usize,
    td: &Ggpr13Trapdoor,
) -> (r: Option<(Ggpr13Proof, Poly)>)
    requires
        str_v@.len() >= num_vars,
        str_w@.len() >= num_vars,
        str_y@.len() >= num_vars,
        witness@.len() >= num_vars,
        forall|k: int| 0 <= k < num_vars ==> (#[trigger] str_v@[k]).wf() && is_trimmed(str_v@[k]@),
        forall|k: int| 0 <= k < num_vars ==> (#[trigger] str_w@[k]).wf() && is_trimmed(str_w@[k]@),
        forall|k: int| 0 <= k < num_vars ==> (#[trigger] str_y@[k]).wf() && is_trimmed(str_y@[k]@),
        forall|k: int| 0 <= k < num_vars ==> (#[trigger] witness@[k]).wf(),
        str_t.wf(),
        is_trimmed(str_t@),
        str_t@.len() > 0,
        td.wf(),
    ensures
        ({
            let c = strong_combinations(
                polys_view(str_v@),
                polys_view(str_w@),
                polys_view(str_y@),
                scalar_values(witness@),
                num_vars as int,
                num_io as int,
            );
            &&& r is None <==> poly_add(c.0, c.1).len() + c.2.len() > max_product_terms()
            &&& r matches Some(out) ==> {
                &&& out.1@ == c.0
                &&& exists|h: Seq<int>, rem: Seq<int>|
                    #[trigger] is_division(poly_sub(poly_mul(poly_add(c.0, c.1), c.2), c.3), str_t@, h, rem)
                        && ggpr13_proof_of(c.1, c.2, c.3, h, *td, out.0)
            }
        }),
{
    let ghost c = strong_combinations(
        polys_view(str_v@),
        polys_view(str_w@),
        polys_view(str_y@),
        scalar_values(witness@),
        num_vars as int,
        num_io as int,
    );
    let (v_io_x, v_mid_x, w_x, y_x) = combine_strong_witness(str_v, str_w, str_y, witness, num_vars, num_io);
    proof {
        assert(v_io_x@ == c.0 && v_mid_x@ == c.1 && w_x@ == c.2 && y_x@ == c.3);
        lemma_lin_comb_shape(polys_view(str_v@), scalar_values(witness@), 0, io_count(num_io as int, num_vars as int));
        lemma_lin_comb_shape(polys_view(str_v@), scalar_values(witness@), num_io as int, num_vars as int);
        lemma_lin_comb_shape(polys_view(str_y@), scalar_values(witness@), 0, num_vars as int);
        lemma_trim_idempotent(raw_add(v_io_x@, v_mid_x@));
    }
    let v_full_x = sanitize(poly_add_op(&v_io_x, &v_mid_x));
    if v_full_x.len() > 268435456 || w_x.len() > 268435456 - v_full_x.len() {
        return None;
    }
    let pf = prove_from_combinations(&v_io_x, &v_mid_x, &w_x, &y_x, str_t, td);
    Some((pf, v_io_x))
}

/// The verifier: the six pairing checks, given the input/output part of `v`
/// in the exponent. An honest proof for a quotient with zero remainder,
/// checked against the key of the same trapdoor, passes all six.
pub fn verify(vk: &Ggpr13Key, pf: &Ggpr13Proof, proof_v_io: &G1Point) -> (b: bool)
    ensures
        b == ggpr13_check(*vk, *pf, proof_v_io@),
        forall|
            st: Seq<int>,
            td: Ggpr13Trapdoor,
            v_io: Seq<int>,
            v_mid: Seq<int>,
            w: Seq<int>,
            y: Seq<int>,
            h: Seq<int>,
        |
            #![trigger ggpr13_key_of(st, td, *vk), ggpr13_proof_of(v_mid, w, y, h, td, *pf), is_division(poly_sub(poly_mul(poly_add(v_io, v_mid), w), y), st, h, seq![])]
            td.wf() && ggpr13_key_of(st, td, *vk) && ggpr13_proof_of(v_mid, w, y, h, td, *pf)
                && is_division(poly_sub(poly_mul(poly_add(v_io, v_mid), w), y), st, h, seq![])
                && proof_v_io@ == g1_scalar_mul(g1_generator_bytes(), eval(v_io, td.s@)) ==> b,
        forall|
            st: Seq<int>,
            td: Ggpr13Trapdoor,
            v_io: Seq<int>,
            v_mid: Seq<int>,
            w: Seq<int>,
            y: Seq<int>,
            h: Seq<int>,
        |
            #![trigger ggpr13_key_of(st, td, *vk), ggpr13_proof_of(v_mid, w, y, h, td, *pf), eval(v_io, td.s@)]
            td.wf() && ggpr13_key_of(st, td, *vk) && ggpr13_proof_of(v_mid, w, y, h, td, *pf)
                && proof_v_io@ == g1_scalar_mul(g1_generator_bytes(), eval(v_io, td.s@)) ==> (b
                <==> ggpr13_qap_check(
                eval(poly_add(v_io, v_mid), td.s@),
                eval(w, td.s@),
                eval(y, td.s@),
                eval(h, td.s@),
                eval(st, td.s@),
            )),
{
    let g2 = g2_generator();
    let proof_v_full = g1_add(proof_v_io, &pf.v_mid);
    let qap_left = pairing(&proof_v_full, &pf.w);
    let qap_h = pairing(&pf.h, &vk.t_s);
    let qap_y = pairing(&pf.y, &vk.g2);
    let qap_right = gt_sum(&qap_h, &qap_y);
    let check_qap = qap_left.equals(&qap_right);
    let av_left = pairing(&pf.v_mid_alpha, &vk.g2);
    let av_right = pairing(&pf.v_mid, &vk.alpha_g2);
    let check_alpha_v = av_left.equals(&av_right);
    let aw_left = pairing(&pf.w_alpha, &vk.g2);
    let aw_right = pairing(&vk.alpha_g1, &pf.w);
    let check_alpha_w = aw_left.equals(&aw_right);
    let ay_left = pairing(&pf.y_alpha, &vk.g2);
    let ay_right = pairing(&pf.y, &vk.alpha_g2);
    let check_alpha_y = ay_left.equals(&ay_right);
    let ah_left = pairing(&pf.h_alpha, &vk.g2);
    let ah_right = pairing(&pf.h, &vk.alpha_g2);
    let check_alpha_h = ah_left.equals(&ah_right);
    let span_left = pairing(&pf.z, &vk.gamma);
    let span_v = pairing(&pf.v_mid, &vk.beta_v_gamma);
    let span_w = pairing(&vk.beta_w_gamma, &pf.w);
    let span_y = pairing(&pf.y, &vk.beta_y_gamma);
    let span_vw = gt_sum(&span_v, &span_w);
    let span_right = gt_sum(&span_vw, &span_y);
    let check_span = span_left.equals(&span_right);
    let b = check_qap && check_alpha_v && check_alpha_w && check_alpha_y && check_alpha_h && check_span;
    proof {
        assert forall|
            st: Seq<int>,
            td: Ggpr13Trapdoor,
            v_io: Seq<int>,
            v_mid: Seq<int>,
            w: Seq<int>,
            y: Seq<int>,
            h: Seq<int>,
        |
            td.wf() && #[trigger] ggpr13_key_of(st, td, *vk) && #[trigger] ggpr13_proof_of(
                v_mid,
                w,
                y,
                h,
                td,
                *pf,
            ) && #[trigger] is_division(poly_sub(poly_mul(poly_add(v_io, v_mid), w), y), st, h, seq![])
                && proof_v_io@ == g1_scalar_mul(g1_generator_bytes(), eval(v_io, td.s@)) implies b by {
            let r = fr_modulus();
            let s = td.s@;
            let al = td.alpha@;
            let ea = eval(v_io, s);
            let eb = eval(v_mid, s);
            let ew = eval(w, s);
            let ey = eval(y, s);
            let eh = eval(h, s);
            let et = eval(st, s);
            lemma_eval_range(v_io, s);
            lemma_eval_range(v_mid, s);
            lemma_eval_range(w, s);
            lemma_eval_range(y, s);
            lemma_eval_range(h, s);
            lemma_eval_range(st, s);
            lemma_eval_range(poly_add(v_io, v_mid), s);
            lemma_eval_poly_add(v_io, v_mid, s);
            lemma_cong_mod(eb * al);
            lemma_cong_mod(ew * al);
            lemma_cong_mod(ey * al);
            lemma_cong_mod(eh * al);
            lemma_cong_mod(td.beta_v@ * td.gamma@);
            lemma_cong_mod(td.beta_w@ * td.gamma@);
            lemma_cong_mod(td.beta_y@ * td.gamma@);
            // the QAP check
            lemma_qap_division_eval(poly_add(v_io, v_mid), w, y, st, h, s);
            assert(qap_left@ == gt_power((((ea + eb) % r) * ew) % r));
            assert(qap_h@ == gt_power((eh * et) % r));
            assert(qap_y@ == gt_power((ey * 1) % r));
            lemma_cong_mod(eh * et);
            lemma_cong_mod(ey);
            lemma_cong_add((eh * et) % r, eh * et, ey % r, ey);
            lemma_cong_mod((eh * et) % r + ey % r);
            lemma_cong_mod(((ea + eb) % r) * ew);
            lemma_cong_reduced_eq((((ea + eb) % r) * ew) % r, ((eh * et) % r + (ey * 1) % r) % r);
            assert(check_qap);
            // the alpha checks
            lemma_mul_one_mod((eb * al) % r);
            lemma_mul_one_mod((ew * al) % r);
            lemma_mul_one_mod((ey * al) % r);
            lemma_mul_one_mod((eh * al) % r);
            assert(av_left@ == gt_power(((eb * al) % r * 1) % r));
            assert(av_right@ == gt_power((eb * al) % r));
            assert(check_alpha_v);
            assert(aw_left@ == gt_power(((ew * al) % r * 1) % r));
            lemma_mul_is_commutative(al, ew);
            assert(aw_right@ == gt_power((al * ew) % r));
            assert(check_alpha_w);
            assert(ay_left@ == gt_power(((ey * al) % r * 1) % r));
            assert(check_alpha_y);
            assert(ah_left@ == gt_power(((eh * al) % r * 1) % r));
            assert(check_alpha_h);
            // the span check
            let bvg = (td.beta_v@ * td.gamma@) % r;
            let bwg = (td.beta_w@ * td.gamma@) % r;
            let byg = (td.beta_y@ * td.gamma@) % r;
            let z = (((td.beta_v@ * eb) % r + (td.beta_w@ * ew) % r) % r + (td.beta_y@ * ey) % r) % r;
            lemma_mod_bound(((td.beta_v@ * eb) % r + (td.beta_w@ * ew) % r) % r + (td.beta_y@ * ey) % r, r);
            assert(span_left@ == gt_power((z * td.gamma@) % r));
            assert(span_v@ == gt_power((eb * bvg) % r));
            assert(span_w@ == gt_power((bwg * ew) % r));
            assert(span_y@ == gt_power((ey * byg) % r));
            lemma_mod_bound(eb * bvg, r);
            lemma_mod_bound(bwg * ew, r);
            lemma_mod_bound(ey * byg, r);
            lemma_mod_bound((eb * bvg) % r + (bwg * ew) % r, r);
            assert(span_vw@ == gt_power(((eb * bvg) % r + (bwg * ew) % r) % r));
            assert(span_right@ == gt_power((((eb * bvg) % r + (bwg * ew) % r) % r + (ey * byg) % r) % r));
            lemma_span_exponents(eb, ew, ey, td.beta_v@, td.beta_w@, td.beta_y@, td.gamma@);
            assert(check_span);
        }
        assert forall|
            st: Seq<int>,
            td: Ggpr13Trapdoor,
            v_io: Seq<int>,
            v_mid: Seq<int>,
            w: Seq<int>,
            y: Seq<int>,
            h: Seq<int>,
        |
            td.wf() && #[trigger] ggpr13_key_of(st, td, *vk) && #[trigger] ggpr13_proof_of(
                v_mid,
                w,
                y,
                h,
                td,
                *pf,
            ) && proof_v_io@ == g1_scalar_mul(g1_generator_bytes(), #[trigger] eval(v_io, td.s@)) implies (b
            <==> ggpr13_qap_check(
            eval(poly_add(v_io, v_mid), td.s@),
            eval(w, td.s@),
            eval(y, td.s@),
            eval(h, td.s@),
            eval(st, td.s@),
        )) by {
            let r = fr_modulus();
            let s = td.s@;
            let al = td.alpha@;
            let ea = eval(v_io, s);
            let eb = eval(v_mid, s);
            let ew = eval(w, s);
            let ey = eval(y, s);
            let eh = eval(h, s);
            let et = eval(st, s);
            lemma_eval_range(v_io, s);
            lemma_eval_range(v_mid, s);
            lemma_eval_range(w, s);
            lemma_eval_range(y, s);
            lemma_eval_range(h, s);
            lemma_eval_range(st, s);
            lemma_eval_range(poly_add(v_io, v_mid), s);
            lemma_eval_poly_add(v_io, v_mid, s);
            lemma_cong_mod(eb * al);
            lemma_cong_mod(ew * al);
            lemma_cong_mod(ey * al);
            lemma_cong_mod(eh * al);
            lemma_cong_mod(td.beta_v@ * td.gamma@);
            lemma_cong_mod(td.beta_w@ * td.gamma@);
            lemma_cong_mod(td.beta_y@ * td.gamma@);
            // the QAP check, on the exponents
            assert(qap_left@ == gt_power((((ea + eb) % r) * ew) % r));
            assert(qap_h@ == gt_power((eh * et) % r));
            assert(qap_y@ == gt_power((ey * 1) % r));
            lemma_mod_bound(eh * et, r);
            lemma_mod_bound(ey * 1, r);
            assert(qap_right@ == gt_power(((eh * et) % r + (ey * 1) % r) % r));
            // the alpha checks
            lemma_mul_one_mod((eb * al) % r);
            lemma_mul_one_mod((ew * al) % r);
            lemma_mul_one_mod((ey * al) % r);
            lemma_mul_one_mod((eh * al) % r);
            assert(av_left@ == gt_power(((eb * al) % r * 1) % r));
            assert(av_right@ == gt_power((eb * al) % r));
            assert(check_alpha_v);
            assert(aw_left@ == gt_power(((ew * al) % r * 1) % r));
            lemma_mul_is_commutative(al, ew);
            assert(aw_right@ == gt_power((al * ew) % r));
            assert(check_alpha_w);
            assert(ay_left@ == gt_power(((ey * al) % r * 1) % r));
            assert(check_alpha_y);
            assert(ah_left@ == gt_power(((eh * al) % r * 1) % r));
            assert(check_alpha_h);
            // the span check
            let bvg = (td.beta_v@ * td.gamma@) % r;
            let bwg = (td.beta_w@ * td.gamma@) % r;
            let byg = (td.beta_y@ * td.gamma@) % r;
            let z = (((td.beta_v@ * eb) % r + (td.beta_w@ * ew) % r) % r + (td.beta_y@ * ey) % r) % r;
            lemma_mod_bound(((td.beta_v@ * eb) % r + (td.beta_w@ * ew) % r) % r + (td.beta_y@ * ey) % r, r);
            assert(span_left@ == gt_power((z * td.gamma@) % r));
            assert(span_v@ == gt_power((eb * bvg) % r));
            assert(span_w@ == gt_power((bwg * ew) % r));
            assert(span_y@ == gt_power((ey * byg) % r));
            lemma_mod_bound(eb * bvg, r);
            lemma_mod_bound(bwg * ew, r);
            lemma_mod_bound(ey * byg, r);
            lemma_mod_bound((eb * bvg) % r + (bwg * ew) % r, r);
            assert(span_vw@ == gt_power(((eb * bvg) % r + (bwg * ew) % r) % r));
            assert(span_right@ == gt_power((((eb * bvg) % r + (bwg * ew) % r) % r + (ey * byg) % r) % r));
            lemma_span_exponents(eb, ew, ey, td.beta_v@, td.beta_w@, td.beta_y@, td.gamma@);
            assert(check_span);
        }
    }
    b
}

/// `(x * 1) mod r` is `x` for a reduced `x`.
proof fn lemma_mul_one_mod(x: int)
    requires
        0 <= x < fr_modulus(),
    ensures
        (x * 1) % fr_modulus() == x,
{
    vstd::arithmetic::div_mod::lemma_small_mod(x as nat, fr_modulus() as nat);
}

/// The span check's exponents agree: with
/// `z = beta_v * v + beta_w * w + beta_y * y`, `z * gamma` is
/// `v * (beta_v gamma) + (beta_w gamma) * w + y * (beta_y gamma)`, all
/// reduced modulo the field order.
proof fn lemma_span_exponents(v: int, w: int, y: int, bv: int, bw: int, by: int, g: int)
    ensures
        ((((bv * v) % fr_modulus() + (bw * w) % fr_modulus()) % fr_modulus() + (by * y) % fr_modulus())
            % fr_modulus() * g) % fr_modulus() == ((((v * ((bv * g) % fr_modulus())) % fr_modulus() + ((
        (bw * g) % fr_modulus()) * w) % fr_modulus()) % fr_modulus() + (y * ((by * g) % fr_modulus()))
            % fr_modulus()) % fr_modulus()),
{
    let r = fr_modulus();
    let zsum = bv * v + bw * w + by * y;
    let z = (((bv * v) % r + (bw * w) % r) % r + (by * y) % r) % r;
    // z ~ zsum
    lemma_cong_mod(bv * v);
    lemma_cong_mod(bw * w);
    lemma_cong_mod(by * y);
    lemma_cong_add((bv * v) % r, bv * v, (bw * w) % r, bw * w);
    lemma_cong_mod((bv * v) % r + (bw * w) % r);
    lemma_cong_add(((bv * v) % r + (bw * w) % r) % r, bv * v + bw * w, (by * y) % r, by * y);
    lemma_cong_mod(((bv * v) % r + (bw * w) % r) % r + (by * y) % r);
    assert(cong(z, zsum));
    lemma_cong_mul(z, zsum, g, g);
    // the right side ~ zsum * g
    lemma_cong_mod(bv * g);
    lemma_cong_mod(bw * g);
    lemma_cong_mod(by * g);
    lemma_cong_mul(v, v, (bv * g) % r, bv * g);
    lemma_cong_mul((bw * g) % r, bw * g, w, w);
    lemma_cong_mul(y, y, (by * g) % r, by * g);
    let x1 = v * ((bv * g) % r);
    let x2 = ((bw * g) % r) * w;
    let x3 = y * ((by * g) % r);
    lemma_cong_mod(x1);
    lemma_cong_mod(x2);
    lemma_cong_mod(x3);
    lemma_cong_add(x1 % r, v * (bv * g), x2 % r, (bw * g) * w);
    lemma_cong_mod(x1 % r + x2 % r);
    lemma_cong_add((x1 % r + x2 % r) % r, v * (bv * g) + (bw * g) * w, x3 % r, y * (by * g));
    lemma_cong_mod((x1 % r + x2 % r) % r + x3 % r);
    lemma_mul_is_distributive_add_other_way(g, bv * v + bw * w, by * y);
    lemma_mul_is_distributive_add_other_way(g, bv * v, bw * w);
    assert((bv * v) * g == v * (bv * g)) by (nonlinear_arith);
    assert((bw * w) * g == (bw * g) * w) by (nonlinear_arith);
    assert((by * y) * g == y * (by * g)) by (nonlinear_arith);
    lemma_cong_mod(z * g);
    lemma_mod_bound(z * g, r);
    lemma_mod_bound((x1 % r + x2 % r) % r + x3 % r, r);
    lemma_cong_reduced_eq((z * g) % r, ((x1 % r + x2 % r) % r + x3 % r) % r);
}

/// The prover's product `(v_io + v_mid) * w` fits an FFT domain.
pub open spec fn strong_product_fits(
    sv: Seq<Seq<int>>,
    sw: Seq<Seq<int>>,
    sy: Seq<Seq<int>>,
    ws: Seq<int>,
    num_vars: int,
    num_io: int,
) -> bool {
    let c = strong_combinations(sv, sw, sy, ws, num_vars, num_io);
    poly_add(c.0, c.1).len() + c.2.len() <= max_product_terms()
}

/// The outcome of setup, prove and verify over the strong QAP `sv, sw, sy,
/// st` with trapdoor `td`: when the product `(v_io + v_mid) * w` fits an FFT
/// domain, `valid` is the verifier's verdict on the honest proof for the
/// key of `td` and the quotient `h` (remainder `rem`) of `v * w - y` by `st`,
/// which is its QAP check on the exponents (`ggpr13_qap_check`), and it holds
/// whenever the remainder is zero; otherwise `valid` is false.
pub open spec fn ggpr13_outcome(
    sv: Seq<Seq<int>>,
    sw: Seq<Seq<int>>,
    sy: Seq<Seq<int>>,
    st: Seq<int>,
    ws: Seq<int>,
    num_vars: int,
    num_io: int,
    td: Ggpr13Trapdoor,
    valid: bool,
) -> bool {
    let c = strong_combinations(sv, sw, sy, ws, num_vars, num_io);
    if !strong_product_fits(sv, sw, sy, ws, num_vars, num_io) {
        !valid
    } else {
        exists|vk: Ggpr13Key, pf: Ggpr13Proof, h: Seq<int>, rem: Seq<int>|
            {
                &&& #[trigger] ggpr13_key_of(st, td, vk)
                &&& #[trigger] is_division(poly_sub(poly_mul(poly_add(c.0, c.1), c.2), c.3), st, h, rem)
                &&& #[trigger] ggpr13_proof_of(c.1, c.2, c.3, h, td, pf)
                &&& valid == ggpr13_check(vk, pf, g1_scalar_mul(g1_generator_bytes(), eval(c.0, td.s@)))
                &&& valid == ggpr13_qap_check(
                    eval(poly_add(c.0, c.1), td.s@),
                    eval(c.2, td.s@),
                    eval(c.3, td.s@),
                    eval(h, td.s@),
                    eval(st, td.s@),
                )
                &&& rem.len() == 0 ==> valid
            }
    }
}

/// Setup, prove and verify over a strong QAP with a given trapdoor, timing
/// the three phases (the setup from `setup_start`). With a strong target
/// that divides `v * w - y`, the run succeeds whenever the product fits an
/// FFT domain.
pub fn run_protocol(
    str_v: &[Poly],
    str_w: &[Poly],
    str_y: &[Poly],
    str_t: &Poly,
    witness: &[Scalar],
    num_vars: usize,
    num_io: usize,
    td: &Ggpr13Trapdoor,
    setup_start: &Instant,
) -> (r: (Duration, Duration, Duration, bool))
    requires
        str_v@.len() >= num_vars,
        str_w@.len() >= num_vars,
        str_y@.len() >= num_vars,
        witness@.len() >= num_vars,
        forall|k: int| 0 <= k < num_vars ==> (#[trigger] str_v@[k]).wf() && is_trimmed(str_v@[k]@),
        forall|k: int| 0 <= k < num_vars ==> (#[trigger] str_w@[k]).wf() && is_trimmed(str_w@[k]@),
        forall|k: int| 0 <= k < num_vars ==> (#[trigger] str_y@[k]).wf() && is_trimmed(str_y@[k]@),
        forall|k: int| 0 <= k < num_vars ==> (#[trigger] witness@[k]).wf(),
        str_t.wf(),
        is_trimmed(str_t@),
        str_t@.len() > 0,
        td.wf(),
    ensures
        lead_invertible(str_t@),
        ggpr13_outcome(
            polys_view(str_v@),
            polys_view(str_w@),
            polys_view(str_y@),
            str_t@,
            scalar_values(witness@),
            num_vars as int,
            num_io as int,
            *td,
            r.3,
        ),
        ({
            let c = strong_combinations(
                polys_view(str_v@),
                polys_view(str_w@),
                polys_view(str_y@),
                scalar_values(witness@),
                num_vars as int,
                num_io as int,
            );
            poly_add(c.0, c.1).len() + c.2.len() <= max_product_terms() && divides(
                str_t@,
                poly_sub(poly_mul(poly_add(c.0, c.1), c.2), c.3),
            ) ==> r.3
        }),
{
    let ghost c = strong_combinations(
        polys_view(str_v@),
        polys_view(str_w@),
        polys_view(str_y@),
        scalar_values(witness@),
        num_vars as int,
        num_io as int,
    );
    let vk = setup(str_t, td);
    let setup_duration = elapsed_since(setup_start);

    let prove_start = instant_now();
    // The division inverts the target's leading coefficient; that inverse is
    // what makes its quotient and remainder unique.
    let _lead_inverse = leading_inverse(str_t);
    let outcome = prove(str_v, str_w, str_y, str_t, witness, num_vars, num_io, td);
    let prove_duration = elapsed_since(&prove_start);
    let (pf, v_io_x) = match outcome {
        Some(out) => out,
        None => {
            let ret = (setup_duration, prove_duration, zero_duration(), false);
            assert(!ret.3);
            return ret;
        },
    };

    proof {
        lemma_lin_comb_shape(
            polys_view(str_v@),
            scalar_values(witness@),
            0,
            io_count(num_io as int, num_vars as int),
        );
    }
    let verify_start = instant_now();
    let g1 = g1_generator();
    let v_io_s = poly_evaluate_op(&v_io_x, &td.s);
    let proof_v_io = g1_mul(&g1, &v_io_s);
    let is_valid = verify(&vk, &pf, &proof_v_io);
    let verify_duration = elapsed_since(&verify_start);
    proof {
        let (h, rem) = choose|h: Seq<int>, rem: Seq<int>|
            #[trigger] is_division(poly_sub(poly_mul(poly_add(c.0, c.1), c.2), c.3), str_t@, h, rem)
                && ggpr13_proof_of(c.1, c.2, c.3, h, *td, pf);
        assert(ggpr13_key_of(str_t@, *td, vk));
        if rem.len() == 0 {
            assert(rem =~= Seq::<int>::empty());
            assert(is_valid);
        }
        let p = poly_sub(poly_mul(poly_add(c.0, c.1), c.2), c.3);
        if divides(str_t@, p) {
            let h0 = choose|h0: Seq<int>| #[trigger] is_division(p, str_t@, h0, seq![]);
            lemma_division_unique(p, str_t@, h0, seq![], h, rem);
            assert(rem =~= Seq::<int>::empty());
            assert(is_valid);
        }
        assert(is_division(poly_sub(poly_mul(poly_add(c.0, c.1), c.2), c.3), str_t@, h, rem));
    }
    let ret = (setup_duration, prove_duration, verify_duration, is_valid);
    assert(ret.3 == is_valid);
    ret
}

/// One complete honest run that ends in acceptance: the strong QAP for the
/// points `pts`, the key for the trapdoor, the quotient `h` (remainder `rem`)
/// and the proof, and the verifier's checks hold.
pub open spec fn ggpr13_accepting_run(
    v: Seq<Seq<int>>,
    w: Seq<Seq<int>>,
    y: Seq<Seq<int>>,
    t: Seq<int>,
    ws: Seq<int>,
    num_vars: int,
    num_io: int,
    pts: Seq<int>,
    sv: Seq<Seq<int>>,
    sw: Seq<Seq<int>>,
    sy: Seq<Seq<int>>,
    st: Seq<int>,
    td: Ggpr13Trapdoor,
    vk: Ggpr13Key,
    pf: Ggpr13Proof,
    h: Seq<int>,
    rem: Seq<int>,
) -> bool {
    let c = strong_combinations(sv, sw, sy, ws, num_vars, num_io);
    &&& pts.len() == 2 * (num_vars - 1)
    &&& all_distinct(pts)
    &&& is_strong_qap(v, w, y, t, num_vars - 1, pts, sv, sw, sy, st)
    &&& td.wf()
    &&& ggpr13_key_of(st, td, vk)
    &&& is_division(poly_sub(poly_mul(poly_add(c.0, c.1), c.2), c.3), st, h, rem)
    &&& ggpr13_proof_of(c.1, c.2, c.3, h, td, pf)
    &&& ggpr13_check(vk, pf, g1_scalar_mul(g1_generator_bytes(), eval(c.0, td.s@)))
}

/// The trapdoor's six values are the `test_rng` draws that follow the first
/// `used` ones (from which the extra points came); `used` is capped so that
/// the six positions fit in a `usize`.
pub open spec fn trapdoor_drawn(td: Ggpr13Trapdoor, used: int) -> bool {
    let skip = if used <= usize::MAX - 6 { used } else { usize::MAX - 6 };
    let d = test_rng_draws((skip + 6) as nat);
    &&& td.s@ == d[skip]
    &&& td.alpha@ == d[skip + 1]
    &&& td.beta_v@ == d[skip + 2]
    &&& td.beta_w@ == d[skip + 3]
    &&& td.beta_y@ == d[skip + 4]
    &&& td.gamma@ == d[skip + 5]
}

/// The verdict `valid` of a GGPR13 run with the `test_rng` draws: when no
/// prefix of the draws gives the extra points (`sufficient_draws`), it is
/// false; otherwise it is the outcome of the protocol (`ggpr13_outcome`)
/// over the strong QAP for the points of the first `used` draws and the
/// trapdoor drawn after them, and it holds when the witness starts with 1,
/// the target divides its regular `v * w - y`, and the prover's product over
/// that strong QAP fits an FFT domain.
pub open spec fn ggpr13_run_outcome(
    v: Seq<Seq<int>>,
    w: Seq<Seq<int>>,
    y: Seq<Seq<int>>,
    t: Seq<int>,
    ws: Seq<int>,
    num_vars: int,
    num_io: int,
    valid: bool,
) -> bool {
    match sufficient_draws(t, 2 * (num_vars - 1), 2 * (num_vars - 1)) {
        None => !valid,
        Some(used) => exists|sv: Seq<Seq<int>>, sw: Seq<Seq<int>>, sy: Seq<Seq<int>>, st: Seq<int>, td: Ggpr13Trapdoor|
            {
                &&& #[trigger] strong_qap_for_points(
                    v,
                    w,
                    y,
                    t,
                    num_vars,
                    drawn_points(t, num_vars, used),
                    sv,
                    sw,
                    sy,
                    st,
                )
                &&& trapdoor_drawn(td, used)
                &&& td.wf()
                &&& #[trigger] ggpr13_outcome(sv, sw, sy, st, ws, num_vars, num_io, td, valid)
                &&& ws[0] == 1 && divides(t, qap_poly(v, w, y, ws, num_vars)) && strong_product_fits(
                    sv,
                    sw,
                    sy,
                    ws,
                    num_vars,
                    num_io,
                ) ==> valid
            },
    }
}

/// Completeness of GGPR13: over the strong QAP of a target with an
/// invertible leading coefficient (in the field, any non-zero target) for
/// extra points that are distinct, not roots of `t` and with invertible
/// Lagrange factors, a witness whose first entry is 1 and whose regular `v * w - y`
/// is divisible by `t` is accepted, for every trapdoor, whenever the
/// prover's product fits an FFT domain.
pub proof fn lemma_ggpr13_complete(
    v: Seq<Seq<int>>,
    w: Seq<Seq<int>>,
    y: Seq<Seq<int>>,
    t: Seq<int>,
    ws: Seq<int>,
    num_vars: int,
    num_io: int,
    pts: Seq<int>,
    sv: Seq<Seq<int>>,
    sw: Seq<Seq<int>>,
    sy: Seq<Seq<int>>,
    st: Seq<int>,
    td: Ggpr13Trapdoor,
    valid: bool,
)
    requires
        num_vars >= 1,
        num_io >= 0,
        strong_qap_for_points(v, w, y, t, num_vars, pts, sv, sw, sy, st),
        ggpr13_outcome(sv, sw, sy, st, ws, num_vars, num_io, td, valid),
        is_canonical(t),
        is_trimmed(t),
        lead_invertible(t),
        ws.len() >= num_vars,
        forall|k: int| 0 <= k < num_vars ==> 0 <= #[trigger] ws[k] < fr_modulus(),
        ws[0] == 1,
        divides(t, qap_poly(v, w, y, ws, num_vars)),
        strong_product_fits(sv, sw, sy, ws, num_vars, num_io),
    ensures
        valid,
{
    let m = num_vars - 1;
    let c = strong_combinations(sv, sw, sy, ws, num_vars, num_io);
    lemma_points_invertible(t, pts);
    lemma_first_entry_one(ws, m);
    lemma_strong_qap_divides(v, w, y, t, m, pts, sv, sw, sy, st, ws);
    lemma_extended_target_shape(t, pts, 2 * m);
    let k = io_count(num_io, num_vars);
    lemma_lin_comb_split(sv, ws, k, num_vars);
    assert(lin_comb(sv, ws, num_io, num_vars) == lin_comb(sv, ws, k, num_vars));
    let p = poly_sub(poly_mul(poly_add(c.0, c.1), c.2), c.3);
    assert(p == qap_poly(sv, sw, sy, ws, num_vars));
    let (vk, pf, h, rem) = choose|vk: Ggpr13Key, pf: Ggpr13Proof, h: Seq<int>, rem: Seq<int>|
        {
            &&& #[trigger] ggpr13_key_of(st, td, vk)
            &&& #[trigger] is_division(p, st, h, rem)
            &&& #[trigger] ggpr13_proof_of(c.1, c.2, c.3, h, td, pf)
            &&& valid == ggpr13_check(vk, pf, g1_scalar_mul(g1_generator_bytes(), eval(c.0, td.s@)))
            &&& rem.len() == 0 ==> valid
        };
    let h0 = choose|h0: Seq<int>| #[trigger] is_division(p, st, h0, seq![]);
    lemma_division_unique(p, st, h0, seq![], h, rem);
}

/// `v_io + v_mid` is the whole `v` combination, whatever the split.
proof fn lemma_split_sum(sv: Seq<Seq<int>>, sw: Seq<Seq<int>>, sy: Seq<Seq<int>>, ws: Seq<int>, num_vars: int, num_io: int)
    requires
        num_vars >= 0,
        num_io >= 0,
    ensures
        ({
            let c = strong_combinations(sv, sw, sy, ws, num_vars, num_io);
            poly_add(c.0, c.1) == lin_comb(sv, ws, 0, num_vars)
        }),
{
    let k = io_count(num_io, num_vars);
    lemma_lin_comb_split(sv, ws, k, num_vars);
    assert(lin_comb(sv, ws, num_io, num_vars) == lin_comb(sv, ws, k, num_vars));
}

/// The outcome of the protocol over a strong QAP whose target has an
/// invertible leading coefficient is determined by the QAP, the witness and
/// the trapdoor's values: not by the split into input/output and the rest.
proof fn lemma_outcome_unique(
    sv: Seq<Seq<int>>,
    sw: Seq<Seq<int>>,
    sy: Seq<Seq<int>>,
    st: Seq<int>,
    ws: Seq<int>,
    num_vars: int,
    num_io1: int,
    num_io2: int,
    td1: Ggpr13Trapdoor,
    td2: Ggpr13Trapdoor,
    valid1: bool,
    valid2: bool,
)
    requires
        num_vars >= 0,
        num_io1 >= 0,
        num_io2 >= 0,
        lead_invertible(st),
        ggpr13_outcome(sv, sw, sy, st, ws, num_vars, num_io1, td1, valid1),
        ggpr13_outcome(sv, sw, sy, st, ws, num_vars, num_io2, td2, valid2),
        td1.s@ == td2.s@,
    ensures
        valid1 == valid2,
{
    let c1 = strong_combinations(sv, sw, sy, ws, num_vars, num_io1);
    let c2 = strong_combinations(sv, sw, sy, ws, num_vars, num_io2);
    lemma_split_sum(sv, sw, sy, ws, num_vars, num_io1);
    lemma_split_sum(sv, sw, sy, ws, num_vars, num_io2);
    assert(poly_add(c1.0, c1.1) == poly_add(c2.0, c2.1));
    if strong_product_fits(sv, sw, sy, ws, num_vars, num_io1) {
        let p = poly_sub(poly_mul(poly_add(c1.0, c1.1), c1.2), c1.3);
        let (vk1, pf1, h1, rem1) = choose|vk: Ggpr13Key, pf: Ggpr13Proof, h: Seq<int>, rem: Seq<int>|
            {
                &&& #[trigger] ggpr13_key_of(st, td1, vk)
                &&& #[trigger] is_division(p, st, h, rem)
                &&& #[trigger] ggpr13_proof_of(c1.1, c1.2, c1.3, h, td1, pf)
                &&& valid1 == ggpr13_check(vk, pf, g1_scalar_mul(g1_generator_bytes(), eval(c1.0, td1.s@)))
                &&& valid1 == ggpr13_qap_check(
                    eval(poly_add(c1.0, c1.1), td1.s@),
                    eval(c1.2, td1.s@),
                    eval(c1.3, td1.s@),
                    eval(h, td1.s@),
                    eval(st, td1.s@),
                )
                &&& rem.len() == 0 ==> valid1
            };
        let (vk2, pf2, h2, rem2) = choose|vk: Ggpr13Key, pf: Ggpr13Proof, h: Seq<int>, rem: Seq<int>|
            {
                &&& #[trigger] ggpr13_key_of(st, td2, vk)
                &&& #[trigger] is_division(p, st, h, rem)
                &&& #[trigger] ggpr13_proof_of(c2.1, c2.2, c2.3, h, td2, pf)
                &&& valid2 == ggpr13_check(vk, pf, g1_scalar_mul(g1_generator_bytes(), eval(c2.0, td2.s@)))
                &&& valid2 == ggpr13_qap_check(
                    eval(poly_add(c2.0, c2.1), td2.s@),
                    eval(c2.2, td2.s@),
                    eval(c2.3, td2.s@),
                    eval(h, td2.s@),
                    eval(st, td2.s@),
                )
                &&& rem.len() == 0 ==> valid2
            };
        lemma_division_unique(p, st, h1, rem1, h2, rem2);
    }
}

/// The GGPR13 verdict is determined by its arguments: for a target with an
/// invertible leading coefficient (in the field, any non-zero target), runs
/// over regular QAPs that agree on their first `num_vars` polynomials, with
/// witnesses that agree on their first `num_vars` entries, have the same
/// verdict, whatever the number of input/output entries. The entries past
/// `num_vars` make no difference, nor does the number of gates, on which
/// the verdict does not depend.
pub proof fn lemma_ggpr13_verdict_determined(
    v1: Seq<Seq<int>>,
    w1: Seq<Seq<int>>,
    y1: Seq<Seq<int>>,
    ws1: Seq<int>,
    v2: Seq<Seq<int>>,
    w2: Seq<Seq<int>>,
    y2: Seq<Seq<int>>,
    ws2: Seq<int>,
    t: Seq<int>,
    num_vars: int,
    num_io1: int,
    num_io2: int,
    valid1: bool,
    valid2: bool,
)
    requires
        num_vars >= 1,
        num_io1 >= 0,
        num_io2 >= 0,
        is_canonical(t),
        is_trimmed(t),
        lead_invertible(t),
        forall|k: int| 0 <= k < num_vars ==> #[trigger] v1[k] == v2[k],
        forall|k: int| 0 <= k < num_vars ==> #[trigger] w1[k] == w2[k],
        forall|k: int| 0 <= k < num_vars ==> #[trigger] y1[k] == y2[k],
        forall|k: int| 0 <= k < num_vars ==> #[trigger] ws1[k] == ws2[k],
        ggpr13_run_outcome(v1, w1, y1, t, ws1, num_vars, num_io1, valid1),
        ggpr13_run_outcome(v2, w2, y2, t, ws2, num_vars, num_io2, valid2),
    ensures
        valid1 == valid2,
{
    let m = num_vars - 1;
    if let Some(used) = sufficient_draws(t, 2 * m, 2 * m) {
        let pts = drawn_points(t, num_vars, used);
        let (sv1, sw1, sy1, st1, td1) = choose|
            sv: Seq<Seq<int>>,
            sw: Seq<Seq<int>>,
            sy: Seq<Seq<int>>,
            st: Seq<int>,
            td: Ggpr13Trapdoor,
        |
            {
                &&& #[trigger] strong_qap_for_points(v1, w1, y1, t, num_vars, pts, sv, sw, sy, st)
                &&& trapdoor_drawn(td, used)
                &&& td.wf()
                &&& #[trigger] ggpr13_outcome(sv, sw, sy, st, ws1, num_vars, num_io1, td, valid1)
                &&& ws1[0] == 1 && divides(t, qap_poly(v1, w1, y1, ws1, num_vars)) && strong_product_fits(
                    sv,
                    sw,
                    sy,
                    ws1,
                    num_vars,
                    num_io1,
                ) ==> valid1
            };
        let (sv2, sw2, sy2, st2, td2) = choose|
            sv: Seq<Seq<int>>,
            sw: Seq<Seq<int>>,
            sy: Seq<Seq<int>>,
            st: Seq<int>,
            td: Ggpr13Trapdoor,
        |
            {
                &&& #[trigger] strong_qap_for_points(v2, w2, y2, t, num_vars, pts, sv, sw, sy, st)
                &&& trapdoor_drawn(td, used)
                &&& td.wf()
                &&& #[trigger] ggpr13_outcome(sv, sw, sy, st, ws2, num_vars, num_io2, td, valid2)
                &&& ws2[0] == 1 && divides(t, qap_poly(v2, w2, y2, ws2, num_vars)) && strong_product_fits(
                    sv,
                    sw,
                    sy,
                    ws2,
                    num_vars,
                    num_io2,
                ) ==> valid2
            };
        lemma_strong_qap_unique(v1, w1, y1, v2, w2, y2, t, m, pts, sv1, sw1, sy1, st1, sv2, sw2, sy2, st2);
        lemma_extended_target_shape(t, pts, 2 * m);
        let k2 = io_count(num_io2, num_vars);
        lemma_lin_comb_weights(sv1, ws1, ws2, 0, k2);
        lemma_lin_comb_weights(sv1, ws1, ws2, num_io2, num_vars);
        lemma_lin_comb_weights(sw1, ws1, ws2, 0, num_vars);
        lemma_lin_comb_weights(sy1, ws1, ws2, 0, num_vars);
        assert(strong_combinations(sv1, sw1, sy1, ws1, num_vars, num_io2) == strong_combinations(
            sv1,
            sw1,
            sy1,
            ws2,
            num_vars,
            num_io2,
        ));
        assert(ggpr13_outcome(sv1, sw1, sy1, st1, ws1, num_vars, num_io2, td2, valid2));
        lemma_outcome_unique(sv1, sw1, sy1, st1, ws1, num_vars, num_io1, num_io2, td1, td2, valid1, valid2);
    }
}

/// The two protocols agree on witnesses the regular QAP accepts: for a
/// witness whose first entry is 1, when Pinocchio's verdict is whether the
/// target divides `v * w - y` (as its `run_benchmark` states), a Pinocchio
/// acceptance is matched by the
/// GGPR13 run's, unless the draws give no extra points or the GGPR13
/// prover's product over its strong QAP does not fit an FFT domain.
pub proof fn lemma_protocols_agree_on_accepted(
    v: Seq<Seq<int>>,
    w: Seq<Seq<int>>,
    y: Seq<Seq<int>>,
    t: Seq<int>,
    ws: Seq<int>,
    num_vars: int,
    num_io: int,
    pinocchio_valid: bool,
    ggpr13_valid: bool,
)
    requires
        ws[0] == 1,
        pinocchio_valid <==> divides(t, qap_poly(v, w, y, ws, num_vars)),
        ggpr13_run_outcome(v, w, y, t, ws, num_vars, num_io, ggpr13_valid),
    ensures
        pinocchio_valid ==> ggpr13_valid || sufficient_draws(t, 2 * (num_vars - 1), 2 * (num_vars - 1))
            is None || exists|sv: Seq<Seq<int>>, sw: Seq<Seq<int>>, sy: Seq<Seq<int>>, st: Seq<int>|
            {
                &&& #[trigger] strong_qap_for_points(
                    v,
                    w,
                    y,
                    t,
                    num_vars,
                    drawn_points(t, num_vars, sufficient_draws(t, 2 * (num_vars - 1), 2 * (num_vars - 1))->0),
                    sv,
                    sw,
                    sy,
                    st,
                )
                &&& !strong_product_fits(sv, sw, sy, ws, num_vars, num_io)
            },
{
    if let Some(used) = sufficient_draws(t, 2 * (num_vars - 1), 2 * (num_vars - 1)) {
        let pts = drawn_points(t, num_vars, used);
        let (sv, sw, sy, st, td) = choose|
            sv: Seq<Seq<int>>,
            sw: Seq<Seq<int>>,
            sy: Seq<Seq<int>>,
            st: Seq<int>,
            td: Ggpr13Trapdoor,
        |
            {
                &&& #[trigger] strong_qap_for_points(v, w, y, t, num_vars, pts, sv, sw, sy, st)
                &&& trapdoor_drawn(td, used)
                &&& td.wf()
                &&& #[trigger] ggpr13_outcome(sv, sw, sy, st, ws, num_vars, num_io, td, ggpr13_valid)
                &&& ws[0] == 1 && divides(t, qap_poly(v, w, y, ws, num_vars)) && strong_product_fits(
                    sv,
                    sw,
                    sy,
                    ws,
                    num_vars,
                    num_io,
                ) ==> ggpr13_valid
            };
        assert(strong_qap_for_points(v, w, y, t, num_vars, pts, sv, sw, sy, st));
    }
}

/// The outcome of a run over a strong QAP, with its completeness clause.
proof fn lemma_run_outcome(
    v: Seq<Seq<int>>,
    w: Seq<Seq<int>>,
    y: Seq<Seq<int>>,
    t: Seq<int>,
    ws: Seq<int>,
    num_vars: int,
    num_io: int,
    pts: Seq<int>,
    sv: Seq<Seq<int>>,
    sw: Seq<Seq<int>>,
    sy: Seq<Seq<int>>,
    st: Seq<int>,
    td: Ggpr13Trapdoor,
    valid: bool,
    used: int,
)
    requires
        num_vars >= 1,
        num_io >= 0,
        sufficient_draws(t, 2 * (num_vars - 1), 2 * (num_vars - 1)) == Some(used),
        pts == drawn_points(t, num_vars, used),
        trapdoor_drawn(td, used),
        strong_qap_for_points(v, w, y, t, num_vars, pts, sv, sw, sy, st),
        td.wf(),
        lead_invertible(t),
        ggpr13_outcome(sv, sw, sy, st, ws, num_vars, num_io, td, valid),
        is_canonical(t),
        is_trimmed(t),
        ws.len() >= num_vars,
        forall|k: int| 0 <= k < num_vars ==> 0 <= #[trigger] ws[k] < fr_modulus(),
    ensures
        ggpr13_run_outcome(v, w, y, t, ws, num_vars, num_io, valid),
{
    if ws[0] == 1 && divides(t, qap_poly(v, w, y, ws, num_vars)) && strong_product_fits(
        sv,
        sw,
        sy,
        ws,
        num_vars,
        num_io,
    ) {
        lemma_ggpr13_complete(v, w, y, t, ws, num_vars, num_io, pts, sv, sw, sy, st, td, valid);
    }
    assert(strong_qap_for_points(v, w, y, t, num_vars, drawn_points(t, num_vars, used), sv, sw, sy, st));
    assert(ggpr13_outcome(sv, sw, sy, st, ws, num_vars, num_io, td, valid));
    let o = sufficient_draws(t, 2 * (num_vars - 1), 2 * (num_vars - 1));
    assert(o is Some && o->0 == used);
}

/// Runs the strong-QAP preprocessing, setup, prove and verify with values
/// drawn from `ark_std::test_rng()`, timing each phase; the last duration is
/// the preprocessing. The extra points come from the first `used` draws
/// (`sufficient_draws`) and the trapdoor from the six draws after them. The
/// verdict is false when the draws give no extra points, and otherwise the
/// outcome of the protocol over the strong QAP for those points and that
/// trapdoor (`ggpr13_run_outcome`), which accepts a witness whose first
/// entry is 1 and whose regular `v * w - y` the target divides whenever the
/// prover's product fits an FFT domain. A reported success comes from an
/// accepting honest run.
pub fn run_benchmark(
    v_polys: &[Poly],
    w_polys: &[Poly],
    y_polys: &[Poly],
    t_poly: &Poly,
    witness: &[Scalar],
    _num_gates: usize,
    num_vars: usize,
    num_io: usize,
) -> (r: (Duration, Duration, Duration, bool, Duration))
    requires
        num_vars >= 1,
        v_polys@.len() >= num_vars,
        w_polys@.len() >= num_vars,
        y_polys@.len() >= num_vars,
        witness@.len() >= num_vars,
        forall|k: int| 0 <= k < num_vars ==> (#[trigger] v_polys@[k]).wf() && is_trimmed(v_polys@[k]@),
        forall|k: int| 0 <= k < num_vars ==> (#[trigger] w_polys@[k]).wf() && is_trimmed(w_polys@[k]@),
        forall|k: int| 0 <= k < num_vars ==> (#[trigger] y_polys@[k]).wf() && is_trimmed(y_polys@[k]@),
        forall|k: int| 0 <= k < num_vars ==> (#[trigger] witness@[k]).wf(),
        t_poly.wf(),
        is_trimmed(t_poly@),
        t_poly@.len() > 0,
        t_poly@.len() + 2 * (num_vars - 1) + 1 <= max_product_terms(),
    ensures
        ggpr13_run_outcome(
            polys_view(v_polys@),
            polys_view(w_polys@),
            polys_view(y_polys@),
            t_poly@,
            scalar_values(witness@),
            num_vars as int,
            num_io as int,
            r.3,
        ),
        scalar_values(witness@)[0] == 1 && divides(
            t_poly@,
            qap_poly(
                polys_view(v_polys@),
                polys_view(w_polys@),
                polys_view(y_polys@),
                scalar_values(witness@),
                num_vars as int,
            ),
        ) && (exists|n: nat|
            n <= usize::MAX / 2 && (#[trigger] scan_points(t_poly@, test_rng_draws(n), 2 * (num_vars - 1))).len()
                == 2 * (num_vars - 1)) ==> r.3 || exists|
            pts: Seq<int>,
            sv: Seq<Seq<int>>,
            sw: Seq<Seq<int>>,
            sy: Seq<Seq<int>>,
            st: Seq<int>,
        |
            #[trigger] strong_qap_for_points(
                polys_view(v_polys@),
                polys_view(w_polys@),
                polys_view(y_polys@),
                t_poly@,
                num_vars as int,
                pts,
                sv,
                sw,
                sy,
                st,
            ) && !strong_product_fits(sv, sw, sy, scalar_values(witness@), num_vars as int, num_io as int),
        r.3 ==> exists|
            pts: Seq<int>,
            sv: Seq<Seq<int>>,
            sw: Seq<Seq<int>>,
            sy: Seq<Seq<int>>,
            st: Seq<int>,
            td: Ggpr13Trapdoor,
            vk: Ggpr13Key,
            pf: Ggpr13Proof,
            h: Seq<int>,
            rem: Seq<int>,
        |
            #[trigger] ggpr13_accepting_run(
                polys_view(v_polys@),
                polys_view(w_polys@),
                polys_view(y_polys@),
                t_poly@,
                scalar_values(witness@),
                num_vars as int,
                num_io as int,
                pts,
                sv,
                sw,
                sy,
                st,
                td,
                vk,
                pf,
                h,
                rem,
            ),
{
    let preprocessing_start = instant_now();
    let strong = elevate_to_strong_qap(v_polys, w_polys, y_polys, t_poly, num_vars);
    let preprocessing_duration = elapsed_since(&preprocessing_start);
    let (str_v, str_w, str_y, str_t, used) = match strong {
        Some(q) => q,
        None => {
            let ret = (zero_duration(), zero_duration(), zero_duration(), false, preprocessing_duration);
            assert(!ret.3);
            return ret;
        },
    };

    let ghost pts = drawn_points(t_poly@, num_vars as int, used as int);
    proof {
        assert forall|k: int| 0 <= k < num_vars implies is_trimmed((#[trigger] str_v@[k])@) by {
            assert(polys_view(str_v@)[k] == str_v@[k]@);
        }
        assert forall|k: int| 0 <= k < num_vars implies is_trimmed((#[trigger] str_w@[k])@) by {
            assert(polys_view(str_w@)[k] == str_w@[k]@);
        }
        assert forall|k: int| 0 <= k < num_vars implies is_trimmed((#[trigger] str_y@[k])@) by {
            assert(polys_view(str_y@)[k] == str_y@[k]@);
        }
    }

    // The trapdoor comes from the draws after those that the extra points
    // were selected from, so the secret point is independent of them.
    let setup_start = instant_now();
    let skip: usize = if used <= usize::MAX - 6 { used } else { usize::MAX - 6 };
    let draws = test_rng_scalars(skip + 6);
    proof {
        assert(draws@[skip as int].wf() && draws@[skip + 1].wf() && draws@[skip + 2].wf());
        assert(draws@[skip + 3].wf() && draws@[skip + 4].wf() && draws@[skip + 5].wf());
        let d = test_rng_draws((skip + 6) as nat);
        assert(d == scalar_values(draws@));
        assert(d[skip as int] == draws@[skip as int]@ && d[skip + 1] == draws@[skip + 1]@);
        assert(d[skip + 2] == draws@[skip + 2]@ && d[skip + 3] == draws@[skip + 3]@);
        assert(d[skip + 4] == draws@[skip + 4]@ && d[skip + 5] == draws@[skip + 5]@);
    }
    let td = Ggpr13Trapdoor {
        s: draws[skip].copy(),
        alpha: draws[skip + 1].copy(),
        beta_v: draws[skip + 2].copy(),
        beta_w: draws[skip + 3].copy(),
        beta_y: draws[skip + 4].copy(),
        gamma: draws[skip + 5].copy(),
    };
    let outcome = run_protocol(
        str_v.as_slice(),
        str_w.as_slice(),
        str_y.as_slice(),
        &str_t,
        witness,
        num_vars,
        num_io,
        &td,
        &setup_start,
    );
    proof {
        assert(ggpr13_outcome(
            polys_view(str_v@),
            polys_view(str_w@),
            polys_view(str_y@),
            str_t@,
            scalar_values(witness@),
            num_vars as int,
            num_io as int,
            td,
            outcome.3,
        ));
        lemma_extended_target_shape(t_poly@, pts, 2 * (num_vars - 1));
        assert(lead_invertible(t_poly@));
        lemma_run_outcome(
            polys_view(v_polys@),
            polys_view(w_polys@),
            polys_view(y_polys@),
            t_poly@,
            scalar_values(witness@),
            num_vars as int,
            num_io as int,
            pts,
            polys_view(str_v@),
            polys_view(str_w@),
            polys_view(str_y@),
            str_t@,
            td,
            outcome.3,
            used as int,
        );
        let ws = scalar_values(witness@);
        assert forall|k: int| 0 <= k < num_vars implies 0 <= #[trigger] ws[k] < fr_modulus() by {
            assert(ws[k] == witness@[k]@);
        }
        if ws[0] == 1 && divides(
            t_poly@,
            qap_poly(polys_view(v_polys@), polys_view(w_polys@), polys_view(y_polys@), ws, num_vars as int),
        ) {
            if strong_product_fits(
                polys_view(str_v@),
                polys_view(str_w@),
                polys_view(str_y@),
                ws,
                num_vars as int,
                num_io as int,
            ) {
                lemma_ggpr13_complete(
                    polys_view(v_polys@),
                    polys_view(w_polys@),
                    polys_view(y_polys@),
                    t_poly@,
                    ws,
                    num_vars as int,
                    num_io as int,
                    pts,
                    polys_view(str_v@),
                    polys_view(str_w@),
                    polys_view(str_y@),
                    str_t@,
                    td,
                    outcome.3,
                );
            } else {
                assert(strong_qap_for_points(
                    polys_view(v_polys@),
                    polys_view(w_polys@),
                    polys_view(y_polys@),
                    t_poly@,
                    num_vars as int,
                    pts,
                    polys_view(str_v@),
                    polys_view(str_w@),
                    polys_view(str_y@),
                    str_t@,
                ));
            }
        }
        if outcome.3 {
            let c = strong_combinations(
                polys_view(str_v@),
                polys_view(str_w@),
                polys_view(str_y@),
                scalar_values(witness@),
                num_vars as int,
                num_io as int,
            );
            let (vk, pf, h, rem) = choose|vk: Ggpr13Key, pf: Ggpr13Proof, h: Seq<int>, rem: Seq<int>|
                {
                    &&& #[trigger] ggpr13_key_of(str_t@, td, vk)
                    &&& #[trigger] is_division(poly_sub(poly_mul(poly_add(c.0, c.1), c.2), c.3), str_t@, h, rem)
                    &&& #[trigger] ggpr13_proof_of(c.1, c.2, c.3, h, td, pf)
                    &&& outcome.3 == ggpr13_check(vk, pf, g1_scalar_mul(g1_generator_bytes(), eval(c.0, td.s@)))
                    &&& rem.len() == 0 ==> outcome.3
                };
            assert(ggpr13_accepting_run(
                polys_view(v_polys@),
                polys_view(w_polys@),
                polys_view(y_polys@),
                t_poly@,
                scalar_values(witness@),
                num_vars as int,
                num_io as int,
                pts,
                polys_view(str_v@),
                polys_view(str_w@),
                polys_view(str_y@),
                str_t@,
                td,
                vk,
                pf,
                h,
                rem,
            ));
        }
    }
    let ret = (outcome.0, outcome.1, outcome.2, outcome.3, preprocessing_duration);
    assert(ret.3 == outcome.3);
    ret
}

} // verus!
