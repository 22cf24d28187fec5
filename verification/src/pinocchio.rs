//! The Pinocchio protocol over a regular QAP: setup, prove and verify, with
//! the pairing check `e(V, W) = e(H, T) * e(Y, g2)`.
use crate::field::{fr_modulus, fr_mul, test_rng_scalars, Scalar};
use crate::group::{
    bn254_pairing, g1_generator, g1_generator_bytes, g1_mul, g1_scalar_mul, g2_generator,
    g2_generator_bytes, g2_mul, g2_scalar_mul, gt_add, gt_power, gt_sum, pairing, G1Point, G2Point,
};
use crate::poly::{
    leading_inverse, max_product_terms, poly_add_op, poly_divide_op, poly_evaluate_op, poly_mul_op, poly_sub_op,
    scalar_values, Poly,
};
use crate::poly_spec::{
    eval, is_trimmed, lemma_cong_add, lemma_cong_mod, lemma_cong_reduced_eq, lemma_eval_range,
    lemma_trim, poly_mul, poly_scale, poly_sub, raw_mul, raw_scale,
};
use crate::division::lemma_division_unique;
use crate::qap::{divides, is_division, leaves_remainder, lemma_lin_comb_shape, lemma_qap_division_eval, lin_comb, qap_poly};
use crate::strong_qap::polys_view;
use crate::timing::{elapsed_since, instant_now, zero_duration};
use std::time::Duration;
use vstd::prelude::*;

verus! {

/// A Pinocchio proof: the witness combinations and the quotient, each
/// evaluated at the secret point and encoded in the exponent.
pub struct PinocchioProof {
    pub v: G1Point,
    pub w: G2Point,
    pub y: G1Point,
    pub h: G1Point,
}

/// The proof that an honest prover sends for quotient `h`, at secret `s`.
pub open spec fn pinocchio_proof_of(vx: Seq<int>, wx: Seq<int>, yx: Seq<int>, h: Seq<int>, s: int, pf: PinocchioProof) -> bool {
    &&& pf.v@ == g1_scalar_mul(g1_generator_bytes(), eval(vx, s))
    &&& pf.w@ == g2_scalar_mul(g2_generator_bytes(), eval(wx, s))
    &&& pf.y@ == g1_scalar_mul(g1_generator_bytes(), eval(yx, s))
    &&& pf.h@ == g1_scalar_mul(g1_generator_bytes(), eval(h, s))
}

/// The verifier's check `e(V, W) == e(H, T) + e(Y, g2)` on encodings.
pub open spec fn pinocchio_check(v: Seq<u8>, w: Seq<u8>, y: Seq<u8>, h: Seq<u8>, vk_t: Seq<u8>) -> bool {
    bn254_pairing(v, w) == gt_add(bn254_pairing(h, vk_t), bn254_pairing(y, g2_generator_bytes()))
}

/// The verifying key: `T(s)` in the exponent of the G2 generator.
pub fn setup(t_poly: &Poly, secret_s: &Scalar) -> (vk_t: G2Point)
    requires
        t_poly.wf(),
        secret_s.wf(),
    ensures
        vk_t@ == g2_scalar_mul(g2_generator_bytes(), eval(t_poly@, secret_s@)),
{
    let g2 = g2_generator();
    let t_s = poly_evaluate_op(t_poly, secret_s);
    g2_mul(&g2, &t_s)
}

/// The prover: combines the witness into `v, w, y`, divides `v * w - y` by
/// `t`, and, when the remainder is zero, evaluates at the secret point in the
/// exponent. `None` when the witness leaves a remainder.
pub fn prove(
    v_polys: &[Poly],
    w_polys: &[Poly],
    y_polys: &[Poly],
    t_poly: &Poly,
    witness: &[Scalar],
    secret_s: &Scalar,
) -> (r: Option<PinocchioProof>)
    requires
        v_polys@.len() >= witness@.len(),
        w_polys@.len() >= witness@.len(),
        y_polys@.len() >= witness@.len(),
        forall|i: int| 0 <= i < witness@.len() ==> (#[trigger] v_polys@[i]).wf(),
        forall|i: int| 0 <= i < witness@.len() ==> (#[trigger] w_polys@[i]).wf(),
        forall|i: int| 0 <= i < witness@.len() ==> (#[trigger] y_polys@[i]).wf(),
        forall|i: int| 0 <= i < witness@.len() ==> (#[trigger] witness@[i]).wf(),
        t_poly.wf(),
        is_trimmed(t_poly@),
        t_poly@.len() > 0,
        secret_s.wf(),
        lin_comb(polys_view(v_polys@), scalar_values(witness@), 0, witness@.len() as int).len()
            + lin_comb(polys_view(w_polys@), scalar_values(witness@), 0, witness@.len() as int).len()
            <= max_product_terms(),
    ensures
        ({
            let ws = scalar_values(witness@);
            let n = witness@.len() as int;
            let vx = lin_comb(polys_view(v_polys@), ws, 0, n);
            let wx = lin_comb(polys_view(w_polys@), ws, 0, n);
            let yx = lin_comb(polys_view(y_polys@), ws, 0, n);
            let p = poly_sub(poly_mul(vx, wx), yx);
            &&& r matches Some(pf) ==> exists|h: Seq<int>|
                #[trigger] is_division(p, t_poly@, h, seq![]) && pinocchio_proof_of(vx, wx, yx, h, secret_s@, pf)
            &&& r is None ==> exists|q: Seq<int>, rem: Seq<int>|
                #[trigger] is_division(p, t_poly@, q, rem) && rem.len() > 0
        }),
{
    let ghost ws = scalar_values(witness@);
    let ghost n = witness@.len() as int;
    let v_x = combine_witness(v_polys, witness);
    let w_x = combine_witness(w_polys, witness);
    let y_x = combine_witness(y_polys, witness);
    proof {
        lemma_lin_comb_shape(polys_view(v_polys@), ws, 0, n);
        lemma_lin_comb_shape(polys_view(w_polys@), ws, 0, n);
        lemma_lin_comb_shape(polys_view(y_polys@), ws, 0, n);
    }
    let vw_x = poly_mul_op(&v_x, &w_x);
    proof {
        lemma_trim(raw_mul(v_x@, w_x@));
    }
    let p_x = poly_sub_op(&vw_x, &y_x);
    proof {
        lemma_trim(crate::poly_spec::raw_sub(vw_x@, y_x@));
    }
    let (h_x, remainder) = poly_divide_op(&p_x, t_poly);
    if !remainder.is_zero() {
        proof {
            assert(is_division(p_x@, t_poly@, h_x@, remainder@));
        }
        return None;
    }
    proof {
        assert(remainder@ =~= Seq::<int>::empty()) by {
            if remainder@.len() > 0 {
                assert(remainder@[remainder@.len() - 1] == 0);
            }
        }
    }
    let g1 = g1_generator();
    let g2 = g2_generator();
    let v_s = poly_evaluate_op(&v_x, secret_s);
    let w_s = poly_evaluate_op(&w_x, secret_s);
    let y_s = poly_evaluate_op(&y_x, secret_s);
    let h_s = poly_evaluate_op(&h_x, secret_s);
    let pf = PinocchioProof {
        v: g1_mul(&g1, &v_s),
        w: g2_mul(&g2, &w_s),
        y: g1_mul(&g1, &y_s),
        h: g1_mul(&g1, &h_s),
    };
    proof {
        assert(is_division(p_x@, t_poly@, h_x@, seq![]));
    }
    Some(pf)
}

/// The verifier: `e(V, W) == e(H, T) + e(Y, g2)` in the target group. An
/// honest proof for a quotient with zero remainder, checked against the key
/// for the same point, is accepted.
pub fn verify(proof: &PinocchioProof, vk_t: &G2Point) -> (b: bool)
    ensures
        b == pinocchio_check(proof.v@, proof.w@, proof.y@, proof.h@, vk_t@),
        forall|vx: Seq<int>, wx: Seq<int>, yx: Seq<int>, t: Seq<int>, h: Seq<int>, s: int|
            #![trigger pinocchio_proof_of(vx, wx, yx, h, s, *proof), is_division(poly_sub(poly_mul(vx, wx), yx), t, h, seq![])]
            0 <= s < fr_modulus() && pinocchio_proof_of(vx, wx, yx, h, s, *proof) && is_division(
                poly_sub(poly_mul(vx, wx), yx),
                t,
                h,
                seq![],
            ) && vk_t@ == g2_scalar_mul(g2_generator_bytes(), eval(t, s)) ==> b,
{
    let g2 = g2_generator();
    let pairing_left = pairing(&proof.v, &proof.w);
    let pairing_h = pairing(&proof.h, vk_t);
    let pairing_y = pairing(&proof.y, &g2);
    let pairing_right = gt_sum(&pairing_h, &pairing_y);
    let b = pairing_left.equals(&pairing_right);
    proof {
        assert forall|vx: Seq<int>, wx: Seq<int>, yx: Seq<int>, t: Seq<int>, h: Seq<int>, s: int|
            0 <= s < fr_modulus() && #[trigger] pinocchio_proof_of(vx, wx, yx, h, s, *proof)
                && #[trigger] is_division(poly_sub(poly_mul(vx, wx), yx), t, h, seq![]) && vk_t@
                == g2_scalar_mul(g2_generator_bytes(), eval(t, s)) implies b by {
            let ev = eval(vx, s);
            let ew = eval(wx, s);
            let ey = eval(yx, s);
            let eh = eval(h, s);
            let et = eval(t, s);
            lemma_eval_range(vx, s);
            lemma_eval_range(wx, s);
            lemma_eval_range(yx, s);
            lemma_eval_range(h, s);
            lemma_eval_range(t, s);
            lemma_qap_division_eval(vx, wx, yx, t, h, s);
            assert(pairing_left@ == gt_power((ev * ew) % fr_modulus()));
            assert(pairing_h@ == gt_power((eh * et) % fr_modulus()));
            assert(pairing_y@ == gt_power((ey * 1) % fr_modulus()));
            lemma_cong_mod(eh * et);
            lemma_cong_mod(ey);
            lemma_cong_add((eh * et) % fr_modulus(), eh * et, ey % fr_modulus(), ey);
            lemma_cong_mod((eh * et) % fr_modulus() + ey % fr_modulus());
            lemma_cong_mod(ev * ew);
            lemma_cong_reduced_eq(
                (ev * ew) % fr_modulus(),
                ((eh * et) % fr_modulus() + (ey * 1) % fr_modulus()) % fr_modulus(),
            );
            assert(pairing_right@ == pairing_left@);
        }
    }
    b
}

/// Runs setup, prove and verify with a secret point drawn from
/// `ark_std::test_rng()`, timing each phase. The run succeeds when `t`
/// divides `v * w - y` for the witness combinations (the honest proof then
/// passes the pairing check), and fails when the division leaves a
/// remainder, without a verify phase: it succeeds exactly when `t` divides
/// `v * w - y`.
pub fn run_benchmark(
    v_polys: &[Poly],
    w_polys: &[Poly],
    y_polys: &[Poly],
    t_poly: &Poly,
    witness: &[Scalar],
) -> (r: (Duration, Duration, Duration, bool))
    requires
        v_polys@.len() >= witness@.len(),
        w_polys@.len() >= witness@.len(),
        y_polys@.len() >= witness@.len(),
        forall|i: int| 0 <= i < witness@.len() ==> (#[trigger] v_polys@[i]).wf(),
        forall|i: int| 0 <= i < witness@.len() ==> (#[trigger] w_polys@[i]).wf(),
        forall|i: int| 0 <= i < witness@.len() ==> (#[trigger] y_polys@[i]).wf(),
        forall|i: int| 0 <= i < witness@.len() ==> (#[trigger] witness@[i]).wf(),
        t_poly.wf(),
        is_trimmed(t_poly@),
        t_poly@.len() > 0,
        lin_comb(polys_view(v_polys@), scalar_values(witness@), 0, witness@.len() as int).len()
            + lin_comb(polys_view(w_polys@), scalar_values(witness@), 0, witness@.len() as int).len()
            <= max_product_terms(),
    ensures
        r.3 ==> divides(
            t_poly@,
            qap_poly(
                polys_view(v_polys@),
                polys_view(w_polys@),
                polys_view(y_polys@),
                scalar_values(witness@),
                witness@.len() as int,
            ),
        ),
        !r.3 ==> leaves_remainder(
            t_poly@,
            qap_poly(
                polys_view(v_polys@),
                polys_view(w_polys@),
                polys_view(y_polys@),
                scalar_values(witness@),
                witness@.len() as int,
            ),
        ),
        r.3 <==> divides(
            t_poly@,
            qap_poly(
                polys_view(v_polys@),
                polys_view(w_polys@),
                polys_view(y_polys@),
                scalar_values(witness@),
                witness@.len() as int,
            ),
        ),
{
    let ghost ws = scalar_values(witness@);
    let ghost n = witness@.len() as int;
    let ghost vx = lin_comb(polys_view(v_polys@), ws, 0, n);
    let ghost wx = lin_comb(polys_view(w_polys@), ws, 0, n);
    let ghost yx = lin_comb(polys_view(y_polys@), ws, 0, n);
    let ghost p = poly_sub(poly_mul(vx, wx), yx);

    let setup_start = instant_now();
    let draws = test_rng_scalars(1);
    let secret_s = &draws[0];
    proof {
        assert(draws@[0].wf());
    }
    let vk_t = setup(t_poly, secret_s);
    let setup_duration = elapsed_since(&setup_start);

    let prove_start = instant_now();
    // The division inverts the target's leading coefficient; that inverse is
    // what makes its quotient and remainder unique.
    let _lead_inverse = leading_inverse(t_poly);
    let outcome = prove(v_polys, w_polys, y_polys, t_poly, witness, secret_s);
    let pf = match outcome {
        Some(pf) => pf,
        None => {
            proof {
                if divides(t_poly@, p) {
                    let h = choose|h: Seq<int>| #[trigger] is_division(p, t_poly@, h, seq![]);
                    let (q, rem) = choose|q: Seq<int>, rem: Seq<int>|
                        #[trigger] is_division(p, t_poly@, q, rem) && rem.len() > 0;
                    lemma_division_unique(p, t_poly@, h, seq![], q, rem);
                }
            }
            let ret = (setup_duration, elapsed_since(&prove_start), zero_duration(), false);
            assert(ret.3 == false);
            return ret;
        },
    };
    let prove_duration = elapsed_since(&prove_start);

    let verify_start = instant_now();
    let is_valid = verify(&pf, &vk_t);
    let verify_duration = elapsed_since(&verify_start);
    proof {
        let h = choose|h: Seq<int>|
            #[trigger] is_division(p, t_poly@, h, seq![]) && pinocchio_proof_of(vx, wx, yx, h, secret_s@, pf);
        assert(pinocchio_proof_of(vx, wx, yx, h, secret_s@, pf));
        assert(is_valid);
    }
    let ret = (setup_duration, prove_duration, verify_duration, is_valid);
    assert(ret.3 == is_valid);
    ret
}

/// The polynomial `sum_i ws[i] * p_i` (for the first `ws.len()` polynomials),
/// each term scaled coefficient by coefficient and trimmed.
pub fn combine_witness(polys: &[Poly], witness: &[Scalar]) -> (r: Poly)
    requires
        polys@.len() >= witness@.len(),
        forall|i: int| 0 <= i < witness@.len() ==> (#[trigger] polys@[i]).wf(),
        forall|i: int| 0 <= i < witness@.len() ==> (#[trigger] witness@[i]).wf(),
    ensures
        r.wf(),
        r@ == lin_comb(polys_view(polys@), scalar_values(witness@), 0, witness@.len() as int),
{
    let n = witness.len();
    let ghost pv = polys_view(polys@);
    let ghost ws = scalar_values(witness@);
    let mut acc = Poly::zero();
    let mut i: usize = 0;
    while i < n
        invariant
            n == witness@.len(),
            i <= n,
            polys@.len() >= n,
            pv == polys_view(polys@),
            ws == scalar_values(witness@),
            forall|k: int| 0 <= k < n ==> (#[trigger] polys@[k]).wf(),
            forall|k: int| 0 <= k < n ==> (#[trigger] witness@[k]).wf(),
            acc.wf(),
            acc@ == lin_comb(pv, ws, 0, i as int),
        decreases n - i,
    {
        let term = scale_coefficients(&polys[i], &witness[i]);
        proof {
            lemma_lin_comb_shape(pv, ws, 0, i as int);
            lemma_trim(raw_scale(polys@[i as int]@, witness@[i as int]@));
            assert(pv[i as int] == polys@[i as int]@);
        }
        acc = poly_add_op(&acc, &term);
        i += 1;
    }
    acc
}

/// Every coefficient multiplied by `k`, trailing zeros removed.
fn scale_coefficients(p: &Poly, k: &Scalar) -> (r: Poly)
    requires
        p.wf(),
        k.wf(),
    ensures
        r.wf(),
        r@ == poly_scale(p@, k@),
{
    let mut out: Vec<Scalar> = Vec::new();
    let mut i: usize = 0;
    while i < p.len()
        invariant
            p.wf(),
            k.wf(),
            i <= p@.len(),
            out@.len() == i,
            forall|j: int| 0 <= j < i ==> (#[trigger] out@[j]).wf() && out@[j]@ == (p@[j] * k@) % fr_modulus(),
        decreases p@.len() - i,
    {
        let c = p.coeff_at(i);
        proof {
            assert(c.wf());
        }
        out.push(fr_mul(c, k));
        i += 1;
    }
    proof {
        assert(scalar_values(out@) =~= raw_scale(p@, k@));
        lemma_trim(raw_scale(p@, k@));
    }
    let r = Poly::from_coefficients_vec(out);
    proof {
        assert forall|j: int| 0 <= j < r@.len() implies 0 <= #[trigger] r@[j] < fr_modulus() by {
            assert(r@[j] == scalar_values(out@)[j]);
        }
    }
    r
}

} // verus!
