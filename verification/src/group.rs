//! Points of the BN254 groups G1 and G2 and elements of the pairing target
//! group, each held as its uncompressed `ark_serialize` encoding. The group
//! operations and the pairing are `ark_ec`'s; their results are named by
//! uninterpreted functions of the encodings.
use crate::field::{fr_modulus, Scalar};
use ark_bn254::{Bn254, Fr, G1Projective, G2Projective};
use ark_ec::pairing::{Pairing, PairingOutput};
use ark_ec::Group;
use ark_ff::{BigInt, PrimeField};
use ark_serialize::{CanonicalDeserialize, CanonicalSerialize};
use vstd::prelude::*;

verus! {

/// The uncompressed encoding of the G1 generator `(1, 2)`: both coordinates
/// little-endian in 32 bytes, no flag bits.
pub open spec fn g1_generator_bytes() -> Seq<u8> {
    seq![
        1u8, 0, 0, 0, 0, 0, 0, 0, 0, 0, 0, 0, 0, 0, 0, 0,
        0, 0, 0, 0, 0, 0, 0, 0, 0, 0, 0, 0, 0, 0, 0, 0,
        2, 0, 0, 0, 0, 0, 0, 0, 0, 0, 0, 0, 0, 0, 0, 0,
        0, 0, 0, 0, 0, 0, 0, 0, 0, 0, 0, 0, 0, 0, 0, 0
    ]
}

/// The uncompressed encoding of the G2 generator: `x.c0, x.c1, y.c0, y.c1`,
/// each little-endian in 32 bytes, no flag bits.
pub open spec fn g2_generator_bytes() -> Seq<u8> {
    seq![
        237u8, 246, 146, 217, 92, 189, 222, 70, 221, 218, 94, 247, 212, 34, 67, 103,
        121, 68, 92, 94, 102, 0, 106, 66, 118, 30, 31, 18, 239, 222, 0, 24,
        194, 18, 243, 174, 183, 133, 228, 151, 18, 231, 169, 53, 51, 73, 170, 241,
        37, 93, 251, 49, 183, 191, 96, 114, 58, 72, 13, 146, 147, 147, 142, 25,
        170, 125, 250, 102, 1, 204, 230, 76, 123, 211, 67, 12, 105, 231, 209, 227,
        143, 64, 203, 141, 128, 113, 171, 74, 235, 109, 140, 219, 165, 94, 200, 18,
        91, 151, 34, 209, 220, 218, 172, 85, 243, 142, 179, 112, 51, 49, 75, 188,
        149, 51, 12, 105, 173, 153, 158, 236, 117, 240, 95, 88, 208, 137, 6, 9
    ]
}

/// The encoding that `ark_ec` gives `p * s` in G1.
pub uninterp spec fn g1_scalar_mul(p: Seq<u8>, s: int) -> Seq<u8>;

/// The encoding that `ark_ec` gives `p * s` in G2.
pub uninterp spec fn g2_scalar_mul(p: Seq<u8>, s: int) -> Seq<u8>;

/// The encoding that `ark_ec` gives `p + q` in G1.
pub uninterp spec fn g1_point_add(p: Seq<u8>, q: Seq<u8>) -> Seq<u8>;

/// The encoding of `Bn254::pairing(p, q)`.
pub uninterp spec fn bn254_pairing(p: Seq<u8>, q: Seq<u8>) -> Seq<u8>;

/// The encoding of the target-group sum `a + b` (`PairingOutput`'s `Add`, the
/// product in the multiplicative target group).
pub uninterp spec fn gt_add(a: Seq<u8>, b: Seq<u8>) -> Seq<u8>;

/// The target-group element `e(G1, G2)^x` for the generators `G1` and `G2`,
/// encoded: the pairing of `x * G1` with `G2`.
pub open spec fn gt_power(x: int) -> Seq<u8> {
    bn254_pairing(g1_scalar_mul(g1_generator_bytes(), x), g2_generator_bytes())
}

/// A point of G1, as its uncompressed encoding.
pub struct G1Point {
    bytes: Vec<u8>,
}

/// A point of G2, as its uncompressed encoding.
pub struct G2Point {
    bytes: Vec<u8>,
}

/// An element of the pairing target group, as its uncompressed encoding.
pub struct GtElement {
    bytes: Vec<u8>,
}

impl View for G1Point {
    type V = Seq<u8>;

    closed spec fn view(&self) -> Seq<u8> {
        self.bytes@
    }
}

impl View for G2Point {
    type V = Seq<u8>;

    closed spec fn view(&self) -> Seq<u8> {
        self.bytes@
    }
}

impl View for GtElement {
    type V = Seq<u8>;

    closed spec fn view(&self) -> Seq<u8> {
        self.bytes@
    }
}

impl G1Point {
    /// The encoding.
    pub fn to_bytes(&self) -> (r: Vec<u8>)
        ensures
            r@ == self@,
    {
        self.bytes.clone()
    }
}

impl G2Point {
    /// The encoding.
    pub fn to_bytes(&self) -> (r: Vec<u8>)
        ensures
            r@ == self@,
    {
        self.bytes.clone()
    }
}

impl GtElement {
    /// The encoding.
    pub fn to_bytes(&self) -> (r: Vec<u8>)
        ensures
            r@ == self@,
    {
        self.bytes.clone()
    }

    /// Whether two target-group elements are the same element: their
    /// canonical encodings agree.
    pub fn equals(&self, other: &GtElement) -> (b: bool)
        ensures
            b == (self@ == other@),
    {
        if self.bytes.len() != other.bytes.len() {
            return false;
        }
        let mut i: usize = 0;
        while i < self.bytes.len()
            invariant
                i <= self.bytes.len(),
                self.bytes.len() == other.bytes.len(),
                forall|j: int| 0 <= j < i ==> self.bytes@[j] == other.bytes@[j],
            decreases self.bytes.len() - i,
        {
            if self.bytes[i] != other.bytes[i] {
                return false;
            }
            i += 1;
        }
        proof {
            assert(self.bytes@ =~= other.bytes@);
        }
        true
    }
}

/// `ark_ec`'s `Group::generator()` for `G1Projective`, encoded; it is its own
/// multiple by one.
#[verifier::external_body]
pub(crate) fn g1_generator() -> (r: G1Point)
    ensures
        r@ == g1_generator_bytes(),
        r@ == g1_scalar_mul(g1_generator_bytes(), 1),
{
    let mut bytes = Vec::new();
    G1Projective::generator().serialize_uncompressed(&mut bytes).unwrap();
    G1Point { bytes }
}

/// `ark_ec`'s `Group::generator()` for `G2Projective`, encoded; it is its own
/// multiple by one.
#[verifier::external_body]
pub(crate) fn g2_generator() -> (r: G2Point)
    ensures
        r@ == g2_generator_bytes(),
        r@ == g2_scalar_mul(g2_generator_bytes(), 1),
{
    let mut bytes = Vec::new();
    G2Projective::generator().serialize_uncompressed(&mut bytes).unwrap();
    G2Point { bytes }
}

/// `ark_ec`'s `G1Projective * Fr`. The point is decoded without validation;
/// an undecodable encoding is read as the identity. G1 has prime order `r`,
/// so `s * (a * G1)` is `(a * s mod r) * G1`.
#[verifier::external_body]
pub(crate) fn g1_mul(p: &G1Point, s: &Scalar) -> (r: G1Point)
    requires
        s.wf(),
    ensures
        r@ == g1_scalar_mul(p@, s@),
        forall|a: int|
            0 <= a < fr_modulus() && p@ == #[trigger] g1_scalar_mul(g1_generator_bytes(), a) ==> r@
                == g1_scalar_mul(g1_generator_bytes(), (a * s@) % fr_modulus()),
{
    let pt = G1Projective::deserialize_uncompressed_unchecked(&p.bytes[..]).unwrap_or_default();
    let mut bytes = Vec::new();
    (pt * Fr::from_bigint(BigInt::new(s.limbs)).unwrap()).serialize_uncompressed(&mut bytes).unwrap();
    G1Point { bytes }
}

/// `ark_ec`'s `G2Projective * Fr`. The point is decoded without validation;
/// an undecodable encoding is read as the identity. G2 has prime order `r`,
/// so `s * (a * G2)` is `(a * s mod r) * G2`.
#[verifier::external_body]
pub(crate) fn g2_mul(p: &G2Point, s: &Scalar) -> (r: G2Point)
    requires
        s.wf(),
    ensures
        r@ == g2_scalar_mul(p@, s@),
        forall|a: int|
            0 <= a < fr_modulus() && p@ == #[trigger] g2_scalar_mul(g2_generator_bytes(), a) ==> r@
                == g2_scalar_mul(g2_generator_bytes(), (a * s@) % fr_modulus()),
{
    let pt = G2Projective::deserialize_uncompressed_unchecked(&p.bytes[..]).unwrap_or_default();
    let mut bytes = Vec::new();
    (pt * Fr::from_bigint(BigInt::new(s.limbs)).unwrap()).serialize_uncompressed(&mut bytes).unwrap();
    G2Point { bytes }
}

/// `ark_ec`'s `G1Projective + G1Projective`; undecodable encodings are read as
/// the identity. Multiples of the generator add by their factors, modulo the
/// group order `r`.
#[verifier::external_body]
pub(crate) fn g1_add(p: &G1Point, q: &G1Point) -> (r: G1Point)
    ensures
        r@ == g1_point_add(p@, q@),
        forall|a: int, b: int|
            0 <= a < fr_modulus() && 0 <= b < fr_modulus() && p@ == #[trigger] g1_scalar_mul(
                g1_generator_bytes(),
                a,
            ) && q@ == #[trigger] g1_scalar_mul(g1_generator_bytes(), b) ==> r@ == g1_scalar_mul(
                g1_generator_bytes(),
                (a + b) % fr_modulus(),
            ),
{
    let a = G1Projective::deserialize_uncompressed_unchecked(&p.bytes[..]).unwrap_or_default();
    let b = G1Projective::deserialize_uncompressed_unchecked(&q.bytes[..]).unwrap_or_default();
    let mut bytes = Vec::new();
    (a + b).serialize_uncompressed(&mut bytes).unwrap();
    G1Point { bytes }
}

/// `ark_ec`'s `Bn254::pairing`; undecodable encodings are read as the
/// identity. The pairing is bilinear: `e(a * G1, b * G2) = e(G1, G2)^(a b)`,
/// the exponent taken modulo the group order `r`.
#[verifier::external_body]
pub(crate) fn pairing(p: &G1Point, q: &G2Point) -> (r: GtElement)
    ensures
        r@ == bn254_pairing(p@, q@),
        forall|a: int, b: int|
            0 <= a < fr_modulus() && 0 <= b < fr_modulus() && p@ == #[trigger] g1_scalar_mul(
                g1_generator_bytes(),
                a,
            ) && q@ == #[trigger] g2_scalar_mul(g2_generator_bytes(), b) ==> r@ == gt_power(
                (a * b) % fr_modulus(),
            ),
{
    let a = G1Projective::deserialize_uncompressed_unchecked(&p.bytes[..]).unwrap_or_default();
    let b = G2Projective::deserialize_uncompressed_unchecked(&q.bytes[..]).unwrap_or_default();
    let mut bytes = Vec::new();
    Bn254::pairing(a, b).serialize_uncompressed(&mut bytes).unwrap();
    GtElement { bytes }
}

/// `ark_ec`'s `PairingOutput + &PairingOutput` (the product in the target
/// group); undecodable encodings are read as the identity. Powers of
/// `e(G1, G2)` combine by adding their exponents modulo `r`.
#[verifier::external_body]
pub(crate) fn gt_sum(a: &GtElement, b: &GtElement) -> (r: GtElement)
    ensures
        r@ == gt_add(a@, b@),
        forall|x: int, y: int|
            0 <= x < fr_modulus() && 0 <= y < fr_modulus() && a@ == #[trigger] gt_power(x) && b@
                == #[trigger] gt_power(y) ==> r@ == gt_power((x + y) % fr_modulus()),
{
    let x = PairingOutput::<Bn254>::deserialize_uncompressed_unchecked(&a.bytes[..]).unwrap_or_default();
    let y = PairingOutput::<Bn254>::deserialize_uncompressed_unchecked(&b.bytes[..]).unwrap_or_default();
    let mut bytes = Vec::new();
    (x + &y).serialize_uncompressed(&mut bytes).unwrap();
    GtElement { bytes }
}

} // verus!
