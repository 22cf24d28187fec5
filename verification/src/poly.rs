//! Dense univariate polynomials over the BN254 scalar field. The arithmetic
//! is `ark_poly`'s `DensePolynomial<Fr>`; the coefficients are held as
//! canonical field elements so that every result is a plain value.
use crate::division::lead_invertible;
use crate::field::{fr_inverse, fr_modulus, Scalar};
use crate::poly_spec::{eval, is_canonical, mul_mod, is_trimmed, lemma_trim, poly_add, poly_mul, poly_scale, poly_sub, trim};
use ark_bn254::Fr;
use ark_ff::{BigInt, PrimeField};
use ark_poly::univariate::{DenseOrSparsePolynomial, DensePolynomial};
use ark_poly::{EvaluationDomain, Evaluations, GeneralEvaluationDomain, Polynomial};
use vstd::arithmetic::power::pow;
use vstd::prelude::*;

verus! {

/// The values of a sequence of field elements.
pub open spec fn scalar_values(v: Seq<Scalar>) -> Seq<int> {
    v.map_values(|c: Scalar| c@)
}

/// The largest number of coefficients that two factors of a product may hold
/// together: the BN254 scalar field has FFT domains of size up to `2^28`.
pub open spec fn max_product_terms() -> int {
    268435456
}

/// A dense polynomial; coefficient `i` is that of `x^i`.
pub struct Poly {
    coeffs: Vec<Scalar>,
}

impl View for Poly {
    type V = Seq<int>;

    closed spec fn view(&self) -> Seq<int> {
        scalar_values(self.coeffs@)
    }
}

impl Poly {
    /// Every coefficient is a canonical field element.
    pub open spec fn wf(&self) -> bool {
        is_canonical(self@)
    }

    /// The zero polynomial, with no coefficients.
    pub fn zero() -> (r: Poly)
        ensures
            r@ == Seq::<int>::empty(),
            r.wf(),
    {
        let r = Poly { coeffs: Vec::new() };
        assert(r@ =~= Seq::<int>::empty());
        r
    }

    /// The polynomial with the given coefficients, trailing zeros removed
    /// (as `DenseUVPolynomial::from_coefficients_vec` does).
    pub fn from_coefficients_vec(coeffs: Vec<Scalar>) -> (r: Poly)
        ensures
            r@ == trim(scalar_values(coeffs@)),
    {
        sanitize(Poly { coeffs })
    }

    /// The coefficients, lowest degree first.
    pub fn coeffs(&self) -> (r: &Vec<Scalar>)
        ensures
            scalar_values(r@) == self@,
    {
        &self.coeffs
    }

    /// The number of stored coefficients.
    pub fn len(&self) -> (r: usize)
        ensures
            r == self@.len(),
    {
        self.coeffs.len()
    }

    /// Coefficient `i`.
    pub fn coeff_at(&self, i: usize) -> (r: &Scalar)
        requires
            i < self@.len(),
        ensures
            r@ == self@[i as int],
    {
        &self.coeffs[i]
    }

    /// The value at `x`.
    pub fn evaluate(&self, x: &Scalar) -> (r: Scalar)
        requires
            self.wf(),
            x.wf(),
        ensures
            r.wf(),
            r@ == eval(self@, x@),
    {
        poly_evaluate_op(self, x)
    }

    /// Whether this is the zero polynomial (no coefficient is non-zero).
    pub fn is_zero(&self) -> (b: bool)
        ensures
            b == (forall|i: int| 0 <= i < self@.len() ==> #[trigger] self@[i] == 0),
    {
        let mut i: usize = 0;
        while i < self.coeffs.len()
            invariant
                i <= self.coeffs.len(),
                self@.len() == self.coeffs.len(),
                forall|j: int| 0 <= j < i ==> #[trigger] self@[j] == 0,
            decreases self.coeffs.len() - i,
        {
            if !self.coeffs[i].is_zero() {
                assert(self@[i as int] == self.coeffs[i as int]@);
                return false;
            }
            i += 1;
        }
        true
    }

    /// A copy of this polynomial.
    pub fn copy(&self) -> (r: Poly)
        ensures
            r@ == self@,
    {
        let mut out: Vec<Scalar> = Vec::new();
        let mut i: usize = 0;
        while i < self.coeffs.len()
            invariant
                i <= self.coeffs.len(),
                out.len() == i,
                forall|j: int| 0 <= j < i ==> (#[trigger] out[j])@ == self.coeffs[j]@,
            decreases self.coeffs.len() - i,
        {
            out.push(self.coeffs[i].copy());
            i += 1;
        }
        let r = Poly { coeffs: out };
        assert(r@ =~= self@);
        r
    }
}

/// The inverse of the leading coefficient of a non-zero trimmed polynomial,
/// from `Fr::inverse` (the inverse that `ark_poly`'s division takes of its
/// divisor's leading coefficient).
pub fn leading_inverse(t: &Poly) -> (inv: Scalar)
    requires
        t.wf(),
        is_trimmed(t@),
        t@.len() > 0,
    ensures
        inv.wf(),
        mul_mod(t@.last(), inv@) == 1,
        lead_invertible(t@),
{
    let lc = t.coeff_at(t.len() - 1);
    match fr_inverse(lc) {
        Some(inv) => {
            proof {
                assert(mul_mod(t@.last(), inv@) == 1);
            }
            inv
        },
        None => {
            proof {
                assert(false);
            }
            Scalar::zero()
        },
    }
}

/// Removes the trailing zero coefficients.
pub fn sanitize(p: Poly) -> (r: Poly)
    ensures
        r@ == trim(p@),
{
    let ghost orig = p@;
    let mut c = p.coeffs;
    while c.len() > 0 && c[c.len() - 1].is_zero()
        invariant
            trim(scalar_values(c@)) == trim(orig),
        decreases c.len(),
    {
        let ghost before = scalar_values(c@);
        c.pop();
        assert(scalar_values(c@) =~= before.drop_last());
    }
    proof {
        lemma_trim(scalar_values(c@));
    }
    Poly { coeffs: c }
}

/// Every coefficient is zero (`DensePolynomial::is_zero`).
pub open spec fn is_zero_poly(c: Seq<int>) -> bool {
    forall|i: int| 0 <= i < c.len() ==> c[i] == 0
}

/// Adds with `ark_poly`'s `&DensePolynomial + &DensePolynomial`, which sums
/// coefficient-wise and removes the trailing zeros. When one operand is zero
/// it returns (a trimmed copy of) the other; otherwise it compares degrees,
/// and `degree` asserts that both operands are trimmed.
#[verifier::external_body]
pub(crate) fn poly_add_op(a: &Poly, b: &Poly) -> (r: Poly)
    requires
        a.wf(),
        b.wf(),
        is_zero_poly(a@) || is_zero_poly(b@) || (is_trimmed(a@) && is_trimmed(b@)),
    ensures
        r.wf(),
        r@ == poly_add(a@, b@),
{
    let pa = DensePolynomial { coeffs: a.coeffs.iter().map(|c| Fr::from_bigint(BigInt::new(c.limbs)).unwrap()).collect() };
    let pb = DensePolynomial { coeffs: b.coeffs.iter().map(|c| Fr::from_bigint(BigInt::new(c.limbs)).unwrap()).collect() };
    Poly { coeffs: (&pa + &pb).coeffs.iter().map(|c| Scalar { limbs: c.into_bigint().0 }).collect() }
}

/// Subtracts with `ark_poly`'s `&DensePolynomial - &DensePolynomial`, which
/// subtracts coefficient-wise and removes the trailing zeros; both operands
/// must be trimmed, as for addition.
#[verifier::external_body]
pub(crate) fn poly_sub_op(a: &Poly, b: &Poly) -> (r: Poly)
    requires
        a.wf(),
        b.wf(),
        is_trimmed(a@),
        is_trimmed(b@),
    ensures
        r.wf(),
        r@ == poly_sub(a@, b@),
{
    let pa = DensePolynomial { coeffs: a.coeffs.iter().map(|c| Fr::from_bigint(BigInt::new(c.limbs)).unwrap()).collect() };
    let pb = DensePolynomial { coeffs: b.coeffs.iter().map(|c| Fr::from_bigint(BigInt::new(c.limbs)).unwrap()).collect() };
    Poly { coeffs: (&pa - &pb).coeffs.iter().map(|c| Scalar { limbs: c.into_bigint().0 }).collect() }
}

/// Multiplies with `ark_poly`'s FFT-based `&DensePolynomial * &DensePolynomial`:
/// the product polynomial, trailing zeros removed. It panics when no FFT
/// domain holds `a.len() + b.len()` points, hence the bound. Over a field the
/// leading coefficients of two non-zero trimmed factors multiply to a non-zero
/// one, so the degrees add.
#[verifier::external_body]
pub(crate) fn poly_mul_op(a: &Poly, b: &Poly) -> (r: Poly)
    requires
        a.wf(),
        b.wf(),
        a@.len() + b@.len() <= max_product_terms(),
    ensures
        r.wf(),
        r@ == poly_mul(a@, b@),
        is_trimmed(a@) && is_trimmed(b@) && a@.len() > 0 && b@.len() > 0 ==> r@.len() == a@.len()
            + b@.len() - 1,
{
    let pa = DensePolynomial { coeffs: a.coeffs.iter().map(|c| Fr::from_bigint(BigInt::new(c.limbs)).unwrap()).collect() };
    let pb = DensePolynomial { coeffs: b.coeffs.iter().map(|c| Fr::from_bigint(BigInt::new(c.limbs)).unwrap()).collect() };
    Poly { coeffs: (&pa * &pb).coeffs.iter().map(|c| Scalar { limbs: c.into_bigint().0 }).collect() }
}

/// Scales with `ark_poly`'s `&DensePolynomial * Fr`: zero when either factor
/// is zero, otherwise every coefficient times `k` (which, in a field, keeps a
/// trimmed polynomial trimmed).
#[verifier::external_body]
pub(crate) fn poly_scale_op(a: &Poly, k: &Scalar) -> (r: Poly)
    requires
        a.wf(),
        k.wf(),
        is_trimmed(a@),
    ensures
        r.wf(),
        r@ == poly_scale(a@, k@),
{
    let pa = DensePolynomial { coeffs: a.coeffs.iter().map(|c| Fr::from_bigint(BigInt::new(c.limbs)).unwrap()).collect() };
    let pk = Fr::from_bigint(BigInt::new(k.limbs)).unwrap();
    Poly { coeffs: (&pa * pk).coeffs.iter().map(|c| Scalar { limbs: c.into_bigint().0 }).collect() }
}

/// Evaluates with `ark_poly`'s `Polynomial::evaluate` (Horner's rule).
#[verifier::external_body]
pub(crate) fn poly_evaluate_op(a: &Poly, x: &Scalar) -> (r: Scalar)
    requires
        a.wf(),
        x.wf(),
    ensures
        r.wf(),
        r@ == eval(a@, x@),
{
    let pa = DensePolynomial { coeffs: a.coeffs.iter().map(|c| Fr::from_bigint(BigInt::new(c.limbs)).unwrap()).collect() };
    Scalar { limbs: pa.evaluate(&Fr::from_bigint(BigInt::new(x.limbs)).unwrap()).into_bigint().0 }
}

/// Divides with `ark_poly`'s `DenseOrSparsePolynomial::divide_with_q_and_r`:
/// quotient and remainder, both trimmed, with `a = q * d + rem` and the
/// remainder shorter than the divisor. It panics on a zero divisor and calls
/// `degree`, which asserts that its operands are trimmed.
#[verifier::external_body]
pub(crate) fn poly_divide_op(a: &Poly, d: &Poly) -> (r: (Poly, Poly))
    requires
        a.wf(),
        d.wf(),
        is_trimmed(a@),
        is_trimmed(d@),
        d@.len() > 0,
    ensures
        r.0.wf(),
        r.1.wf(),
        is_trimmed(r.0@),
        is_trimmed(r.1@),
        r.1@.len() < d@.len(),
        poly_add(poly_mul(r.0@, d@), r.1@) == a@,
{
    let pa = DensePolynomial { coeffs: a.coeffs.iter().map(|c| Fr::from_bigint(BigInt::new(c.limbs)).unwrap()).collect() };
    let pd = DensePolynomial { coeffs: d.coeffs.iter().map(|c| Fr::from_bigint(BigInt::new(c.limbs)).unwrap()).collect() };
    let (q, rem) = DenseOrSparsePolynomial::from(pa).divide_with_q_and_r(&DenseOrSparsePolynomial::from(pd)).unwrap();
    (Poly { coeffs: q.coeffs.iter().map(|c| Scalar { limbs: c.into_bigint().0 }).collect() },
     Poly { coeffs: rem.coeffs.iter().map(|c| Scalar { limbs: c.into_bigint().0 }).collect() })
}

/// The size of the FFT domain that `GeneralEvaluationDomain::new(n)` builds
/// over the BN254 scalar field: the least power of two that is at least `n`
/// (and at least one).
pub open spec fn fft_domain_size(n: int) -> int {
    power_of_two_from(n, 1)
}

/// The least `p * 2^j` that is at least `n`.
pub open spec fn power_of_two_from(n: int, p: int) -> int
    decreases (if p < n { n - p } else { 0 }),
    when p >= 1
{
    if p >= n {
        p
    } else {
        power_of_two_from(n, 2 * p)
    }
}

/// The generator of the FFT domain of a power-of-two `size`: the field's
/// two-adic root of unity `5^((r - 1) / 2^28)`, squared down to order `size`,
/// which is `5^((r - 1) / size)`.
pub open spec fn domain_root(size: int) -> int {
    pow(5, ((fr_modulus() - 1) / size) as nat) % fr_modulus()
}

/// Point `g` of the FFT domain of `size` points: `domain_root(size)^g`.
pub open spec fn domain_point(size: int, g: int) -> int {
    pow(domain_root(size), g as nat) % fr_modulus()
}

/// `p` is the polynomial that takes the value `evals[g]` at domain point `g`
/// of the FFT domain for `evals.len()` points, and zero at the points past
/// the end of `evals`; its coefficients are canonical and trimmed, and there
/// are no more of them than domain points.
pub open spec fn is_domain_interpolant(p: Seq<int>, evals: Seq<int>) -> bool {
    let size = fft_domain_size(evals.len() as int);
    &&& is_canonical(p)
    &&& is_trimmed(p)
    &&& p.len() <= size
    &&& forall|g: int|
        0 <= g < size ==> eval(p, #[trigger] domain_point(size, g)) == (if g < evals.len() {
            evals[g]
        } else {
            0
        })
}

/// The coefficients of the vanishing polynomial `x^size - 1` of a domain.
pub open spec fn vanishing_coeffs(size: int) -> Seq<int> {
    Seq::new(
        (size + 1) as nat,
        |i: int|
            if i == 0 {
                fr_modulus() - 1
            } else if i == size {
                1
            } else {
                0
            },
    )
}

/// The domain size starting from `p` is at least `p` and covers `n`.
pub proof fn lemma_power_of_two_from(n: int, p: int)
    requires
        p >= 1,
    ensures
        power_of_two_from(n, p) >= p,
        power_of_two_from(n, p) >= n,
    decreases (if p < n { n - p } else { 0 }),
{
    if p < n {
        lemma_power_of_two_from(n, 2 * p);
    }
}

/// Interpolates with `ark_poly`: `Evaluations::from_vec_and_domain(evals,
/// domain).interpolate()` over `GeneralEvaluationDomain::new(evals.len())`,
/// an inverse FFT that pads `evals` with zeros to the domain size, followed
/// by `DensePolynomial::from_coefficients_vec`, which removes trailing zeros.
/// The domain exists for at most `2^28` points (the two-adicity of the
/// field); past that `new` gives `None`.
#[verifier::external_body]
pub(crate) fn fft_interpolate(evals: &Vec<Scalar>) -> (r: Poly)
    requires
        evals.len() <= max_product_terms(),
        forall|i: int| 0 <= i < evals.len() ==> (#[trigger] evals[i]).wf(),
    ensures
        is_domain_interpolant(r@, scalar_values(evals@)),
{
    let domain = GeneralEvaluationDomain::<Fr>::new(evals.len()).unwrap();
    let e: Vec<Fr> = evals.iter().map(|c| Fr::from_bigint(BigInt::new(c.limbs)).unwrap()).collect();
    let p = Evaluations::from_vec_and_domain(e, domain).interpolate();
    Poly { coeffs: p.coeffs.iter().map(|c| Scalar { limbs: c.into_bigint().0 }).collect() }
}

/// The vanishing polynomial of `GeneralEvaluationDomain::new(n)`, as
/// `EvaluationDomain::vanishing_polynomial` gives it (the sparse
/// `x^size - 1`), turned dense with `From<SparsePolynomial>`.
#[verifier::external_body]
pub(crate) fn fft_vanishing_poly(n: usize) -> (r: Poly)
    requires
        n <= max_product_terms(),
    ensures
        r@ == vanishing_coeffs(fft_domain_size(n as int)),
{
    let domain = GeneralEvaluationDomain::<Fr>::new(n).unwrap();
    let t: DensePolynomial<Fr> = domain.vanishing_polynomial().into();
    Poly { coeffs: t.coeffs.iter().map(|c| Scalar { limbs: c.into_bigint().0 }).collect() }
}

} // verus!
