//! Elements of the BN254 scalar field, held as four canonical 64-bit limbs.
use ark_bn254::Fr;
use ark_ff::{BigInt, Field, PrimeField};
use ark_std::UniformRand;
use vstd::arithmetic::div_mod::*;
use vstd::arithmetic::mul::*;
use vstd::prelude::*;

verus! {

/// The order of the BN254 scalar field.
pub open spec fn fr_modulus() -> int {
    21888242871839275222246405745257275088548364400416034343698204186575808495617int
}

/// The radix of one limb.
pub open spec fn limb_base() -> int {
    18446744073709551616int
}

/// The integer that four little-endian 64-bit limbs denote.
pub open spec fn limbs_value(l: [u64; 4]) -> int {
    l[0] + limb_base() * (l[1] + limb_base() * (l[2] + limb_base() * l[3]))
}

/// An element of the BN254 scalar field.
pub struct Scalar {
    pub(crate) limbs: [u64; 4],
}

impl View for Scalar {
    type V = int;

    closed spec fn view(&self) -> int {
        limbs_value(self.limbs)
    }
}

impl Scalar {
    /// The limbs hold the canonical representative, below the modulus.
    pub open spec fn wf(&self) -> bool {
        0 <= self@ < fr_modulus()
    }

    /// The element whose value is `x`.
    pub fn from_u64(x: u64) -> (r: Scalar)
        ensures
            r.wf(),
            r@ == x as int,
    {
        let r = Scalar { limbs: [x, 0, 0, 0] };
        assert(limb_base() * (0int + limb_base() * (0int + limb_base() * 0int)) == 0) by (nonlinear_arith);
        r
    }

    /// The additive identity.
    pub fn zero() -> (r: Scalar)
        ensures
            r.wf(),
            r@ == 0,
    {
        Scalar::from_u64(0)
    }

    /// The multiplicative identity.
    pub fn one() -> (r: Scalar)
        ensures
            r.wf(),
            r@ == 1,
    {
        Scalar::from_u64(1)
    }

    /// Whether this is the zero element.
    pub fn is_zero(&self) -> (b: bool)
        ensures
            b == (self@ == 0),
    {
        proof {
            let b = limb_base();
            let l = self.limbs;
            lemma_mul_nonnegative(b, l[3] as int);
            lemma_mul_nonnegative(b, l[2] + b * l[3]);
            lemma_mul_nonnegative(b, l[1] + b * (l[2] + b * l[3]));
            if l[1] > 0 || l[2] > 0 || l[3] > 0 {
                assert(l[1] + b * (l[2] + b * l[3]) >= 1);
                lemma_mul_inequality(1, l[1] + b * (l[2] + b * l[3]), b);
                lemma_mul_is_commutative(b, l[1] + b * (l[2] + b * l[3]));
            }
        }
        self.limbs[0] == 0 && self.limbs[1] == 0 && self.limbs[2] == 0 && self.limbs[3] == 0
    }

    /// Whether two elements are equal.
    pub fn equals(&self, other: &Scalar) -> (b: bool)
        ensures
            b == (self@ == other@),
    {
        proof {
            if self@ == other@ {
                lemma_limbs_injective(self.limbs, other.limbs);
            }
        }
        self.limbs[0] == other.limbs[0] && self.limbs[1] == other.limbs[1]
            && self.limbs[2] == other.limbs[2] && self.limbs[3] == other.limbs[3]
    }

    /// A copy of this element.
    pub fn copy(&self) -> (r: Scalar)
        ensures
            r@ == self@,
    {
        Scalar { limbs: self.limbs }
    }
}

proof fn lemma_split_limb(lo: u64, hi: int) -> (v: int)
    requires
        hi >= 0,
    ensures
        v == lo + limb_base() * hi,
        v % limb_base() == lo,
        v / limb_base() == hi,
{
    let v = lo + limb_base() * hi;
    lemma_mul_is_commutative(limb_base(), hi);
    lemma_fundamental_div_mod_converse(v, limb_base(), hi, lo as int);
    v
}

proof fn lemma_limbs_injective(a: [u64; 4], b: [u64; 4])
    requires
        limbs_value(a) == limbs_value(b),
    ensures
        a == b,
{
    let base = limb_base();
    lemma_mul_nonnegative(base, a[3] as int);
    lemma_mul_nonnegative(base, b[3] as int);
    lemma_mul_nonnegative(base, a[2] + base * a[3]);
    lemma_mul_nonnegative(base, b[2] + base * b[3]);
    let a3 = lemma_split_limb(a[2], a[3] as int);
    let b3 = lemma_split_limb(b[2], b[3] as int);
    let a2 = lemma_split_limb(a[1], a3);
    let b2 = lemma_split_limb(b[1], b3);
    let a1 = lemma_split_limb(a[0], a2);
    let b1 = lemma_split_limb(b[0], b2);
    assert(a[0] == b[0] && a2 == b2);
    assert(a[1] == b[1] && a3 == b3);
    assert(a[2] == b[2]);
    assert(a[3] as int == a3 / base);
    assert(a[3] == b[3]);
    assert(a =~= b);
}

/// Adds two field elements with `ark_ff`'s `Fr` addition: `(a + b) mod r`.
#[verifier::external_body]
pub(crate) fn fr_add(a: &Scalar, b: &Scalar) -> (r: Scalar)
    requires
        a.wf(),
        b.wf(),
    ensures
        r.wf(),
        r@ == (a@ + b@) % fr_modulus(),
{
    let s = Fr::from_bigint(BigInt::new(a.limbs)).unwrap() + Fr::from_bigint(BigInt::new(b.limbs)).unwrap();
    Scalar { limbs: s.into_bigint().0 }
}

/// Subtracts with `ark_ff`'s `Fr` subtraction: `(a - b) mod r`.
#[verifier::external_body]
pub(crate) fn fr_sub(a: &Scalar, b: &Scalar) -> (r: Scalar)
    requires
        a.wf(),
        b.wf(),
    ensures
        r.wf(),
        r@ == (a@ - b@) % fr_modulus(),
{
    let s = Fr::from_bigint(BigInt::new(a.limbs)).unwrap() - Fr::from_bigint(BigInt::new(b.limbs)).unwrap();
    Scalar { limbs: s.into_bigint().0 }
}

/// Multiplies with `ark_ff`'s `Fr` multiplication: `(a * b) mod r`. As `Fr`
/// is a field, the product of two non-zero elements is non-zero.
#[verifier::external_body]
pub(crate) fn fr_mul(a: &Scalar, b: &Scalar) -> (r: Scalar)
    requires
        a.wf(),
        b.wf(),
    ensures
        r.wf(),
        r@ == (a@ * b@) % fr_modulus(),
        a@ != 0 && b@ != 0 ==> r@ != 0,
{
    let s = Fr::from_bigint(BigInt::new(a.limbs)).unwrap() * Fr::from_bigint(BigInt::new(b.limbs)).unwrap();
    Scalar { limbs: s.into_bigint().0 }
}

/// Negates with `ark_ff`'s `Fr` negation: `(-a) mod r`.
#[verifier::external_body]
pub(crate) fn fr_neg(a: &Scalar) -> (r: Scalar)
    requires
        a.wf(),
    ensures
        r.wf(),
        r@ == (-a@) % fr_modulus(),
{
    let s = -Fr::from_bigint(BigInt::new(a.limbs)).unwrap();
    Scalar { limbs: s.into_bigint().0 }
}

/// Inverts with `ark_ff`'s `Field::inverse`: `None` for zero, otherwise the
/// element whose product with `a` is one.
#[verifier::external_body]
pub(crate) fn fr_inverse(a: &Scalar) -> (r: Option<Scalar>)
    requires
        a.wf(),
    ensures
        r is Some <==> a@ != 0,
        r matches Some(b) ==> b.wf() && (a@ * b@) % fr_modulus() == 1,
{
    match Fr::from_bigint(BigInt::new(a.limbs)).unwrap().inverse() {
        Some(s) => Some(Scalar { limbs: s.into_bigint().0 }),
        None => None,
    }
}

/// The values of the first `count` elements that `Fr::rand` draws from a
/// fresh `ark_std::test_rng()`. Without its `getrandom` feature (this build
/// does not enable it) `test_rng` is a `StdRng` with a fixed seed, so the
/// draws depend on their count alone.
pub uninterp spec fn test_rng_draws(count: nat) -> Seq<int>;

/// The first `count` elements that `ark_std::UniformRand` draws for `Fr` from a
/// fresh `ark_std::test_rng()`. The generator's type cannot be named, so it is
/// created and used within this one item. The draws are sequential, so a
/// shorter count gives a prefix of a longer one.
#[verifier::external_body]
pub(crate) fn test_rng_scalars(count: usize) -> (r: Vec<Scalar>)
    ensures
        r.len() == count,
        forall|i: int| 0 <= i < count ==> (#[trigger] r[i]).wf(),
        r@.map_values(|c: Scalar| c@) == test_rng_draws(count as nat),
        forall|k: nat| k <= count ==> #[trigger] test_rng_draws(k) == r@.map_values(|c: Scalar| c@).take(k as int),
{
    let mut rng = ark_std::test_rng();
    (0..count).map(|_| Scalar { limbs: Fr::rand(&mut rng).into_bigint().0 }).collect()
}

} // verus!
