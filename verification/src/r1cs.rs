//! Rank-1 constraint systems: the chain circuit of the benchmark, and the
//! conversion of a constraint system into a regular QAP by interpolating
//! its columns over an FFT evaluation domain.
use crate::division::is_monic;
use crate::field::{fr_modulus, Scalar};
use crate::poly::{
    domain_point, fft_domain_size, fft_interpolate, fft_vanishing_poly, is_domain_interpolant,
    lemma_power_of_two_from, max_product_terms, scalar_values, vanishing_coeffs, Poly,
};
use crate::poly_spec::{
    cong, eval, lemma_cong_add, lemma_cong_mod, lemma_cong_mul, lemma_cong_reduced_eq,
    lemma_cong_sub, lemma_eval_poly_mul, lemma_eval_poly_sub, lemma_eval_range, lemma_trim, poly_mul,
    raw_sub,
};
use crate::qap::{divides, lemma_lin_comb_eval, lin_comb, qap_poly, weighted_eval};
use crate::interpolation::{lagrange_factors_invertible, lemma_poly_ops_canonical};
use crate::strong_qap::{extended_target, lemma_vanishing_divisible};
use vstd::arithmetic::mul::lemma_mul_is_commutative;
use vstd::prelude::*;

verus! {

/// The three constraint matrices, one row per gate, one column per variable.
pub struct R1csMatrices {
    pub a: Vec<Vec<u32>>,
    pub b: Vec<Vec<u32>>,
    pub c: Vec<Vec<u32>>,
}

/// A constraint system with its witness.
pub struct CircuitConfig {
    pub num_gates: usize,
    pub num_vars: usize,
    pub r1cs: R1csMatrices,
    pub witness: Vec<u32>,
}

/// The values of a matrix of `u32`.
pub open spec fn matrix_view(m: Seq<Vec<u32>>) -> Seq<Seq<u32>> {
    m.map_values(|row: Vec<u32>| row@)
}

/// Row `g` of a matrix, empty past the stored rows.
pub open spec fn matrix_row(m: Seq<Seq<u32>>, g: int) -> Seq<u32> {
    if 0 <= g < m.len() {
        m[g]
    } else {
        seq![]
    }
}

/// Entry `(g, k)` of a matrix, zero outside the stored rows and columns.
pub open spec fn matrix_entry(m: Seq<Seq<u32>>, g: int, k: int) -> int {
    if 0 <= k < matrix_row(m, g).len() {
        matrix_row(m, g)[k] as int
    } else {
        0
    }
}

/// Column `k` over the first `num_gates` rows.
pub open spec fn matrix_column(m: Seq<Seq<u32>>, k: int, num_gates: int) -> Seq<int> {
    Seq::new(num_gates as nat, |g: int| matrix_entry(m, g, k))
}

/// `sum_{k < n} row[k] * w[k]`, with missing entries read as zero.
pub open spec fn row_dot(row: Seq<u32>, w: Seq<u32>, n: int) -> int
    decreases n,
{
    if n <= 0 {
        0
    } else {
        row_dot(row, w, n - 1) + (if n - 1 < row.len() && n - 1 < w.len() {
            row[n - 1] * w[n - 1]
        } else {
            0
        })
    }
}

/// Every gate `g < num_gates` holds: `<A_g, w> * <B_g, w> = <C_g, w>` in the
/// field.
pub open spec fn r1cs_satisfied(
    a: Seq<Seq<u32>>,
    b: Seq<Seq<u32>>,
    c: Seq<Seq<u32>>,
    w: Seq<u32>,
    num_gates: int,
    num_vars: int,
) -> bool {
    forall|g: int|
        0 <= g < num_gates ==> (row_dot(#[trigger] matrix_row(a, g), w, num_vars) * row_dot(
            matrix_row(b, g),
            w,
            num_vars,
        )) % fr_modulus() == row_dot(matrix_row(c, g), w, num_vars) % fr_modulus()
}

/// A row of `len` zeros with a one at `pos`.
fn unit_row(len: usize, pos: usize) -> (r: Vec<u32>)
    ensures
        r@.len() == len,
        forall|j: int| 0 <= j < len ==> #[trigger] r@[j] == (if j == pos {
            1u32
        } else {
            0u32
        }),
{
    let mut r: Vec<u32> = Vec::new();
    let mut j: usize = 0;
    while j < len
        invariant
            j <= len,
            r@.len() == j,
            forall|i: int| 0 <= i < j ==> #[trigger] r@[i] == (if i == pos {
                1u32
            } else {
                0u32
            }),
        decreases len - j,
    {
        if j == pos {
            r.push(1);
        } else {
            r.push(0);
        }
        j += 1;
    }
    r
}

/// The benchmark circuit: a chain of `num_gates` gates `v_{i+1} * 1 = v_{i+2}`
/// over the variables `[1, x, v_1, ..., v_n]`, with the witness `x = 3`
/// (every variable after the constant one is 3).
pub fn generate_chain_circuit(num_gates: usize) -> (r: CircuitConfig)
    requires
        num_gates + 2 <= usize::MAX,
    ensures
        r.num_gates == num_gates,
        r.num_vars == num_gates + 2,
        r.r1cs.a@.len() == num_gates,
        r.r1cs.b@.len() == num_gates,
        r.r1cs.c@.len() == num_gates,
        forall|i: int|
            0 <= i < num_gates ==> (#[trigger] r.r1cs.a@[i])@.len() == num_gates + 2 && r.r1cs.b@[i]@.len()
                == num_gates + 2 && r.r1cs.c@[i]@.len() == num_gates + 2,
        forall|i: int, j: int|
            0 <= i < num_gates && 0 <= j < num_gates + 2 ==> #[trigger] r.r1cs.a@[i]@[j] == (if j == i
                + 1 {
                1u32
            } else {
                0u32
            }),
        forall|i: int, j: int|
            0 <= i < num_gates && 0 <= j < num_gates + 2 ==> #[trigger] r.r1cs.b@[i]@[j] == (if j == 0 {
                1u32
            } else {
                0u32
            }),
        forall|i: int, j: int|
            0 <= i < num_gates && 0 <= j < num_gates + 2 ==> #[trigger] r.r1cs.c@[i]@[j] == (if j == i
                + 2 {
                1u32
            } else {
                0u32
            }),
        r.witness@.len() == num_gates + 2,
        r.witness@[0] == 1,
        forall|j: int| 1 <= j < num_gates + 2 ==> #[trigger] r.witness@[j] == 3,
{
    let num_vars = num_gates + 2;
    let mut a_matrix: Vec<Vec<u32>> = Vec::new();
    let mut b_matrix: Vec<Vec<u32>> = Vec::new();
    let mut c_matrix: Vec<Vec<u32>> = Vec::new();
    let mut i: usize = 0;
    while i < num_gates
        invariant
            i <= num_gates,
            num_vars == num_gates + 2,
            a_matrix@.len() == i,
            b_matrix@.len() == i,
            c_matrix@.len() == i,
            forall|k: int|
                0 <= k < i ==> (#[trigger] a_matrix@[k])@.len() == num_vars && b_matrix@[k]@.len()
                    == num_vars && c_matrix@[k]@.len() == num_vars,
            forall|k: int, j: int|
                0 <= k < i && 0 <= j < num_vars ==> #[trigger] a_matrix@[k]@[j] == (if j == k + 1 {
                    1u32
                } else {
                    0u32
                }),
            forall|k: int, j: int|
                0 <= k < i && 0 <= j < num_vars ==> #[trigger] b_matrix@[k]@[j] == (if j == 0 {
                    1u32
                } else {
                    0u32
                }),
            forall|k: int, j: int|
                0 <= k < i && 0 <= j < num_vars ==> #[trigger] c_matrix@[k]@[j] == (if j == k + 2 {
                    1u32
                } else {
                    0u32
                }),
        decreases num_gates - i,
    {
        let left_input_idx = i + 1;
        let right_input_idx: usize = 0;
        let output_idx = i + 2;
        a_matrix.push(unit_row(num_vars, left_input_idx));
        b_matrix.push(unit_row(num_vars, right_input_idx));
        c_matrix.push(unit_row(num_vars, output_idx));
        i += 1;
    }
    let mut witness: Vec<u32> = vec![1u32, 3u32];
    let mut k: usize = 0;
    while k < num_gates
        invariant
            k <= num_gates,
            witness@.len() == k + 2,
            witness@[0] == 1,
            forall|j: int| 1 <= j < k + 2 ==> #[trigger] witness@[j] == 3,
        decreases num_gates - k,
    {
        witness.push(3u32);
        k += 1;
    }
    CircuitConfig {
        num_gates,
        num_vars,
        r1cs: R1csMatrices { a: a_matrix, b: b_matrix, c: c_matrix },
        witness,
    }
}

/// The product of a unit row with the witness picks one entry.
proof fn lemma_row_dot_unit(row: Seq<u32>, w: Seq<u32>, n: int, pos: int)
    requires
        0 <= n <= row.len(),
        n <= w.len(),
        forall|j: int| 0 <= j < row.len() ==> #[trigger] row[j] == (if j == pos {
            1u32
        } else {
            0u32
        }),
    ensures
        row_dot(row, w, n) == (if 0 <= pos < n {
            w[pos] as int
        } else {
            0
        }),
    decreases n,
{
    if n > 0 {
        lemma_row_dot_unit(row, w, n - 1, pos);
        if n - 1 == pos {
            assert(row[n - 1] * w[n - 1] == w[n - 1]);
        } else {
            assert(row[n - 1] * w[n - 1] == 0);
        }
    }
}

/// The generated chain circuit is satisfied by its witness: every gate reads
/// `3 * 1 = 3`.
pub proof fn lemma_chain_circuit_satisfied(
    a: Seq<Seq<u32>>,
    b: Seq<Seq<u32>>,
    c: Seq<Seq<u32>>,
    w: Seq<u32>,
    num_gates: int,
)
    requires
        num_gates >= 0,
        a.len() == num_gates,
        b.len() == num_gates,
        c.len() == num_gates,
        forall|i: int|
            0 <= i < num_gates ==> (#[trigger] a[i]).len() == num_gates + 2 && b[i].len() == num_gates + 2
                && c[i].len() == num_gates + 2,
        forall|i: int, j: int|
            0 <= i < num_gates && 0 <= j < num_gates + 2 ==> #[trigger] a[i][j] == (if j == i + 1 {
                1u32
            } else {
                0u32
            }),
        forall|i: int, j: int|
            0 <= i < num_gates && 0 <= j < num_gates + 2 ==> #[trigger] b[i][j] == (if j == 0 {
                1u32
            } else {
                0u32
            }),
        forall|i: int, j: int|
            0 <= i < num_gates && 0 <= j < num_gates + 2 ==> #[trigger] c[i][j] == (if j == i + 2 {
                1u32
            } else {
                0u32
            }),
        w.len() == num_gates + 2,
        w[0] == 1,
        forall|j: int| 1 <= j < num_gates + 2 ==> #[trigger] w[j] == 3,
    ensures
        r1cs_satisfied(a, b, c, w, num_gates, num_gates + 2),
{
    let n = num_gates + 2;
    assert forall|g: int| 0 <= g < num_gates implies (row_dot(
        #[trigger] matrix_row(a, g),
        w,
        n,
    ) * row_dot(matrix_row(b, g), w, n)) % fr_modulus() == row_dot(matrix_row(c, g), w, n)
        % fr_modulus() by {
        assert(a[g].len() == n);
        assert(b[g].len() == n);
        assert(c[g].len() == n);
        assert forall|j: int| 0 <= j < a[g].len() implies #[trigger] a[g][j] == (if j == g + 1 {
            1u32
        } else {
            0u32
        }) by {
            assert(0 <= j < n);
        }
        assert forall|j: int| 0 <= j < b[g].len() implies #[trigger] b[g][j] == (if j == 0 {
            1u32
        } else {
            0u32
        }) by {
            assert(0 <= j < n);
        }
        assert forall|j: int| 0 <= j < c[g].len() implies #[trigger] c[g][j] == (if j == g + 2 {
            1u32
        } else {
            0u32
        }) by {
            assert(0 <= j < n);
        }
        lemma_row_dot_unit(a[g], w, n, g + 1);
        lemma_row_dot_unit(b[g], w, n, 0);
        lemma_row_dot_unit(c[g], w, n, g + 2);
        assert(w[g + 1] == 3 && w[g + 2] == 3);
        assert(matrix_row(a, g) == a[g] && matrix_row(b, g) == b[g] && matrix_row(c, g) == c[g]);
        assert(row_dot(a[g], w, n) * row_dot(b[g], w, n) == 3);
    }
}

/// The regular QAP of a constraint system: one polynomial per variable and
/// matrix, the target polynomial, and the witness as field elements.
pub struct RegularQap {
    pub v: Vec<Poly>,
    pub w: Vec<Poly>,
    pub y: Vec<Poly>,
    pub t: Poly,
    pub witness: Vec<Scalar>,
}

/// The witness entries, as field elements.
pub open spec fn witness_values(w: Seq<u32>) -> Seq<int> {
    w.map_values(|x: u32| x as int)
}

/// The shape of a constraint system that has a regular QAP: a domain exists for its
/// gates, and no row or column lies outside the declared gates and
/// variables.
pub open spec fn has_qap_shape(config: &CircuitConfig) -> bool {
    &&& config.num_gates <= max_product_terms()
    &&& config.r1cs.a@.len() <= config.num_gates
    &&& config.r1cs.b@.len() <= config.num_gates
    &&& config.r1cs.c@.len() <= config.num_gates
    &&& forall|g: int| 0 <= g < config.r1cs.a@.len() ==> (#[trigger] config.r1cs.a@[g])@.len() <= config.num_vars
    &&& forall|g: int| 0 <= g < config.r1cs.b@.len() ==> (#[trigger] config.r1cs.b@[g])@.len() <= config.num_vars
    &&& forall|g: int| 0 <= g < config.r1cs.c@.len() ==> (#[trigger] config.r1cs.c@[g])@.len() <= config.num_vars
}

/// The columns of a matrix as field elements: column `k < num_vars` holds
/// entry `(g, k)` for every gate `g < num_gates`.
fn matrix_columns(m: &Vec<Vec<u32>>, num_gates: usize, num_vars: usize) -> (cols: Vec<Vec<Scalar>>)
    ensures
        cols@.len() == num_vars,
        forall|k: int|
            0 <= k < num_vars ==> scalar_values((#[trigger] cols@[k])@) == matrix_column(
                matrix_view(m@),
                k,
                num_gates as int,
            ),
        forall|k: int, g: int|
            0 <= k < num_vars && 0 <= g < cols@[k]@.len() ==> (#[trigger] cols@[k]@[g]).wf(),
{
    let ghost mv = matrix_view(m@);
    let mut cols: Vec<Vec<Scalar>> = Vec::new();
    let mut k: usize = 0;
    while k < num_vars
        invariant
            k <= num_vars,
            mv == matrix_view(m@),
            cols@.len() == k,
            forall|j: int|
                0 <= j < k ==> scalar_values((#[trigger] cols@[j])@) == matrix_column(
                    mv,
                    j,
                    num_gates as int,
                ),
            forall|j: int, g: int|
                0 <= j < k && 0 <= g < cols@[j]@.len() ==> (#[trigger] cols@[j]@[g]).wf(),
        decreases num_vars - k,
    {
        let mut col: Vec<Scalar> = Vec::new();
        let mut g: usize = 0;
        while g < num_gates
            invariant
                g <= num_gates,
                k < num_vars,
                mv == matrix_view(m@),
                col@.len() == g,
                forall|i: int| 0 <= i < g ==> (#[trigger] col@[i])@ == matrix_entry(mv, i, k as int),
                forall|i: int| 0 <= i < g ==> (#[trigger] col@[i]).wf(),
            decreases num_gates - g,
        {
            let val: u32 = if g < m.len() && k < m[g].len() {
                m[g][k]
            } else {
                0
            };
            proof {
                if g < m@.len() {
                    assert(mv[g as int] == m@[g as int]@);
                }
            }
            col.push(Scalar::from_u64(val as u64));
            g += 1;
        }
        assert(scalar_values(col@) =~= matrix_column(mv, k as int, num_gates as int));
        cols.push(col);
        k += 1;
    }
    cols
}

/// The interpolating polynomial of every column of a matrix.
fn interpolate_columns(cols: &Vec<Vec<Scalar>>, num_gates: usize) -> (polys: Vec<Poly>)
    requires
        num_gates <= max_product_terms(),
        forall|k: int| 0 <= k < cols@.len() ==> (#[trigger] cols@[k])@.len() == num_gates,
        forall|k: int, g: int|
            0 <= k < cols@.len() && 0 <= g < cols@[k]@.len() ==> (#[trigger] cols@[k]@[g]).wf(),
    ensures
        polys@.len() == cols@.len(),
        forall|k: int|
            0 <= k < cols@.len() ==> is_domain_interpolant(
                (#[trigger] polys@[k])@,
                scalar_values(cols@[k]@),
            ),
{
    let mut polys: Vec<Poly> = Vec::new();
    let mut k: usize = 0;
    while k < cols.len()
        invariant
            k <= cols@.len(),
            num_gates <= max_product_terms(),
            forall|j: int| 0 <= j < cols@.len() ==> (#[trigger] cols@[j])@.len() == num_gates,
            forall|j: int, g: int|
                0 <= j < cols@.len() && 0 <= g < cols@[j]@.len() ==> (#[trigger] cols@[j]@[g]).wf(),
            polys@.len() == k,
            forall|j: int|
                0 <= j < k ==> is_domain_interpolant(
                    (#[trigger] polys@[j])@,
                    scalar_values(cols@[j]@),
                ),
        decreases cols@.len() - k,
    {
        assert(cols@[k as int]@.len() == num_gates);
        polys.push(fft_interpolate(&cols[k]));
        k += 1;
    }
    polys
}

/// The witness as field elements.
fn witness_scalars(w: &Vec<u32>) -> (r: Vec<Scalar>)
    ensures
        scalar_values(r@) == witness_values(w@),
        forall|i: int| 0 <= i < r@.len() ==> (#[trigger] r@[i]).wf(),
{
    let mut r: Vec<Scalar> = Vec::new();
    let mut i: usize = 0;
    while i < w.len()
        invariant
            i <= w@.len(),
            r@.len() == i,
            forall|j: int| 0 <= j < i ==> (#[trigger] r@[j])@ == w@[j] as int,
            forall|j: int| 0 <= j < i ==> (#[trigger] r@[j]).wf(),
        decreases w@.len() - i,
    {
        r.push(Scalar::from_u64(w[i] as u64));
        i += 1;
    }
    assert(scalar_values(r@) =~= witness_values(w@));
    r
}

/// The regular QAP of a constraint system, over the FFT domain of
/// `num_gates` points: for every variable `k`, `v[k]`, `w[k]` and `y[k]` take
/// the values of column `k` of `A`, `B` and `C` at the domain points (zero
/// past the gates), `t` is the domain's vanishing polynomial `x^size - 1`, and
/// the witness is read as field elements.
pub fn r1cs_to_qap(config: &CircuitConfig) -> (r: RegularQap)
    requires
        has_qap_shape(config),
    ensures
        r.v@.len() == config.num_vars,
        r.w@.len() == config.num_vars,
        r.y@.len() == config.num_vars,
        forall|k: int|
            0 <= k < config.num_vars ==> is_domain_interpolant(
                (#[trigger] r.v@[k])@,
                matrix_column(matrix_view(config.r1cs.a@), k, config.num_gates as int),
            ),
        forall|k: int|
            0 <= k < config.num_vars ==> is_domain_interpolant(
                (#[trigger] r.w@[k])@,
                matrix_column(matrix_view(config.r1cs.b@), k, config.num_gates as int),
            ),
        forall|k: int|
            0 <= k < config.num_vars ==> is_domain_interpolant(
                (#[trigger] r.y@[k])@,
                matrix_column(matrix_view(config.r1cs.c@), k, config.num_gates as int),
            ),
        r.t@ == vanishing_coeffs(fft_domain_size(config.num_gates as int)),
        is_monic(r.t@),
        r.t.wf(),
        scalar_values(r.witness@) == witness_values(config.witness@),
        forall|i: int| 0 <= i < r.witness@.len() ==> (#[trigger] r.witness@[i]).wf(),
{
    let n = config.num_gates;
    let a_cols = matrix_columns(&config.r1cs.a, n, config.num_vars);
    let b_cols = matrix_columns(&config.r1cs.b, n, config.num_vars);
    let c_cols = matrix_columns(&config.r1cs.c, n, config.num_vars);
    proof {
        assert forall|k: int| 0 <= k < a_cols@.len() implies (#[trigger] a_cols@[k])@.len() == n by {
            assert(scalar_values(a_cols@[k]@).len() == n);
        }
        assert forall|k: int| 0 <= k < b_cols@.len() implies (#[trigger] b_cols@[k])@.len() == n by {
            assert(scalar_values(b_cols@[k]@).len() == n);
        }
        assert forall|k: int| 0 <= k < c_cols@.len() implies (#[trigger] c_cols@[k])@.len() == n by {
            assert(scalar_values(c_cols@[k]@).len() == n);
        }
    }
    let v = interpolate_columns(&a_cols, n);
    let w = interpolate_columns(&b_cols, n);
    let y = interpolate_columns(&c_cols, n);
    let t = fft_vanishing_poly(n);
    proof {
        lemma_power_of_two_from(n as int, 1);
        let size = fft_domain_size(n as int);
        assert(t@.last() == t@[size]);
        assert forall|i: int| 0 <= i < t@.len() implies 0 <= #[trigger] t@[i] < fr_modulus() by {}
    }
    let witness = witness_scalars(&config.witness);
    proof {
        assert forall|k: int| 0 <= k < config.num_vars implies is_domain_interpolant(
            (#[trigger] v@[k])@,
            matrix_column(matrix_view(config.r1cs.a@), k, n as int),
        ) by {
            assert(scalar_values(a_cols@[k]@) == matrix_column(matrix_view(config.r1cs.a@), k, n as int));
        }
        assert forall|k: int| 0 <= k < config.num_vars implies is_domain_interpolant(
            (#[trigger] w@[k])@,
            matrix_column(matrix_view(config.r1cs.b@), k, n as int),
        ) by {
            assert(scalar_values(b_cols@[k]@) == matrix_column(matrix_view(config.r1cs.b@), k, n as int));
        }
        assert forall|k: int| 0 <= k < config.num_vars implies is_domain_interpolant(
            (#[trigger] y@[k])@,
            matrix_column(matrix_view(config.r1cs.c@), k, n as int),
        ) by {
            assert(scalar_values(c_cols@[k]@) == matrix_column(matrix_view(config.r1cs.c@), k, n as int));
        }
    }
    RegularQap { v, w, y, t, witness }
}

/// At a point where every polynomial takes the value of one row entry, the
/// witness-weighted evaluation is the row's product with the witness.
proof fn lemma_weighted_eval_row(polys: Seq<Seq<int>>, wit: Seq<u32>, row: Seq<u32>, hi: int, z: int)
    requires
        0 <= hi <= wit.len(),
        forall|k: int|
            0 <= k < hi ==> eval(#[trigger] polys[k], z) == (if k < row.len() {
                row[k] as int
            } else {
                0
            }),
    ensures
        weighted_eval(polys, witness_values(wit), 0, hi, z) == row_dot(row, wit, hi) % fr_modulus(),
    decreases hi,
{
    if hi > 0 {
        let k = hi - 1;
        lemma_weighted_eval_row(polys, wit, row, k, z);
        let prev = row_dot(row, wit, k);
        let term = if k < row.len() {
            row[k] * wit[k]
        } else {
            0
        };
        assert(eval(polys[k], z) == (if k < row.len() { row[k] as int } else { 0 }));
        if k < row.len() {
            lemma_mul_is_commutative(wit[k] as int, row[k] as int);
        }
        assert(witness_values(wit)[k] * eval(polys[k], z) == term);
        lemma_cong_mod(prev);
        lemma_cong_add(prev % fr_modulus(), prev, term, term);
    }
}

/// The regular QAP of a satisfied constraint system vanishes on its domain:
/// at every point of the FFT domain, `v(x) * w(x) - y(x)` is zero for the
/// witness-weighted combinations of the QAP polynomials. At a point that
/// belongs to a gate this is that gate's constraint, and at the remaining
/// points all columns vanish.
pub proof fn lemma_regular_qap_vanishes_on_domain(
    a: Seq<Seq<u32>>,
    b: Seq<Seq<u32>>,
    c: Seq<Seq<u32>>,
    wit: Seq<u32>,
    num_gates: int,
    num_vars: int,
    v: Seq<Seq<int>>,
    w: Seq<Seq<int>>,
    y: Seq<Seq<int>>,
    g: int,
)
    requires
        num_gates >= 0,
        0 <= num_vars <= wit.len(),
        forall|k: int|
            0 <= k < num_vars ==> is_domain_interpolant(#[trigger] v[k], matrix_column(a, k, num_gates)),
        forall|k: int|
            0 <= k < num_vars ==> is_domain_interpolant(#[trigger] w[k], matrix_column(b, k, num_gates)),
        forall|k: int|
            0 <= k < num_vars ==> is_domain_interpolant(#[trigger] y[k], matrix_column(c, k, num_gates)),
        r1cs_satisfied(a, b, c, wit, num_gates, num_vars),
        0 <= g < fft_domain_size(num_gates),
    ensures
        eval(qap_poly(v, w, y, witness_values(wit), num_vars), domain_point(fft_domain_size(num_gates), g))
            == 0,
{
    let size = fft_domain_size(num_gates);
    let z = domain_point(size, g);
    let ws = witness_values(wit);
    let ra = if g < num_gates { matrix_row(a, g) } else { seq![] };
    let rb = if g < num_gates { matrix_row(b, g) } else { seq![] };
    let rc = if g < num_gates { matrix_row(c, g) } else { seq![] };
    assert forall|k: int| 0 <= k < num_vars implies eval(#[trigger] v[k], z) == (if k < ra.len() {
        ra[k] as int
    } else {
        0
    }) by {
        assert(is_domain_interpolant(v[k], matrix_column(a, k, num_gates)));
        assert(matrix_column(a, k, num_gates).len() == num_gates);
    }
    assert forall|k: int| 0 <= k < num_vars implies eval(#[trigger] w[k], z) == (if k < rb.len() {
        rb[k] as int
    } else {
        0
    }) by {
        assert(is_domain_interpolant(w[k], matrix_column(b, k, num_gates)));
        assert(matrix_column(b, k, num_gates).len() == num_gates);
    }
    assert forall|k: int| 0 <= k < num_vars implies eval(#[trigger] y[k], z) == (if k < rc.len() {
        rc[k] as int
    } else {
        0
    }) by {
        assert(is_domain_interpolant(y[k], matrix_column(c, k, num_gates)));
        assert(matrix_column(c, k, num_gates).len() == num_gates);
    }
    lemma_weighted_eval_row(v, wit, ra, num_vars, z);
    lemma_weighted_eval_row(w, wit, rb, num_vars, z);
    lemma_weighted_eval_row(y, wit, rc, num_vars, z);
    let vx = lin_comb(v, ws, 0, num_vars);
    let wx = lin_comb(w, ws, 0, num_vars);
    let yx = lin_comb(y, ws, 0, num_vars);
    lemma_lin_comb_eval(v, ws, 0, num_vars, z);
    lemma_lin_comb_eval(w, ws, 0, num_vars, z);
    lemma_lin_comb_eval(y, ws, 0, num_vars, z);
    let da = row_dot(ra, wit, num_vars);
    let db = row_dot(rb, wit, num_vars);
    let dc = row_dot(rc, wit, num_vars);
    if g >= num_gates {
        lemma_row_dot_empty(wit, num_vars);
    }
    assert(cong(da * db, dc)) by {
        if g < num_gates {
            assert(row_dot(matrix_row(a, g), wit, num_vars) == da);
        }
    }
    lemma_eval_poly_mul(vx, wx, z);
    lemma_eval_poly_sub(poly_mul(vx, wx), yx, z);
    lemma_cong_mod(da);
    lemma_cong_mod(db);
    lemma_cong_mod(dc);
    lemma_cong_mul(da % fr_modulus(), da, db % fr_modulus(), db);
    lemma_cong_mod((da % fr_modulus()) * (db % fr_modulus()));
    let evw = eval(poly_mul(vx, wx), z);
    assert(cong(evw, da * db));
    lemma_cong_sub(evw, da * db, dc % fr_modulus(), dc);
    lemma_cong_mod(evw - dc % fr_modulus());
    assert(cong(eval(qap_poly(v, w, y, ws, num_vars), z), 0));
    lemma_eval_range(qap_poly(v, w, y, ws, num_vars), z);
    lemma_cong_reduced_eq(eval(qap_poly(v, w, y, ws, num_vars), z), 0);
}

/// The points of the FFT domain of `size` points, in order.
pub open spec fn domain_points(size: int) -> Seq<int> {
    Seq::new(size as nat, |g: int| domain_point(size, g))
}

/// The regular QAP of a satisfied constraint system is divisible by
/// `prod_g (x - domain_point(g))` when the domain's points have invertible
/// Lagrange factors; when that product is also the domain's `x^size - 1`,
/// the QAP's target divides it.
pub proof fn lemma_regular_qap_divisible(
    a: Seq<Seq<u32>>,
    b: Seq<Seq<u32>>,
    c: Seq<Seq<u32>>,
    wit: Seq<u32>,
    num_gates: int,
    num_vars: int,
    v: Seq<Seq<int>>,
    w: Seq<Seq<int>>,
    y: Seq<Seq<int>>,
)
    requires
        num_gates >= 0,
        0 <= num_vars <= wit.len(),
        forall|k: int|
            0 <= k < num_vars ==> is_domain_interpolant(#[trigger] v[k], matrix_column(a, k, num_gates)),
        forall|k: int|
            0 <= k < num_vars ==> is_domain_interpolant(#[trigger] w[k], matrix_column(b, k, num_gates)),
        forall|k: int|
            0 <= k < num_vars ==> is_domain_interpolant(#[trigger] y[k], matrix_column(c, k, num_gates)),
        r1cs_satisfied(a, b, c, wit, num_gates, num_vars),
        lagrange_factors_invertible(domain_points(fft_domain_size(num_gates))),
    ensures
        divides(
            extended_target(seq![1int], domain_points(fft_domain_size(num_gates)), fft_domain_size(num_gates)),
            qap_poly(v, w, y, witness_values(wit), num_vars),
        ),
        extended_target(seq![1int], domain_points(fft_domain_size(num_gates)), fft_domain_size(num_gates))
            == vanishing_coeffs(fft_domain_size(num_gates)) ==> divides(
            vanishing_coeffs(fft_domain_size(num_gates)),
            qap_poly(v, w, y, witness_values(wit), num_vars),
        ),
{
    let size = fft_domain_size(num_gates);
    let xs = domain_points(size);
    let ws = witness_values(wit);
    let p = qap_poly(v, w, y, ws, num_vars);
    lemma_power_of_two_from(num_gates, 1);
    assert forall|i: int| 0 <= i < xs.len() implies eval(p, #[trigger] xs[i]) == 0 by {
        lemma_regular_qap_vanishes_on_domain(a, b, c, wit, num_gates, num_vars, v, w, y, i);
    }
    let vw = poly_mul(lin_comb(v, ws, 0, num_vars), lin_comb(w, ws, 0, num_vars));
    lemma_poly_ops_canonical(vw, lin_comb(y, ws, 0, num_vars), 0);
    lemma_trim(raw_sub(vw, lin_comb(y, ws, 0, num_vars)));
    lemma_vanishing_divisible(p, xs);
}

/// A row without entries contributes nothing.
proof fn lemma_row_dot_empty(wit: Seq<u32>, n: int)
    ensures
        row_dot(seq![], wit, n) == 0,
    decreases n,
{
    if n > 0 {
        lemma_row_dot_empty(wit, n - 1);
    }
}

} // verus!
