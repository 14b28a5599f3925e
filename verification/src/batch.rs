//! The batched-parallel-transpose DFT orchestrator.
//!
//! `dft_batch` turns a batch of column-oriented transforms into contiguous,
//! independently parallel row work: transpose the matrix so each column
//! becomes one row, run the sequential kernel over every row in parallel,
//! and transpose back.  Its contract is the naive DFT of every column.

use crate::dft::{
    col_seq, dft_batch_spec, dft_point, dft_row_spec, idft_batch_spec, is_pow2, row_seq,
    scale_all_spec, scale_rows_spec, transpose_spec,
};
use crate::field::{mul_mod, pow_mod, pow_mod_exec};
use crate::matrix::{
    dft_rows, mat_height, mat_in_field, mat_new, mat_to_vec, mat_transpose, mat_values, mat_wf,
    mat_width, mat_width_exec,
};
use p3_matrix::dense::RowMajorMatrix;
use vstd::arithmetic::div_mod::{
    lemma_div_multiples_vanish, lemma_fundamental_div_mod, lemma_fundamental_div_mod_converse,
    lemma_mod_bound, lemma_mod_multiples_basic, lemma_multiply_divide_lt,
};
use vstd::prelude::*;

verus! {

/// Strategy value for the transpose-based parallel batched DFT.  It holds
/// no state: each call is a pure function of its input matrix.
#[derive(Default, Clone)]
pub struct Radix2DitParallelTranspose {}

impl Radix2DitParallelTranspose {
    /// Forward DFT of every column of `mat` over `Z/p`, where `w` is the
    /// chosen root of unity of order `mat_height(mat)`.
    ///
    /// The shape is kept, and entry `(j, c)` of the result is
    /// `sum_i mat[(i, c)] * w^(i*j)` modulo `p`: the naive DFT of column
    /// `c`, evaluated at the `j`-th power of `w`.
    pub fn dft_batch(&self, mat: RowMajorMatrix<u64>, p: u64, w: u64) -> (r: RowMajorMatrix<u64>)
        requires
            mat_wf(mat),
            is_pow2(mat_height(mat)),
            1 <= p,
            w < p,
            mat_in_field(mat, p),
        ensures
            mat_width(r) == mat_width(mat),
            mat_values(r) == dft_batch_spec(mat_values(mat), mat_width(mat), w, p),
    {
        let ghost v = mat_values(mat);
        let ghost cc = mat_width(mat) as int;
        let ghost rr = mat_height(mat) as int;
        let ghost n = v.len() as int;
        proof {
            assert(rr >= 1);
            lemma_fundamental_div_mod(n, cc);
            assert(n == cc * rr);
            lemma_mod_multiples_basic(cc, rr);
            lemma_div_multiples_vanish(cc, rr);
            lemma_div_multiples_vanish(rr, cc);
        }
        let t1 = mat_transpose(&mat);
        proof {
            let t1v = mat_values(t1);
            assert(t1v.len() == n);
            assert(mat_wf(t1));
            assert(mat_height(t1) == cc);
            assert forall|k: int| 0 <= k < n implies t1v[k] < p by {
                lemma_mod_bound(k, rr);
                lemma_multiply_divide_lt(k, rr, cc);
                let idx = (k % rr) * cc + k / rr;
                assert(0 <= idx < n) by (nonlinear_arith)
                    requires
                        idx == (k % rr) * cc + k / rr,
                        0 <= k % rr < rr,
                        0 <= k / rr < cc,
                        n == cc * rr,
                ;
                assert(t1v[k] == v[idx]);
                assert(v[idx] < p);
            };
            assert(mat_in_field(t1, p));
        }
        let t2 = dft_rows(t1, w, p);
        proof {
            assert(mat_values(t2).len() == n);
            assert(mat_wf(t2));
            assert(mat_height(t2) == cc);
        }
        let out = mat_transpose(&t2);
        proof {
            let t1v = mat_values(t1);
            let t2v = mat_values(t2);
            let ov = mat_values(out);
            assert(ov == transpose_spec(t2v, cc as nat, rr as nat));
            assert forall|k: int| 0 <= k < n implies ov[k] == dft_batch_spec(
                v,
                cc as nat,
                w,
                p,
            )[k] by {
                let c = k % cc;
                let j = k / cc;
                lemma_mod_bound(k, cc);
                lemma_multiply_divide_lt(k, cc, rr);
                assert(0 <= c * rr && c * rr + j < n && (c + 1) * rr <= n) by (nonlinear_arith)
                    requires
                        0 <= c < cc,
                        0 <= j < rr,
                        n == cc * rr,
                ;
                assert((c + 1) * rr == c * rr + rr) by (nonlinear_arith);
                assert(ov[k] == t2v[c * rr + j]);
                assert(row_seq(t2v, rr as nat, c) == dft_row_spec(
                    row_seq(t1v, rr as nat, c),
                    w,
                    p,
                ));
                assert(row_seq(t2v, rr as nat, c)[j] == t2v[c * rr + j]);
                assert forall|i: int| 0 <= i < rr implies #[trigger] row_seq(t1v, rr as nat, c)[i]
                    == v[i * cc + c] by {
                    assert(0 <= c * rr + i < n) by (nonlinear_arith)
                        requires
                            0 <= c < cc,
                            0 <= i < rr,
                            n == cc * rr,
                    ;
                    lemma_fundamental_div_mod_converse(c * rr + i, rr, c, i);
                    assert(0 <= i * cc + c < n) by (nonlinear_arith)
                        requires
                            0 <= c < cc,
                            0 <= i < rr,
                            n == cc * rr,
                    ;
                    assert(t1v[c * rr + i] == v[i * cc + c]);
                };
                assert(row_seq(t1v, rr as nat, c) =~= col_seq(v, cc as nat, c as nat, rr as nat));
                assert(dft_row_spec(row_seq(t1v, rr as nat, c), w, p)[j] == dft_point(
                    col_seq(v, cc as nat, c as nat, rr as nat),
                    w,
                    p,
                    j as nat,
                ) as u64);
            };
            assert(ov =~= dft_batch_spec(v, cc as nat, w, p));
        }
        out
    }

    /// Inverse DFT of every column: the forward pass run with the inverse
    /// root `w_inv`, then every entry scaled by `rinv`, the inverse of the
    /// row count in `Z/p`.
    pub fn idft_batch(&self, mat: RowMajorMatrix<u64>, p: u64, w_inv: u64, rinv: u64) -> (r:
        RowMajorMatrix<u64>)
        requires
            mat_wf(mat),
            is_pow2(mat_height(mat)),
            1 <= p,
            w_inv < p,
            rinv < p,
            mat_in_field(mat, p),
        ensures
            mat_width(r) == mat_width(mat),
            mat_values(r) == idft_batch_spec(mat_values(mat), mat_width(mat), w_inv, rinv, p),
    {
        let d = self.dft_batch(mat, p, w_inv);
        proof {
            assert forall|k: int| 0 <= k < mat_values(d).len() implies mat_values(d)[k] < p by {
                vstd::arithmetic::div_mod::lemma_mod_bound(
                    crate::dft::dft_sum(
                        col_seq(
                            mat_values(mat),
                            mat_width(mat),
                            (k % (mat_width(mat) as int)) as nat,
                            mat_height(mat),
                        ),
                        w_inv,
                        p,
                        (k / (mat_width(mat) as int)) as nat,
                        mat_height(mat),
                    ),
                    p as int,
                );
            };
        }
        scale_all_mat(d, rinv, p)
    }

    /// Coset DFT of every column: row `i` is first multiplied by `shift^i`,
    /// then the plain forward DFT runs, so column `c` of the result holds
    /// the evaluations of column `c` on the coset `shift * w^j`.
    pub fn coset_dft_batch(&self, mat: RowMajorMatrix<u64>, p: u64, w: u64, shift: u64) -> (r:
        RowMajorMatrix<u64>)
        requires
            mat_wf(mat),
            is_pow2(mat_height(mat)),
            1 <= p,
            w < p,
            shift < p,
            mat_in_field(mat, p),
        ensures
            mat_width(r) == mat_width(mat),
            mat_values(r) == dft_batch_spec(
                scale_rows_spec(mat_values(mat), mat_width(mat), shift, p),
                mat_width(mat),
                w,
                p,
            ),
    {
        let scaled = scale_rows_mat(mat, shift, p);
        self.dft_batch(scaled, p, w)
    }
}

/// Every entry multiplied by the fixed residue `s`, reduced.
fn scale_all_mat(m: RowMajorMatrix<u64>, s: u64, p: u64) -> (r: RowMajorMatrix<u64>)
    requires
        mat_wf(m),
        1 <= p,
        s < p,
        mat_in_field(m, p),
    ensures
        mat_width(r) == mat_width(m),
        mat_values(r) == scale_all_spec(mat_values(m), s, p),
{
    let vals = mat_to_vec(&m);
    let wdt = mat_width_exec(&m);
    let n = vals.len();
    let mut out: Vec<u64> = Vec::new();
    let mut k: usize = 0;
    while k < n
        invariant
            k <= n,
            n == vals@.len(),
            vals@ == mat_values(m),
            1 <= p,
            s < p,
            mat_in_field(m, p),
            out@.len() == k,
            forall|q: int| 0 <= q < k ==> out@[q] == ((vals@[q] * s) % (p as int)) as u64,
        decreases n - k,
    {
        let e = mul_mod(vals[k], s, p);
        out.push(e);
        k = k + 1;
    }
    proof {
        assert(out@ =~= scale_all_spec(mat_values(m), s, p));
    }
    mat_new(out, wdt)
}

/// Every entry of row `i` multiplied by `shift^i`, reduced: the coset
/// preparation pass.
fn scale_rows_mat(m: RowMajorMatrix<u64>, shift: u64, p: u64) -> (r: RowMajorMatrix<u64>)
    requires
        mat_wf(m),
        1 <= p,
        shift < p,
        mat_in_field(m, p),
    ensures
        mat_width(r) == mat_width(m),
        mat_values(r) == scale_rows_spec(mat_values(m), mat_width(m), shift, p),
        mat_in_field(r, p),
{
    let vals = mat_to_vec(&m);
    let wdt = mat_width_exec(&m);
    let n = vals.len();
    let mut out: Vec<u64> = Vec::new();
    let mut k: usize = 0;
    while k < n
        invariant
            k <= n,
            n == vals@.len(),
            vals@ == mat_values(m),
            1 <= wdt,
            wdt as nat == mat_width(m),
            1 <= p,
            shift < p,
            mat_in_field(m, p),
            out@.len() == k,
            forall|q: int|
                0 <= q < k ==> out@[q] == ((vals@[q] * pow_mod(
                    shift as int,
                    (q / (wdt as int)) as nat,
                    p as int,
                )) % (p as int)) as u64,
        decreases n - k,
    {
        let row = k / wdt;
        let si = pow_mod_exec(shift, row as u64, p);
        let e = mul_mod(vals[k], si, p);
        out.push(e);
        k = k + 1;
    }
    proof {
        assert(out@ =~= scale_rows_spec(mat_values(m), mat_width(m), shift, p));
        assert forall|q: int| 0 <= q < out@.len() implies out@[q] < p by {
            vstd::arithmetic::div_mod::lemma_mod_bound(
                mat_values(m)[q] * pow_mod(shift as int, (q / (wdt as int)) as nat, p as int),
                p as int,
            );
        };
        assert(out@.len() % (wdt as nat) == 0);
    }
    let r = mat_new(out, wdt);
    proof {
        assert(mat_in_field(r, p));
    }
    r
}

} // verus!
