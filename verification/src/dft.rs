//! What the discrete Fourier transform over `Z/p` returns, and the
//! sequential kernel that computes it for one row.
//!
//! A column `col` of length `R`, read as the coefficients of a polynomial,
//! is sent to its evaluations at the powers of a chosen `R`-th root of
//! unity `w`: entry `j` of the result is `sum_i col[i] * w^(i*j)` reduced
//! modulo `p`.  The kernel computes that sum directly; the orchestrator in
//! `batch` applies it to every column of a matrix at once.

use crate::field::{add_mod, lemma_pow_mod_add, mul_mod, pow_mod, pow_mod_exec};
use vstd::arithmetic::div_mod::{lemma_add_mod_noop, lemma_mod_bound};
use vstd::prelude::*;

verus! {

/// `n` is a power of two.
pub open spec fn is_pow2(n: nat) -> bool
    decreases n,
{
    if n == 0 {
        false
    } else if n == 1 {
        true
    } else {
        n % 2 == 0 && is_pow2(n / 2)
    }
}

/// Column `c` of a row-major buffer `v` with `width` columns and `height` rows.
pub open spec fn col_seq(v: Seq<u64>, width: nat, c: nat, height: nat) -> Seq<u64> {
    Seq::new(height, |i: int| v[i * (width as int) + c])
}

/// Row `c` of a row-major buffer whose rows have length `rowlen`.
pub open spec fn row_seq(v: Seq<u64>, rowlen: nat, c: int) -> Seq<u64> {
    v.subrange(c * (rowlen as int), (c + 1) * (rowlen as int))
}

/// The row-major buffer of the transpose of an `height` x `width` matrix:
/// entry `(c, i)` of the result is entry `(i, c)` of the input.
pub open spec fn transpose_spec(v: Seq<u64>, height: nat, width: nat) -> Seq<u64> {
    Seq::new(
        v.len(),
        |k: int| v[(k % (height as int)) * (width as int) + k / (height as int)],
    )
}

/// Sum of the first `n` terms of column `col`'s DFT at output index `j`,
/// before the final reduction.
pub open spec fn dft_sum(col: Seq<u64>, w: u64, p: u64, j: nat, n: nat) -> int
    decreases n,
{
    if n == 0 {
        0
    } else {
        dft_sum(col, w, p, j, (n - 1) as nat) + col[n - 1] * pow_mod(
            w as int,
            ((n - 1) * j) as nat,
            p as int,
        )
    }
}

/// Entry `j` of the DFT of `col`: `sum_i col[i] * w^(i*j)` modulo `p`.
pub open spec fn dft_point(col: Seq<u64>, w: u64, p: u64, j: nat) -> int {
    dft_sum(col, w, p, j, col.len()) % (p as int)
}

/// The DFT of one full row (a column of the original matrix).
pub open spec fn dft_row_spec(col: Seq<u64>, w: u64, p: u64) -> Seq<u64> {
    Seq::new(col.len(), |j: int| dft_point(col, w, p, j as nat) as u64)
}

/// The batched DFT of a row-major buffer with `width` columns: every column
/// is replaced by its DFT, the shape is kept.
pub open spec fn dft_batch_spec(v: Seq<u64>, width: nat, w: u64, p: u64) -> Seq<u64> {
    Seq::new(
        v.len(),
        |k: int|
            dft_point(
                col_seq(
                    v,
                    width,
                    (k % (width as int)) as nat,
                    (v.len() as int / width as int) as nat,
                ),
                w,
                p,
                (k / (width as int)) as nat,
            ) as u64,
    )
}

/// Every entry multiplied by the fixed residue `m`, reduced.
pub open spec fn scale_all_spec(v: Seq<u64>, m: u64, p: u64) -> Seq<u64> {
    Seq::new(v.len(), |k: int| ((v[k] * m) % (p as int)) as u64)
}

/// Entry `i` of `col` multiplied by `shift^i`, reduced.
pub open spec fn scale_powers_spec(col: Seq<u64>, shift: u64, p: u64) -> Seq<u64> {
    Seq::new(
        col.len(),
        |i: int| ((col[i] * pow_mod(shift as int, i as nat, p as int)) % (p as int)) as u64,
    )
}

/// Every entry of row `i` multiplied by `shift^i`, reduced: the coset
/// preparation of a row-major buffer with `width` columns.
pub open spec fn scale_rows_spec(v: Seq<u64>, width: nat, shift: u64, p: u64) -> Seq<u64> {
    Seq::new(
        v.len(),
        |k: int|
            ((v[k] * pow_mod(shift as int, (k / (width as int)) as nat, p as int)) % (
            p as int)) as u64,
    )
}

/// Sum of the first `n` terms of `col` evaluated at the point `x`.
pub open spec fn eval_sum(col: Seq<u64>, x: int, p: u64, n: nat) -> int
    decreases n,
{
    if n == 0 {
        0
    } else {
        eval_sum(col, x, p, (n - 1) as nat) + col[n - 1] * pow_mod(x, (n - 1) as nat, p as int)
    }
}

/// `col`, read as polynomial coefficients, evaluated at `x` modulo `p`.
pub open spec fn eval_poly(col: Seq<u64>, x: int, p: u64) -> int {
    eval_sum(col, x, p, col.len()) % (p as int)
}

/// The inverse batched DFT: the forward pass run with the inverse root,
/// then every entry scaled by the inverse of the row count.
pub open spec fn idft_batch_spec(v: Seq<u64>, width: nat, w_inv: u64, rinv: u64, p: u64) -> Seq<
    u64,
> {
    scale_all_spec(dft_batch_spec(v, width, w_inv, p), rinv, p)
}

/// Sequential DFT kernel for one row: the direct evaluation of the defining
/// sums, quadratic in the row length.
pub fn dft_row(v: &Vec<u64>, w: u64, p: u64) -> (r: Vec<u64>)
    requires
        1 <= p,
        w < p,
        forall|i: int| 0 <= i < v@.len() ==> v@[i] < p,
    ensures
        r@ == dft_row_spec(v@, w, p),
{
    let n = v.len();
    let mut out: Vec<u64> = Vec::new();
    let mut j: usize = 0;
    while j < n
        invariant
            j <= n,
            n == v@.len(),
            1 <= p,
            w < p,
            forall|i: int| 0 <= i < v@.len() ==> v@[i] < p,
            out@.len() == j,
            forall|q: int| 0 <= q < j ==> out@[q] == dft_point(v@, w, p, q as nat) as u64,
        decreases n - j,
    {
        let wj = pow_mod_exec(w, j as u64, p);
        let mut acc: u64 = 0;
        let mut x: u64 = 1 % p;
        let mut i: usize = 0;
        proof {
            lemma_mod_bound(1, p as int);
        }
        while i < n
            invariant
                i <= n,
                j < n,
                n == v@.len(),
                1 <= p,
                w < p,
                forall|q: int| 0 <= q < v@.len() ==> v@[q] < p,
                wj == pow_mod(w as int, j as nat, p as int),
                wj < p,
                acc == dft_sum(v@, w, p, j as nat, i as nat) % (p as int),
                acc < p,
                x == pow_mod(w as int, (i * j) as nat, p as int),
                x < p,
            decreases n - i,
        {
            let t = mul_mod(v[i], x, p);
            let x_next = mul_mod(x, wj, p);
            proof {
                let jn = j as nat;
                let it = i as nat;
                assert(dft_sum(v@, w, p, jn, it + 1) == dft_sum(v@, w, p, jn, it) + v@[i as int]
                    * pow_mod(w as int, it * jn, p as int));
                lemma_add_mod_noop(
                    dft_sum(v@, w, p, jn, it),
                    v@[i as int] * pow_mod(w as int, it * jn, p as int),
                    p as int,
                );
                lemma_pow_mod_add(w as int, it * jn, jn, p as int);
                assert((it + 1) * jn == it * jn + jn) by (nonlinear_arith);
            }
            acc = add_mod(acc, t, p);
            x = x_next;
            i = i + 1;
        }
        proof {
            assert(acc == dft_point(v@, w, p, j as nat));
        }
        out.push(acc);
        j = j + 1;
    }
    proof {
        assert(out@ =~= dft_row_spec(v@, w, p));
    }
    out
}

} // verus!
