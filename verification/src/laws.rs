//! Properties of the batched DFT that relate several operations, proved
//! once over the spec functions that the executable contracts use.

use crate::dft::{
    col_seq, dft_batch_spec, dft_point, dft_sum, eval_poly, eval_sum, scale_powers_spec,
    scale_rows_spec, transpose_spec,
};
use crate::field::{
    lemma_add_mod_terms, lemma_pow_mod_base_reduce, lemma_pow_mod_bound, lemma_pow_mod_mul,
    lemma_pow_mod_product, pow_mod,
};
use vstd::arithmetic::div_mod::{
    lemma_div_multiples_vanish, lemma_fundamental_div_mod, lemma_fundamental_div_mod_converse,
    lemma_mod_bound, lemma_mul_mod_noop_general, lemma_multiply_divide_lt,
};
use vstd::arithmetic::mul::lemma_mul_is_associative;
use vstd::prelude::*;

verus! {

/// Transposing twice restores every entry to its place, for every shape
/// with at least one row and one column (a single row or a single column
/// included).
pub proof fn lemma_transpose_involution(v: Seq<u64>, h: nat, w: nat)
    requires
        1 <= h,
        1 <= w,
        v.len() == h * w,
    ensures
        transpose_spec(transpose_spec(v, h, w), w, h) == v,
{
    let hh = h as int;
    let ww = w as int;
    let t = transpose_spec(v, h, w);
    let u = transpose_spec(t, w, h);
    assert forall|k: int| 0 <= k < v.len() implies u[k] == v[k] by {
        let c = k % ww;
        let i = k / ww;
        lemma_mod_bound(k, ww);
        lemma_multiply_divide_lt(k, ww, hh);
        let idx = c * hh + i;
        assert(0 <= idx < hh * ww) by (nonlinear_arith)
            requires
                idx == c * hh + i,
                0 <= c < ww,
                0 <= i < hh,
        ;
        assert(u[k] == t[idx]);
        lemma_fundamental_div_mod_converse(idx, hh, c, i);
        assert(t[idx] == v[i * ww + c]);
        lemma_fundamental_div_mod(k, ww);
    };
    assert(u =~= v);
}

/// Two matrices with the same row count, laid side by side: `k` indexes the
/// row-major buffer of the combined `h` x `(w1 + w2)` matrix, whose left
/// `w1` columns come from `v1` and right `w2` columns from `v2`.
pub open spec fn hconcat_spec(v1: Seq<u64>, w1: nat, v2: Seq<u64>, w2: nat, h: nat) -> Seq<u64> {
    Seq::new(
        h * (w1 + w2),
        |k: int|
            {
                let c = k % ((w1 + w2) as int);
                let j = k / ((w1 + w2) as int);
                if c < w1 {
                    v1[j * (w1 as int) + c]
                } else {
                    v2[j * (w2 as int) + (c - w1)]
                }
            },
    )
}

/// Column independence: the batched DFT of matrices laid side by side is
/// the side-by-side layout of their batched DFTs.  Each column is
/// transformed on its own; neighbouring columns never mix.
pub proof fn lemma_dft_batch_hconcat(
    v1: Seq<u64>,
    w1: nat,
    v2: Seq<u64>,
    w2: nat,
    h: nat,
    w: u64,
    p: u64,
)
    requires
        1 <= w1,
        1 <= w2,
        1 <= h,
        v1.len() == h * w1,
        v2.len() == h * w2,
        1 <= p,
    ensures
        dft_batch_spec(hconcat_spec(v1, w1, v2, w2, h), (w1 + w2) as nat, w, p) == hconcat_spec(
            dft_batch_spec(v1, w1, w, p),
            w1,
            dft_batch_spec(v2, w2, w, p),
            w2,
            h,
        ),
{
    let ww = (w1 + w2) as int;
    let hh = h as int;
    let hc = hconcat_spec(v1, w1, v2, w2, h);
    let lhs = dft_batch_spec(hc, (w1 + w2) as nat, w, p);
    let d1 = dft_batch_spec(v1, w1, w, p);
    let d2 = dft_batch_spec(v2, w2, w, p);
    let rhs = hconcat_spec(d1, w1, d2, w2, h);
    lemma_div_multiples_vanish(hh, ww);
    lemma_div_multiples_vanish(hh, w1 as int);
    lemma_div_multiples_vanish(hh, w2 as int);
    assert(hc.len() == hh * ww) by (nonlinear_arith)
        requires
            hc.len() == h * (w1 + w2),
            hh == h,
            ww == w1 + w2,
    ;
    assert(lhs.len() == rhs.len());
    assert forall|k: int| 0 <= k < lhs.len() implies lhs[k] == rhs[k] by {
        let c = k % ww;
        let j = k / ww;
        lemma_mod_bound(k, ww);
        lemma_multiply_divide_lt(k, ww, hh);
        assert(hc.len() as int / ww == hh);
        assert(lhs[k] == dft_point(col_seq(hc, (w1 + w2) as nat, c as nat, h), w, p, j as nat) as u64);
        if c < w1 {
            assert forall|i: int| 0 <= i < hh implies #[trigger] col_seq(
                hc,
                (w1 + w2) as nat,
                c as nat,
                h,
            )[i] == col_seq(v1, w1, c as nat, h)[i] by {
                let idx = i * ww + c;
                assert(0 <= idx < hh * ww) by (nonlinear_arith)
                    requires
                        idx == i * ww + c,
                        0 <= i < hh,
                        0 <= c < ww,
                ;
                lemma_fundamental_div_mod_converse(idx, ww, i, c);
                assert(hc[idx] == v1[i * (w1 as int) + c]);
            };
            assert(col_seq(hc, (w1 + w2) as nat, c as nat, h) =~= col_seq(v1, w1, c as nat, h));
            let k1 = j * (w1 as int) + c;
            assert(0 <= k1 < hh * (w1 as int)) by (nonlinear_arith)
                requires
                    k1 == j * (w1 as int) + c,
                    0 <= j < hh,
                    0 <= c < w1 as int,
                    1 <= w1 as int,
            ;
            lemma_fundamental_div_mod_converse(k1, w1 as int, j, c);
            assert(rhs[k] == d1[k1]);
            assert(k1 % (w1 as int) == c);
            assert(k1 / (w1 as int) == j);
            assert(v1.len() as int == (w1 as int) * hh) by (nonlinear_arith)
                requires
                    v1.len() == h * w1,
                    hh == h,
            ;
            lemma_div_multiples_vanish(hh, w1 as int);
            assert(v1.len() as int / (w1 as int) == hh);
            assert(0 <= k1 < d1.len());
            assert(d1[k1] == dft_point(
                col_seq(v1, w1, (k1 % (w1 as int)) as nat, (v1.len() as int / (w1 as int)) as nat),
                w,
                p,
                (k1 / (w1 as int)) as nat,
            ) as u64);
            assert(d1[k1] == dft_point(col_seq(v1, w1, c as nat, h), w, p, j as nat) as u64);
        } else {
            let c2 = c - w1;
            assert forall|i: int| 0 <= i < hh implies #[trigger] col_seq(
                hc,
                (w1 + w2) as nat,
                c as nat,
                h,
            )[i] == col_seq(v2, w2, c2 as nat, h)[i] by {
                let idx = i * ww + c;
                assert(0 <= idx < hh * ww) by (nonlinear_arith)
                    requires
                        idx == i * ww + c,
                        0 <= i < hh,
                        0 <= c < ww,
                ;
                lemma_fundamental_div_mod_converse(idx, ww, i, c);
                assert(hc[idx] == v2[i * (w2 as int) + c2]);
            };
            assert(col_seq(hc, (w1 + w2) as nat, c as nat, h) =~= col_seq(v2, w2, c2 as nat, h));
            let k2 = j * (w2 as int) + c2;
            assert(0 <= k2 < hh * (w2 as int)) by (nonlinear_arith)
                requires
                    k2 == j * (w2 as int) + c2,
                    0 <= j < hh,
                    0 <= c2 < w2 as int,
                    1 <= w2 as int,
            ;
            lemma_fundamental_div_mod_converse(k2, w2 as int, j, c2);
            assert(rhs[k] == d2[k2]);
            assert(k2 % (w2 as int) == c2);
            assert(k2 / (w2 as int) == j);
            assert(v2.len() as int == (w2 as int) * hh) by (nonlinear_arith)
                requires
                    v2.len() == h * w2,
                    hh == h,
            ;
            lemma_div_multiples_vanish(hh, w2 as int);
            assert(v2.len() as int / (w2 as int) == hh);
            assert(0 <= k2 < d2.len());
            assert(d2[k2] == dft_point(
                col_seq(v2, w2, (k2 % (w2 as int)) as nat, (v2.len() as int / (w2 as int)) as nat),
                w,
                p,
                (k2 / (w2 as int)) as nat,
            ) as u64);
            assert(d2[k2] == dft_point(col_seq(v2, w2, c2 as nat, h), w, p, j as nat) as u64);
        }
    };
    assert(lhs =~= rhs);
}

/// The two sums agree term by term: evaluating at `x = w^j` turns
/// `col[i] * x^i` into `col[i] * w^(i*j)`.
proof fn lemma_eval_at_power_sum(col: Seq<u64>, w: u64, p: u64, j: nat, n: nat)
    requires
        1 <= p,
        n <= col.len(),
    ensures
        dft_sum(col, w, p, j, n) == eval_sum(col, pow_mod(w as int, j, p as int), p, n),
    decreases n,
{
    if n > 0 {
        let i = (n - 1) as nat;
        lemma_eval_at_power_sum(col, w, p, j, i);
        lemma_pow_mod_mul(w as int, j, i, p as int);
    }
}

/// The DFT is polynomial evaluation: entry `j` of the DFT of `col` is the
/// polynomial with coefficients `col` evaluated at `w^j`.
pub proof fn lemma_dft_point_is_eval(col: Seq<u64>, w: u64, p: u64, j: nat)
    requires
        1 <= p,
    ensures
        dft_point(col, w, p, j) == eval_poly(col, pow_mod(w as int, j, p as int), p),
{
    lemma_eval_at_power_sum(col, w, p, j, col.len());
}

/// Sum form of coset consistency: scaling entry `i` by `shift^i` before the
/// DFT sum is, modulo `p`, evaluation at the shifted point `shift * w^j`.
proof fn lemma_coset_sum(col: Seq<u64>, shift: u64, w: u64, p: u64, j: nat, n: nat)
    requires
        1 <= p,
        shift < p,
        n <= col.len(),
    ensures
        dft_sum(scale_powers_spec(col, shift, p), w, p, j, n) % (p as int) == eval_sum(
            col,
            (shift * pow_mod(w as int, j, p as int)) % (p as int),
            p,
            n,
        ) % (p as int),
    decreases n,
{
    let pp = p as int;
    let s = shift as int;
    let wj = pow_mod(w as int, j, pp);
    let x = (s * wj) % pp;
    if n > 0 {
        let i = (n - 1) as nat;
        lemma_coset_sum(col, shift, w, p, j, i);
        let a = col[n - 1] as int;
        let ps = pow_mod(s, i, pp);
        let pw = pow_mod(w as int, i * j, pp);
        lemma_pow_mod_bound(s, i, pp);
        lemma_mod_bound(a * ps, pp);
        // the scaled entry, cast through u64 and back
        assert(scale_powers_spec(col, shift, p)[n - 1] == ((a * ps) % pp) as u64);
        // left term reduced: (((a*ps) % p) * pw) % p == (a*ps*pw) % p
        lemma_mul_mod_noop_general(a * ps, pw, pp);
        lemma_mul_is_associative(a, ps, pw);
        // right term reduced: (a * x^i) % p == (a*ps*pw) % p
        lemma_pow_mod_base_reduce(s * wj, i, pp);
        lemma_pow_mod_product(s, wj, i, pp);
        lemma_pow_mod_mul(w as int, j, i, pp);
        assert(pow_mod(x, i, pp) == (ps * pw) % pp);
        lemma_mul_mod_noop_general(a, ps * pw, pp);
        lemma_add_mod_terms(
            dft_sum(scale_powers_spec(col, shift, p), w, p, j, i),
            ((a * ps) % pp) * pw,
            eval_sum(col, x, p, i),
            a * pow_mod(x, i, pp),
            pp,
        );
    }
}

/// Coset consistency for one column: multiplying entry `i` by `shift^i`
/// before the forward DFT evaluates the original polynomial on the coset
/// domain `shift * w^j` instead of `w^j`.
pub proof fn lemma_coset_point(col: Seq<u64>, shift: u64, w: u64, p: u64, j: nat)
    requires
        1 <= p,
        shift < p,
    ensures
        dft_point(scale_powers_spec(col, shift, p), w, p, j) == eval_poly(
            col,
            (shift * pow_mod(w as int, j, p as int)) % (p as int),
            p,
        ),
{
    lemma_coset_sum(col, shift, w, p, j, col.len());
}

/// Coset consistency for the whole batch, stated over the buffer that
/// `coset_dft_batch` returns: entry `(j, c)` is column `c` of the original
/// matrix evaluated at `shift * w^j`.  The orchestration (transpose,
/// parallel rows, transpose back) does not break the commutation.
pub proof fn lemma_coset_consistency(
    v: Seq<u64>,
    width: nat,
    shift: u64,
    w: u64,
    p: u64,
    k: int,
)
    requires
        1 <= width,
        1 <= p,
        shift < p,
        w < p,
        0 <= k < v.len(),
    ensures
        dft_batch_spec(scale_rows_spec(v, width, shift, p), width, w, p)[k] == eval_poly(
            col_seq(v, width, (k % (width as int)) as nat, (v.len() as int / width as int) as nat),
            (shift * pow_mod(w as int, (k / (width as int)) as nat, p as int)) % (p as int),
            p,
        ) as u64,
{
    let ww = width as int;
    let hh = v.len() as int / ww;
    let c = k % ww;
    let j = k / ww;
    lemma_mod_bound(k, ww);
    let sc = scale_rows_spec(v, width, shift, p);
    assert(sc.len() == v.len());
    assert(dft_batch_spec(sc, width, w, p)[k] == dft_point(
        col_seq(sc, width, c as nat, hh as nat),
        w,
        p,
        j as nat,
    ) as u64);
    assert forall|i: int| 0 <= i < hh implies #[trigger] col_seq(sc, width, c as nat, hh as nat)[i]
        == scale_powers_spec(col_seq(v, width, c as nat, hh as nat), shift, p)[i] by {
        let idx = i * ww + c;
        lemma_fundamental_div_mod(v.len() as int, ww);
        assert(0 <= idx < v.len()) by (nonlinear_arith)
            requires
                idx == i * ww + c,
                0 <= i < hh,
                0 <= c < ww,
                hh == v.len() as int / ww,
                v.len() as int == ww * hh + v.len() as int % ww,
                0 <= v.len() as int % ww,
        ;
        lemma_fundamental_div_mod_converse(idx, ww, i, c);
        assert(sc[idx] == ((v[idx] * pow_mod(shift as int, i as nat, p as int)) % (p as int)) as u64);
    };
    assert(col_seq(sc, width, c as nat, hh as nat) =~= scale_powers_spec(
        col_seq(v, width, c as nat, hh as nat),
        shift,
        p,
    ));
    lemma_coset_point(col_seq(v, width, c as nat, hh as nat), shift, w, p, j as nat);
}

} // verus!
