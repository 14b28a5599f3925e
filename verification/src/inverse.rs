//! The round trip: the inverse batched DFT undoes the forward one.
//!
//! The forward pass evaluates each column at the powers of `w`; running it
//! again with the inverse root `w_inv` and scaling by the inverse of the
//! row count returns the original column.  The proof is the classical
//! orthogonality argument: after exchanging the two sums, every inner sum
//! is a proper geometric sum of root powers and vanishes, except the one
//! for the original index, which contributes the row count.

use crate::dft::{
    col_seq, dft_batch_spec, dft_point, dft_row_spec, dft_sum, idft_batch_spec, scale_all_spec,
};
use crate::field::{
    geo_sum, lemma_pow_mod_add, lemma_pow_mod_base_reduce, lemma_pow_mod_one,
    lemma_pow_mod_product, pow_mod, principal_root,
};
use crate::sums::{
    lemma_sum_all_but_one, lemma_sum_const, lemma_sum_ext, lemma_sum_mod_congruent,
    lemma_sum_scale, lemma_sum_swap, sum_of,
};
use vstd::arithmetic::div_mod::{
    lemma_fundamental_div_mod, lemma_fundamental_div_mod_converse, lemma_mod_bound,
    lemma_mul_mod_noop_general, lemma_multiply_divide_lt, lemma_small_mod,
};
use vstd::prelude::*;

verus! {

/// A root and its inverse cancel at every power: `(w^e * w_inv^e) % p == 1`.
proof fn lemma_pow_pair_one(w: u64, wi: u64, e: nat, p: u64)
    requires
        2 <= p,
        (w * wi) % (p as int) == 1,
    ensures
        (pow_mod(w as int, e, p as int) * pow_mod(wi as int, e, p as int)) % (p as int) == 1,
{
    let pp = p as int;
    lemma_pow_mod_product(w as int, wi as int, e, pp);
    lemma_pow_mod_base_reduce((w as int) * (wi as int), e, pp);
    lemma_pow_mod_one(e, pp);
    lemma_small_mod(1, p as nat);
}

/// One term of the exchanged double sum, reduced: the powers of `w` and
/// `w_inv` cancel down to a single geometric-sum term (or, on the
/// diagonal, to the bare coefficient).
proof fn lemma_orth_term(a: u64, w: u64, wi: u64, p: u64, i: int, k: int, j: int)
    requires
        2 <= p,
        a < p,
        (w * wi) % (p as int) == 1,
        0 <= i,
        0 <= k,
        0 <= j,
    ensures
        i > k ==> (a * pow_mod(w as int, (i * j) as nat, p as int) * pow_mod(
            wi as int,
            (j * k) as nat,
            p as int,
        )) % (p as int) == (a * pow_mod(w as int, ((i - k) * j) as nat, p as int)) % (p as int),
        i < k ==> (a * pow_mod(w as int, (i * j) as nat, p as int) * pow_mod(
            wi as int,
            (j * k) as nat,
            p as int,
        )) % (p as int) == (a * pow_mod(wi as int, ((k - i) * j) as nat, p as int)) % (p as int),
        i == k ==> (a * pow_mod(w as int, (i * j) as nat, p as int) * pow_mod(
            wi as int,
            (j * k) as nat,
            p as int,
        )) % (p as int) == a,
{
    let pp = p as int;
    let ww = w as int;
    let vv = wi as int;
    let aa = a as int;
    let x = pow_mod(ww, (i * j) as nat, pp);
    let z = pow_mod(vv, (j * k) as nat, pp);
    if i == k {
        assert(i * j == j * k) by (nonlinear_arith)
            requires
                i == k,
        ;
        lemma_pow_pair_one(w, wi, (i * j) as nat, p);
        assert((x * z) % pp == 1);
        assert(aa * x * z == aa * (x * z)) by (nonlinear_arith);
        lemma_mul_mod_noop_general(aa, x * z, pp);
        lemma_small_mod(a as nat, p as nat);
    } else if i > k {
        let d = i - k;
        let e1 = (d * j) as nat;
        let e2 = (k * j) as nat;
        assert(d * j >= 0 && k * j >= 0 && d * j + k * j == i * j) by (nonlinear_arith)
            requires
                d == i - k,
                0 <= k,
                0 <= j,
                0 <= d,
        ;
        lemma_pow_mod_add(ww, e1, e2, pp);
        let xx = pow_mod(ww, e1, pp);
        let y = pow_mod(ww, e2, pp);
        assert(x == (xx * y) % pp);
        lemma_pow_pair_one(w, wi, (j * k) as nat, p);
        assert((y * z) % pp == 1);
        assert(aa * ((xx * y) % pp) * z == ((xx * y) % pp) * (aa * z)) by (nonlinear_arith);
        lemma_mul_mod_noop_general(xx * y, aa * z, pp);
        assert((xx * y) * (aa * z) == (aa * xx) * (y * z)) by (nonlinear_arith);
        lemma_mul_mod_noop_general(aa * xx, y * z, pp);
        assert((aa * xx * 1) == aa * xx) by (nonlinear_arith);
    } else {
        let d = k - i;
        let e1 = (d * j) as nat;
        let e2 = (i * j) as nat;
        assert(d * j >= 0 && i * j >= 0 && d * j + i * j == j * k) by (nonlinear_arith)
            requires
                d == k - i,
                0 <= i,
                0 <= j,
                0 <= d,
        ;
        lemma_pow_mod_add(vv, e1, e2, pp);
        let dd = pow_mod(vv, e1, pp);
        let y2 = pow_mod(vv, e2, pp);
        assert(z == (dd * y2) % pp);
        lemma_pow_pair_one(w, wi, (i * j) as nat, p);
        assert((x * y2) % pp == 1);
        assert(aa * x * ((dd * y2) % pp) == ((dd * y2) % pp) * (aa * x)) by (nonlinear_arith);
        lemma_mul_mod_noop_general(dd * y2, aa * x, pp);
        assert((dd * y2) * (aa * x) == (aa * dd) * (y2 * x)) by (nonlinear_arith);
        lemma_mul_mod_noop_general(aa * dd, y2 * x, pp);
        assert((aa * dd * 1) == aa * dd) by (nonlinear_arith);
    }
}

/// `dft_sum` is `sum_of` the term function.
proof fn lemma_dft_sum_as_sum_of(col: Seq<u64>, w: u64, p: u64, j: nat, n: nat)
    ensures
        dft_sum(col, w, p, j, n) == sum_of(
            (|i: int| col[i] * pow_mod(w as int, (i * j) as nat, p as int)),
            n,
        ),
    decreases n,
{
    if n != 0 {
        lemma_dft_sum_as_sum_of(col, w, p, j, (n - 1) as nat);
    }
}

/// `geo_sum` is `sum_of` the power function.
proof fn lemma_geo_sum_as_sum_of(w: u64, d: nat, n: nat, p: u64)
    ensures
        geo_sum(w, d, n, p) == sum_of((|j: int| pow_mod(w as int, (d * j) as nat, p as int)), n),
    decreases n,
{
    if n != 0 {
        lemma_geo_sum_as_sum_of(w, d, (n - 1) as nat, p);
    }
}

/// Round trip for one column: the DFT at `w`, transformed again at the
/// inverse root `w_inv` and scaled by `rinv` (the inverse of the length),
/// is the original column.  `w` and `w_inv` must be principal roots of
/// unity of order the column length, inverse to each other.
pub proof fn lemma_dft_round_trip_col(col: Seq<u64>, w: u64, w_inv: u64, rinv: u64, p: u64)
    requires
        2 <= p,
        w < p,
        w_inv < p,
        rinv < p,
        forall|i: int| 0 <= i < col.len() ==> col[i] < p,
        (w * w_inv) % (p as int) == 1,
        ((col.len() as int) * rinv) % (p as int) == 1,
        principal_root(w, col.len(), p),
        principal_root(w_inv, col.len(), p),
    ensures
        scale_all_spec(dft_row_spec(dft_row_spec(col, w, p), w_inv, p), rinv, p) == col,
{
    let r = col.len();
    let rr = r as int;
    let pp = p as int;
    let ww = w as int;
    let vv = w_inv as int;
    let d1 = dft_row_spec(col, w, p);
    let d2 = dft_row_spec(d1, w_inv, p);
    let res = scale_all_spec(d2, rinv, p);
    assert forall|k: int| 0 <= k < rr implies res[k] == col[k] by {
        let a = col[k] as int;
        // the double-sum term: coefficient i at inner index j
        let h = (|i: int, j: int|
            col[i] * pow_mod(ww, (i * j) as nat, pp) * pow_mod(vv, (j * k) as nat, pp));
        // dft_sum(d1, w_inv, p, k, r) as a sum_of, then reduced termwise
        let f_red = (|j: int| d1[j] * pow_mod(vv, (j * k) as nat, pp));
        let f_full = (|j: int|
            dft_sum(col, w, p, j as nat, r) * pow_mod(vv, (j * k) as nat, pp));
        lemma_dft_sum_as_sum_of(d1, w_inv, p, k as nat, r);
        assert(sum_of(
            (|i: int| d1[i] * pow_mod(vv, (i * (k as nat)) as nat, pp)),
            r,
        ) == sum_of(f_red, r)) by {
            lemma_sum_ext(
                (|i: int| d1[i] * pow_mod(vv, (i * (k as nat)) as nat, pp)),
                f_red,
                r,
            );
        };
        assert forall|j: int| 0 <= j < rr implies #[trigger] f_red(j) % pp == f_full(j) % pp by {
            lemma_mod_bound(dft_sum(col, w, p, j as nat, r), pp);
            assert(d1[j] == dft_point(col, w, p, j as nat) as u64);
            assert(d1[j] as int == dft_sum(col, w, p, j as nat, r) % pp);
            lemma_mul_mod_noop_general(
                dft_sum(col, w, p, j as nat, r),
                pow_mod(vv, (j * k) as nat, pp),
                pp,
            );
        };
        lemma_sum_mod_congruent(f_red, f_full, r, pp);
        // expand each full term into a sum over the coefficients
        let rows = (|j: int| sum_of((|i: int| h(i, j)), r));
        assert forall|j: int| 0 <= j < rr implies #[trigger] f_full(j) == rows(j) by {
            lemma_dft_sum_as_sum_of(col, w, p, j as nat, r);
            lemma_sum_scale(
                (|i: int| col[i] * pow_mod(ww, (i * j) as nat, pp)),
                (|i: int| h(i, j)),
                pow_mod(vv, (j * k) as nat, pp),
                r,
            );
        };
        lemma_sum_ext(f_full, rows, r);
        // exchange the sums
        lemma_sum_swap(h, r, r);
        let cols = (|i: int| sum_of((|j: int| h(i, j)), r));
        assert(sum_of(rows, r) == sum_of(cols, r)) by {
            lemma_sum_ext(rows, (|j: int| sum_of((|i: int| h(i, j)), r)), r);
            lemma_sum_ext(cols, (|i: int| sum_of((|j: int| h(i, j)), r)), r);
        };
        // off-diagonal outer terms vanish: they are geometric sums
        assert forall|i: int| 0 <= i < rr && i != k implies #[trigger] cols(i) % pp == 0 by {
            if i > k {
                let d = (i - k) as nat;
                let g = (|j: int| col[i] * pow_mod(ww, (d * j) as nat, pp));
                assert forall|j: int| 0 <= j < rr implies #[trigger] h(i, j) % pp == g(j)
                    % pp by {
                    lemma_orth_term(col[i], w, w_inv, p, i, k, j);
                    lemma_mul_mod_noop_general(col[i] as int, pow_mod(ww, (d * j) as nat, pp), pp);
                };
                lemma_sum_mod_congruent((|j: int| h(i, j)), g, r, pp);
                lemma_geo_sum_as_sum_of(w, d, r, p);
                assert forall|j: int| 0 <= j < rr implies #[trigger] g(j) == pow_mod(
                    ww,
                    (d * j) as nat,
                    pp,
                ) * (col[i] as int) by {
                    assert((col[i] as int) * pow_mod(ww, (d * j) as nat, pp) == pow_mod(
                        ww,
                        (d * j) as nat,
                        pp,
                    ) * (col[i] as int)) by (nonlinear_arith);
                };
                lemma_sum_scale(
                    (|j: int| pow_mod(ww, (d * j) as nat, pp)),
                    g,
                    col[i] as int,
                    r,
                );
                assert(sum_of(g, r) == geo_sum(w, d, r, p) * col[i]);
                assert(geo_sum(w, d, r, p) % pp == 0);
                lemma_mul_mod_noop_general(geo_sum(w, d, r, p), col[i] as int, pp);
                assert((0int * (col[i] as int)) % pp == 0) by (nonlinear_arith)
                    requires
                        2 <= pp,
                ;
            } else {
                let d = (k - i) as nat;
                let g = (|j: int| col[i] * pow_mod(vv, (d * j) as nat, pp));
                assert forall|j: int| 0 <= j < rr implies #[trigger] h(i, j) % pp == g(j)
                    % pp by {
                    lemma_orth_term(col[i], w, w_inv, p, i, k, j);
                    lemma_mul_mod_noop_general(col[i] as int, pow_mod(vv, (d * j) as nat, pp), pp);
                };
                lemma_sum_mod_congruent((|j: int| h(i, j)), g, r, pp);
                lemma_geo_sum_as_sum_of(w_inv, d, r, p);
                assert forall|j: int| 0 <= j < rr implies #[trigger] g(j) == pow_mod(
                    vv,
                    (d * j) as nat,
                    pp,
                ) * (col[i] as int) by {
                    assert((col[i] as int) * pow_mod(vv, (d * j) as nat, pp) == pow_mod(
                        vv,
                        (d * j) as nat,
                        pp,
                    ) * (col[i] as int)) by (nonlinear_arith);
                };
                lemma_sum_scale(
                    (|j: int| pow_mod(vv, (d * j) as nat, pp)),
                    g,
                    col[i] as int,
                    r,
                );
                assert(sum_of(g, r) == geo_sum(w_inv, d, r, p) * col[i]);
                assert(geo_sum(w_inv, d, r, p) % pp == 0);
                lemma_mul_mod_noop_general(geo_sum(w_inv, d, r, p), col[i] as int, pp);
                assert((0int * (col[i] as int)) % pp == 0) by (nonlinear_arith)
                    requires
                        2 <= pp,
                ;
            }
        };
        // the diagonal term contributes the coefficient `r` times
        let ca = (|j: int| a);
        assert forall|j: int| 0 <= j < rr implies #[trigger] h(k, j) % pp == ca(j) % pp by {
            lemma_orth_term(col[k], w, w_inv, p, k, k, j);
            lemma_small_mod(col[k] as nat, p as nat);
        };
        lemma_sum_mod_congruent((|j: int| h(k, j)), ca, r, pp);
        lemma_sum_const(ca, a, r);
        assert(cols(k) % pp == (rr * a) % pp);
        lemma_sum_all_but_one(cols, r, k, pp);
        // collect: the inner transform at k is (r * col[k]) mod p
        assert(dft_sum(d1, w_inv, p, k as nat, r) % pp == (rr * a) % pp);
        assert(d2[k] == dft_point(d1, w_inv, p, k as nat) as u64);
        lemma_mod_bound(rr * a, pp);
        assert(d2[k] as int == (rr * a) % pp);
        // scale by rinv: (r * a * rinv) mod p == a
        assert(res[k] == (((d2[k] as int) * rinv) % pp) as u64);
        lemma_mul_mod_noop_general(rr * a, rinv as int, pp);
        assert((rr * a) * rinv == a * (rr * rinv)) by (nonlinear_arith);
        lemma_mul_mod_noop_general(a, rr * (rinv as int), pp);
        assert(a * 1 == a) by (nonlinear_arith);
        lemma_small_mod(col[k] as nat, p as nat);
        assert(((d2[k] as int) * rinv) % pp == a);
    };
    assert(res =~= col);
}

/// Round trip for the whole batch (the item the library exposes): the
/// inverse batched DFT, run with the inverse root and the inverse of the
/// row count, undoes the forward batched DFT on every valid shape.
pub proof fn lemma_dft_idft_round_trip(
    v: Seq<u64>,
    width: nat,
    w: u64,
    w_inv: u64,
    rinv: u64,
    p: u64,
)
    requires
        1 <= width,
        v.len() % width == 0,
        2 <= p,
        w < p,
        w_inv < p,
        rinv < p,
        forall|i: int| 0 <= i < v.len() ==> v[i] < p,
        (w * w_inv) % (p as int) == 1,
        ((v.len() as int / width as int) * rinv) % (p as int) == 1,
        principal_root(w, v.len() / width, p),
        principal_root(w_inv, v.len() / width, p),
    ensures
        idft_batch_spec(dft_batch_spec(v, width, w, p), width, w_inv, rinv, p) == v,
{
    let ww = width as int;
    let n = v.len() as int;
    let h = (n / ww) as nat;
    let hh = h as int;
    let pp = p as int;
    lemma_fundamental_div_mod(n, ww);
    assert(n == ww * hh);
    let u = dft_batch_spec(v, width, w, p);
    let res = idft_batch_spec(u, width, w_inv, rinv, p);
    assert(res.len() == v.len());
    assert forall|k: int| 0 <= k < n implies res[k] == v[k] by {
        let c = k % ww;
        let j = k / ww;
        lemma_mod_bound(k, ww);
        lemma_multiply_divide_lt(k, ww, hh);
        let col = col_seq(v, width, c as nat, h);
        assert forall|i: int| 0 <= i < hh implies #[trigger] col_seq(u, width, c as nat, h)[i]
            == dft_row_spec(col, w, p)[i] by {
            let idx = i * ww + c;
            assert(0 <= idx < n) by (nonlinear_arith)
                requires
                    idx == i * ww + c,
                    0 <= i < hh,
                    0 <= c < ww,
                    n == ww * hh,
            ;
            lemma_fundamental_div_mod_converse(idx, ww, i, c);
            assert(u[idx] == dft_point(col, w, p, i as nat) as u64);
        };
        assert(col_seq(u, width, c as nat, h) =~= dft_row_spec(col, w, p));
        assert forall|i: int| 0 <= i < col.len() implies col[i] < p by {
            assert(0 <= i * ww + c < n) by (nonlinear_arith)
                requires
                    0 <= i < hh,
                    0 <= c < ww,
                    n == ww * hh,
            ;
        };
        lemma_dft_round_trip_col(col, w, w_inv, rinv, p);
        let d2 = dft_row_spec(dft_row_spec(col, w, p), w_inv, p);
        assert(scale_all_spec(d2, rinv, p)[j] == col[j]);
        assert(res[k] == ((dft_batch_spec(u, width, w_inv, p)[k] as int) * rinv % pp) as u64);
        assert(dft_batch_spec(u, width, w_inv, p)[k] == dft_point(
            col_seq(u, width, c as nat, h),
            w_inv,
            p,
            j as nat,
        ) as u64);
        assert(d2[j] == dft_point(dft_row_spec(col, w, p), w_inv, p, j as nat) as u64);
        lemma_fundamental_div_mod(k, ww);
        assert(k == ww * j + c);
        assert(col[j] == v[j * ww + c]);
        assert(j * ww == ww * j) by (nonlinear_arith);
        assert(v[k] == col[j]);
    };
    assert(res =~= v);
}

} // verus!
