//! Trusted boundary around the outside matrix storage and the parallel
//! executor.
//!
//! The matrix type is `p3_matrix`'s row-major `DenseMatrix` over `u64`
//! residues.  Verus sees it as an opaque value; the two names `mat_values`
//! and `mat_width` stand for its flat buffer and its column count, and every
//! contract below speaks over them.  The bodies here call the outside crates
//! and are believed, not proved: each doc comment names the call relied on.

use crate::dft::{dft_row, dft_row_spec, row_seq, transpose_spec};
use p3_matrix::dense::{DenseMatrix, RowMajorMatrix};
use p3_maybe_rayon::prelude::ParallelIterator;
use vstd::prelude::*;

verus! {

#[verifier::external_type_specification]
#[verifier::external_body]
#[verifier::reject_recursive_types(T)]
#[verifier::reject_recursive_types(V)]
pub struct ExDenseMatrix<T, V>(DenseMatrix<T, V>);

/// The flat row-major buffer of a matrix of residues.
pub uninterp spec fn mat_values(m: RowMajorMatrix<u64>) -> Seq<u64>;

/// The number of columns of a matrix of residues.
pub uninterp spec fn mat_width(m: RowMajorMatrix<u64>) -> nat;

/// The number of rows: the buffer length divided by the width.
pub open spec fn mat_height(m: RowMajorMatrix<u64>) -> nat {
    mat_values(m).len() / mat_width(m)
}

/// A matrix this library works on: a positive width that divides the
/// buffer length, so the buffer is exactly `height` full rows.
pub open spec fn mat_wf(m: RowMajorMatrix<u64>) -> bool {
    1 <= mat_width(m) && mat_values(m).len() % mat_width(m) == 0
}

/// Every entry of the buffer is a residue below `p`.
pub open spec fn mat_in_field(m: RowMajorMatrix<u64>, p: u64) -> bool {
    forall|k: int| 0 <= k < mat_values(m).len() ==> mat_values(m)[k] < p
}

/// Relies on `DenseMatrix::new`: it stores exactly the given buffer and
/// width (checked to be compatible by the `requires`).
#[verifier::external_body]
pub(crate) fn mat_new(values: Vec<u64>, width: usize) -> (m: RowMajorMatrix<u64>)
    requires
        1 <= width,
        values@.len() % (width as nat) == 0,
    ensures
        mat_values(m) == values@,
        mat_width(m) == width as nat,
{
    RowMajorMatrix::new(values, width)
}

/// Relies on the public `values` field of `DenseMatrix`: the flat
/// row-major buffer, cloned.
#[verifier::external_body]
pub(crate) fn mat_to_vec(m: &RowMajorMatrix<u64>) -> (r: Vec<u64>)
    ensures
        r@ == mat_values(*m),
{
    m.values.clone()
}

/// Relies on the public `width` field of `DenseMatrix`.
#[verifier::external_body]
pub(crate) fn mat_width_exec(m: &RowMajorMatrix<u64>) -> (r: usize)
    ensures
        r as nat == mat_width(*m),
{
    m.width
}

/// Relies on `DenseMatrix::transpose`, which moves the entry at row `i`,
/// column `c` to row `c`, column `i` of a matrix whose width is the old
/// height (`p3_util::transpose::transpose`: `output[col * height + row] =
/// input[row * width + col]`).
#[verifier::external_body]
pub(crate) fn mat_transpose(m: &RowMajorMatrix<u64>) -> (r: RowMajorMatrix<u64>)
    requires
        mat_wf(*m),
    ensures
        mat_width(r) == mat_height(*m),
        mat_values(r) == transpose_spec(mat_values(*m), mat_height(*m), mat_width(*m)),
{
    m.transpose()
}

/// Relies on `DenseMatrix::par_row_chunks_mut(1)` and `for_each` of
/// `p3_maybe_rayon`'s `ParallelIterator` (rayon): the buffer is split into
/// disjoint one-row chunks, the closure runs exactly once on each, and the
/// join returns only after every row is done.  The closure only calls the
/// verified kernel `dft_row` and copies its result back over the row, so
/// each row of the result is the DFT of the old row.
#[verifier::external_body]
pub(crate) fn dft_rows(m: RowMajorMatrix<u64>, w: u64, p: u64) -> (r: RowMajorMatrix<u64>)
    requires
        mat_wf(m),
        1 <= p,
        w < p,
        forall|k: int| 0 <= k < mat_values(m).len() ==> mat_values(m)[k] < p,
    ensures
        mat_width(r) == mat_width(m),
        mat_values(r).len() == mat_values(m).len(),
        forall|c: int|
            0 <= c < mat_height(m) ==> #[trigger] row_seq(mat_values(r), mat_width(m), c)
                == dft_row_spec(row_seq(mat_values(m), mat_width(m), c), w, p),
{
    let mut m = m;
    m.par_row_chunks_mut(1).for_each(|row| {
        let fft_result = dft_row(&row.values.to_vec(), w, p);
        row.values.copy_from_slice(&fft_result);
    });
    m
}

} // verus!
