use dft::batch::Radix2DitParallelTranspose;
use p3_matrix::dense::RowMajorMatrix;

// The prime field used throughout: Z/17, whose multiplicative group has
// order 16, so it holds roots of unity of order 1, 2, 4, 8 and 16.
const P: u64 = 17;

fn pw(b: u64, e: u64, p: u64) -> u64 {
    let mut r: u128 = 1;
    for _ in 0..e {
        r = r * b as u128 % p as u128;
    }
    r as u64
}

fn column(values: &[u64], width: usize, c: usize) -> Vec<u64> {
    values.iter().skip(c).step_by(width).copied().collect()
}

// The O(R^2) DFT of one column straight from the definition.
fn naive_dft_col(col: &[u64], w: u64, p: u64) -> Vec<u64> {
    (0..col.len())
        .map(|j| {
            let mut acc: u128 = 0;
            for (i, &x) in col.iter().enumerate() {
                acc = (acc + x as u128 * pw(w, (i * j) as u64, p) as u128) % p as u128;
            }
            acc as u64
        })
        .collect()
}

// The naive inverse: rinv * sum_j col[j] * w_inv^(j*k), reduced.
fn naive_idft_col(col: &[u64], w_inv: u64, rinv: u64, p: u64) -> Vec<u64> {
    naive_dft_col(col, w_inv, p)
        .into_iter()
        .map(|x| (x as u128 * rinv as u128 % p as u128) as u64)
        .collect()
}

fn check_against(result: &RowMajorMatrix<u64>, expected_cols: &[Vec<u64>]) {
    let width = result.width;
    for (c, expected) in expected_cols.iter().enumerate() {
        assert_eq!(&column(&result.values, width, c), expected);
    }
}

#[test]
fn dft_matches_naive_one_dimensional() {
    let col = vec![3, 1, 4, 1, 5, 9, 2, 6];
    let mat = RowMajorMatrix::new(col.clone(), 1);
    let out = Radix2DitParallelTranspose::default().dft_batch(mat, P, 2);
    assert_eq!(out.width, 1);
    assert_eq!(out.values, naive_dft_col(&col, 2, P));
}

#[test]
fn dft_matches_naive() {
    // 8 rows, 3 columns; 2 is a primitive 8th root of unity mod 17.
    let values: Vec<u64> = vec![
        1, 2, 3, 4, 5, 6, 7, 8, 9, 10, 11, 12, 13, 14, 15, 16, 0, 1, 2, 3, 4, 5, 6, 7,
    ];
    let mat = RowMajorMatrix::new(values.clone(), 3);
    let out = Radix2DitParallelTranspose::default().dft_batch(mat, P, 2);
    assert_eq!(out.width, 3);
    assert_eq!(out.values.len(), values.len());
    for c in 0..3 {
        assert_eq!(
            column(&out.values, 3, c),
            naive_dft_col(&column(&values, 3, c), 2, P)
        );
    }
}

#[test]
fn coset_dft_matches_naive() {
    // 4 rows, 2 columns; 4 has order 4 mod 17, the coset shift is 3:
    // column c of the result evaluates column c at the points 3 * 4^j.
    let values: Vec<u64> = vec![1, 5, 2, 6, 3, 7, 4, 8];
    let shift: u64 = 3;
    let w: u64 = 4;
    let mat = RowMajorMatrix::new(values.clone(), 2);
    let out = Radix2DitParallelTranspose::default().coset_dft_batch(mat, P, w, shift);
    for c in 0..2 {
        let col = column(&values, 2, c);
        let expected: Vec<u64> = (0..col.len())
            .map(|j| {
                let x = shift * pw(w, j as u64, P) % P;
                let mut acc: u128 = 0;
                for (i, &v) in col.iter().enumerate() {
                    acc = (acc + v as u128 * pw(x, i as u64, P) as u128) % P as u128;
                }
                acc as u64
            })
            .collect();
        assert_eq!(column(&out.values, 2, c), expected);
    }
}

#[test]
fn idft_matches_naive() {
    // 4 rows: the inverse root of 4 is 13 (4 * 13 = 52 = 3 * 17 + 1) and
    // the inverse of the row count 4 is 13 as well.
    let values: Vec<u64> = vec![7, 1, 3, 16, 2, 5, 11, 0];
    let mat = RowMajorMatrix::new(values.clone(), 2);
    let out = Radix2DitParallelTranspose::default().idft_batch(mat, P, 13, 13);
    check_against(
        &out,
        &[
            naive_idft_col(&column(&values, 2, 0), 13, 13, P),
            naive_idft_col(&column(&values, 2, 1), 13, 13, P),
        ],
    );
}

#[test]
fn dft_idft_consistency() {
    // Forward with w = 2 (order 8), then inverse with w_inv = 9 and
    // rinv = 15 (8 * 15 = 120 = 7 * 17 + 1): the original matrix returns.
    let values: Vec<u64> = vec![0, 1, 2, 3, 4, 5, 6, 7, 8, 9, 10, 11, 12, 13, 14, 15];
    let mat = RowMajorMatrix::new(values.clone(), 2);
    let strategy = Radix2DitParallelTranspose::default();
    let fwd = strategy.dft_batch(mat, P, 2);
    let back = strategy.idft_batch(fwd, P, 9, 15);
    assert_eq!(back.values, values);
    assert_eq!(back.width, 2);
}

#[test]
fn dft_r4_known_vector() {
    // R = 4 over Z/17 with the 4th root of unity g = 4; the column
    // [1, 2, 3, 4] maps to [1+2+3+4, 1+2g+3g^2+4g^3, 1+2g^2+3g^4+4g^6,
    // 1+2g^3+3g^6+4g^9] reduced mod 17, which is [10, 7, 15, 6].
    let mat = RowMajorMatrix::new(vec![1, 2, 3, 4], 1);
    let out = Radix2DitParallelTranspose::default().dft_batch(mat, P, 4);
    assert_eq!(out.values, vec![10, 7, 15, 6]);
}

#[test]
fn dft_single_row() {
    // R = 1: the only root needed is w^0, so every column is unchanged.
    let mat = RowMajorMatrix::new(vec![5, 11, 0, 13], 4);
    let out = Radix2DitParallelTranspose::default().dft_batch(mat, P, 1);
    assert_eq!(out.values, vec![5, 11, 0, 13]);
    assert_eq!(out.width, 4);
}

#[test]
fn dft_two_rows() {
    // R = 2 with the order-2 root 16 = -1 mod 17: the butterfly
    // [a+b, a-b] of each column.
    let mat = RowMajorMatrix::new(vec![3, 9, 14, 2], 2);
    let out = Radix2DitParallelTranspose::default().dft_batch(mat, P, 16);
    assert_eq!(out.values, vec![(3 + 14) % 17, (9 + 2) % 17, (3 + 17 - 14) % 17, (9 + 17 - 2) % 17]);
}

#[test]
fn dft_batch_columns_independent() {
    // Transforming two matrices glued side by side equals gluing the two
    // transforms side by side.
    let left: Vec<u64> = vec![1, 2, 3, 4];
    let right: Vec<u64> = vec![5, 6, 7, 8, 9, 10, 11, 12];
    let glued: Vec<u64> = vec![1, 5, 6, 2, 7, 8, 3, 9, 10, 4, 11, 12];
    let strategy = Radix2DitParallelTranspose::default();
    let d_left = strategy.dft_batch(RowMajorMatrix::new(left, 1), P, 4);
    let d_right = strategy.dft_batch(RowMajorMatrix::new(right, 2), P, 4);
    let d_glued = strategy.dft_batch(RowMajorMatrix::new(glued, 3), P, 4);
    for j in 0..4 {
        assert_eq!(d_glued.values[3 * j], d_left.values[j]);
        assert_eq!(d_glued.values[3 * j + 1], d_right.values[2 * j]);
        assert_eq!(d_glued.values[3 * j + 2], d_right.values[2 * j + 1]);
    }
}

#[test]
fn dft_large_field() {
    // A 64-bit prime (2^64 - 2^32 + 1) with residues near the top of the
    // range: the reductions must go through wide intermediates.  The
    // order-2 root is p - 1, so the transform is the butterfly [a+b, a-b].
    let p: u64 = 18446744069414584321;
    let a: u64 = p - 2;
    let b: u64 = p - 5;
    let mat = RowMajorMatrix::new(vec![a, b], 1);
    let out = Radix2DitParallelTranspose::default().dft_batch(mat, p, p - 1);
    assert_eq!(out.values, vec![p - 7, 3]);
}

#[test]
fn transpose_twice_is_identity() {
    // The outside transpose this library leans on, applied twice, restores
    // the matrix; once, it moves entry (i, c) to (c, i).
    let values: Vec<u64> = vec![1, 2, 3, 4, 5, 6];
    let mat = RowMajorMatrix::new(values.clone(), 3);
    let t = mat.transpose();
    assert_eq!(t.width, 2);
    assert_eq!(t.values, vec![1, 4, 2, 5, 3, 6]);
    let back = t.transpose();
    assert_eq!(back.width, 3);
    assert_eq!(back.values, values);
}
