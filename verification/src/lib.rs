//! Batched discrete Fourier transform over a prime field.
//!
//! The entry point is [`batch::Radix2DitParallelTranspose`], which transforms
//! every column of a row-major matrix at once: it transposes the matrix so
//! that each column becomes a contiguous row, runs a sequential DFT kernel
//! over the rows in parallel, and transposes back.  Matrix storage, the
//! transpose pass and the parallel executor come from outside crates; the
//! field arithmetic, the row kernel and the orchestration are verified here.

pub mod batch;
pub mod dft;
pub mod field;
pub mod inverse;
pub mod laws;
pub mod matrix;
pub mod sums;
