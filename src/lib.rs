//! Sparse symmetric positive-definite solver: preconditioned conjugate
//! gradient with a modified incomplete Cholesky preconditioner.
//!
//! The numeric kernels are generic over a [`scalar::Scalar`] field type. The
//! index structures they walk (column lists, compressed rows, the factor's
//! column pointers) are verified exactly, and every computed value is stated
//! over the scalar's spec functions: products, both substitutions, the
//! factorization, and the conjugate-gradient recurrence.
use vstd::prelude::*;

pub mod scalar;
pub mod vector;
pub mod sparse_symmetric_matrix;
pub mod sparse_row_matrix;
pub mod preconditioner;
pub mod solver;
