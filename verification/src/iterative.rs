//! Krylov solvers for sparse systems `A x = b` (MINRES and QMR, plain and
//! preconditioned): their error and result types and the size checks made
//! before any iteration starts.
use vstd::prelude::*;

verus! {

/// Errors reported by the iterative solvers.
#[derive(Debug, Clone, PartialEq)]
pub enum IterativeError {
    /// A vector or the matrix has the wrong size.
    DimensionMismatch {
        /// Expected size.
        expected: usize,
        /// Size provided.
        actual: usize,
    },
    /// The iteration broke down.
    Breakdown {
        /// Iteration at which it happened.
        iteration: usize,
        /// What happened.
        description: String,
    },
}

/// Result of a MINRES solve.
#[derive(Debug, Clone)]
pub struct MinresResult<T> {
    /// The approximate solution.
    pub x: Vec<T>,
    /// Iterations performed.
    pub iterations: usize,
    /// Final residual norm.
    pub residual_norm: T,
    /// Whether the tolerance was reached.
    pub converged: bool,
    /// Residual norm after each iteration, the initial one first.
    pub residual_history: Vec<T>,
}

/// Result of a QMR solve.
#[derive(Debug, Clone)]
pub struct QmrResult<T> {
    /// The approximate solution.
    pub x: Vec<T>,
    /// Iterations performed.
    pub iterations: usize,
    /// Final residual norm.
    pub residual_norm: T,
    /// Whether the tolerance was reached.
    pub converged: bool,
    /// Residual (or quasi-residual) norm after each iteration, the initial
    /// one first.
    pub residual_history: Vec<T>,
}

/// The size check of a solve with an `n`-row matrix, a right-hand side of
/// length `b_len` and a starting guess of length `x0_len`: both must have
/// length `n`, and a mismatch reports `n` against the shorter of the two.
pub fn check_rhs_dims(n: usize, b_len: usize, x0_len: usize) -> (r: Result<(), IterativeError>)
    ensures
        match r {
            Ok(()) => b_len == n && x0_len == n,
            Err(IterativeError::DimensionMismatch { expected, actual }) => (b_len != n || x0_len != n)
                && expected == n && actual == (if b_len <= x0_len { b_len } else { x0_len }),
            Err(_) => false,
        },
{
    if b_len != n || x0_len != n {
        let actual = if b_len <= x0_len { b_len } else { x0_len };
        return Err(IterativeError::DimensionMismatch { expected: n, actual });
    }
    Ok(())
}

/// The size check of a solve that also needs a square matrix (QMR works
/// with `A` and its transpose): first the vectors as in `check_rhs_dims`,
/// then a non-square `nrows x ncols` matrix reports `nrows` against
/// `ncols`.
pub fn check_square_system(nrows: usize, ncols: usize, b_len: usize, x0_len: usize) -> (r: Result<(), IterativeError>)
    ensures
        match r {
            Ok(()) => b_len == nrows && x0_len == nrows && nrows == ncols,
            Err(IterativeError::DimensionMismatch { expected, actual }) =>
                if b_len != nrows || x0_len != nrows {
                    expected == nrows && actual == (if b_len <= x0_len { b_len } else { x0_len })
                } else {
                    nrows != ncols && expected == nrows && actual == ncols
                },
            Err(_) => false,
        },
{
    if let Err(e) = check_rhs_dims(nrows, b_len, x0_len) {
        return Err(e);
    }
    if nrows != ncols {
        return Err(IterativeError::DimensionMismatch { expected: nrows, actual: ncols });
    }
    Ok(())
}

} // verus!
