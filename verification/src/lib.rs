//! Verified core of a BLAS/sparse linear algebra toolkit: strided matrix
//! views, cache-prefetch planning, sparse storage formats and their
//! structural algorithms, and the configuration and dimension logic of the
//! sparse eigenvalue and SVD solvers.
use vstd::prelude::*;

pub mod compressed;
pub mod eigen;
pub mod etree;
pub mod iterative;
pub mod layout;
pub mod mat_ref;
pub mod merge;
pub mod prefetch;
pub mod permutation;
pub mod precond;
pub mod qr;
mod scalar;
pub mod sorted;
pub mod sparse;
pub mod supernodal;
pub mod svd;

verus! {
} // verus!
