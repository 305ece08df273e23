//! Sparse QR factorization: its error type and the dense working matrix,
//! with permuted columns, that the Givens rotations run on.
use vstd::prelude::*;
use crate::permutation::{invert_permutation, is_inverse, is_permutation};
use crate::sparse::CsrMatrix;

verus! {

/// Error type for sparse QR decomposition.
#[derive(Debug, Clone)]
pub enum SparseQrError {
    /// Matrix is singular (zero diagonal in R).
    SingularMatrix,
    /// RHS vector has incompatible length.
    IncompatibleDimensions {
        /// Expected dimension.
        expected: usize,
        /// Actual dimension provided.
        got: usize,
    },
    /// Matrix data is structurally invalid.
    InvalidMatrix(String),
    /// Numerical failure during factorization.
    NumericalFailure(String),
    /// Matrix is rank deficient.
    RankDeficient {
        /// Detected rank.
        rank: usize,
        /// Number of columns.
        n: usize,
    },
}

/// The value of the last entry among storage positions `[lo, hi)` whose
/// index is `key`.
pub open spec fn last_match<T>(idx: Seq<usize>, vals: Seq<T>, lo: int, hi: int, key: usize) -> Option<T>
    decreases hi - lo,
{
    if hi <= lo {
        None
    } else if idx[hi - 1] == key {
        Some(vals[hi - 1])
    } else {
        last_match(idx, vals, lo, hi - 1, key)
    }
}

/// Entry `(i, k)` of the dense matrix `A P` whose column `k` is column
/// `perm[k]` of `A`: the last value stored for that position, else `fill`.
pub open spec fn permuted_entry<T>(a: CsrMatrix<T>, perm: Seq<usize>, fill: T, i: int, k: int) -> T {
    match last_match(a.spec_col_indices(), a.spec_values(), a.spec_row_ptrs()[i] as int,
        a.spec_row_ptrs()[i + 1] as int, perm[k]) {
        Some(v) => v,
        None => fill,
    }
}

/// The dense working matrix of the QR factorization, row by row: `A` with
/// its columns reordered by `col_perm` (column `k` is column `col_perm[k]`
/// of `A`) and `fill` where nothing is stored.  An empty matrix is refused.
pub fn qr_working_matrix<T: Copy>(a: &CsrMatrix<T>, col_perm: &[usize], fill: T) -> (r: Result<Vec<Vec<T>>, SparseQrError>)
    requires
        is_permutation(col_perm@, a.spec_ncols() as nat),
    ensures
        match r {
            Err(SparseQrError::InvalidMatrix(msg)) => (a.spec_nrows() == 0 || a.spec_ncols() == 0)
                && msg@ == "Matrix must have at least one row and one column"@,
            Err(_) => false,
            Ok(work) => {
                &&& a.spec_nrows() > 0 && a.spec_ncols() > 0
                &&& work@.len() == a.spec_nrows()
                &&& forall|i: int| 0 <= i < a.spec_nrows() ==> (#[trigger] work@[i])@.len() == a.spec_ncols()
                &&& forall|i: int, k: int| 0 <= i < a.spec_nrows() && 0 <= k < a.spec_ncols()
                    ==> #[trigger] work@[i]@[k] == permuted_entry(*a, col_perm@, fill, i, k)
            },
        },
{
    let m = a.nrows();
    let n = a.ncols();
    if m == 0 || n == 0 {
        return Err(SparseQrError::InvalidMatrix("Matrix must have at least one row and one column".to_owned()));
    }
    let inv_perm = invert_permutation(col_perm);
    let ptrs = a.row_ptrs();
    let idx = a.col_indices();
    let vals = a.values();
    let mut work: Vec<Vec<T>> = Vec::new();
    let mut i: usize = 0;
    while i < m
        invariant
            i <= m,
            m == a.spec_nrows(),
            n == a.spec_ncols(),
            n > 0,
            ptrs@ == a.spec_row_ptrs(),
            idx@ == a.spec_col_indices(),
            vals@ == a.spec_values(),
            crate::compressed::compressed_wf(m as nat, n as nat, ptrs@, idx@, vals@.len()),
            is_permutation(col_perm@, n as nat),
            is_inverse(col_perm@, inv_perm@, n as nat),
            work@.len() == i,
            forall|x: int| 0 <= x < i ==> (#[trigger] work@[x])@.len() == n,
            forall|x: int, k: int| 0 <= x < i && 0 <= k < n ==> #[trigger] work@[x]@[k] == permuted_entry(*a, col_perm@, fill, x, k),
        decreases m - i,
    {
        let mut row: Vec<T> = Vec::new();
        let mut t: usize = 0;
        while t < n
            invariant
                t <= n,
                row@.len() == t,
                forall|k: int| 0 <= k < t ==> #[trigger] row@[k] == fill,
            decreases n - t,
        {
            row.push(fill);
            t = t + 1;
        }
        proof {
            assert(ptrs@[i as int] <= ptrs@[i + 1]);
            assert(ptrs@[i + 1] <= ptrs@[m as int]);
        }
        let lo = ptrs[i];
        let hi = ptrs[i + 1];
        let mut q: usize = lo;
        while q < hi
            invariant
                lo == ptrs@[i as int],
                hi == ptrs@[i + 1],
                lo <= q <= hi <= idx@.len(),
                idx@.len() == vals@.len(),
                n == a.spec_ncols(),
                crate::compressed::compressed_wf(m as nat, n as nat, ptrs@, idx@, vals@.len()),
                is_inverse(col_perm@, inv_perm@, n as nat),
                row@.len() == n,
                forall|k: int| 0 <= k < n ==> #[trigger] row@[k] == match last_match(idx@, vals@, lo as int, q as int, col_perm@[k]) {
                    Some(v) => v,
                    None => fill,
                },
            decreases hi - q,
        {
            let c = idx[q];
            let k = inv_perm[c];
            row.set(k, vals[q]);
            proof {
                assert forall|kk: int| 0 <= kk < n implies #[trigger] row@[kk] == match last_match(idx@, vals@, lo as int, q + 1, col_perm@[kk]) {
                    Some(v) => v,
                    None => fill,
                } by {
                    if kk == k {
                        assert(col_perm@[k as int] == c);
                    } else {
                        assert(col_perm@[kk] != c) by {
                            if col_perm@[kk] == c {
                                assert(inv_perm@[col_perm@[kk] as int] == kk);
                            }
                        }
                    }
                }
            }
            q = q + 1;
        }
        work.push(row);
        i = i + 1;
    }
    Ok(work)
}

} // verus!
