//! Structural parts of the approximate-inverse preconditioners: the sparsity
//! patterns they start from and the assembly of factors that are computed
//! column by column into compressed storage.
use vstd::prelude::*;
use crate::compressed::{keys_increasing, lemma_segment_is_picked, lemma_transpose_twice, picked, stored_segment};
use crate::sorted::{insert_sorted_unique, strictly_increasing};
use crate::sparse::CsrMatrix;

verus! {

/// Error type for preconditioner operations.
#[derive(Debug, Clone, PartialEq)]
pub enum PreconditionerError {
    /// Invalid matrix (not square, wrong dimensions, etc.)
    InvalidMatrix(String),
    /// Zero diagonal element at position
    ZeroDiagonal(usize),
    /// Singular block at index
    SingularBlock(usize),
}

/// Total number of entries in the first `k` columns.
pub open spec fn total_len<T>(cols: Seq<Vec<(usize, T)>>, k: int) -> nat
    decreases k,
{
    if k <= 0 {
        0
    } else {
        total_len(cols, k - 1) + cols[k - 1]@.len()
    }
}

proof fn lemma_total_len_mono<T>(cols: Seq<Vec<(usize, T)>>, a: int, b: int)
    requires
        0 <= a <= b,
    ensures
        total_len(cols, a) <= total_len(cols, b),
    decreases b - a,
{
    if a < b {
        lemma_total_len_mono(cols, a, b - 1);
    }
}

/// `x` is the row of some entry of some column.
pub open spec fn is_stored_row<T>(cols: Seq<Vec<(usize, T)>>, x: usize) -> bool {
    exists|c: int, t: int| 0 <= c < cols.len() && 0 <= t < cols[c]@.len() && (#[trigger] cols[c]@[t]).0 == x
}

/// Concatenates columns given as `(row, value)` lists into compressed
/// storage: segment `j` of the result is column `j`, entry for entry.
pub fn columns_to_compressed<T: Copy>(cols: &[Vec<(usize, T)>]) -> (r: (Vec<usize>, Vec<usize>, Vec<T>))
    requires
        total_len(cols@, cols@.len() as int) <= usize::MAX,
    ensures
        r.0@.len() == cols@.len() + 1,
        forall|j: int| 0 <= j <= cols@.len() ==> #[trigger] r.0@[j] == total_len(cols@, j),
        r.1@.len() == total_len(cols@, cols@.len() as int),
        r.2@.len() == r.1@.len(),
        forall|j: int| 0 <= j < cols@.len() ==> #[trigger] stored_segment(r.0@, r.1@, r.2@, j as nat) == cols@[j]@,
        forall|k: int| 0 <= k < r.1@.len() ==> is_stored_row(cols@, #[trigger] r.1@[k]),
{
    let n = cols.len();
    proof {
        assert forall|a: int, b: int| 0 <= a <= b <= n implies #[trigger] total_len(cols@, a) <= #[trigger] total_len(cols@, b) by {
            lemma_total_len_mono(cols@, a, b);
        }
    }
    let mut ptrs: Vec<usize> = Vec::new();
    let mut idx: Vec<usize> = Vec::new();
    let mut vals: Vec<T> = Vec::new();
    ptrs.push(0);
    let mut j: usize = 0;
    while j < n
        invariant
            j <= n,
            n == cols@.len(),
            total_len(cols@, n as int) <= usize::MAX,
            forall|a: int, b: int| 0 <= a <= b <= n ==> #[trigger] total_len(cols@, a) <= #[trigger] total_len(cols@, b),
            ptrs@.len() == j + 1,
            forall|c: int| 0 <= c <= j ==> #[trigger] ptrs@[c] == total_len(cols@, c),
            idx@.len() == total_len(cols@, j as int),
            vals@.len() == idx@.len(),
            forall|c: int, t: int| 0 <= c < j && 0 <= t < cols@[c]@.len() ==>
                idx@[total_len(cols@, c) + t] == (#[trigger] cols@[c]@[t]).0 && vals@[total_len(cols@, c) + t] == cols@[c]@[t].1,
            forall|k: int| 0 <= k < idx@.len() ==> is_stored_row(cols@, #[trigger] idx@[k]),
        decreases n - j,
    {
        let col = &cols[j];
        let ghost start = idx@.len();
        let ghost before_idx = idx@;
        let ghost before_vals = vals@;
        proof {
            assert(total_len(cols@, j + 1) == start + col@.len());
            assert(total_len(cols@, j + 1) <= total_len(cols@, n as int));
        }
        let mut q: usize = 0;
        while q < col.len()
            invariant
                q <= col@.len(),
                start + col@.len() <= usize::MAX,
                idx@.len() == start + q,
                vals@.len() == idx@.len(),
                forall|k: int| 0 <= k < start ==> idx@[k] == before_idx[k] && vals@[k] == before_vals[k],
                before_idx.len() == start,
                before_vals.len() == start,
                forall|t: int| 0 <= t < q ==> idx@[start + t] == (#[trigger] col@[t]).0 && vals@[start + t] == col@[t].1,
                j < n,
                n == cols@.len(),
                col@ == cols@[j as int]@,
                forall|k: int| 0 <= k < idx@.len() ==> is_stored_row(cols@, #[trigger] idx@[k]),
            decreases col@.len() - q,
        {
            let (row, v) = col[q];
            proof {
                assert(cols@[j as int]@[q as int].0 == row);
            }
            idx.push(row);
            vals.push(v);
            q = q + 1;
        }
        ptrs.push(idx.len());
        proof {
            assert forall|c: int, t: int| 0 <= c < j + 1 && 0 <= t < cols@[c]@.len() implies
                idx@[total_len(cols@, c) + t] == (#[trigger] cols@[c]@[t]).0 && vals@[total_len(cols@, c) + t] == cols@[c]@[t].1 by {
                if c < j {
                    assert(total_len(cols@, c + 1) <= total_len(cols@, j as int));
                    assert(total_len(cols@, c + 1) == total_len(cols@, c) + cols@[c]@.len());
                } else {
                    assert(col@[t] == cols@[c]@[t]);
                }
            }
        }
        j = j + 1;
    }
    proof {
        assert forall|c: int| 0 <= c < n implies #[trigger] stored_segment(ptrs@, idx@, vals@, c as nat) == cols@[c]@ by {
            assert(ptrs@[c + 1] == total_len(cols@, c) + cols@[c]@.len());
            assert forall|t: int| 0 <= t < cols@[c]@.len() implies
                stored_segment(ptrs@, idx@, vals@, c as nat)[t] == cols@[c]@[t] by {
                let e = cols@[c]@[t];
                assert(idx@[total_len(cols@, c) + t] == e.0);
            }
            assert(stored_segment(ptrs@, idx@, vals@, c as nat) =~= cols@[c]@);
        }
    }
    (ptrs, idx, vals)
}

/// Row `i` of the row-compressed arrays stores an entry in column `j`.
pub open spec fn row_has_col(ptrs: Seq<usize>, idx: Seq<usize>, i: int, j: usize) -> bool {
    exists|k: int| ptrs[i] <= k < ptrs[i + 1] && #[trigger] idx[k] == j
}

/// The sparsity pattern of each column of `a`: for column `j`, the rows
/// holding an entry in column `j`, strictly increasing.
pub fn column_pattern<T>(a: &CsrMatrix<T>) -> (pattern: Vec<Vec<usize>>)
    ensures
        pattern@.len() == a.spec_ncols(),
        forall|j: int| 0 <= j < a.spec_ncols() ==> strictly_increasing(#[trigger] pattern@[j]@),
        forall|j: int, i: usize| 0 <= j < a.spec_ncols() ==> (#[trigger] pattern@[j]@.contains(i) <==>
            (i < a.spec_nrows() && row_has_col(a.spec_row_ptrs(), a.spec_col_indices(), i as int, j as usize))),
{
    let nrows = a.nrows();
    let ncols = a.ncols();
    let ptrs = a.row_ptrs();
    let idx = a.col_indices();
    let mut pattern: Vec<Vec<usize>> = Vec::new();
    let mut c: usize = 0;
    while c < ncols
        invariant
            c <= ncols,
            pattern@.len() == c,
            forall|x: int| 0 <= x < c ==> (#[trigger] pattern@[x])@.len() == 0,
        decreases ncols - c,
    {
        pattern.push(Vec::new());
        c = c + 1;
    }
    let mut i: usize = 0;
    while i < nrows
        invariant
            i <= nrows,
            nrows == a.spec_nrows(),
            ncols == a.spec_ncols(),
            ptrs@ == a.spec_row_ptrs(),
            idx@ == a.spec_col_indices(),
            crate::compressed::compressed_wf(nrows as nat, ncols as nat, ptrs@, idx@, a.spec_values().len()),
            pattern@.len() == ncols,
            forall|j: int| 0 <= j < ncols ==> strictly_increasing(#[trigger] pattern@[j]@),
            forall|j: int, r: usize| 0 <= j < ncols ==> (#[trigger] pattern@[j]@.contains(r) <==>
                (r < i && row_has_col(ptrs@, idx@, r as int, j as usize))),
        decreases nrows - i,
    {
        proof {
            assert(ptrs@[i as int] <= ptrs@[i + 1]);
            assert(ptrs@[i + 1] <= ptrs@[nrows as int]);
        }
        let hi = ptrs[i + 1];
        let mut k: usize = ptrs[i];
        while k < hi
            invariant
                i < nrows,
                nrows == a.spec_nrows(),
                ncols == a.spec_ncols(),
                hi == ptrs@[i + 1],
                ptrs@[i as int] <= k <= hi <= idx@.len(),
                crate::compressed::compressed_wf(nrows as nat, ncols as nat, ptrs@, idx@, a.spec_values().len()),
                pattern@.len() == ncols,
                forall|j: int| 0 <= j < ncols ==> strictly_increasing(#[trigger] pattern@[j]@),
                forall|j: int, r: usize| 0 <= j < ncols ==> (#[trigger] pattern@[j]@.contains(r) <==>
                    ((r < i && row_has_col(ptrs@, idx@, r as int, j as usize))
                    || (r == i && exists|q: int| ptrs@[i as int] <= q < k && #[trigger] idx@[q] == j))),
            decreases hi - k,
        {
            let j = idx[k];
            let ghost old_pattern = pattern@;
            insert_sorted_unique(&mut pattern[j], i);
            proof {
                assert forall|jj: int, r: usize| 0 <= jj < ncols implies (#[trigger] pattern@[jj]@.contains(r) <==>
                    ((r < i && row_has_col(ptrs@, idx@, r as int, jj as usize))
                    || (r == i && exists|q: int| ptrs@[i as int] <= q < k + 1 && #[trigger] idx@[q] == jj))) by {
                    if jj == j {
                        if r == i {
                            assert(idx@[k as int] == j);
                        }
                    } else {
                        assert(pattern@[jj] == old_pattern[jj]);
                        if r == i && (exists|q: int| ptrs@[i as int] <= q < k + 1 && #[trigger] idx@[q] == jj) {
                            let q = choose|q: int| ptrs@[i as int] <= q < k + 1 && #[trigger] idx@[q] == jj;
                            assert(q != k);
                        }
                    }
                }
            }
            k = k + 1;
        }
        proof {
            assert forall|j: int, r: usize| 0 <= j < ncols implies (#[trigger] pattern@[j]@.contains(r) <==>
                (r < i + 1 && row_has_col(ptrs@, idx@, r as int, j as usize))) by {
                if r == i && row_has_col(ptrs@, idx@, r as int, j as usize) {
                    let q = choose|q: int| ptrs@[r as int] <= q < ptrs@[r + 1] && #[trigger] idx@[q] == j as usize;
                    assert(idx@[q] == j);
                }
            }
        }
        i = i + 1;
    }
    pattern
}

/// Whether `x` occurs in `s`.
fn slice_has(s: &[usize], x: usize) -> (b: bool)
    ensures
        b <==> exists|t: int| 0 <= t < s@.len() && #[trigger] s@[t] == x,
{
    let mut t: usize = 0;
    while t < s.len()
        invariant
            t <= s@.len(),
            forall|u: int| 0 <= u < t ==> #[trigger] s@[u] != x,
        decreases s@.len() - t,
    {
        if s[t] == x {
            return true;
        }
        t = t + 1;
    }
    false
}

/// Whether row `i` of the pattern `(ptrs, idx)` stores an entry in one of
/// the columns `cols`.
fn row_meets(ptrs: &[usize], idx: &[usize], i: usize, cols: &[usize]) -> (b: bool)
    requires
        i < usize::MAX,
        i + 1 < ptrs@.len(),
        ptrs@[i as int] <= ptrs@[i + 1] <= idx@.len(),
    ensures
        b <==> exists|t: int| 0 <= t < cols@.len() && row_has_col(ptrs@, idx@, i as int, #[trigger] cols@[t]),
{
    let hi = ptrs[i + 1];
    let mut q: usize = ptrs[i];
    while q < hi
        invariant
            ptrs@[i as int] <= q <= hi,
            hi == ptrs@[i + 1],
            hi <= idx@.len(),
            forall|p: int, t: int| ptrs@[i as int] <= p < q && 0 <= t < cols@.len() ==> #[trigger] idx@[p] != #[trigger] cols@[t],
        decreases hi - q,
    {
        if slice_has(cols, idx[q]) {
            proof {
                let t = choose|t: int| 0 <= t < cols@.len() && #[trigger] cols@[t] == idx@[q as int];
                assert(row_has_col(ptrs@, idx@, i as int, cols@[t]));
            }
            return true;
        }
        q = q + 1;
    }
    proof {
        assert forall|t: int| 0 <= t < cols@.len() implies !row_has_col(ptrs@, idx@, i as int, #[trigger] cols@[t]) by {
            if row_has_col(ptrs@, idx@, i as int, cols@[t]) {
                let p = choose|p: int| ptrs@[i as int] <= p < ptrs@[i + 1] && #[trigger] idx@[p] == cols@[t];
                assert(idx@[p] != cols@[t]);
            }
        }
    }
    false
}

/// The rows of `A m_j` that a column `m_j` supported on `pattern` can
/// reach: every row of `a` storing an entry in one of the columns
/// `pattern`, together with `j`, strictly increasing.
pub fn residual_rows<T>(a: &CsrMatrix<T>, j: usize, pattern: &[usize]) -> (rows: Vec<usize>)
    ensures
        strictly_increasing(rows@),
        forall|x: usize| #[trigger] rows@.contains(x) <==> (x == j || (x < a.spec_nrows()
            && exists|t: int| 0 <= t < pattern@.len()
                && row_has_col(a.spec_row_ptrs(), a.spec_col_indices(), x as int, #[trigger] pattern@[t]))),
{
    let ptrs = a.row_ptrs();
    let idx = a.col_indices();
    let nrows = a.nrows();
    let mut rows: Vec<usize> = Vec::new();
    let mut i: usize = 0;
    while i < nrows
        invariant
            i <= nrows,
            nrows == a.spec_nrows(),
            nrows < usize::MAX,
            ptrs@ == a.spec_row_ptrs(),
            idx@ == a.spec_col_indices(),
            crate::compressed::compressed_wf(nrows as nat, a.spec_ncols() as nat, ptrs@, idx@, a.spec_values().len()),
            strictly_increasing(rows@),
            forall|u: int| 0 <= u < rows@.len() ==> #[trigger] rows@[u] < i,
            forall|x: usize| #[trigger] rows@.contains(x) <==> (x < i && exists|t: int| 0 <= t < pattern@.len()
                && row_has_col(ptrs@, idx@, x as int, #[trigger] pattern@[t])),
        decreases nrows - i,
    {
        proof {
            assert(ptrs@[i as int] <= ptrs@[i + 1]);
            assert(ptrs@[i + 1] <= ptrs@[nrows as int]);
        }
        if row_meets(ptrs, idx, i, pattern) {
            let ghost before = rows@;
            rows.push(i);
            proof {
                assert forall|x: usize| #[trigger] rows@.contains(x) <==> (x < i + 1 && exists|t: int| 0 <= t < pattern@.len()
                    && row_has_col(ptrs@, idx@, x as int, #[trigger] pattern@[t])) by {
                    if x == i {
                        assert(rows@[before.len() as int] == x);
                    }
                    if rows@.contains(x) && x != i {
                        let u = choose|u: int| 0 <= u < rows@.len() && rows@[u] == x;
                        assert(before[u] == x);
                        assert(before.contains(x));
                    }
                    if x < i && before.contains(x) {
                        let u = choose|u: int| 0 <= u < before.len() && before[u] == x;
                        assert(rows@[u] == x);
                    }
                }
            }
        } else {
            proof {
                assert forall|x: usize| #[trigger] rows@.contains(x) <==> (x < i + 1 && exists|t: int| 0 <= t < pattern@.len()
                    && row_has_col(ptrs@, idx@, x as int, #[trigger] pattern@[t])) by {
                    if rows@.contains(x) {
                        let u = choose|u: int| 0 <= u < rows@.len() && rows@[u] == x;
                        assert(rows@[u] < i);
                    }
                }
            }
        }
        i = i + 1;
    }
    insert_sorted_unique(&mut rows, j);
    rows
}

/// Row `i` of the matrix whose first `k` columns are `cols`: `(column,
/// value)` pairs, by column, each column's entries in their listed order.
pub open spec fn column_list_row<T>(cols: Seq<Vec<(usize, T)>>, i: int, k: int) -> Seq<(usize, T)>
    decreases k,
{
    if k <= 0 {
        Seq::empty()
    } else {
        column_list_row(cols, i, k - 1) + picked(cols[k - 1]@, k - 1, i)
    }
}

proof fn lemma_minor_is_column_list<T>(ptrs: Seq<usize>, idx: Seq<usize>, vals: Seq<T>, cols: Seq<Vec<(usize, T)>>, i: nat, k: nat)
    requires
        k <= cols.len(),
        ptrs.len() == cols.len() + 1,
        forall|c: int| 0 <= c <= cols.len() ==> #[trigger] ptrs[c] == total_len(cols, c),
        idx.len() == total_len(cols, cols.len() as int),
        vals.len() == idx.len(),
        forall|c: int| 0 <= c < cols.len() ==> #[trigger] stored_segment(ptrs, idx, vals, c as nat) == cols[c]@,
    ensures
        crate::compressed::minor_entries(ptrs, idx, vals, i, k) == column_list_row(cols, i as int, k as int),
    decreases k,
{
    if k > 0 {
        let c = k - 1;
        lemma_minor_is_column_list(ptrs, idx, vals, cols, i, c as nat);
        let col = cols[c]@;
        assert(ptrs[c + 1] == total_len(cols, c) + col.len());
        assert forall|t: int| 0 <= t < col.len() implies idx[ptrs[c] + t] == (#[trigger] col[t]).0 && vals[ptrs[c] + t] == col[t].1 by {
            assert(stored_segment(ptrs, idx, vals, c as nat)[t] == col[t]);
        }
        lemma_segment_is_picked(idx, vals, col, c as nat, i, ptrs[c] as nat, col.len());
    }
}

/// Builds the row-compressed `nrows x cols.len()` matrix whose column `j`
/// holds the `(row, value)` entries listed in `cols[j]`: row `i` lists, by
/// increasing column, the entries of that row in listed order.
pub fn rows_from_columns<T: Copy>(nrows: usize, cols: &[Vec<(usize, T)>]) -> (m: CsrMatrix<T>)
    requires
        nrows < usize::MAX,
        cols@.len() < usize::MAX,
        total_len(cols@, cols@.len() as int) <= usize::MAX,
        forall|c: int, t: int| 0 <= c < cols@.len() && 0 <= t < cols@[c]@.len() ==> (#[trigger] cols@[c]@[t]).0 < nrows,
    ensures
        m.spec_nrows() == nrows,
        m.spec_ncols() == cols@.len(),
        forall|i: int| 0 <= i < nrows ==> #[trigger] m.row(i as nat) == column_list_row(cols@, i, cols@.len() as int),
        forall|j: int| 0 <= j < cols@.len() && keys_increasing(cols@[j]@) ==> #[trigger] m.column_entries(j as nat) == cols@[j]@,
{
    let ncols = cols.len();
    let (ptrs, idx, vals) = columns_to_compressed(cols);
    proof {
        assert forall|a: int, b: int| 0 <= a <= b <= ncols implies #[trigger] ptrs@[a] <= #[trigger] ptrs@[b] by {
            lemma_total_len_mono(cols@, a, b);
        }
        assert forall|k: int| 0 <= k < idx@.len() implies #[trigger] idx@[k] < nrows by {
            assert(is_stored_row(cols@, idx@[k]));
        }
        assert(crate::compressed::compressed_wf(ncols as nat, nrows as nat, ptrs@, idx@, vals@.len()));
    }
    let (row_ptrs, col_indices, values) = crate::compressed::transpose_compressed(ncols, nrows, ptrs.as_slice(), idx.as_slice(), vals.as_slice());
    let ghost row_ptrs_v = row_ptrs@;
    let ghost col_indices_v = col_indices@;
    let ghost values_v = values@;
    let m = CsrMatrix::from_parts(nrows, ncols, row_ptrs, col_indices, values);
    proof {
        assert forall|i: int| 0 <= i < nrows implies #[trigger] m.row(i as nat) == column_list_row(cols@, i, cols@.len() as int) by {
            lemma_minor_is_column_list(ptrs@, idx@, vals@, cols@, i as nat, ncols as nat);
        }
        assert forall|j: int| 0 <= j < cols@.len() && keys_increasing(cols@[j]@) implies #[trigger] m.column_entries(j as nat) == cols@[j]@ by {
            assert(stored_segment(ptrs@, idx@, vals@, j as nat) == cols@[j]@);
            lemma_transpose_twice(ncols as nat, nrows as nat, ptrs@, idx@, vals@,
                row_ptrs_v, col_indices_v, values_v, j as nat);
        }
    }
    m
}

} // verus!
