//! Compressed sparse row (CSR) and compressed sparse column (CSC) matrices.
use vstd::prelude::*;
use crate::compressed::{compressed_wf, keys_increasing, lemma_transpose_twice, minor_entries, stored_segment, transpose_compressed};

verus! {

/// Why compressed storage was rejected.
#[derive(Debug, Clone, Copy, PartialEq, Eq, Structural)]
pub enum SparseFormatError {
    /// The pointer array does not have one entry per segment plus one.
    PointerLength,
    /// The first pointer is not zero.
    FirstPointerNotZero,
    /// The pointers decrease somewhere.
    DecreasingPointers,
    /// The last pointer, the index count and the value count disagree.
    LengthMismatch,
    /// An index is not below the matrix dimension it refers to.
    IndexOutOfBounds,
    /// A dimension is too large to be stored.
    DimensionTooLarge,
}

/// Consecutive pointers never decrease.
pub open spec fn adjacent_nondecreasing(ptrs: Seq<usize>, n: nat) -> bool {
    forall|a: int| 0 <= a < n ==> #[trigger] ptrs[a] <= ptrs[a + 1]
}

/// Every stored index is below `bound`.
pub open spec fn indices_below(idx: Seq<usize>, bound: nat) -> bool {
    forall|k: int| 0 <= k < idx.len() ==> #[trigger] idx[k] < bound
}

/// The error that `check_compressed` reports for the given storage, or `None`
/// when it is valid. Checks are made in a fixed order.
pub open spec fn compressed_error(nmajor: nat, nminor: nat, ptrs: Seq<usize>, idx: Seq<usize>, nvals: nat) -> Option<SparseFormatError> {
    if nmajor >= usize::MAX || nminor >= usize::MAX {
        Some(SparseFormatError::DimensionTooLarge)
    } else if ptrs.len() != nmajor + 1 {
        Some(SparseFormatError::PointerLength)
    } else if ptrs[0] != 0 {
        Some(SparseFormatError::FirstPointerNotZero)
    } else if !adjacent_nondecreasing(ptrs, nmajor) {
        Some(SparseFormatError::DecreasingPointers)
    } else if ptrs[nmajor as int] != idx.len() || idx.len() != nvals {
        Some(SparseFormatError::LengthMismatch)
    } else if !indices_below(idx, nminor) {
        Some(SparseFormatError::IndexOutOfBounds)
    } else {
        None
    }
}

proof fn lemma_chain(ptrs: Seq<usize>, n: nat, a: int, b: int)
    requires
        ptrs.len() == n + 1,
        forall|x: int| 0 <= x < n ==> #[trigger] ptrs[x] <= ptrs[x + 1],
        0 <= a <= b <= n,
    ensures
        ptrs[a] <= ptrs[b],
    decreases b - a,
{
    if a < b {
        lemma_chain(ptrs, n, a, b - 1);
        assert(ptrs[b - 1] <= ptrs[b]);
    }
}

proof fn lemma_adjacent_monotone(ptrs: Seq<usize>, n: nat)
    requires
        ptrs.len() == n + 1,
        forall|a: int| 0 <= a < n ==> #[trigger] ptrs[a] <= ptrs[a + 1],
    ensures
        forall|a: int, b: int| 0 <= a <= b <= n ==> #[trigger] ptrs[a] <= #[trigger] ptrs[b],
{
    assert forall|a: int, b: int| 0 <= a <= b <= n implies #[trigger] ptrs[a] <= #[trigger] ptrs[b] by {
        lemma_chain(ptrs, n, a, b);
    }
}

/// Checks compressed storage, reporting the first problem found.
pub fn check_compressed(nmajor: usize, nminor: usize, ptrs: &[usize], idx: &[usize], nvals: usize) -> (r: Option<SparseFormatError>)
    ensures
        r == compressed_error(nmajor as nat, nminor as nat, ptrs@, idx@, nvals as nat),
{
    if nmajor == usize::MAX || nminor == usize::MAX {
        return Some(SparseFormatError::DimensionTooLarge);
    }
    if ptrs.len() != nmajor + 1 {
        return Some(SparseFormatError::PointerLength);
    }
    if ptrs[0] != 0 {
        return Some(SparseFormatError::FirstPointerNotZero);
    }
    let mut a: usize = 0;
    while a < nmajor
        invariant
            a <= nmajor,
            ptrs@.len() == nmajor + 1,
            nmajor < usize::MAX,
            nminor < usize::MAX,
            ptrs@[0] == 0,
            forall|b: int| 0 <= b < a ==> #[trigger] ptrs@[b] <= ptrs@[b + 1],
        decreases nmajor - a,
    {
        if ptrs[a] > ptrs[a + 1] {
            assert(ptrs@[a as int] > ptrs@[a as int + 1]);
            return Some(SparseFormatError::DecreasingPointers);
        }
        a = a + 1;
    }
    if ptrs[nmajor] != idx.len() || idx.len() != nvals {
        return Some(SparseFormatError::LengthMismatch);
    }
    let mut k: usize = 0;
    while k < idx.len()
        invariant
            k <= idx@.len(),
            nmajor < usize::MAX,
            nminor < usize::MAX,
            ptrs@.len() == nmajor + 1,
            ptrs@[0] == 0,
            ptrs@[nmajor as int] == idx@.len(),
            idx@.len() == nvals,
            adjacent_nondecreasing(ptrs@, nmajor as nat),
            forall|j: int| 0 <= j < k ==> #[trigger] idx@[j] < nminor,
        decreases idx@.len() - k,
    {
        if idx[k] >= nminor {
            assert(idx@[k as int] >= nminor);
            return Some(SparseFormatError::IndexOutOfBounds);
        }
        k = k + 1;
    }
    None
}

/// Storage is accepted exactly when it is structurally valid and both
/// dimensions leave room for a pointer array.
pub proof fn lemma_accepted_iff_valid(nmajor: nat, nminor: nat, ptrs: Seq<usize>, idx: Seq<usize>, nvals: nat)
    ensures
        compressed_error(nmajor, nminor, ptrs, idx, nvals) is None <==> (compressed_wf(nmajor, nminor, ptrs, idx, nvals)
            && nmajor < usize::MAX && nminor < usize::MAX),
{
    if compressed_error(nmajor, nminor, ptrs, idx, nvals) is None {
        lemma_adjacent_monotone(ptrs, nmajor);
    }
    if compressed_wf(nmajor, nminor, ptrs, idx, nvals) {
        assert forall|a: int| 0 <= a < nmajor implies #[trigger] ptrs[a] <= ptrs[a + 1] by {
            assert(ptrs[a] <= ptrs[a + 1]);
        }
    }
}

/// A sparse matrix in compressed sparse row format.
#[derive(Debug)]
pub struct CsrMatrix<T> {
    nrows: usize,
    ncols: usize,
    row_ptrs: Vec<usize>,
    col_indices: Vec<usize>,
    values: Vec<T>,
}

/// A sparse matrix in compressed sparse column format.
#[derive(Debug)]
pub struct CscMatrix<T> {
    nrows: usize,
    ncols: usize,
    col_ptrs: Vec<usize>,
    row_indices: Vec<usize>,
    values: Vec<T>,
}

impl<T> CsrMatrix<T> {
    /// Structural validity: compressed storage of the stated shape.
    #[verifier::type_invariant]
    pub closed spec fn well_formed(self) -> bool {
        &&& compressed_wf(self.nrows as nat, self.ncols as nat, self.row_ptrs@, self.col_indices@, self.values@.len())
        &&& self.nrows < usize::MAX
        &&& self.ncols < usize::MAX
    }

    /// Number of rows.
    pub closed spec fn spec_nrows(&self) -> usize { self.nrows }

    /// Number of columns.
    pub closed spec fn spec_ncols(&self) -> usize { self.ncols }

    /// Row pointers (`nrows + 1` entries).
    pub closed spec fn spec_row_ptrs(&self) -> Seq<usize> { self.row_ptrs@ }

    /// Column index of each stored entry.
    pub closed spec fn spec_col_indices(&self) -> Seq<usize> { self.col_indices@ }

    /// Value of each stored entry.
    pub closed spec fn spec_values(&self) -> Seq<T> { self.values@ }

    /// The stored `(column, value)` pairs of row `i`, in storage order.
    pub open spec fn row(&self, i: nat) -> Seq<(usize, T)> {
        stored_segment(self.spec_row_ptrs(), self.spec_col_indices(), self.spec_values(), i)
    }

    /// The `(row, value)` pairs stored in column `j`, in row-major storage order.
    pub open spec fn column_entries(&self, j: nat) -> Seq<(usize, T)> {
        minor_entries(self.spec_row_ptrs(), self.spec_col_indices(), self.spec_values(), j, self.spec_nrows() as nat)
    }

    /// Builds a matrix from its compressed arrays, rejecting invalid structure.
    pub fn new(nrows: usize, ncols: usize, row_ptrs: Vec<usize>, col_indices: Vec<usize>, values: Vec<T>) -> (r: Result<Self, SparseFormatError>)
        ensures
            match r {
                Ok(m) => compressed_error(nrows as nat, ncols as nat, row_ptrs@, col_indices@, values@.len()) is None
                    && m.spec_nrows() == nrows && m.spec_ncols() == ncols && m.spec_row_ptrs() == row_ptrs@
                    && m.spec_col_indices() == col_indices@ && m.spec_values() == values@,
                Err(e) => compressed_error(nrows as nat, ncols as nat, row_ptrs@, col_indices@, values@.len()) == Some(e),
            },
    {
        proof {
            lemma_accepted_iff_valid(nrows as nat, ncols as nat, row_ptrs@, col_indices@, values@.len());
        }
        match check_compressed(nrows, ncols, row_ptrs.as_slice(), col_indices.as_slice(), values.len()) {
            Some(e) => Err(e),
            None => Ok(CsrMatrix { nrows, ncols, row_ptrs, col_indices, values }),
        }
    }

    /// Assembles a matrix from arrays already known to be valid.
    pub(crate) fn from_parts(nrows: usize, ncols: usize, row_ptrs: Vec<usize>, col_indices: Vec<usize>, values: Vec<T>) -> (m: Self)
        requires
            compressed_wf(nrows as nat, ncols as nat, row_ptrs@, col_indices@, values@.len()),
            nrows < usize::MAX,
            ncols < usize::MAX,
        ensures
            m.spec_nrows() == nrows,
            m.spec_ncols() == ncols,
            m.spec_row_ptrs() == row_ptrs@,
            m.spec_col_indices() == col_indices@,
            m.spec_values() == values@,
    {
        CsrMatrix { nrows, ncols, row_ptrs, col_indices, values }
    }

    /// Number of rows.
    pub fn nrows(&self) -> (n: usize)
        ensures n == self.spec_nrows(),
    {
        self.nrows
    }

    /// Number of columns.
    pub fn ncols(&self) -> (n: usize)
        ensures n == self.spec_ncols(),
    {
        self.ncols
    }

    /// Number of stored entries.
    pub fn nnz(&self) -> (n: usize)
        ensures n == self.spec_col_indices().len(),
    {
        self.col_indices.len()
    }

    /// Row pointers.
    pub fn row_ptrs(&self) -> (p: &[usize])
        ensures
            p@ == self.spec_row_ptrs(),
            compressed_wf(self.spec_nrows() as nat, self.spec_ncols() as nat, self.spec_row_ptrs(),
                self.spec_col_indices(), self.spec_values().len()),
            self.spec_nrows() < usize::MAX,
            self.spec_ncols() < usize::MAX,
    {
        proof { use_type_invariant(self); }
        self.row_ptrs.as_slice()
    }

    /// Column index of each stored entry.
    pub fn col_indices(&self) -> (p: &[usize])
        ensures
            p@ == self.spec_col_indices(),
            compressed_wf(self.spec_nrows() as nat, self.spec_ncols() as nat, self.spec_row_ptrs(),
                self.spec_col_indices(), self.spec_values().len()),
            self.spec_nrows() < usize::MAX,
            self.spec_ncols() < usize::MAX,
    {
        proof { use_type_invariant(self); }
        self.col_indices.as_slice()
    }

    /// Value of each stored entry.
    pub fn values(&self) -> (p: &[T])
        ensures p@ == self.spec_values(),
    {
        self.values.as_slice()
    }
}

impl<T> CscMatrix<T> {
    /// Structural validity: compressed storage of the stated shape.
    #[verifier::type_invariant]
    pub closed spec fn well_formed(self) -> bool {
        &&& compressed_wf(self.ncols as nat, self.nrows as nat, self.col_ptrs@, self.row_indices@, self.values@.len())
        &&& self.nrows < usize::MAX
        &&& self.ncols < usize::MAX
    }

    /// Number of rows.
    pub closed spec fn spec_nrows(&self) -> usize { self.nrows }

    /// Number of columns.
    pub closed spec fn spec_ncols(&self) -> usize { self.ncols }

    /// Column pointers (`ncols + 1` entries).
    pub closed spec fn spec_col_ptrs(&self) -> Seq<usize> { self.col_ptrs@ }

    /// Row index of each stored entry.
    pub closed spec fn spec_row_indices(&self) -> Seq<usize> { self.row_indices@ }

    /// Value of each stored entry.
    pub closed spec fn spec_values(&self) -> Seq<T> { self.values@ }

    /// The stored `(row, value)` pairs of column `j`, in storage order.
    pub open spec fn column(&self, j: nat) -> Seq<(usize, T)> {
        stored_segment(self.spec_col_ptrs(), self.spec_row_indices(), self.spec_values(), j)
    }

    /// The `(column, value)` pairs stored in row `i`, in column-major storage order.
    pub open spec fn row_entries(&self, i: nat) -> Seq<(usize, T)> {
        minor_entries(self.spec_col_ptrs(), self.spec_row_indices(), self.spec_values(), i, self.spec_ncols() as nat)
    }

    /// Builds a matrix from its compressed arrays, rejecting invalid structure.
    pub fn new(nrows: usize, ncols: usize, col_ptrs: Vec<usize>, row_indices: Vec<usize>, values: Vec<T>) -> (r: Result<Self, SparseFormatError>)
        ensures
            match r {
                Ok(m) => compressed_error(ncols as nat, nrows as nat, col_ptrs@, row_indices@, values@.len()) is None
                    && m.spec_nrows() == nrows && m.spec_ncols() == ncols && m.spec_col_ptrs() == col_ptrs@
                    && m.spec_row_indices() == row_indices@ && m.spec_values() == values@,
                Err(e) => compressed_error(ncols as nat, nrows as nat, col_ptrs@, row_indices@, values@.len()) == Some(e),
            },
    {
        proof {
            lemma_accepted_iff_valid(ncols as nat, nrows as nat, col_ptrs@, row_indices@, values@.len());
        }
        match check_compressed(ncols, nrows, col_ptrs.as_slice(), row_indices.as_slice(), values.len()) {
            Some(e) => Err(e),
            None => Ok(CscMatrix { nrows, ncols, col_ptrs, row_indices, values }),
        }
    }

    /// Assembles a matrix from arrays already known to be valid.
    pub(crate) fn from_parts(nrows: usize, ncols: usize, col_ptrs: Vec<usize>, row_indices: Vec<usize>, values: Vec<T>) -> (m: Self)
        requires
            compressed_wf(ncols as nat, nrows as nat, col_ptrs@, row_indices@, values@.len()),
            nrows < usize::MAX,
            ncols < usize::MAX,
        ensures
            m.spec_nrows() == nrows,
            m.spec_ncols() == ncols,
            m.spec_col_ptrs() == col_ptrs@,
            m.spec_row_indices() == row_indices@,
            m.spec_values() == values@,
    {
        CscMatrix { nrows, ncols, col_ptrs, row_indices, values }
    }

    /// Number of rows.
    pub fn nrows(&self) -> (n: usize)
        ensures n == self.spec_nrows(),
    {
        self.nrows
    }

    /// Number of columns.
    pub fn ncols(&self) -> (n: usize)
        ensures n == self.spec_ncols(),
    {
        self.ncols
    }

    /// Number of stored entries.
    pub fn nnz(&self) -> (n: usize)
        ensures n == self.spec_row_indices().len(),
    {
        self.row_indices.len()
    }

    /// Column pointers.
    pub fn col_ptrs(&self) -> (p: &[usize])
        ensures
            p@ == self.spec_col_ptrs(),
            compressed_wf(self.spec_ncols() as nat, self.spec_nrows() as nat, self.spec_col_ptrs(),
                self.spec_row_indices(), self.spec_values().len()),
            self.spec_nrows() < usize::MAX,
            self.spec_ncols() < usize::MAX,
    {
        proof { use_type_invariant(self); }
        self.col_ptrs.as_slice()
    }

    /// Row index of each stored entry.
    pub fn row_indices(&self) -> (p: &[usize])
        ensures
            p@ == self.spec_row_indices(),
            compressed_wf(self.spec_ncols() as nat, self.spec_nrows() as nat, self.spec_col_ptrs(),
                self.spec_row_indices(), self.spec_values().len()),
            self.spec_nrows() < usize::MAX,
            self.spec_ncols() < usize::MAX,
    {
        proof { use_type_invariant(self); }
        self.row_indices.as_slice()
    }

    /// Value of each stored entry.
    pub fn values(&self) -> (p: &[T])
        ensures p@ == self.spec_values(),
    {
        self.values.as_slice()
    }
}

/// Converts CSR to CSC: column `j` of the result lists the entries of column
/// `j` of `a` in row order.
pub fn csr_to_csc<T: Copy>(a: &CsrMatrix<T>) -> (c: CscMatrix<T>)
    ensures
        c.spec_nrows() == a.spec_nrows(),
        c.spec_ncols() == a.spec_ncols(),
        c.spec_values().len() == a.spec_values().len(),
        forall|j: int| 0 <= j < a.spec_ncols() ==> #[trigger] c.column(j as nat) == a.column_entries(j as nat),
{
    proof { use_type_invariant(a); }
    let (col_ptrs, row_indices, values) = transpose_compressed(
        a.nrows, a.ncols, a.row_ptrs.as_slice(), a.col_indices.as_slice(), a.values.as_slice());
    CscMatrix { nrows: a.nrows, ncols: a.ncols, col_ptrs, row_indices, values }
}

/// Converts CSC to CSR: row `i` of the result lists the entries of row `i`
/// of `a` in column order.
pub fn csc_to_csr<T: Copy>(a: &CscMatrix<T>) -> (r: CsrMatrix<T>)
    ensures
        r.spec_nrows() == a.spec_nrows(),
        r.spec_ncols() == a.spec_ncols(),
        r.spec_values().len() == a.spec_values().len(),
        forall|i: int| 0 <= i < a.spec_nrows() ==> #[trigger] r.row(i as nat) == a.row_entries(i as nat),
{
    proof { use_type_invariant(a); }
    let (row_ptrs, col_indices, values) = transpose_compressed(
        a.ncols, a.nrows, a.col_ptrs.as_slice(), a.row_indices.as_slice(), a.values.as_slice());
    CsrMatrix { nrows: a.nrows, ncols: a.ncols, row_ptrs, col_indices, values }
}

/// Converting a matrix whose rows list their columns in strictly
/// increasing order from CSR to CSC and back gives back the same rows.
pub proof fn lemma_csr_csc_roundtrip<T>(a: CsrMatrix<T>, c: CscMatrix<T>, r: CsrMatrix<T>)
    requires
        a.well_formed(),
        c.well_formed(),
        c.spec_nrows() == a.spec_nrows(),
        c.spec_ncols() == a.spec_ncols(),
        forall|j: int| 0 <= j < a.spec_ncols() ==> #[trigger] c.column(j as nat) == a.column_entries(j as nat),
        r.spec_nrows() == a.spec_nrows(),
        r.spec_ncols() == a.spec_ncols(),
        forall|i: int| 0 <= i < a.spec_nrows() ==> #[trigger] r.row(i as nat) == c.row_entries(i as nat),
        forall|i: int| 0 <= i < a.spec_nrows() ==> keys_increasing(#[trigger] a.row(i as nat)),
    ensures
        forall|i: int| 0 <= i < a.spec_nrows() ==> #[trigger] r.row(i as nat) == a.row(i as nat),
{
    assert forall|j: int| 0 <= j < a.spec_ncols() implies #[trigger] stored_segment(c.col_ptrs@, c.row_indices@, c.values@, j as nat)
        == minor_entries(a.row_ptrs@, a.col_indices@, a.values@, j as nat, a.nrows as nat) by {
        assert(c.column(j as nat) == a.column_entries(j as nat));
    }
    assert forall|i: int| 0 <= i < a.spec_nrows() implies #[trigger] r.row(i as nat) == a.row(i as nat) by {
        assert(r.row(i as nat) == c.row_entries(i as nat));
        assert(keys_increasing(a.row(i as nat)));
        lemma_transpose_twice(a.nrows as nat, a.ncols as nat,
            a.row_ptrs@, a.col_indices@, a.values@,
            c.col_ptrs@, c.row_indices@, c.values@, i as nat);
    }
}

/// Converting a matrix whose columns list their rows in strictly
/// increasing order from CSC to CSR and back gives back the same columns.
pub proof fn lemma_csc_csr_roundtrip<T>(a: CscMatrix<T>, r: CsrMatrix<T>, c: CscMatrix<T>)
    requires
        a.well_formed(),
        r.well_formed(),
        r.spec_nrows() == a.spec_nrows(),
        r.spec_ncols() == a.spec_ncols(),
        forall|i: int| 0 <= i < a.spec_nrows() ==> #[trigger] r.row(i as nat) == a.row_entries(i as nat),
        c.spec_nrows() == a.spec_nrows(),
        c.spec_ncols() == a.spec_ncols(),
        forall|j: int| 0 <= j < a.spec_ncols() ==> #[trigger] c.column(j as nat) == r.column_entries(j as nat),
        forall|j: int| 0 <= j < a.spec_ncols() ==> keys_increasing(#[trigger] a.column(j as nat)),
    ensures
        forall|j: int| 0 <= j < a.spec_ncols() ==> #[trigger] c.column(j as nat) == a.column(j as nat),
{
    assert forall|i: int| 0 <= i < a.spec_nrows() implies #[trigger] stored_segment(r.row_ptrs@, r.col_indices@, r.values@, i as nat)
        == minor_entries(a.col_ptrs@, a.row_indices@, a.values@, i as nat, a.ncols as nat) by {
        assert(r.row(i as nat) == a.row_entries(i as nat));
    }
    assert forall|j: int| 0 <= j < a.spec_ncols() implies #[trigger] c.column(j as nat) == a.column(j as nat) by {
        assert(c.column(j as nat) == r.column_entries(j as nat));
        assert(keys_increasing(a.column(j as nat)));
        lemma_transpose_twice(a.ncols as nat, a.nrows as nat,
            a.col_ptrs@, a.row_indices@, a.values@,
            r.row_ptrs@, r.col_indices@, r.values@, j as nat);
    }
}

} // verus!
