//! Immutable strided matrix views.
//!
//! A `MatRef` looks at a borrowed slice through a column-major layout: the
//! element at `(row, col)` is stored at `offset + row + col * row_stride`.
//! Views can be narrowed to submatrices, rows, columns and the diagonal, or
//! read transposed, without copying.
use vstd::prelude::*;

verus! {

/// Every position addressed by an `nrows x ncols` view at `offset` with
/// column spacing `row_stride` lies inside a buffer of `len` elements.
pub open spec fn layout_fits(len: nat, offset: nat, nrows: nat, ncols: nat, row_stride: nat) -> bool {
    nrows == 0 || ncols == 0 || offset + (nrows - 1) + (ncols - 1) * row_stride < len
}

/// Storage position of `(row, col)`.
pub open spec fn position(offset: nat, row: nat, col: nat, row_stride: nat) -> nat {
    offset + row + col * row_stride
}

proof fn lemma_position_inside(len: nat, offset: nat, nrows: nat, ncols: nat, row_stride: nat, row: nat, col: nat)
    requires
        layout_fits(len, offset, nrows, ncols, row_stride),
        row < nrows,
        col < ncols,
    ensures
        position(offset, row, col, row_stride) < len,
{
    assert(col * row_stride <= (ncols - 1) * row_stride) by (nonlinear_arith)
        requires col <= ncols - 1;
}

/// An immutable view into a column-major matrix with arbitrary column spacing.
pub struct MatRef<'a, T> {
    data: &'a [T],
    offset: usize,
    nrows: usize,
    ncols: usize,
    row_stride: usize,
}

impl<'a, T> Clone for MatRef<'a, T> {
    fn clone(&self) -> (c: Self)
        ensures
            c == *self,
    {
        proof { use_type_invariant(self); }
        MatRef { data: self.data, offset: self.offset, nrows: self.nrows, ncols: self.ncols, row_stride: self.row_stride }
    }
}

impl<'a, T> Copy for MatRef<'a, T> {}

impl<'a, T> MatRef<'a, T> {
    #[verifier::type_invariant]
    spec fn fits(self) -> bool {
        &&& layout_fits(self.data@.len(), self.offset as nat, self.nrows as nat, self.ncols as nat, self.row_stride as nat)
        &&& self.data@.len() <= usize::MAX
    }

    /// Number of rows.
    pub closed spec fn spec_nrows(&self) -> usize { self.nrows }

    /// Number of columns.
    pub closed spec fn spec_ncols(&self) -> usize { self.ncols }

    /// Spacing (in elements) between the starts of consecutive columns.
    pub closed spec fn spec_row_stride(&self) -> usize { self.row_stride }

    /// The element at `(row, col)`; meaningful for in-bounds indices.
    pub closed spec fn elem(&self, row: int, col: int) -> T {
        self.data@[self.offset + row + col * self.row_stride]
    }

    /// Creates a view of `data` with the given shape, column `j` starting at
    /// element `j * row_stride`.
    pub fn new(data: &'a [T], nrows: usize, ncols: usize, row_stride: usize) -> (m: Self)
        requires
            layout_fits(data@.len(), 0, nrows as nat, ncols as nat, row_stride as nat),
        ensures
            m.spec_nrows() == nrows,
            m.spec_ncols() == ncols,
            m.spec_row_stride() == row_stride,
            forall|i: int, j: int| 0 <= i < nrows && 0 <= j < ncols ==> #[trigger] m.elem(i, j) == data@[i + j * row_stride],
    {
        let _len = data.len();
        MatRef { data, offset: 0, nrows, ncols, row_stride }
    }

    /// A single-column view of a slice.
    pub fn from_slice(slice: &'a [T]) -> (m: Self)
        ensures
            m.spec_nrows() == slice@.len(),
            m.spec_ncols() == 1,
            m.spec_row_stride() == 1,
            forall|i: int| 0 <= i < slice@.len() ==> #[trigger] m.elem(i, 0) == slice@[i],
    {
        MatRef { data: slice, offset: 0, nrows: slice.len(), ncols: 1, row_stride: 1 }
    }

    /// Number of rows.
    pub fn nrows(&self) -> (n: usize)
        ensures n == self.spec_nrows(),
    {
        self.nrows
    }

    /// Number of columns.
    pub fn ncols(&self) -> (n: usize)
        ensures n == self.spec_ncols(),
    {
        self.ncols
    }

    /// Shape as `(nrows, ncols)`.
    pub fn shape(&self) -> (s: (usize, usize))
        ensures s == (self.spec_nrows(), self.spec_ncols()),
    {
        (self.nrows, self.ncols)
    }

    /// Spacing between the starts of consecutive columns.
    pub fn row_stride(&self) -> (s: usize)
        ensures s == self.spec_row_stride(),
    {
        self.row_stride
    }

    /// The element at `(row, col)`, or `None` when out of bounds.
    pub fn get(&self, row: usize, col: usize) -> (r: Option<&'a T>)
        ensures
            match r {
                Some(x) => row < self.spec_nrows() && col < self.spec_ncols() && *x == self.elem(row as int, col as int),
                None => !(row < self.spec_nrows() && col < self.spec_ncols()),
            },
    {
        proof { use_type_invariant(self); }
        if row < self.nrows && col < self.ncols {
            proof {
                lemma_position_inside(self.data@.len(), self.offset as nat, self.nrows as nat, self.ncols as nat,
                    self.row_stride as nat, row as nat, col as nat);
            }
            Some(&self.data[self.offset + row + col * self.row_stride])
        } else {
            None
        }
    }

    /// The element at `(row, col)`, which must be in bounds.
    pub fn at(&self, row: usize, col: usize) -> (x: &'a T)
        requires
            row < self.spec_nrows(),
            col < self.spec_ncols(),
        ensures
            *x == self.elem(row as int, col as int),
    {
        proof {
            use_type_invariant(self);
            lemma_position_inside(self.data@.len(), self.offset as nat, self.nrows as nat, self.ncols as nat,
                self.row_stride as nat, row as nat, col as nat);
        }
        &self.data[self.offset + row + col * self.row_stride]
    }

    /// The `nrows x ncols` block whose top-left corner is `(row_start, col_start)`.
    pub fn submatrix(&self, row_start: usize, col_start: usize, nrows: usize, ncols: usize) -> (s: Self)
        requires
            row_start + nrows <= self.spec_nrows(),
            col_start + ncols <= self.spec_ncols(),
        ensures
            s.spec_nrows() == nrows,
            s.spec_ncols() == ncols,
            s.spec_row_stride() == self.spec_row_stride(),
            forall|i: int, j: int| 0 <= i < nrows && 0 <= j < ncols
                ==> #[trigger] s.elem(i, j) == self.elem(row_start + i, col_start + j),
    {
        proof { use_type_invariant(self); }
        if nrows == 0 || ncols == 0 {
            return MatRef { data: self.data, offset: 0, nrows, ncols, row_stride: self.row_stride };
        }
        proof {
            lemma_position_inside(self.data@.len(), self.offset as nat, self.nrows as nat, self.ncols as nat,
                self.row_stride as nat, row_start as nat, col_start as nat);
            assert((col_start + ncols - 1) * self.row_stride == col_start * self.row_stride + (ncols - 1) * self.row_stride)
                by (nonlinear_arith);
            assert((col_start + ncols - 1) * self.row_stride <= (self.ncols - 1) * self.row_stride) by (nonlinear_arith)
                requires col_start + ncols - 1 <= self.ncols - 1;
        }
        let offset = self.offset + row_start + col_start * self.row_stride;
        let s = MatRef { data: self.data, offset, nrows, ncols, row_stride: self.row_stride };
        proof {
            assert forall|i: int, j: int| 0 <= i < nrows && 0 <= j < ncols
                implies #[trigger] s.elem(i, j) == self.elem(row_start + i, col_start + j) by {
                assert((col_start + j) * self.row_stride == col_start * self.row_stride + j * self.row_stride)
                    by (nonlinear_arith);
            }
        }
        s
    }

    /// Column `j` as an `nrows x 1` view.
    pub fn col(&self, j: usize) -> (c: Self)
        requires
            j < self.spec_ncols(),
        ensures
            c.spec_nrows() == self.spec_nrows(),
            c.spec_ncols() == 1,
            forall|i: int| 0 <= i < self.spec_nrows() ==> #[trigger] c.elem(i, 0) == self.elem(i, j as int),
    {
        let c = self.submatrix(0, j, self.nrows, 1);
        proof {
            assert forall|i: int| 0 <= i < self.spec_nrows() implies #[trigger] c.elem(i, 0) == self.elem(i, j as int) by {
                assert(c.elem(i, 0) == self.elem(0 + i, j + 0));
            }
        }
        c
    }

    /// Row `i` as a `1 x ncols` view.
    pub fn row(&self, i: usize) -> (r: Self)
        requires
            i < self.spec_nrows(),
        ensures
            r.spec_nrows() == 1,
            r.spec_ncols() == self.spec_ncols(),
            forall|j: int| 0 <= j < self.spec_ncols() ==> #[trigger] r.elem(0, j) == self.elem(i as int, j),
    {
        let r = self.submatrix(i, 0, 1, self.ncols);
        proof {
            assert forall|j: int| 0 <= j < self.spec_ncols() implies #[trigger] r.elem(0, j) == self.elem(i as int, j) by {
                assert(r.elem(0, j) == self.elem(i + 0, 0 + j));
            }
        }
        r
    }

    /// True when the view has no elements.
    pub fn is_empty(&self) -> (b: bool)
        ensures b == (self.spec_nrows() == 0 || self.spec_ncols() == 0),
    {
        self.nrows == 0 || self.ncols == 0
    }

    /// True for a single column.
    pub fn is_column(&self) -> (b: bool)
        ensures b == (self.spec_ncols() == 1),
    {
        self.ncols == 1
    }

    /// True for a single row.
    pub fn is_row(&self) -> (b: bool)
        ensures b == (self.spec_nrows() == 1),
    {
        self.nrows == 1
    }

    /// True when the view is square.
    pub fn is_square(&self) -> (b: bool)
        ensures b == (self.spec_nrows() == self.spec_ncols()),
    {
        self.nrows == self.ncols
    }

    /// Column `j` as a contiguous slice, or `None` when `j` is out of bounds.
    pub fn col_as_slice(&self, j: usize) -> (r: Option<&'a [T]>)
        ensures
            match r {
                Some(s) => j < self.spec_ncols() && s@.len() == self.spec_nrows()
                    && forall|i: int| 0 <= i < self.spec_nrows() ==> #[trigger] s@[i] == self.elem(i, j as int),
                None => j >= self.spec_ncols(),
            },
    {
        proof { use_type_invariant(self); }
        if j >= self.ncols {
            return None;
        }
        if self.nrows == 0 {
            return Some(&self.data[0..0]);
        }
        proof {
            lemma_position_inside(self.data@.len(), self.offset as nat, self.nrows as nat, self.ncols as nat,
                self.row_stride as nat, (self.nrows - 1) as nat, j as nat);
        }
        let start = self.offset + j * self.row_stride;
        let s = &self.data[start..start + self.nrows];
        Some(s)
    }

    /// The columns, left to right.
    pub fn cols(&self) -> (v: Vec<Self>)
        ensures
            v@.len() == self.spec_ncols(),
            forall|j: int| 0 <= j < self.spec_ncols() ==> {
                &&& (#[trigger] v@[j]).spec_nrows() == self.spec_nrows()
                &&& v@[j].spec_ncols() == 1
                &&& forall|i: int| 0 <= i < self.spec_nrows() ==> #[trigger] v@[j].elem(i, 0) == self.elem(i, j)
            },
    {
        let mut v: Vec<Self> = Vec::new();
        let mut j: usize = 0;
        while j < self.ncols
            invariant
                j <= self.spec_ncols(),
                v@.len() == j,
                forall|k: int| 0 <= k < j ==> {
                    &&& (#[trigger] v@[k]).spec_nrows() == self.spec_nrows()
                    &&& v@[k].spec_ncols() == 1
                    &&& forall|i: int| 0 <= i < self.spec_nrows() ==> #[trigger] v@[k].elem(i, 0) == self.elem(i, k)
                },
            decreases self.spec_ncols() - j,
        {
            v.push(self.col(j));
            j = j + 1;
        }
        v
    }

    /// The rows, top to bottom.
    pub fn rows(&self) -> (v: Vec<Self>)
        ensures
            v@.len() == self.spec_nrows(),
            forall|i: int| 0 <= i < self.spec_nrows() ==> {
                &&& (#[trigger] v@[i]).spec_nrows() == 1
                &&& v@[i].spec_ncols() == self.spec_ncols()
                &&& forall|j: int| 0 <= j < self.spec_ncols() ==> #[trigger] v@[i].elem(0, j) == self.elem(i, j)
            },
    {
        let mut v: Vec<Self> = Vec::new();
        let mut i: usize = 0;
        while i < self.nrows
            invariant
                i <= self.spec_nrows(),
                v@.len() == i,
                forall|k: int| 0 <= k < i ==> {
                    &&& (#[trigger] v@[k]).spec_nrows() == 1
                    &&& v@[k].spec_ncols() == self.spec_ncols()
                    &&& forall|j: int| 0 <= j < self.spec_ncols() ==> #[trigger] v@[k].elem(0, j) == self.elem(k, j)
                },
            decreases self.spec_nrows() - i,
        {
            v.push(self.row(i));
            i = i + 1;
        }
        v
    }

    /// Splits into the columns before `mid` and the columns from `mid` on.
    pub fn split_cols(&self, mid: usize) -> (parts: (Self, Self))
        requires
            mid <= self.spec_ncols(),
        ensures
            parts.0.spec_nrows() == self.spec_nrows(),
            parts.0.spec_ncols() == mid,
            parts.1.spec_nrows() == self.spec_nrows(),
            parts.1.spec_ncols() == self.spec_ncols() - mid,
            forall|i: int, j: int| 0 <= i < self.spec_nrows() && 0 <= j < mid
                ==> #[trigger] parts.0.elem(i, j) == self.elem(i, j),
            forall|i: int, j: int| 0 <= i < self.spec_nrows() && 0 <= j < self.spec_ncols() - mid
                ==> #[trigger] parts.1.elem(i, j) == self.elem(i, mid + j),
    {
        let left = self.submatrix(0, 0, self.nrows, mid);
        let right = self.submatrix(0, mid, self.nrows, self.ncols - mid);
        proof {
            assert forall|i: int, j: int| 0 <= i < self.spec_nrows() && 0 <= j < mid
                implies #[trigger] left.elem(i, j) == self.elem(i, j) by {
                assert(left.elem(i, j) == self.elem(0 + i, 0 + j));
            }
            assert forall|i: int, j: int| 0 <= i < self.spec_nrows() && 0 <= j < self.spec_ncols() - mid
                implies #[trigger] right.elem(i, j) == self.elem(i, mid + j) by {
                assert(right.elem(i, j) == self.elem(0 + i, mid + j));
            }
        }
        (left, right)
    }

    /// Splits into the rows before `mid` and the rows from `mid` on.
    pub fn split_rows(&self, mid: usize) -> (parts: (Self, Self))
        requires
            mid <= self.spec_nrows(),
        ensures
            parts.0.spec_nrows() == mid,
            parts.0.spec_ncols() == self.spec_ncols(),
            parts.1.spec_nrows() == self.spec_nrows() - mid,
            parts.1.spec_ncols() == self.spec_ncols(),
            forall|i: int, j: int| 0 <= i < mid && 0 <= j < self.spec_ncols()
                ==> #[trigger] parts.0.elem(i, j) == self.elem(i, j),
            forall|i: int, j: int| 0 <= i < self.spec_nrows() - mid && 0 <= j < self.spec_ncols()
                ==> #[trigger] parts.1.elem(i, j) == self.elem(mid + i, j),
    {
        let top = self.submatrix(0, 0, mid, self.ncols);
        let bottom = self.submatrix(mid, 0, self.nrows - mid, self.ncols);
        proof {
            assert forall|i: int, j: int| 0 <= i < mid && 0 <= j < self.spec_ncols()
                implies #[trigger] top.elem(i, j) == self.elem(i, j) by {
                assert(top.elem(i, j) == self.elem(0 + i, 0 + j));
            }
            assert forall|i: int, j: int| 0 <= i < self.spec_nrows() - mid && 0 <= j < self.spec_ncols()
                implies #[trigger] bottom.elem(i, j) == self.elem(mid + i, j) by {
                assert(bottom.elem(i, j) == self.elem(mid + i, 0 + j));
            }
        }
        (top, bottom)
    }

    /// The main diagonal (length `min(nrows, ncols)`).
    pub fn diagonal(&self) -> (d: DiagRef<'a, T>)
        ensures
            d.spec_len() == if self.spec_nrows() <= self.spec_ncols() { self.spec_nrows() } else { self.spec_ncols() },
            forall|i: int| 0 <= i < d.spec_len() ==> #[trigger] d.elem(i) == self.elem(i, i),
    {
        proof { use_type_invariant(self); }
        let len = if self.nrows <= self.ncols { self.nrows } else { self.ncols };
        if len == 0 {
            return DiagRef { data: self.data, offset: 0, len: 0, stride: 1 };
        }
        proof {
            lemma_position_inside(self.data@.len(), self.offset as nat, self.nrows as nat, self.ncols as nat,
                self.row_stride as nat, (len - 1) as nat, (len - 1) as nat);
            assert((len - 1) * (self.row_stride + 1) == (len - 1) + (len - 1) * self.row_stride) by (nonlinear_arith);
            assert(len == 1 || self.row_stride < usize::MAX) by (nonlinear_arith)
                requires len >= 1, self.offset + (len - 1) + (len - 1) * self.row_stride < usize::MAX;
        }
        let stride = if len == 1 { 1 } else { self.row_stride + 1 };
        proof {
            if len == 1 {
                assert((len - 1) * stride == 0) by (nonlinear_arith) requires len == 1;
            } else {
                assert((len - 1) * stride == (len - 1) + (len - 1) * self.row_stride) by (nonlinear_arith)
                    requires stride == self.row_stride + 1;
            }
        }
        let d = DiagRef { data: self.data, offset: self.offset, len, stride };
        proof {
            assert forall|i: int| 0 <= i < d.spec_len() implies #[trigger] d.elem(i) == self.elem(i, i) by {
                if len > 1 {
                    assert(i * stride == i + i * self.row_stride) by (nonlinear_arith)
                        requires stride == self.row_stride + 1;
                } else {
                    assert(i == 0);
                    assert(i * stride == 0 && i * self.row_stride == 0) by (nonlinear_arith) requires i == 0;
                }
            }
        }
        d
    }

    /// A transposed view (no data movement).
    pub fn transpose(&self) -> (t: TransposeRef<'a, T>)
        ensures
            t.spec_inner() == *self,
    {
        TransposeRef { inner: *self }
    }
}

/// A view of the diagonal of a matrix.
pub struct DiagRef<'a, T> {
    data: &'a [T],
    offset: usize,
    len: usize,
    stride: usize,
}

impl<'a, T> DiagRef<'a, T> {
    #[verifier::type_invariant]
    spec fn fits(self) -> bool {
        &&& self.len == 0 || self.offset + (self.len - 1) * self.stride < self.data@.len()
        &&& self.data@.len() <= usize::MAX
    }

    /// Number of diagonal elements.
    pub closed spec fn spec_len(&self) -> usize { self.len }

    /// Diagonal element `i`.
    pub closed spec fn elem(&self, i: int) -> T {
        self.data@[self.offset + i * self.stride]
    }

    /// Number of diagonal elements.
    pub fn len(&self) -> (n: usize)
        ensures n == self.spec_len(),
    {
        self.len
    }

    /// True when the diagonal is empty.
    pub fn is_empty(&self) -> (b: bool)
        ensures b == (self.spec_len() == 0),
    {
        self.len == 0
    }

    /// Diagonal element `i`, or `None` when out of bounds.
    pub fn get(&self, i: usize) -> (r: Option<&'a T>)
        ensures
            match r {
                Some(x) => i < self.spec_len() && *x == self.elem(i as int),
                None => i >= self.spec_len(),
            },
    {
        proof { use_type_invariant(self); }
        if i < self.len {
            proof {
                assert(i * self.stride <= (self.len - 1) * self.stride) by (nonlinear_arith)
                    requires i <= self.len - 1;
            }
            Some(&self.data[self.offset + i * self.stride])
        } else {
            None
        }
    }

    /// Diagonal element `i`, which must be in bounds.
    pub fn at(&self, i: usize) -> (x: &'a T)
        requires
            i < self.spec_len(),
        ensures
            *x == self.elem(i as int),
    {
        proof {
            use_type_invariant(self);
            assert(i * self.stride <= (self.len - 1) * self.stride) by (nonlinear_arith)
                requires i <= self.len - 1;
        }
        &self.data[self.offset + i * self.stride]
    }
}

/// A transposed view of a matrix.
pub struct TransposeRef<'a, T> {
    inner: MatRef<'a, T>,
}

impl<'a, T> TransposeRef<'a, T> {
    /// The untransposed view.
    pub closed spec fn spec_inner(&self) -> MatRef<'a, T> { self.inner }

    /// Number of rows (columns of the untransposed view).
    pub fn nrows(&self) -> (n: usize)
        ensures n == self.spec_inner().spec_ncols(),
    {
        self.inner.ncols()
    }

    /// Number of columns (rows of the untransposed view).
    pub fn ncols(&self) -> (n: usize)
        ensures n == self.spec_inner().spec_nrows(),
    {
        self.inner.nrows()
    }

    /// Shape of the transposed view.
    pub fn shape(&self) -> (s: (usize, usize))
        ensures s == (self.spec_inner().spec_ncols(), self.spec_inner().spec_nrows()),
    {
        (self.inner.ncols(), self.inner.nrows())
    }

    /// Element `(row, col)` of the transpose, i.e. `(col, row)` of the
    /// untransposed view, or `None` when out of bounds.
    pub fn get(&self, row: usize, col: usize) -> (r: Option<&'a T>)
        ensures
            match r {
                Some(x) => row < self.spec_inner().spec_ncols() && col < self.spec_inner().spec_nrows()
                    && *x == self.spec_inner().elem(col as int, row as int),
                None => !(row < self.spec_inner().spec_ncols() && col < self.spec_inner().spec_nrows()),
            },
    {
        self.inner.get(col, row)
    }

    /// Element `(row, col)` of the transpose, which must be in bounds.
    pub fn at(&self, row: usize, col: usize) -> (x: &'a T)
        requires
            row < self.spec_inner().spec_ncols(),
            col < self.spec_inner().spec_nrows(),
        ensures
            *x == self.spec_inner().elem(col as int, row as int),
    {
        self.inner.at(col, row)
    }
}

} // verus!
