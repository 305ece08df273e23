//! Memory layouts of two-dimensional strided arrays, described by their
//! shape and element strides, and how they map onto column-major views.
use vstd::prelude::*;

verus! {

/// Shape and strides of a two-dimensional strided array: element `(i, j)`
/// lies `i * row_step + j * col_step` elements from the first one.
#[derive(Debug, Clone, Copy, PartialEq, Eq, Structural)]
pub struct StridedLayout {
    /// Number of rows.
    pub nrows: usize,
    /// Number of columns.
    pub ncols: usize,
    /// Elements between two consecutive rows (first-axis stride).
    pub row_step: isize,
    /// Elements between two consecutive columns (second-axis stride).
    pub col_step: isize,
}

impl StridedLayout {
    /// The layout of an array of any dimension given by its shape and
    /// strides; `None` unless it has exactly two axes.
    pub fn from_dyn(shape: &[usize], strides: &[isize]) -> (l: Option<StridedLayout>)
        ensures
            match l {
                Some(l) => shape@.len() == 2 && strides@.len() == 2 && l.nrows == shape@[0] && l.ncols == shape@[1]
                    && l.row_step == strides@[0] && l.col_step == strides@[1],
                None => shape@.len() != 2 || strides@.len() != 2,
            },
    {
        if shape.len() != 2 || strides.len() != 2 {
            return None;
        }
        Some(StridedLayout { nrows: shape[0], ncols: shape[1], row_step: strides[0], col_step: strides[1] })
    }
}

/// Column-major (Fortran) order: rows adjacent, columns `nrows` apart.
pub fn is_column_major(l: &StridedLayout) -> (b: bool)
    ensures
        b == (l.row_step == 1 && l.col_step == l.nrows as isize),
{
    l.row_step == 1 && l.col_step == l.nrows as isize
}

/// Row-major (C) order: columns adjacent, rows `ncols` apart.
pub fn is_row_major(l: &StridedLayout) -> (b: bool)
    ensures
        b == (l.row_step == l.ncols as isize && l.col_step == 1),
{
    l.row_step == l.ncols as isize && l.col_step == 1
}

/// The column-major view `(nrows, ncols, column stride)` of an array whose
/// rows are adjacent; `None` otherwise.
pub fn column_major_view(l: &StridedLayout) -> (v: Option<(usize, usize, usize)>)
    ensures
        match v {
            Some(v) => l.row_step == 1 && v == (l.nrows, l.ncols, l.col_step as usize),
            None => l.row_step != 1,
        },
{
    if l.row_step == 1 {
        Some((l.nrows, l.ncols, l.col_step as usize))
    } else {
        None
    }
}

/// A column-major view of an array whose rows or columns are adjacent:
/// for adjacent rows the array itself (`false`); otherwise, for adjacent
/// columns, its transpose (`true`), `ncols x nrows` with stride `row_step`;
/// `None` when neither axis is contiguous.
pub fn column_major_view_or_transposed(l: &StridedLayout) -> (v: Option<((usize, usize, usize), bool)>)
    ensures
        match v {
            Some((dims, transposed)) => if l.row_step == 1 {
                !transposed && dims == (l.nrows, l.ncols, l.col_step as usize)
            } else {
                l.col_step == 1 && transposed && dims == (l.ncols, l.nrows, l.row_step as usize)
            },
            None => l.row_step != 1 && l.col_step != 1,
        },
{
    if l.row_step == 1 {
        Some(((l.nrows, l.ncols, l.col_step as usize), false))
    } else if l.col_step == 1 {
        Some(((l.ncols, l.nrows, l.row_step as usize), true))
    } else {
        None
    }
}

} // verus!
