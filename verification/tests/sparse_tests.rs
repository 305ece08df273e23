use oxiblas::merge::{merge_row, MergeStep};
use oxiblas::compressed::transpose_compressed;
use oxiblas::sparse::{csc_to_csr, csr_to_csc, CscMatrix, CsrMatrix, SparseFormatError};

/// Rows of a CSR matrix as `(column, value)` lists.
fn csr_rows(a: &CsrMatrix<f64>) -> Vec<Vec<(usize, f64)>> {
    let mut rows = Vec::new();
    for i in 0..a.nrows() {
        let mut row = Vec::new();
        for k in a.row_ptrs()[i]..a.row_ptrs()[i + 1] {
            row.push((a.col_indices()[k], a.values()[k]));
        }
        rows.push(row);
    }
    rows
}

/// Columns of a CSC matrix as `(row, value)` lists.
fn csc_columns(a: &CscMatrix<f64>) -> Vec<Vec<(usize, f64)>> {
    let mut cols = Vec::new();
    for j in 0..a.ncols() {
        let mut col = Vec::new();
        for k in a.col_ptrs()[j]..a.col_ptrs()[j + 1] {
            col.push((a.row_indices()[k], a.values()[k]));
        }
        cols.push(col);
    }
    cols
}

fn sample_csr() -> CsrMatrix<f64> {
    // [1 0 2]
    // [0 0 3]
    // [4 5 0]
    // [0 6 0]
    CsrMatrix::new(
        4,
        3,
        vec![0, 2, 3, 5, 6],
        vec![0, 2, 2, 0, 1, 1],
        vec![1.0, 2.0, 3.0, 4.0, 5.0, 6.0],
    )
    .unwrap()
}

#[test]
fn test_csr_new_rejects_invalid_storage() {
    let bad_len = CsrMatrix::<f64>::new(2, 2, vec![0, 1], vec![0], vec![1.0]);
    assert_eq!(bad_len.err(), Some(SparseFormatError::PointerLength));
    let bad_first = CsrMatrix::<f64>::new(1, 2, vec![1, 1], vec![0], vec![1.0]);
    assert_eq!(bad_first.err(), Some(SparseFormatError::FirstPointerNotZero));
    let decreasing = CsrMatrix::<f64>::new(2, 2, vec![0, 2, 1], vec![0, 1], vec![1.0, 2.0]);
    assert_eq!(decreasing.err(), Some(SparseFormatError::DecreasingPointers));
    let mismatch = CsrMatrix::<f64>::new(1, 2, vec![0, 2], vec![0, 1], vec![1.0]);
    assert_eq!(mismatch.err(), Some(SparseFormatError::LengthMismatch));
    let out_of_bounds = CsrMatrix::<f64>::new(1, 2, vec![0, 1], vec![2], vec![1.0]);
    assert_eq!(out_of_bounds.err(), Some(SparseFormatError::IndexOutOfBounds));
    let too_large = CsrMatrix::<f64>::new(usize::MAX, 1, vec![0], vec![], vec![]);
    assert_eq!(too_large.err(), Some(SparseFormatError::DimensionTooLarge));
    let csc_bad = CscMatrix::<f64>::new(2, 1, vec![0, 1], vec![5], vec![1.0]);
    assert_eq!(csc_bad.err(), Some(SparseFormatError::IndexOutOfBounds));
}

#[test]
fn test_csr_to_csc_columns() {
    let a = sample_csr();
    let c = csr_to_csc(&a);
    assert_eq!(c.nrows(), 4);
    assert_eq!(c.ncols(), 3);
    assert_eq!(c.nnz(), 6);
    assert_eq!(
        csc_columns(&c),
        vec![
            vec![(0, 1.0), (2, 4.0)],
            vec![(2, 5.0), (3, 6.0)],
            vec![(0, 2.0), (1, 3.0)],
        ]
    );
}

#[test]
fn test_csr_csc_roundtrip_sorted_rows() {
    let a = sample_csr();
    let back = csc_to_csr(&csr_to_csc(&a));
    assert_eq!(back.row_ptrs(), a.row_ptrs());
    assert_eq!(back.col_indices(), a.col_indices());
    assert_eq!(back.values(), a.values());
}

#[test]
fn test_csr_csc_roundtrip_sorts_unsorted_rows() {
    // A row listing its columns out of order comes back sorted.
    let a = CsrMatrix::new(1, 3, vec![0, 2], vec![2, 0], vec![7.0, 8.0]).unwrap();
    let back = csc_to_csr(&csr_to_csc(&a));
    assert_eq!(csr_rows(&back), vec![vec![(0, 8.0), (2, 7.0)]]);
}

#[test]
fn test_csc_csr_roundtrip_sorted_columns() {
    let a = CscMatrix::new(3, 2, vec![0, 2, 3], vec![0, 2, 1], vec![1.0, 2.0, 3.0]).unwrap();
    let r = csc_to_csr(&a);
    assert_eq!(csr_rows(&r), vec![vec![(0, 1.0)], vec![(1, 3.0)], vec![(0, 2.0)]]);
    let back = csr_to_csc(&r);
    assert_eq!(csc_columns(&back), csc_columns(&a));
}

#[test]
fn test_transpose_compressed_empty_segments() {
    let (ptrs, idx, vals) = transpose_compressed(2, 3, &[0, 0, 0], &[], &[] as &[i32]);
    assert_eq!(ptrs, vec![0, 0, 0, 0]);
    assert!(idx.is_empty());
    assert!(vals.is_empty());
}

#[test]
fn test_merge_row_steps() {
    // Row 0 of A: columns {0, 2}; row 0 of B: columns {1, 2, 3}.
    let a = CsrMatrix::new(1, 4, vec![0, 2], vec![0, 2], vec![1.0, 2.0]).unwrap();
    let b = CsrMatrix::new(1, 4, vec![0, 3], vec![1, 2, 3], vec![3.0, 4.0, 5.0]).unwrap();
    let steps = merge_row(&a, &b, 0);
    assert_eq!(
        steps,
        vec![
            MergeStep::Left(0),
            MergeStep::Right(0),
            MergeStep::Both(1, 1),
            MergeStep::Right(2),
        ]
    );
    // The merged columns are the sorted union {0, 1, 2, 3}.
    let cols: Vec<usize> = steps
        .iter()
        .map(|s| match *s {
            MergeStep::Left(k) => a.col_indices()[k],
            MergeStep::Right(k) => b.col_indices()[k],
            MergeStep::Both(k, _) => a.col_indices()[k],
        })
        .collect();
    assert_eq!(cols, vec![0, 1, 2, 3]);
}

#[test]
fn test_merge_row_empty_rows() {
    let a = CsrMatrix::<f64>::new(2, 2, vec![0, 0, 1], vec![1], vec![1.0]).unwrap();
    let b = CsrMatrix::<f64>::new(2, 2, vec![0, 0, 0], vec![], vec![]).unwrap();
    assert!(merge_row(&a, &b, 0).is_empty());
    assert_eq!(merge_row(&a, &b, 1), vec![MergeStep::Left(0)]);
    assert_eq!(merge_row(&b, &a, 1), vec![MergeStep::Right(0)]);
}
