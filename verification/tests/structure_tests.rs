use oxiblas::etree::{elimination_tree, elimination_tree_of_lower};
use oxiblas::permutation::{invert_permutation, inverse_permutation, permute_symmetric};
use oxiblas::precond::{
    column_pattern, columns_to_compressed, residual_rows, rows_from_columns, PreconditionerError,
};
use oxiblas::qr::{qr_working_matrix, SparseQrError};
use oxiblas::sparse::{CscMatrix, CsrMatrix};
use oxiblas::supernodal::{
    block_storage_offsets, cholesky_symbolic, detect_supernodes, single_column_supernodes, symbolic_analysis,
    Supernode, SupernodalError,
};

/// Columns of a CSC matrix as `(row, value)` lists.
fn csc_columns(a: &CscMatrix<f64>) -> Vec<Vec<(usize, f64)>> {
    let mut cols = Vec::new();
    for j in 0..a.ncols() {
        let mut col = Vec::new();
        for k in a.col_ptrs()[j]..a.col_ptrs()[j + 1] {
            col.push((a.row_indices()[k], a.values()[k]));
        }
        cols.push(col);
    }
    cols
}

/// 5x5 tridiagonal SPD matrix, lower triangle only.
fn tridiagonal_lower() -> CscMatrix<f64> {
    let n = 5;
    let mut col_ptrs = vec![0usize];
    let mut row_indices = Vec::new();
    let mut values = Vec::new();
    for j in 0..n {
        row_indices.push(j);
        values.push(4.0);
        if j + 1 < n {
            row_indices.push(j + 1);
            values.push(-1.0);
        }
        col_ptrs.push(row_indices.len());
    }
    CscMatrix::new(n, n, col_ptrs, row_indices, values).unwrap()
}

/// 5x5 tridiagonal SPD matrix, both triangles.
fn tridiagonal_full() -> CscMatrix<f64> {
    let n = 5;
    let mut col_ptrs = vec![0usize];
    let mut row_indices = Vec::new();
    let mut values = Vec::new();
    for j in 0..n {
        if j > 0 {
            row_indices.push(j - 1);
            values.push(-1.0);
        }
        row_indices.push(j);
        values.push(4.0);
        if j + 1 < n {
            row_indices.push(j + 1);
            values.push(-1.0);
        }
        col_ptrs.push(row_indices.len());
    }
    CscMatrix::new(n, n, col_ptrs, row_indices, values).unwrap()
}

#[test]
fn test_inverse_permutation() {
    assert_eq!(inverse_permutation(&[2, 0, 1]), Some(vec![1, 2, 0]));
    assert_eq!(inverse_permutation(&[]), Some(vec![]));
    assert_eq!(inverse_permutation(&[0, 0, 1]), None);
    assert_eq!(inverse_permutation(&[0, 3, 1]), None);
    let perm = [3, 1, 4, 0, 2];
    let inv = inverse_permutation(&perm).unwrap();
    assert_eq!(inverse_permutation(&inv), Some(perm.to_vec()));
}

#[test]
fn test_permute_symmetric_reverses_tridiagonal() {
    let a = tridiagonal_full();
    let perm = [4, 3, 2, 1, 0];
    let inv = inverse_permutation(&perm).unwrap();
    let p = permute_symmetric(&a, &perm, &inv);
    assert_eq!(p.nrows(), 5);
    assert_eq!(p.ncols(), 5);
    let cols = csc_columns(&p);
    assert_eq!(cols[0], vec![(0, 4.0), (1, -1.0)]);
    assert_eq!(cols[3], vec![(3, 4.0), (4, -1.0)]);
    assert_eq!(cols[4], vec![(4, 4.0)]);
}

#[test]
fn test_permute_symmetric_completes_from_upper_triangle() {
    // Only the upper triangle is stored: entry (0, 1) = 2.
    let a = CscMatrix::new(2, 2, vec![0, 1, 3], vec![0, 0, 1], vec![1.0, 2.0, 3.0]).unwrap();
    let p = permute_symmetric(&a, &[0, 1], &[0, 1]);
    assert_eq!(csc_columns(&p), vec![vec![(0, 1.0), (1, 2.0)], vec![(1, 3.0)]]);
}

#[test]
fn test_elimination_tree_of_arrow_pattern() {
    // Upper triangle of an arrow matrix: column 3 touches rows 0, 1, 2.
    let ptrs = [0, 1, 2, 3, 7];
    let idx = [0, 1, 2, 0, 1, 2, 3];
    let parent = elimination_tree(4, &ptrs, &idx);
    assert_eq!(parent, vec![Some(3), Some(3), Some(3), None]);
}

#[test]
fn test_elimination_tree_of_tridiagonal_is_a_path() {
    let a = tridiagonal_full();
    let parent = elimination_tree(5, a.col_ptrs(), a.row_indices());
    assert_eq!(parent, vec![Some(1), Some(2), Some(3), Some(4), None]);
}

#[test]
fn test_elimination_tree_of_lower_arrow() {
    // Lower triangle of an arrow matrix: row 3 holds entries in columns
    // 0, 1 and 2; entries above the diagonal are ignored.
    let ptrs = [0, 2, 4, 6, 7];
    let idx = [0, 3, 1, 3, 2, 3, 3];
    assert_eq!(elimination_tree_of_lower(4, &ptrs, &idx), vec![Some(3), Some(3), Some(3), None]);
    let with_upper = [0, 2, 3, 4, 5];
    let idx_upper = [0, 1, 1, 0, 3];
    assert_eq!(elimination_tree_of_lower(4, &with_upper, &idx_upper), vec![Some(1), None, None, None]);
}

#[test]
fn test_symbolic_analysis_tridiagonal() {
    let a = tridiagonal_full();
    let (sns, parent) = symbolic_analysis(&a);
    assert_eq!(parent, vec![Some(1), Some(2), Some(3), Some(4), None]);
    // Below the diagonal, column j holds row j + 1 only, which column j + 1
    // does not repeat, so columns 0..3 stand alone; column 4 has nothing
    // below the diagonal and continues column 3.
    assert_eq!(sns.len(), 4);
    assert!(sns.len() <= 5);
    for (j, sn) in sns.iter().take(3).enumerate() {
        assert_eq!(sn.first_col, j);
        assert_eq!(sn.size, 1);
        assert_eq!(sn.last_col(), j);
        assert_eq!(sn.cols(), j..j + 1);
        assert_eq!(sn.sub_rows, vec![j + 1]);
    }
    assert_eq!(sns[3].first_col, 3);
    assert_eq!(sns[3].size, 2);
    assert_eq!(sns[3].last_col(), 4);
    assert_eq!(sns[3].cols(), 3..5);
    assert!(sns[3].sub_rows.is_empty());
}

#[test]
fn test_supernode_detection_lower_triangle() {
    // The tree comes from the entries below the diagonal: column j stores
    // row j + 1, so j's parent is j + 1.  Columns 3 and 4 form one
    // supernode, the others stand alone.
    let a = tridiagonal_lower();
    let (sns, parent) = symbolic_analysis(&a);
    assert_eq!(parent, vec![Some(1), Some(2), Some(3), Some(4), None]);
    assert_eq!(sns.len(), 4);
    for (j, sn) in sns.iter().take(3).enumerate() {
        assert_eq!(sn.first_col, j);
        assert_eq!(sn.size, 1);
        assert_eq!(sn.sub_rows, vec![j + 1]);
    }
    assert_eq!(sns[3].cols(), 3..5);
    assert!(sns[3].sub_rows.is_empty());
}

#[test]
fn test_detect_supernodes_merges_nested_columns() {
    // Lower pattern: column 0 has rows {1, 3}, column 1 has row {3}, column 2
    // has nothing, column 3 nothing.  With parent 0 -> 1 the first two
    // columns nest.
    let ptrs = [0, 3, 5, 6, 7];
    let idx = [0, 1, 3, 1, 3, 2, 3];
    let parent = [Some(1), Some(3), None, None];
    let sns = detect_supernodes(4, &ptrs, &idx, &parent);
    assert_eq!(sns.len(), 3);
    assert_eq!((sns[0].first_col, sns[0].size), (0, 2));
    assert_eq!(sns[0].sub_rows, vec![3]);
    assert_eq!((sns[1].first_col, sns[1].size), (2, 1));
    assert_eq!((sns[2].first_col, sns[2].size), (3, 1));
}

#[test]
fn test_single_column_supernodes() {
    let a = tridiagonal_full();
    let sns = single_column_supernodes(&a);
    assert_eq!(sns.len(), 5);
    assert_eq!(sns[2].first_col, 2);
    assert_eq!(sns[2].size, 1);
    assert_eq!(sns[2].sub_rows, vec![3]);
    assert!(sns[4].sub_rows.is_empty());
}

#[test]
fn test_block_storage_offsets() {
    let sns = vec![
        Supernode { first_col: 0, size: 2, sub_rows: vec![3, 4] },
        Supernode { first_col: 2, size: 1, sub_rows: vec![] },
        Supernode { first_col: 3, size: 2, sub_rows: vec![] },
    ];
    let (diag, offdiag) = block_storage_offsets(&sns);
    assert_eq!(diag, vec![0, 4, 5, 9]);
    assert_eq!(offdiag, vec![0, 4, 4, 4]);
}

#[test]
fn test_supernodal_error_variants() {
    let e = SupernodalError::NotSquare { nrows: 2, ncols: 3 };
    assert_eq!(e.clone(), SupernodalError::NotSquare { nrows: 2, ncols: 3 });
    assert_ne!(e, SupernodalError::ZeroPivot { index: 0 });
}

#[test]
fn test_columns_to_compressed() {
    let cols = vec![vec![(0usize, 1.0), (2, 2.0)], vec![], vec![(1, 3.0)]];
    let (ptrs, idx, vals) = columns_to_compressed(&cols);
    assert_eq!(ptrs, vec![0, 2, 2, 3]);
    assert_eq!(idx, vec![0, 2, 1]);
    assert_eq!(vals, vec![1.0, 2.0, 3.0]);
}

#[test]
fn test_column_pattern_sorted_and_deduplicated() {
    // Row 0 stores column 1 twice.
    let a = CsrMatrix::new(3, 3, vec![0, 3, 4, 5], vec![1, 0, 1, 1, 2], vec![1.0; 5]).unwrap();
    let pattern = column_pattern(&a);
    assert_eq!(pattern, vec![vec![0], vec![0, 1], vec![2]]);
}

#[test]
fn test_residual_rows() {
    // Columns 2 and 0 are stored in rows 2 and 0; j = 4 is added.
    let a = CsrMatrix::new(
        5,
        5,
        vec![0, 2, 3, 4, 4, 5],
        vec![1, 0, 3, 2, 4],
        vec![1.0; 5],
    )
    .unwrap();
    assert_eq!(residual_rows(&a, 4, &[2, 0]), vec![0, 2, 4]);
    // Column 3 is stored in row 1 only; a column past the last one reaches nothing.
    assert_eq!(residual_rows(&a, 0, &[3, 9]), vec![0, 1]);
    assert_eq!(residual_rows(&a, 1, &[]), vec![1]);
}

#[test]
fn test_rows_from_columns() {
    let cols = vec![vec![(1usize, 1.0), (0, 2.0)], vec![(1, 3.0)]];
    let m = rows_from_columns(2, &cols);
    assert_eq!(m.nrows(), 2);
    assert_eq!(m.ncols(), 2);
    assert_eq!(m.row_ptrs(), &[0, 1, 3]);
    assert_eq!(m.col_indices(), &[0, 0, 1]);
    assert_eq!(m.values(), &[2.0, 1.0, 3.0]);
}

#[test]
fn test_preconditioner_error_variants() {
    let e = PreconditionerError::InvalidMatrix("Matrix must be square".to_string());
    assert_eq!(e.clone(), e);
    assert_ne!(PreconditionerError::ZeroDiagonal(1), PreconditionerError::SingularBlock(1));
}

#[test]
fn test_qr_working_matrix_permutes_columns() {
    // [1 0 2]
    // [0 3 0]
    let a = CsrMatrix::new(2, 3, vec![0, 2, 3], vec![0, 2, 1], vec![1.0, 2.0, 3.0]).unwrap();
    let work = qr_working_matrix(&a, &[2, 0, 1], 0.0).unwrap();
    assert_eq!(work, vec![vec![2.0, 1.0, 0.0], vec![0.0, 0.0, 3.0]]);
}

#[test]
fn test_qr_working_matrix_last_duplicate_wins() {
    let a = CsrMatrix::new(1, 2, vec![0, 2], vec![1, 1], vec![5.0, 6.0]).unwrap();
    let work = qr_working_matrix(&a, &[0, 1], 0.0).unwrap();
    assert_eq!(work, vec![vec![0.0, 6.0]]);
}

#[test]
fn test_qr_working_matrix_rejects_empty() {
    let a = CsrMatrix::<f64>::new(0, 2, vec![0], vec![], vec![]).unwrap();
    match qr_working_matrix(&a, &[0, 1], 0.0) {
        Err(SparseQrError::InvalidMatrix(msg)) => {
            assert_eq!(msg, "Matrix must have at least one row and one column")
        }
        other => panic!("unexpected {other:?}"),
    }
}

#[test]
fn test_rows_from_columns_gives_back_sorted_columns() {
    let cols = vec![vec![(0usize, 1.0), (2, 2.0)], vec![(1, 3.0)], vec![]];
    let m = rows_from_columns(3, &cols);
    let back = oxiblas::sparse::csr_to_csc(&m);
    assert_eq!(csc_columns(&back), cols);
}

#[test]
fn test_cholesky_symbolic() {
    let a = tridiagonal_full();
    let perm = [4, 3, 2, 1, 0];
    let (ap, sns, parent, perm_inv) = cholesky_symbolic(&a, &perm).unwrap();
    assert_eq!(perm_inv, vec![4, 3, 2, 1, 0]);
    assert_eq!(ap.nrows(), 5);
    // Only the lower triangle is kept; its entries below the diagonal give
    // the path 0 -> 1 -> 2 -> 3 -> 4, and the last two columns group.
    assert_eq!(parent, vec![Some(1), Some(2), Some(3), Some(4), None]);
    assert_eq!(sns.len(), 4);
    assert_eq!(csc_columns(&ap)[0], vec![(0, 4.0), (1, -1.0)]);
}

#[test]
fn test_cholesky_symbolic_rejects_rectangular() {
    let a = CscMatrix::<f64>::new(2, 3, vec![0, 0, 0, 0], vec![], vec![]).unwrap();
    assert_eq!(
        cholesky_symbolic(&a, &[0, 1, 2]).err(),
        Some(SupernodalError::NotSquare { nrows: 2, ncols: 3 })
    );
}

#[test]
fn test_invert_permutation() {
    assert_eq!(invert_permutation(&[2, 0, 1]), vec![1, 2, 0]);
    assert_eq!(invert_permutation(&[0]), vec![0]);
    assert!(invert_permutation(&[]).is_empty());
    let perm = [3, 1, 4, 0, 2];
    assert_eq!(invert_permutation(&invert_permutation(&perm)), perm.to_vec());
}

/// 5x5 tridiagonal SPD matrix with 4 on the diagonal and 1 beside it.
fn make_larger_spd_matrix() -> CscMatrix<f64> {
    let n = 5;
    let mut values = Vec::new();
    let mut row_indices = Vec::new();
    let mut col_ptrs = vec![0usize];
    for j in 0..n {
        if j > 0 {
            row_indices.push(j - 1);
            values.push(1.0);
        }
        row_indices.push(j);
        values.push(4.0);
        if j < n - 1 {
            row_indices.push(j + 1);
            values.push(1.0);
        }
        col_ptrs.push(values.len());
    }
    CscMatrix::new(n, n, col_ptrs, row_indices, values).unwrap()
}

#[test]
fn test_supernode_detection() {
    // Supernode detection on the symmetrically permuted pattern; the
    // fill-reducing ordering is the caller's, here the natural order.
    let a = make_larger_spd_matrix();
    let perm: Vec<usize> = (0..5).collect();
    let (_ap, sns, _parent, _perm_inv) = cholesky_symbolic(&a, &perm).unwrap();
    for sn in &sns {
        assert!(sn.last_col() < 5);
    }
    assert!(sns.len() <= 5);
}
