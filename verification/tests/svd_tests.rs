use oxiblas::sparse::CsrMatrix;
use oxiblas::svd::{IncrementalSVD, IncrementalSVDConfig};

#[test]
fn test_incremental_svd_error_empty_matrix() {
    let values: Vec<f64> = vec![];
    let col_indices: Vec<usize> = vec![];
    let row_ptrs = vec![0];
    let a = CsrMatrix::new(0, 0, row_ptrs, col_indices, values).unwrap();
    let config = IncrementalSVDConfig {
        max_rank: 5,
        tolerance: 1e-10,
        reorthogonalize: true,
    };
    let mut isvd = IncrementalSVD::new(config);
    let result = isvd.initialize(&a, 1);
    assert!(result.is_err());
}

#[test]
fn test_incremental_svd_error_wrong_dimensions() {
    let values = vec![1.0, 1.0];
    let col_indices = vec![0, 1];
    let row_ptrs = vec![0, 1, 2];
    let a = CsrMatrix::new(2, 2, row_ptrs, col_indices, values).unwrap();
    let config = IncrementalSVDConfig {
        max_rank: 5,
        tolerance: 1e-10,
        reorthogonalize: true,
    };
    let mut isvd = IncrementalSVD::new(config);
    // `initialize` records the shape and decides the randomized SVD; the
    // size checks of an update come before any use of the factors.
    isvd.initialize(&a, 1).unwrap();
    let wrong_row = vec![vec![1.0, 2.0, 3.0]];
    let result = isvd.check_new_rows(&wrong_row);
    assert!(result.is_err());
    let wrong_col = vec![vec![1.0]];
    let result2 = isvd.check_new_columns(&wrong_col);
    assert!(result2.is_err());
}
