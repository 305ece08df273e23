use oxiblas::iterative::{check_rhs_dims, check_square_system, IterativeError};

#[test]
fn test_rhs_dims_accepted() {
    assert_eq!(check_rhs_dims(4, 4, 4), Ok(()));
    assert_eq!(check_rhs_dims(0, 0, 0), Ok(()));
}

#[test]
fn test_rhs_dims_report_shorter_vector() {
    assert_eq!(check_rhs_dims(4, 3, 4), Err(IterativeError::DimensionMismatch { expected: 4, actual: 3 }));
    assert_eq!(check_rhs_dims(4, 4, 2), Err(IterativeError::DimensionMismatch { expected: 4, actual: 2 }));
    // Both too long: the shorter of the two is reported.
    assert_eq!(check_rhs_dims(4, 6, 5), Err(IterativeError::DimensionMismatch { expected: 4, actual: 5 }));
}

#[test]
fn test_square_system_checks_vectors_first() {
    assert_eq!(check_square_system(3, 3, 3, 3), Ok(()));
    assert_eq!(
        check_square_system(3, 5, 2, 3),
        Err(IterativeError::DimensionMismatch { expected: 3, actual: 2 })
    );
    assert_eq!(
        check_square_system(3, 5, 3, 3),
        Err(IterativeError::DimensionMismatch { expected: 3, actual: 5 })
    );
}
