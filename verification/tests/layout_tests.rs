use ndarray::{Array2, ArrayD, IxDyn, ShapeBuilder};
use oxiblas::layout::{
    column_major_view, column_major_view_or_transposed, is_column_major, is_row_major,
    StridedLayout,
};

fn layout_of(arr: &Array2<f64>) -> StridedLayout {
    let (nrows, ncols) = arr.dim();
    let strides = arr.strides();
    StridedLayout { nrows, ncols, row_step: strides[0], col_step: strides[1] }
}

#[test]
fn test_is_column_major() {
    let col_major: Array2<f64> = Array2::zeros((3, 4).f());
    let row_major: Array2<f64> = Array2::zeros((3, 4));

    assert!(is_column_major(&layout_of(&col_major)));
    assert!(!is_column_major(&layout_of(&row_major)));
    assert!(is_row_major(&layout_of(&row_major)));
    assert!(!is_row_major(&layout_of(&col_major)));
}

#[test]
fn test_array_view_to_mat_ref_or_transposed() {
    // Column-major
    let col_major: Array2<f64> = Array2::from_shape_fn((3, 4).f(), |(i, j)| (i * 4 + j) as f64);
    let (dims, transposed) = column_major_view_or_transposed(&layout_of(&col_major)).unwrap();
    assert!(!transposed);
    assert_eq!((dims.0, dims.1), (3, 4));

    // Row-major
    let row_major: Array2<f64> = Array2::from_shape_fn((3, 4), |(i, j)| (i * 4 + j) as f64);
    let (dims, transposed) = column_major_view_or_transposed(&layout_of(&row_major)).unwrap();
    assert!(transposed);
    // Transposed: the array is 3x4, so the view is 4x3
    assert_eq!((dims.0, dims.1), (4, 3));
    assert_eq!(dims.2, 4);
}

#[test]
fn test_array_viewd_to_mat_ref() {
    let arr = ArrayD::from_shape_fn(IxDyn(&[3, 4]), |idx| (idx[0] * 4 + idx[1]) as f64);
    let view = arr.view();
    let layout = StridedLayout::from_dyn(view.shape(), view.strides()).unwrap();
    // Row-major, so no column-major view
    assert!(column_major_view(&layout).is_none());
}

#[test]
fn test_array_viewd_to_mat_ref_or_transposed() {
    let arr = ArrayD::from_shape_fn(IxDyn(&[3, 4]), |idx| (idx[0] * 4 + idx[1]) as f64);
    let view = arr.view();
    let layout = StridedLayout::from_dyn(view.shape(), view.strides()).unwrap();
    let result = column_major_view_or_transposed(&layout);
    assert!(result.is_some());
    let (dims, transposed) = result.unwrap();
    assert!(transposed);
    assert_eq!((dims.0, dims.1), (4, 3));
}

#[test]
fn test_array_viewd_wrong_dim() {
    let arr = ArrayD::from_shape_fn(IxDyn(&[2, 3, 4]), |idx| idx[0] as f64);
    let view = arr.view();
    assert!(StridedLayout::from_dyn(view.shape(), view.strides()).is_none());
}

#[test]
fn test_layout_without_contiguous_axis() {
    let l = StridedLayout { nrows: 3, ncols: 3, row_step: 2, col_step: 6 };
    assert!(column_major_view(&l).is_none());
    assert!(column_major_view_or_transposed(&l).is_none());
    assert!(!is_column_major(&l));
    assert!(!is_row_major(&l));
    let padded = StridedLayout { nrows: 3, ncols: 2, row_step: 1, col_step: 8 };
    assert_eq!(column_major_view(&padded), Some((3, 2, 8)));
    assert!(!is_column_major(&padded));
}
