use oxiblas::mat_ref::MatRef;

/// Column-major storage of the matrix given by its rows.
fn column_major(rows: &[&[f64]]) -> Vec<f64> {
    let nrows = rows.len();
    let ncols = rows[0].len();
    let mut data = Vec::with_capacity(nrows * ncols);
    for j in 0..ncols {
        for row in rows {
            data.push(row[j]);
        }
    }
    data
}

#[test]
fn test_mat_ref_basic() {
    let data = column_major(&[&[1.0, 2.0, 3.0], &[4.0, 5.0, 6.0]]);
    let view = MatRef::new(&data, 2, 3, 2);

    assert_eq!(view.shape(), (2, 3));
    assert_eq!(*view.at(0, 0), 1.0);
    assert_eq!(*view.at(1, 2), 6.0);
}

#[test]
fn test_mat_ref_submatrix() {
    let data = column_major(&[
        &[1.0, 2.0, 3.0, 4.0],
        &[5.0, 6.0, 7.0, 8.0],
        &[9.0, 10.0, 11.0, 12.0],
    ]);

    let sub = MatRef::new(&data, 3, 4, 3).submatrix(1, 1, 2, 2);
    assert_eq!(sub.shape(), (2, 2));
    assert_eq!(*sub.at(0, 0), 6.0);
    assert_eq!(*sub.at(1, 1), 11.0);
}

#[test]
fn test_mat_ref_col_row() {
    let data = column_major(&[&[1.0, 2.0, 3.0], &[4.0, 5.0, 6.0]]);
    let view = MatRef::new(&data, 2, 3, 2);

    let col1 = view.col(1);
    assert_eq!(col1.shape(), (2, 1));
    assert_eq!(*col1.at(0, 0), 2.0);
    assert_eq!(*col1.at(1, 0), 5.0);

    let row0 = view.row(0);
    assert_eq!(row0.shape(), (1, 3));
    assert_eq!(*row0.at(0, 1), 2.0);
}

#[test]
fn test_mat_ref_diagonal() {
    let data = column_major(&[&[1.0, 2.0, 3.0], &[4.0, 5.0, 6.0], &[7.0, 8.0, 9.0]]);

    let diag = MatRef::new(&data, 3, 3, 3).diagonal();
    assert_eq!(diag.len(), 3);
    assert_eq!(*diag.at(0), 1.0);
    assert_eq!(*diag.at(1), 5.0);
    assert_eq!(*diag.at(2), 9.0);
}

#[test]
fn test_mat_ref_transpose() {
    let data = column_major(&[&[1.0, 2.0, 3.0], &[4.0, 5.0, 6.0]]);
    let t = MatRef::new(&data, 2, 3, 2).transpose();

    assert_eq!(t.shape(), (3, 2));
    assert_eq!(*t.at(0, 0), 1.0);
    assert_eq!(*t.at(1, 0), 2.0);
    assert_eq!(*t.at(0, 1), 4.0);
    assert_eq!(*t.at(2, 1), 6.0);
}

#[test]
fn test_mat_ref_split() {
    let data = column_major(&[&[1.0, 2.0, 3.0, 4.0], &[5.0, 6.0, 7.0, 8.0]]);
    let view = MatRef::new(&data, 2, 4, 2);

    let (left, right) = view.split_cols(2);
    assert_eq!(left.shape(), (2, 2));
    assert_eq!(right.shape(), (2, 2));
    assert_eq!(*left.at(0, 1), 2.0);
    assert_eq!(*right.at(0, 0), 3.0);

    let (top, bottom) = view.split_rows(1);
    assert_eq!(top.shape(), (1, 4));
    assert_eq!(bottom.shape(), (1, 4));
    assert_eq!(*top.at(0, 2), 3.0);
    assert_eq!(*bottom.at(0, 2), 7.0);
}

#[test]
fn test_mat_ref_padded_stride() {
    // Columns padded to 4 elements: rows 2..4 of each column are never seen.
    let data = vec![1.0, 4.0, -1.0, -1.0, 2.0, 5.0, -1.0, -1.0, 3.0, 6.0];
    let view = MatRef::new(&data, 2, 3, 4);
    assert_eq!(view.row_stride(), 4);
    assert_eq!(view.get(1, 2), Some(&6.0));
    assert_eq!(view.get(2, 0), None);
    assert_eq!(view.get(0, 3), None);
    assert_eq!(view.col_as_slice(1), Some(&[2.0, 5.0][..]));
    assert_eq!(view.col_as_slice(3), None);
    let cols = view.cols();
    assert_eq!(cols.len(), 3);
    assert_eq!(*cols[2].at(1, 0), 6.0);
    let rows = view.rows();
    assert_eq!(rows.len(), 2);
    assert_eq!(*rows[1].at(0, 0), 4.0);
}

#[test]
fn test_mat_ref_shape_predicates() {
    let data = vec![1.0, 2.0, 3.0];
    let col = MatRef::from_slice(&data);
    assert_eq!(col.shape(), (3, 1));
    assert!(col.is_column());
    assert!(!col.is_row());
    assert!(!col.is_square());
    assert!(!col.is_empty());
    let empty = col.submatrix(0, 0, 0, 1);
    assert!(empty.is_empty());
    assert_eq!(empty.diagonal().len(), 0);
    assert!(empty.diagonal().is_empty());
    let row = MatRef::new(&data, 1, 3, 1);
    assert!(row.is_row());
    assert_eq!(row.diagonal().len(), 1);
    assert_eq!(row.diagonal().get(0), Some(&1.0));
    assert_eq!(row.diagonal().get(1), None);
}

#[test]
fn test_transpose_reads_swapped_indices() {
    let data = column_major(&[&[1.0, 2.0], &[3.0, 4.0], &[5.0, 6.0]]);
    let view = MatRef::new(&data, 3, 2, 3);
    let t = view.transpose();
    for i in 0..3 {
        for j in 0..2 {
            assert_eq!(t.get(j, i), view.get(i, j));
        }
    }
    assert_eq!(t.get(2, 0), None);
    assert_eq!(t.nrows(), 2);
    assert_eq!(t.ncols(), 3);
}
