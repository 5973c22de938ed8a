use cs_sparse::cs_matrix::{CsError, CsMatrix};
use cs_sparse::dense::{Matrix, Vector};
use cs_sparse::storage::CsStorage;

fn dense(nrows: usize, ncols: usize, rows: &[&[u64]]) -> Matrix {
    let mut cols = Vec::new();
    for j in 0..ncols {
        let mut c = Vec::new();
        for i in 0..nrows {
            c.push(rows[i][j]);
        }
        cols.push(c);
    }
    Matrix { nrows, ncols, cols }
}

fn rows_of(m: &Matrix) -> Vec<Vec<u64>> {
    let mut out = Vec::new();
    for i in 0..m.nrows {
        let mut row = Vec::new();
        for j in 0..m.ncols {
            row.push(m.cols[j][i]);
        }
        out.push(row);
    }
    out
}

fn dense_mul(a: &Matrix, b: &Matrix) -> Vec<Vec<u64>> {
    let mut out = Vec::new();
    for i in 0..a.nrows {
        let mut row = Vec::new();
        for j in 0..b.ncols {
            let mut s: u64 = 0;
            for k in 0..a.ncols {
                s = s.wrapping_add(a.cols[k][i].wrapping_mul(b.cols[j][k]));
            }
            row.push(s);
        }
        out.push(row);
    }
    out
}

fn dense_add(a: &Matrix, b: &Matrix) -> Vec<Vec<u64>> {
    let mut out = Vec::new();
    for i in 0..a.nrows {
        let mut row = Vec::new();
        for j in 0..a.ncols {
            row.push(a.cols[j][i].wrapping_add(b.cols[j][i]));
        }
        out.push(row);
    }
    out
}

fn count_nonzero(rows: &Vec<Vec<u64>>) -> usize {
    rows.iter().map(|r| r.iter().filter(|v| **v != 0).count()).sum()
}

fn diag() -> CsMatrix {
    CsMatrix::from_dense(&dense(2, 2, &[&[1, 0], &[0, 2]]))
}

fn anti() -> CsMatrix {
    CsMatrix::from_dense(&dense(2, 2, &[&[0, 3], &[4, 0]]))
}

#[test]
fn scenario_sum_of_diagonal_and_anti_diagonal() {
    let s = diag().add(&anti()).unwrap();
    assert_eq!(rows_of(&Matrix::from_cs(&s)), vec![vec![1, 3], vec![4, 2]]);
    assert_eq!(s.nvalues(), 4);
}

#[test]
fn scenario_product_of_diagonal_and_anti_diagonal() {
    let p = diag().mul(&anti()).unwrap();
    assert_eq!(rows_of(&Matrix::from_cs(&p)), vec![vec![0, 3], vec![8, 0]]);
    assert_eq!(p.nvalues(), 2);
}

#[test]
fn scenario_transpose_of_anti_diagonal() {
    let t = anti().transpose();
    assert_eq!(rows_of(&Matrix::from_cs(&t)), vec![vec![0, 4], vec![3, 0]]);
    assert_eq!(t.data.p, vec![0, 1]);
    assert_eq!(t.data.i, vec![1, 0]);
    assert_eq!(t.data.vals, vec![3, 4]);
}

#[test]
fn sum_of_mismatched_shapes_is_refused() {
    let a = CsMatrix::from_dense(&dense(2, 2, &[&[1, 0], &[0, 1]]));
    let b = CsMatrix::from_dense(&dense(3, 3, &[&[1, 0, 0], &[0, 1, 0], &[0, 0, 1]]));
    assert!(matches!(a.add(&b), Err(CsError::ShapeMismatch)));
}

#[test]
fn product_of_mismatched_dimensions_is_refused() {
    let a = CsMatrix::from_dense(&dense(2, 3, &[&[1, 0, 2], &[0, 1, 0]]));
    let b = CsMatrix::from_dense(&dense(2, 2, &[&[1, 0], &[0, 1]]));
    assert!(matches!(a.mul(&b), Err(CsError::DimensionMismatch)));
}

#[test]
fn dense_round_trip() {
    let m = dense(3, 4, &[&[0, 5, 0, 7], &[1, 0, 0, 0], &[0, 9, u64::MAX, 0]]);
    let s = CsMatrix::from_dense(&m);
    assert_eq!(s.nvalues(), 5);
    assert_eq!(s.data.p, vec![0, 1, 3, 4]);
    assert_eq!(s.data.i, vec![1, 0, 2, 2, 0]);
    assert_eq!(s.data.vals, vec![1, 5, 9, u64::MAX, 7]);
    assert_eq!(rows_of(&Matrix::from_cs(&s)), rows_of(&m));
}

#[test]
fn empty_and_all_zero_matrices() {
    let z = CsMatrix::from_dense(&dense(2, 3, &[&[0, 0, 0], &[0, 0, 0]]));
    assert_eq!(z.nvalues(), 0);
    assert_eq!(rows_of(&Matrix::from_cs(&z)), vec![vec![0, 0, 0], vec![0, 0, 0]]);
    let e = CsMatrix::from_dense(&dense(0, 0, &[]));
    assert_eq!(e.nvalues(), 0);
    assert_eq!(e.transpose().nvalues(), 0);
}

#[test]
fn transpose_twice_gives_back_the_entries() {
    let m = dense(3, 2, &[&[1, 0], &[2, 3], &[0, 4]]);
    let a = CsMatrix::from_dense(&m);
    let t = a.transpose();
    assert_eq!(t.data.shape(), (2, 3));
    assert_eq!(rows_of(&Matrix::from_cs(&t)), vec![vec![1, 2, 0], vec![0, 3, 4]]);
    let tt = t.transpose();
    assert_eq!(tt.data.p, a.data.p);
    assert_eq!(tt.data.i, a.data.i);
    assert_eq!(tt.data.vals, a.data.vals);
}

#[test]
fn adding_zero_matrix_keeps_entries() {
    let m = dense(2, 3, &[&[0, 6, 1], &[2, 0, 5]]);
    let a = CsMatrix::from_dense(&m);
    let z = CsMatrix::from_dense(&dense(2, 3, &[&[0, 0, 0], &[0, 0, 0]]));
    let s = a.add(&z).unwrap();
    assert_eq!(rows_of(&Matrix::from_cs(&s)), rows_of(&m));
    assert_eq!(s.nvalues(), a.nvalues());
    let s2 = z.add(&a).unwrap();
    assert_eq!(rows_of(&Matrix::from_cs(&s2)), rows_of(&m));
}

#[test]
fn sum_matches_dense_sum_and_commutes() {
    let ma = dense(3, 3, &[&[1, 0, 2], &[0, 0, 3], &[4, 5, 0]]);
    let mb = dense(3, 3, &[&[0, 7, 2], &[1, 0, 0], &[4, 0, 9]]);
    let a = CsMatrix::from_dense(&ma);
    let b = CsMatrix::from_dense(&mb);
    let ab = a.add(&b).unwrap();
    let ba = b.add(&a).unwrap();
    assert_eq!(rows_of(&Matrix::from_cs(&ab)), dense_add(&ma, &mb));
    assert_eq!(rows_of(&Matrix::from_cs(&ba)), dense_add(&ma, &mb));
    assert_eq!(ab.nvalues(), count_nonzero(&dense_add(&ma, &mb)));
}

#[test]
fn sum_rows_ascend_within_a_column() {
    let a = CsMatrix::from_dense(&dense(3, 1, &[&[0], &[0], &[5]]));
    let b = CsMatrix::from_dense(&dense(3, 1, &[&[1], &[0], &[2]]));
    let s = a.add(&b).unwrap();
    assert_eq!(s.data.i, vec![0, 2]);
    assert_eq!(s.data.vals, vec![1, 7]);
}

#[test]
fn product_rows_ascend_within_a_column() {
    let a = CsMatrix::from_dense(&dense(2, 2, &[&[0, 1], &[1, 0]]));
    let b = CsMatrix::from_dense(&dense(2, 1, &[&[1], &[1]]));
    let p = a.mul(&b).unwrap();
    assert_eq!(p.data.i, vec![0, 1]);
    assert_eq!(p.data.vals, vec![1, 1]);
}

#[test]
fn sum_with_zero_keeps_the_arrays() {
    let a = CsMatrix::from_dense(&dense(3, 2, &[&[0, 4], &[7, 0], &[2, 9]]));
    let z = CsMatrix::from_dense(&dense(3, 2, &[&[0, 0], &[0, 0], &[0, 0]]));
    for s in [a.add(&z).unwrap(), z.add(&a).unwrap()] {
        assert_eq!(s.data.p, a.data.p);
        assert_eq!(s.data.i, a.data.i);
        assert_eq!(s.data.vals, a.data.vals);
    }
}

#[test]
fn sum_that_cancels_stores_an_explicit_zero() {
    let a = CsMatrix::from_dense(&dense(1, 1, &[&[u64::MAX]]));
    let b = CsMatrix::from_dense(&dense(1, 1, &[&[1]]));
    let s = a.add(&b).unwrap();
    assert_eq!(s.nvalues(), 1);
    assert_eq!(s.data.vals, vec![0]);
    assert_eq!(rows_of(&Matrix::from_cs(&s)), vec![vec![0]]);
}

#[test]
fn product_matches_dense_product() {
    let ma = dense(3, 4, &[&[1, 0, 2, 0], &[0, 3, 0, 4], &[5, 0, 0, 6]]);
    let mb = dense(4, 2, &[&[7, 0], &[0, 8], &[9, 1], &[0, 2]]);
    let a = CsMatrix::from_dense(&ma);
    let b = CsMatrix::from_dense(&mb);
    let p = a.mul(&b).unwrap();
    assert_eq!(p.data.shape(), (3, 2));
    assert_eq!(rows_of(&Matrix::from_cs(&p)), dense_mul(&ma, &mb));
    assert_eq!(p.nvalues(), count_nonzero(&dense_mul(&ma, &mb)));
}

#[test]
fn product_with_zero_and_identity_operands() {
    let ma = dense(2, 2, &[&[3, 4], &[5, 6]]);
    let id = dense(2, 2, &[&[1, 0], &[0, 1]]);
    let zero = dense(2, 2, &[&[0, 0], &[0, 0]]);
    let a = CsMatrix::from_dense(&ma);
    let p = a.mul(&CsMatrix::from_dense(&id)).unwrap();
    assert_eq!(rows_of(&Matrix::from_cs(&p)), rows_of(&ma));
    let q = CsMatrix::from_dense(&id).mul(&a).unwrap();
    assert_eq!(rows_of(&Matrix::from_cs(&q)), rows_of(&ma));
    let z = a.mul(&CsMatrix::from_dense(&zero)).unwrap();
    assert_eq!(z.nvalues(), 0);
    assert_eq!(rows_of(&Matrix::from_cs(&z)), rows_of(&zero));
}

#[test]
fn product_with_overlapping_and_disjoint_patterns() {
    // Every column of the left factor stores row 0: contributions accumulate.
    let ma = dense(2, 3, &[&[1, 2, 3], &[0, 1, 0]]);
    let mb = dense(3, 2, &[&[1, 0], &[1, 0], &[1, 5]]);
    let p = CsMatrix::from_dense(&ma).mul(&CsMatrix::from_dense(&mb)).unwrap();
    assert_eq!(rows_of(&Matrix::from_cs(&p)), vec![vec![6, 15], vec![1, 0]]);
    // Disjoint rows per column.
    let mc = dense(3, 3, &[&[1, 0, 0], &[0, 2, 0], &[0, 0, 3]]);
    let md = dense(3, 1, &[&[1], &[1], &[1]]);
    let q = CsMatrix::from_dense(&mc).mul(&CsMatrix::from_dense(&md)).unwrap();
    assert_eq!(q.data.i, vec![0, 1, 2]);
    assert_eq!(q.data.vals, vec![1, 2, 3]);
}

#[test]
fn product_wraps_around() {
    let a = CsMatrix::from_dense(&dense(1, 1, &[&[1u64 << 63]]));
    let b = CsMatrix::from_dense(&dense(1, 1, &[&[2]]));
    let p = a.mul(&b).unwrap();
    assert_eq!(p.data.vals, vec![0]);
}

#[test]
fn uninitialized_allocation_is_zeroed() {
    let m = CsMatrix::new_uninitialized_generic(3, 2, 4);
    assert_eq!(m.nvalues(), 4);
    assert_eq!(m.data.shape(), (3, 2));
    assert_eq!(m.data.p, vec![0, 0]);
    assert_eq!(m.data.i, vec![0, 0, 0, 0]);
    assert_eq!(m.data.vals, vec![0, 0, 0, 0]);
}

#[test]
fn storage_queries() {
    let s = CsMatrix::from_dense(&dense(3, 2, &[&[1, 0], &[0, 2], &[3, 4]]));
    assert_eq!(s.data.column_range(0), 0..2);
    assert_eq!(s.data.column_range(1), 2..4);
    assert_eq!(s.data.row_index(1), 2);
    assert_eq!(s.data.row_index_unchecked(2), 1);
    assert_eq!(*s.data.get_value(3), 4);
    assert_eq!(*s.data.get_value_unchecked(0), 1);
    assert_eq!(s.data.nvalues(), 4);
}

#[test]
fn axpy_with_nonzero_beta_scales_every_row() {
    let x = CsMatrix::from_dense(&dense(3, 1, &[&[2], &[0], &[5]]));
    let mut y = Vector { data: vec![1, 10, 100] };
    y.axpy_cs(3, &x, 2);
    assert_eq!(y.data, vec![8, 20, 215]);
}

#[test]
fn axpy_with_zero_beta_leaves_absent_rows() {
    let x = CsMatrix::from_dense(&dense(3, 1, &[&[2], &[0], &[5]]));
    let mut y = Vector { data: vec![1, 10, 100] };
    y.axpy_cs(3, &x, 0);
    assert_eq!(y.data, vec![6, 10, 15]);
}
