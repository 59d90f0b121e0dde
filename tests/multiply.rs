use matmul_pool::{multiply, Matrix, MatrixError};

#[test]
fn test_multiply() {
    let a = Matrix::new(vec![2, 0, 1, 3, 0, 0, 5, 1, 1], 3, 3);
    let b = Matrix::new(vec![1, 0, 1, 1, 2, 1, 1, 1, 0], 3, 3);
    let expected = Matrix::new(vec![3, 1, 2, 3, 0, 3, 7, 3, 6], 3, 3);
    assert_eq!(multiply(&a, &b).unwrap(), expected);
    assert_eq!(a.mul(b), expected);
    println!("{}", expected.display());
}

#[test]
fn multiply_descending_square() {
    let a = Matrix::new(vec![1, 2, 3, 4, 5, 6, 7, 8, 9], 3, 3);
    let b = Matrix::new(vec![9, 8, 7, 6, 5, 4, 3, 2, 1], 3, 3);
    let expected = Matrix::new(vec![30, 24, 18, 84, 69, 54, 138, 114, 90], 3, 3);
    assert_eq!(multiply(&a, &b).unwrap(), expected);
}

#[test]
fn multiply_rectangular() {
    // (2x3) * (3x2)
    let a = Matrix::new(vec![1i64, 2, 3, 4, 5, 6], 2, 3);
    let b = Matrix::new(vec![7i64, 8, 9, 10, 11, 12], 3, 2);
    let c = multiply(&a, &b).unwrap();
    assert_eq!(c, Matrix::new(vec![58i64, 64, 139, 154], 2, 2));
    assert_eq!(c.row(), 2);
    assert_eq!(c.col(), 2);
    assert_eq!(c.get(1, 0), 139);
}

#[test]
fn multiply_more_cells_than_workers() {
    // a 1x1 inner dimension with a 3x5 result: 15 cells over 4 workers
    let a = Matrix::new(vec![1u64, 2, 3], 3, 1);
    let b = Matrix::new(vec![1u64, 10, 100, 1000, 10000], 1, 5);
    let c = multiply(&a, &b).unwrap();
    let mut want = Vec::new();
    for i in 1..=3u64 {
        for j in [1u64, 10, 100, 1000, 10000] {
            want.push(i * j);
        }
    }
    assert_eq!(c, Matrix::new(want, 3, 5));
}

#[test]
fn multiply_shape_mismatch() {
    let a = Matrix::new(vec![1, 2, 3, 4, 5, 6], 2, 3);
    let b = Matrix::new(vec![1, 2, 3, 4], 2, 2);
    assert_eq!(multiply(&a, &b), Err(MatrixError::ShapeMismatch));
}

#[test]
fn multiply_empty_inner_dimension() {
    // (2x0) * (0x2) is the 2x2 zero matrix
    let a: Matrix<i32> = Matrix::new(vec![], 2, 0);
    let b: Matrix<i32> = Matrix::new(vec![], 0, 2);
    assert_eq!(multiply(&a, &b).unwrap(), Matrix::new(vec![0, 0, 0, 0], 2, 2));
}

#[test]
fn multiply_empty_result() {
    let a: Matrix<i32> = Matrix::new(vec![], 0, 3);
    let b: Matrix<i32> = Matrix::new(vec![1, 2, 3], 3, 1);
    assert_eq!(multiply(&a, &b).unwrap(), Matrix::new(vec![], 0, 1));
}

#[test]
fn multiply_wraps_on_overflow() {
    let a = Matrix::new(vec![i32::MAX], 1, 1);
    let b = Matrix::new(vec![2], 1, 1);
    assert_eq!(multiply(&a, &b).unwrap(), Matrix::new(vec![-2], 1, 1));
}

#[test]
fn multiply_matches_triple_loop() {
    let (r, k, c) = (4usize, 3usize, 5usize);
    let ad: Vec<i64> = (0..(r * k) as i64).map(|x| x * 7 - 11).collect();
    let bd: Vec<i64> = (0..(k * c) as i64).map(|x| 5 - x * 3).collect();
    let a = Matrix::new(ad.clone(), r, k);
    let b = Matrix::new(bd.clone(), k, c);
    let mut want = vec![0i64; r * c];
    for i in 0..r {
        for j in 0..c {
            for t in 0..k {
                want[i * c + j] += ad[i * k + t] * bd[t * c + j];
            }
        }
    }
    assert_eq!(multiply(&a, &b).unwrap(), Matrix::new(want, r, c));
}

#[test]
fn display_rows_and_separators() {
    let m = Matrix::new(vec![3, 1, 2, 3, 0, 3, 7, 3, 6], 3, 3);
    assert_eq!(m.display(), "3, 1, 2\n3, 0, 3\n7, 3, 6");
    let n = Matrix::new(vec![-12i64, 40], 2, 1);
    assert_eq!(n.display(), "-12\n40");
    let e: Matrix<u32> = Matrix::new(vec![], 0, 0);
    assert_eq!(e.display(), "");
}

#[test]
fn display_unsigned_cells() {
    let m = Matrix::new(vec![7u32, 1000, 0, 42], 2, 2);
    assert_eq!(m.display(), "7, 1000\n0, 42");
    let n = Matrix::new(vec![u64::MAX, 5], 1, 2);
    assert_eq!(n.display(), "18446744073709551615, 5");
}

#[test]
fn multiply_shape_mismatch_with_huge_output() {
    // the product would have 2^70 cells, but the shapes do not fit anyway
    let a = Matrix::new(vec![1u32; 1 << 20], 1 << 20, 1);
    let b: Matrix<u32> = Matrix::new(vec![], 0, 1 << 50);
    assert_eq!(multiply(&a, &b), Err(MatrixError::ShapeMismatch));
}
