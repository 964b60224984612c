use std::time::Instant;
use tensor::errors::{Dims, MatrixError};
use tensor::matrix::Matrix;

#[test]
fn test_matrix_creation() {
    let mat = Matrix::new(2, 3).unwrap();
    assert_eq!(mat.dimensions(), (2, 3));
    assert!(mat.is_concurrent());

    let mat_seq = Matrix::new_sequential(2, 3).unwrap();
    assert!(!mat_seq.is_concurrent());
}

#[test]
fn test_invalid_dimensions() {
    assert!(Matrix::new(0, 3).is_err());
    assert!(Matrix::new(3, 0).is_err());
    assert!(Matrix::new(0, 0).is_err());
}

#[test]
fn test_matrix_indexing() {
    let mut mat = Matrix::new(2, 3).unwrap();

    mat.set(0, 0, 1).unwrap();
    mat.set(0, 1, 2).unwrap();
    mat.set(1, 2, 3).unwrap();

    assert_eq!(mat.get(0, 0).unwrap(), 1);
    assert_eq!(mat.get(0, 1).unwrap(), 2);
    assert_eq!(mat.get(1, 2).unwrap(), 3);
    assert_eq!(mat.get(1, 0).unwrap(), 0);
}

#[test]
fn test_safe_indexing() {
    let mut mat = Matrix::new(2, 2).unwrap();

    // Test safe get
    assert!(mat.get(0, 0).is_ok());
    assert!(mat.get(2, 0).is_err());
    assert!(mat.get(0, 2).is_err());

    // Test safe set
    assert!(mat.set(0, 0, 42).is_ok());
    assert_eq!(mat.get(0, 0).unwrap(), 42);
    assert!(mat.set(2, 0, 42).is_err());
    assert!(mat.set(0, 2, 42).is_err());
}

#[test]
fn test_from_vec() {
    let data = vec![1, 2, 3, 4, 5, 6];
    let mat = Matrix::from_vec(2, 3, data).unwrap();

    assert_eq!(mat.get(0, 0).unwrap(), 1);
    assert_eq!(mat.get(0, 1).unwrap(), 2);
    assert_eq!(mat.get(0, 2).unwrap(), 3);
    assert_eq!(mat.get(1, 0).unwrap(), 4);
    assert_eq!(mat.get(1, 1).unwrap(), 5);
    assert_eq!(mat.get(1, 2).unwrap(), 6);
}

#[test]
fn test_from_vec_invalid_size() {
    let data = vec![1, 2, 3, 4, 5];
    assert!(Matrix::from_vec(2, 3, data).is_err());
}

#[test]
fn test_identity_matrix() {
    let mat = Matrix::identity(3).unwrap();

    assert_eq!(mat.get(0, 0).unwrap(), 1);
    assert_eq!(mat.get(1, 1).unwrap(), 1);
    assert_eq!(mat.get(2, 2).unwrap(), 1);
    assert_eq!(mat.get(0, 1).unwrap(), 0);
    assert_eq!(mat.get(1, 0).unwrap(), 0);
}

#[test]
fn test_zeros_and_ones() {
    let zeros = Matrix::zeros(2, 2).unwrap();
    assert_eq!(zeros.get(0, 0).unwrap(), 0);
    assert_eq!(zeros.get(1, 1).unwrap(), 0);

    let ones = Matrix::ones(2, 2).unwrap();
    assert_eq!(ones.get(0, 0).unwrap(), 1);
    assert_eq!(ones.get(1, 1).unwrap(), 1);
}

#[test]
fn test_row_and_col_access() {
    let mut mat = Matrix::new(3, 3).unwrap();

    // Fill with row*10 + col values
    for r in 0..3 {
        for c in 0..3 {
            mat.set(r, c, (r * 10 + c) as i64).unwrap();
        }
    }

    // Test row access
    assert_eq!(mat.row(0).unwrap(), vec![0, 1, 2]);
    assert_eq!(mat.row(1).unwrap(), vec![10, 11, 12]);
    assert_eq!(mat.row(2).unwrap(), vec![20, 21, 22]);
    assert!(mat.row(3).is_err());

    // Test column access
    assert_eq!(mat.col(0).unwrap(), vec![0, 10, 20]);
    assert_eq!(mat.col(1).unwrap(), vec![1, 11, 21]);
    assert_eq!(mat.col(2).unwrap(), vec![2, 12, 22]);
    assert!(mat.col(3).is_err());
}

#[test]
fn test_all_rows_9x9_explicit() {
    let rows = 9;
    let cols = 9;
    let mut mat = Matrix::new(rows, cols).unwrap();

    // Fill with row*10 + col values
    for r in 0..rows {
        for c in 0..cols {
            mat.set(r, c, (r * 10 + c) as i64).unwrap();
        }
    }

    assert_eq!(mat.row(0).unwrap(), vec![0, 1, 2, 3, 4, 5, 6, 7, 8]);
    assert_eq!(mat.row(1).unwrap(), vec![10, 11, 12, 13, 14, 15, 16, 17, 18]);
    assert_eq!(mat.row(2).unwrap(), vec![20, 21, 22, 23, 24, 25, 26, 27, 28]);
    assert_eq!(mat.row(3).unwrap(), vec![30, 31, 32, 33, 34, 35, 36, 37, 38]);
    assert_eq!(mat.row(4).unwrap(), vec![40, 41, 42, 43, 44, 45, 46, 47, 48]);
    assert_eq!(mat.row(5).unwrap(), vec![50, 51, 52, 53, 54, 55, 56, 57, 58]);
    assert_eq!(mat.row(6).unwrap(), vec![60, 61, 62, 63, 64, 65, 66, 67, 68]);
    assert_eq!(mat.row(7).unwrap(), vec![70, 71, 72, 73, 74, 75, 76, 77, 78]);
    assert_eq!(mat.row(8).unwrap(), vec![80, 81, 82, 83, 84, 85, 86, 87, 88]);
}

#[test]
fn test_all_cols_9x9_explicit() {
    let rows = 9;
    let cols = 9;
    let mut mat = Matrix::new(rows, cols).unwrap();

    // Fill with row*10 + col values
    for r in 0..rows {
        for c in 0..cols {
            mat.set(r, c, (r * 10 + c) as i64).unwrap();
        }
    }

    assert_eq!(mat.col(0).unwrap(), vec![0, 10, 20, 30, 40, 50, 60, 70, 80]);
    assert_eq!(mat.col(1).unwrap(), vec![1, 11, 21, 31, 41, 51, 61, 71, 81]);
    assert_eq!(mat.col(2).unwrap(), vec![2, 12, 22, 32, 42, 52, 62, 72, 82]);
    assert_eq!(mat.col(3).unwrap(), vec![3, 13, 23, 33, 43, 53, 63, 73, 83]);
    assert_eq!(mat.col(4).unwrap(), vec![4, 14, 24, 34, 44, 54, 64, 74, 84]);
    assert_eq!(mat.col(5).unwrap(), vec![5, 15, 25, 35, 45, 55, 65, 75, 85]);
    assert_eq!(mat.col(6).unwrap(), vec![6, 16, 26, 36, 46, 56, 66, 76, 86]);
    assert_eq!(mat.col(7).unwrap(), vec![7, 17, 27, 37, 47, 57, 67, 77, 87]);
    assert_eq!(mat.col(8).unwrap(), vec![8, 18, 28, 38, 48, 58, 68, 78, 88]);
}

#[test]
fn test_matrix_addition() {
    let mat1 = Matrix::from_vec(2, 2, vec![1, 2, 3, 4]).unwrap();
    let mat2 = Matrix::from_vec(2, 2, vec![5, 6, 7, 8]).unwrap();

    let result = mat1.add(&mat2).unwrap();
    assert_eq!(result.get(0, 0).unwrap(), 6);
    assert_eq!(result.get(0, 1).unwrap(), 8);
    assert_eq!(result.get(1, 0).unwrap(), 10);
    assert_eq!(result.get(1, 1).unwrap(), 12);
}

#[test]
fn test_matrix_addition_dimension_mismatch() {
    let mat1 = Matrix::from_vec(2, 2, vec![1, 2, 3, 4]).unwrap();
    let mat2 = Matrix::from_vec(2, 3, vec![1, 2, 3, 4, 5, 6]).unwrap();

    let result = mat1.add(&mat2);
    assert!(result.is_err());
    if let Err(MatrixError::IncompatibleDimensions { op, dim1, dim2 }) = result {
        assert_eq!(op, "addition");
        assert_eq!(dim1, Dims { rows: 2, cols: 2 });
        assert_eq!(dim2, Dims { rows: 2, cols: 3 });
    }
}

#[test]
fn test_matrix_subtraction() {
    let mat1 = Matrix::from_vec(2, 2, vec![5, 6, 7, 8]).unwrap();
    let mat2 = Matrix::from_vec(2, 2, vec![1, 2, 3, 4]).unwrap();

    let result = mat1.sub(&mat2).unwrap();
    assert_eq!(result.get(0, 0).unwrap(), 4);
    assert_eq!(result.get(0, 1).unwrap(), 4);
    assert_eq!(result.get(1, 0).unwrap(), 4);
    assert_eq!(result.get(1, 1).unwrap(), 4);
}

#[test]
fn test_matrix_multiplication() {
    let mat1 = Matrix::from_vec(2, 3, vec![1, 2, 3, 4, 5, 6]).unwrap();
    let mat2 = Matrix::from_vec(3, 2, vec![7, 8, 9, 10, 11, 12]).unwrap();

    let result = mat1.matrix_multiply(&mat2).unwrap();
    assert_eq!(result.dimensions(), (2, 2));
    assert_eq!(result.get(0, 0).unwrap(), 58); // 1*7 + 2*9 + 3*11
    assert_eq!(result.get(0, 1).unwrap(), 64); // 1*8 + 2*10 + 3*12
    assert_eq!(result.get(1, 0).unwrap(), 139); // 4*7 + 5*9 + 6*11
    assert_eq!(result.get(1, 1).unwrap(), 154); // 4*8 + 5*10 + 6*12
}

#[test]
fn test_matrix_multiplication_dimension_mismatch() {
    let mat1 = Matrix::from_vec(2, 3, vec![1, 2, 3, 4, 5, 6]).unwrap();
    let mat2 = Matrix::from_vec(2, 2, vec![1, 2, 3, 4]).unwrap();

    let result = mat1.matrix_multiply(&mat2);
    assert!(result.is_err());
}

#[test]
fn test_scalar_multiplication() {
    let mat = Matrix::from_vec(2, 2, vec![1, 2, 3, 4]).unwrap();
    let result = mat.scalar_mul(3).unwrap();

    assert_eq!(result.get(0, 0).unwrap(), 3);
    assert_eq!(result.get(0, 1).unwrap(), 6);
    assert_eq!(result.get(1, 0).unwrap(), 9);
    assert_eq!(result.get(1, 1).unwrap(), 12);
}

#[test]
fn test_scalar_division() {
    let mat = Matrix::from_vec(2, 2, vec![6, 8, 10, 12]).unwrap();
    let result = mat.scalar_div(2).unwrap();

    assert_eq!(result.get(0, 0).unwrap(), 3);
    assert_eq!(result.get(0, 1).unwrap(), 4);
    assert_eq!(result.get(1, 0).unwrap(), 5);
    assert_eq!(result.get(1, 1).unwrap(), 6);
}

#[test]
fn test_scalar_division_by_zero() {
    let mat = Matrix::from_vec(2, 2, vec![1, 2, 3, 4]).unwrap();
    let result = mat.scalar_div(0);
    assert!(matches!(result, Err(MatrixError::DivisionByZero)));
}

#[test]
fn test_matrix_negation() {
    let mat = Matrix::from_vec(2, 2, vec![1, -2, 3, -4]).unwrap();
    let result = mat.neg().unwrap();

    assert_eq!(result.get(0, 0).unwrap(), -1);
    assert_eq!(result.get(0, 1).unwrap(), 2);
    assert_eq!(result.get(1, 0).unwrap(), -3);
    assert_eq!(result.get(1, 1).unwrap(), 4);
}

#[test]
fn test_dot_product() {
    let mat1 = Matrix::from_vec(2, 2, vec![1, 2, 3, 4]).unwrap();
    let mat2 = Matrix::from_vec(2, 2, vec![5, 6, 7, 8]).unwrap();

    let result = mat1.dot_product(&mat2).unwrap();
    assert_eq!(result.get(0, 0).unwrap(), 5); // 1*5
    assert_eq!(result.get(0, 1).unwrap(), 12); // 2*6
    assert_eq!(result.get(1, 0).unwrap(), 21); // 3*7
    assert_eq!(result.get(1, 1).unwrap(), 32); // 4*8
}

#[test]
fn test_transpose() {
    let mat = Matrix::from_vec(2, 3, vec![1, 2, 3, 4, 5, 6]).unwrap();
    let transposed = mat.transpose().unwrap();

    assert_eq!(transposed.dimensions(), (3, 2));
    assert_eq!(transposed.get(0, 0).unwrap(), 1);
    assert_eq!(transposed.get(0, 1).unwrap(), 4);
    assert_eq!(transposed.get(1, 0).unwrap(), 2);
    assert_eq!(transposed.get(1, 1).unwrap(), 5);
    assert_eq!(transposed.get(2, 0).unwrap(), 3);
    assert_eq!(transposed.get(2, 1).unwrap(), 6);
}

#[test]
fn test_trace() {
    let mat = Matrix::from_vec(3, 3, vec![1, 2, 3, 4, 5, 6, 7, 8, 9]).unwrap();
    let trace = mat.trace().unwrap();
    assert_eq!(trace, 15); // 1 + 5 + 9
}

#[test]
fn test_trace_non_square() {
    let mat = Matrix::from_vec(2, 3, vec![1, 2, 3, 4, 5, 6]).unwrap();
    let result = mat.trace();
    assert!(matches!(result, Err(MatrixError::NotSquareMatrix { .. })));
}

#[test]
fn test_determinant_2x2() {
    let mat = Matrix::from_vec(2, 2, vec![1, 2, 3, 4]).unwrap();
    let det = mat.determinant().unwrap();
    assert_eq!(det, -2); // 1*4 - 2*3 = -2
}

#[test]
fn test_determinant_3x3() {
    let mat = Matrix::from_vec(3, 3, vec![1, 2, 3, 4, 5, 6, 7, 8, 9]).unwrap();
    let det = mat.determinant().unwrap();
    // This matrix is singular; over exact integer arithmetic the
    // determinant is exactly zero.
    assert_eq!(det, 0);
}

#[test]
fn test_determinant_non_square() {
    let mat = Matrix::from_vec(2, 3, vec![1, 2, 3, 4, 5, 6]).unwrap();
    let result = mat.determinant();
    assert!(matches!(result, Err(MatrixError::NotSquareMatrix { .. })));
}

#[test]
fn test_cofactor_matrix() {
    let mat = Matrix::from_vec(2, 2, vec![1, 2, 3, 4]).unwrap();
    let cofactor = mat.cofactor_matrix().unwrap();

    assert_eq!(cofactor.get(0, 0).unwrap(), 4);
    assert_eq!(cofactor.get(0, 1).unwrap(), -3);
    assert_eq!(cofactor.get(1, 0).unwrap(), -2);
    assert_eq!(cofactor.get(1, 1).unwrap(), 1);
}

#[test]
fn test_concurrent_vs_sequential() {
    let data = (0..100).collect::<Vec<i64>>();
    let mut mat_concurrent = Matrix::from_vec(10, 10, data.clone()).unwrap();
    let mut mat_sequential = Matrix::from_vec_sequential(10, 10, data).unwrap();

    assert!(mat_concurrent.is_concurrent());
    assert!(!mat_sequential.is_concurrent());

    // Test that operations work with both modes
    let scalar = 2;
    let result_concurrent = mat_concurrent.clone().scalar_mul(scalar).unwrap();
    let result_sequential = mat_sequential.clone().scalar_mul(scalar).unwrap();

    // Results should be the same
    for i in 0..10 {
        for j in 0..10 {
            assert_eq!(
                result_concurrent.get(i, j).unwrap(),
                result_sequential.get(i, j).unwrap()
            );
        }
    }

    // Test changing concurrency mode
    mat_concurrent.set_concurrent(false);
    mat_sequential.set_concurrent(true);
    assert!(!mat_concurrent.is_concurrent());
    assert!(mat_sequential.is_concurrent());
}

#[test]
fn test_matrix_properties() {
    let square_mat = Matrix::new(3, 3).unwrap();
    let rect_mat = Matrix::new(2, 3).unwrap();

    assert!(square_mat.is_square());
    assert!(!rect_mat.is_square());
    assert!(!square_mat.is_empty());
    assert!(!rect_mat.is_empty());

    assert_eq!(square_mat.rows(), 3);
    assert_eq!(square_mat.cols(), 3);
    assert_eq!(rect_mat.rows(), 2);
    assert_eq!(rect_mat.cols(), 3);
}

#[test]
fn test_error_display() {
    let error = MatrixError::IndexOutOfBounds {
        row: 5,
        col: 3,
        max_row: 3,
        max_col: 3,
    };
    let error_str = error.message();
    assert!(error_str.contains("Index (5, 3) out of bounds"));

    let error2 = MatrixError::IncompatibleDimensions {
        op: "test".to_string(),
        dim1: Dims { rows: 2, cols: 3 },
        dim2: Dims { rows: 3, cols: 2 },
    };
    let error2_str = error2.message();
    assert!(error2_str.contains("Incompatible dimensions for test"));
}

#[test]
fn test_complex_operations() {
    // Test chained operations
    let mat1 = Matrix::from_vec(2, 2, vec![1, 2, 3, 4]).unwrap();
    let mat2 = Matrix::from_vec(2, 2, vec![5, 6, 7, 8]).unwrap();
    let mat3 = Matrix::from_vec(2, 2, vec![1, 1, 1, 1]).unwrap();

    // (mat1 + mat2) * mat3
    // mat1 + mat2 = [[6, 8], [10, 12]]
    // [[6, 8], [10, 12]] * [[1, 1], [1, 1]]
    // Result: [[6*1 + 8*1, 6*1 + 8*1], [10*1 + 12*1, 10*1 + 12*1]]
    //       = [[14, 14], [22, 22]]
    let sum = mat1.add(&mat2).unwrap();
    let result = sum.matrix_multiply(&mat3).unwrap();

    assert_eq!(result.get(0, 0).unwrap(), 14); // 6*1 + 8*1 = 14
    assert_eq!(result.get(0, 1).unwrap(), 14); // 6*1 + 8*1 = 14
    assert_eq!(result.get(1, 0).unwrap(), 22); // 10*1 + 12*1 = 22
    assert_eq!(result.get(1, 1).unwrap(), 22); // 10*1 + 12*1 = 22
}

#[test]
fn test_performance_comparison() {
    let size: usize = 50;
    let data: Vec<i64> = (0..(size * size) as i64).collect();

    let mat_concurrent = Matrix::from_vec(size, size, data.clone()).unwrap();
    let mat_sequential = Matrix::from_vec_sequential(size, size, data).unwrap();

    // Test transpose performance
    let start = Instant::now();
    let _trans_concurrent = mat_concurrent.transpose().unwrap();
    let concurrent_time = start.elapsed();

    let start = Instant::now();
    let _trans_sequential = mat_sequential.transpose().unwrap();
    let sequential_time = start.elapsed();

    println!("Concurrent transpose: {:?}", concurrent_time);
    println!("Sequential transpose: {:?}", sequential_time);

    // Both should produce the same result
    let trans_concurrent = mat_concurrent.transpose().unwrap();
    let trans_sequential = mat_sequential.transpose().unwrap();

    for i in 0..size {
        for j in 0..size {
            assert_eq!(
                trans_concurrent.get(i, j).unwrap(),
                trans_sequential.get(i, j).unwrap()
            );
        }
    }
}

#[test]
fn test_edge_cases() {
    // Test 1x1 matrix
    let mat = Matrix::from_vec(1, 1, vec![42]).unwrap();
    assert_eq!(mat.determinant().unwrap(), 42);
    assert_eq!(mat.trace().unwrap(), 42);

    // Test identity operations
    let identity = Matrix::identity(3).unwrap();
    let mat = Matrix::from_vec(3, 3, vec![1, 2, 3, 4, 5, 6, 7, 8, 9]).unwrap();
    let result = mat.matrix_multiply(&identity).unwrap();

    // Matrix * Identity should equal original matrix
    for i in 0..3 {
        for j in 0..3 {
            assert_eq!(result.get(i, j).unwrap(), mat.get(i, j).unwrap());
        }
    }
}

#[test]
fn test_all_error_types() {
    // Test various error conditions
    assert!(matches!(
        Matrix::new(0, 5),
        Err(MatrixError::InvalidDimensions)
    ));

    let mat = Matrix::new(2, 2).unwrap();
    assert!(matches!(mat.row(5), Err(MatrixError::InvalidRowDimension)));

    assert!(matches!(
        mat.col(5),
        Err(MatrixError::InvalidColumnDimension)
    ));

    assert!(matches!(
        mat.get(5, 0),
        Err(MatrixError::IndexOutOfBounds { .. })
    ));

    let non_square = Matrix::new(2, 3).unwrap();
    assert!(matches!(
        non_square.determinant(),
        Err(MatrixError::NotSquareMatrix { .. })
    ));
}
