use tensor::activations::{Linear, ReLU};
use tensor::errors::{MatrixError, NeuralNetworkError, TensorError};
use tensor::matrix::Matrix;
use tensor::partition::{task_end, task_start};
use tensor::ExecutionMode;

#[test]
fn test_partition_ranges_cover_and_absorb_remainder() {
    // 10 items over 3 tasks: blocks of 3, the last absorbing the remainder.
    let n = 10usize;
    let t = 3usize;
    assert_eq!((task_start(n, t, 0), task_end(n, t, 0)), (0, 3));
    assert_eq!((task_start(n, t, 1), task_end(n, t, 1)), (3, 6));
    assert_eq!((task_start(n, t, 2), task_end(n, t, 2)), (6, 10));

    // Contiguity and coverage for a few shapes, including more tasks than
    // items.
    for &(n, t) in &[(1usize, 1usize), (5, 2), (7, 7), (3, 8), (100, 6)] {
        assert_eq!(task_start(n, t, 0), 0);
        assert_eq!(task_end(n, t, t - 1), n);
        for i in 0..t - 1 {
            assert_eq!(task_end(n, t, i), task_start(n, t, i + 1));
        }
    }
}

#[test]
fn test_determinant_sign_under_row_swap() {
    // Swapping two rows negates the determinant.
    let a = Matrix::from_vec(2, 2, vec![1, 2, 3, 4]).unwrap();
    let swapped = Matrix::from_vec(2, 2, vec![3, 4, 1, 2]).unwrap();
    assert_eq!(a.determinant().unwrap(), -2);
    assert_eq!(swapped.determinant().unwrap(), 2);

    let b = Matrix::from_vec(3, 3, vec![2, 0, 1, 1, 3, 2, 0, 1, 4]).unwrap();
    let b_swapped = Matrix::from_vec(3, 3, vec![0, 1, 4, 1, 3, 2, 2, 0, 1]).unwrap();
    assert_eq!(b.determinant().unwrap(), -b_swapped.determinant().unwrap());

    // Two identical rows force determinant zero.
    let dup = Matrix::from_vec(3, 3, vec![1, 2, 3, 4, 5, 6, 1, 2, 3]).unwrap();
    assert_eq!(dup.determinant().unwrap(), 0);
}

#[test]
fn test_shape_mismatch_leaves_matrices_unchanged() {
    let a = Matrix::from_vec(2, 2, vec![1, 2, 3, 4]).unwrap();
    let b = Matrix::from_vec(2, 3, vec![1, 2, 3, 4, 5, 6]).unwrap();

    assert!(matches!(
        a.add(&b),
        Err(MatrixError::IncompatibleDimensions { .. })
    ));
    assert!(matches!(
        b.matrix_multiply(&b),
        Err(MatrixError::IncompatibleDimensions { .. })
    ));

    // Both operands still hold their original cells.
    assert_eq!(a.row(0).unwrap(), vec![1, 2]);
    assert_eq!(a.row(1).unwrap(), vec![3, 4]);
    assert_eq!(b.row(0).unwrap(), vec![1, 2, 3]);
    assert_eq!(b.row(1).unwrap(), vec![4, 5, 6]);
}

#[test]
fn test_cofactor_3x3() {
    let m = Matrix::from_vec(3, 3, vec![1, 2, 3, 0, 4, 5, 1, 0, 6]).unwrap();
    let c = m.cofactor_matrix().unwrap();
    assert_eq!(c.row(0).unwrap(), vec![24, 5, -4]);
    assert_eq!(c.row(1).unwrap(), vec![-12, 3, 2]);
    assert_eq!(c.row(2).unwrap(), vec![-2, -5, 4]);
}

#[test]
fn test_cofactor_1x1_rejected() {
    let m = Matrix::from_vec(1, 1, vec![5]).unwrap();
    assert!(matches!(
        m.cofactor_matrix(),
        Err(MatrixError::InvalidDimensions)
    ));
}

#[test]
fn test_relu_activation() {
    let input = Matrix::from_vec(2, 2, vec![-3, 0, 2, 7]).unwrap();
    let relu = ReLU;

    let out = relu.activate(&input).unwrap();
    assert_eq!(out.row(0).unwrap(), vec![0, 0]);
    assert_eq!(out.row(1).unwrap(), vec![2, 7]);

    let d = relu.derivative(&input).unwrap();
    assert_eq!(d.row(0).unwrap(), vec![0, 0]);
    assert_eq!(d.row(1).unwrap(), vec![1, 1]);

    assert_eq!(relu.name(), "relu");
}

#[test]
fn test_linear_activation() {
    let input = Matrix::from_vec(2, 2, vec![-3, 0, 2, 7]).unwrap();
    let linear = Linear;

    let out = linear.activate(&input).unwrap();
    assert_eq!(out.row(0).unwrap(), vec![-3, 0]);
    assert_eq!(out.row(1).unwrap(), vec![2, 7]);

    let d = linear.derivative(&input).unwrap();
    assert_eq!(d.row(0).unwrap(), vec![1, 1]);
    assert_eq!(d.row(1).unwrap(), vec![1, 1]);

    assert_eq!(linear.name(), "linear");
}

#[test]
fn test_execution_mode_names() {
    assert_eq!(ExecutionMode::Sequential.name(), "Sequential");
    assert_eq!(ExecutionMode::Parallel.name(), "Parallel");
    assert_eq!(ExecutionMode::SIMD.name(), "SIMD");
    assert_eq!(ExecutionMode::ParallelSIMD.name(), "ParallelSIMD");
    assert_eq!(ExecutionMode::Parallel, ExecutionMode::Parallel);
    assert!(ExecutionMode::SIMD != ExecutionMode::Sequential);
}

#[test]
fn test_error_messages() {
    let e = TensorError::ShapeMismatch("2x2 vs 2x3".to_string());
    assert!(e.message().contains("Shape mismatch: 2x2 vs 2x3"));

    let e = TensorError::InvalidOperation("Division by zero".to_string());
    assert!(e.message().contains("Invalid operation: Division by zero"));

    let e = MatrixError::DimensionMismatch {
        expected: tensor::errors::Dims { rows: 2, cols: 3 },
        actual: tensor::errors::Dims { rows: 3, cols: 2 },
    };
    assert_eq!(e.message(), "Dimension mismatch: expected 2x3, got 3x2");

    let e = MatrixError::NotSquareMatrix { rows: 2, cols: 5 };
    assert_eq!(e.message(), "Operation requires square matrix, got 2x5");

    let e = NeuralNetworkError::LayerIndexOutOfBounds { index: 4, max: 2 };
    assert_eq!(e.message(), "Layer index 4 out of bounds (max: 2)");

    let e = NeuralNetworkError::from(MatrixError::DivisionByZero);
    assert_eq!(e.message(), "Matrix operation error: Division by zero");
}

#[test]
fn test_large_parallel_matrix_multiply_matches_sequential() {
    let size = 20usize;
    let data: Vec<i64> = (0..(size * size) as i64).collect();
    let par = Matrix::from_vec(size, size, data.clone()).unwrap();
    let seq = Matrix::from_vec_sequential(size, size, data).unwrap();

    let p1 = par.matrix_multiply(&par).unwrap();
    let p2 = seq.matrix_multiply(&seq).unwrap();
    for i in 0..size {
        for j in 0..size {
            assert_eq!(p1.get(i, j).unwrap(), p2.get(i, j).unwrap());
        }
    }

    assert_eq!(par.trace().unwrap(), seq.trace().unwrap());
}
