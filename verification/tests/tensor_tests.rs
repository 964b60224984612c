use tensor::errors::TensorError;
use tensor::tensor::Tensor;
use tensor::ExecutionMode;

fn modes() -> Vec<ExecutionMode> {
    vec![
        ExecutionMode::Sequential,
        ExecutionMode::Parallel,
        ExecutionMode::SIMD,
        ExecutionMode::ParallelSIMD,
    ]
}

#[test]
fn test_tensor_construction() {
    let t = Tensor::new(vec![1, 2, 3, 4, 5, 6], &vec![2, 3]).unwrap();
    assert_eq!(t.rank(), 2);
    assert_eq!(t.size(), 6);
    assert_eq!(t.shape(), &vec![2, 3]);
    assert_eq!(t.rows(), 2);
    assert_eq!(t.cols(), 3);
    assert_eq!(t.dims(), (2, 3));

    assert!(matches!(
        Tensor::new(vec![1, 2, 3], &vec![2, 2]),
        Err(TensorError::ShapeMismatch(_))
    ));
    assert!(matches!(
        Tensor::new(vec![], &vec![0, 2]),
        Err(TensorError::DimensionError(_))
    ));
}

#[test]
fn test_tensor_factories() {
    let z = Tensor::zeros(&vec![2, 2]).unwrap();
    assert_eq!(z.data(), &vec![0, 0, 0, 0]);

    let o = Tensor::ones(&vec![3]).unwrap();
    assert_eq!(o.data(), &vec![1, 1, 1]);

    let f = Tensor::fill(&vec![2, 2], 7).unwrap();
    assert_eq!(f.data(), &vec![7, 7, 7, 7]);

    let s = Tensor::scalar(9);
    assert_eq!(s.rank(), 1);
    assert_eq!(s.data(), &vec![9]);

    assert!(Tensor::zeros(&vec![0]).is_err());
}

#[test]
fn test_elementwise_all_strategies_exact() {
    let a = Tensor::new(vec![1, 2, 3, 4, 5, 6, 7, 8, 9], &vec![3, 3]).unwrap();
    let b = Tensor::new(vec![9, 8, 7, 6, 5, 4, 3, 2, 1], &vec![3, 3]).unwrap();

    for mode in modes() {
        let sum = a.add(&b, mode).unwrap();
        assert_eq!(sum.data(), &vec![10, 10, 10, 10, 10, 10, 10, 10, 10]);

        let diff = a.sub(&b, mode).unwrap();
        assert_eq!(diff.data(), &vec![-8, -6, -4, -2, 0, 2, 4, 6, 8]);

        let prod = a.hadamard(&b, mode).unwrap();
        assert_eq!(prod.data(), &vec![9, 16, 21, 24, 25, 24, 21, 16, 9]);
    }
}

#[test]
fn test_long_buffers_exercise_the_lanes() {
    // Buffers longer than a lane width force the chunked path plus a
    // scalar remainder.
    let n = 100usize;
    let xs: Vec<i64> = (0..n as i64).collect();
    let ys: Vec<i64> = (0..n as i64).map(|v| 2 * v + 1).collect();
    let a = Tensor::new(xs.clone(), &vec![n]).unwrap();
    let b = Tensor::new(ys.clone(), &vec![n]).unwrap();

    for mode in modes() {
        let sum = a.add(&b, mode).unwrap();
        let prod = a.hadamard(&b, mode).unwrap();
        for k in 0..n {
            assert_eq!(sum.data()[k], xs[k] + ys[k]);
            assert_eq!(prod.data()[k], xs[k] * ys[k]);
        }
    }
}

#[test]
fn test_shape_mismatch_rejection_leaves_operands_unchanged() {
    let a = Tensor::new(vec![1, 2, 3, 4], &vec![2, 2]).unwrap();
    let b = Tensor::new(vec![1, 2, 3, 4, 5, 6], &vec![2, 3]).unwrap();

    let r = a.add(&b, ExecutionMode::Sequential);
    assert!(matches!(r, Err(TensorError::ShapeMismatch(_))));

    let m = a.multiply(&b, ExecutionMode::Sequential).unwrap();
    assert_eq!(m.dims(), (2, 3));
    let bad = b.multiply(&a, ExecutionMode::Sequential);
    assert!(matches!(bad, Err(TensorError::ShapeMismatch(_))));

    // Both operands are untouched by the failed operations.
    assert_eq!(a.data(), &vec![1, 2, 3, 4]);
    assert_eq!(b.data(), &vec![1, 2, 3, 4, 5, 6]);
}

#[test]
fn test_division_by_zero_elementwise() {
    let a = Tensor::new(vec![10, 20, 30, 40], &vec![2, 2]).unwrap();
    let with_zero = Tensor::new(vec![1, 0, 2, 4], &vec![2, 2]).unwrap();

    for mode in modes() {
        let r = a.divide(&with_zero, mode);
        assert!(matches!(r, Err(TensorError::InvalidOperation(_))));
    }

    let ok = Tensor::new(vec![1, 2, 3, 4], &vec![2, 2]).unwrap();
    for mode in modes() {
        let q = a.divide(&ok, mode).unwrap();
        assert_eq!(q.data(), &vec![10, 10, 10, 10]);
    }
}

#[test]
fn test_multiply_scenario_all_strategies() {
    // [[1,2],[3,4]] x [[5,6],[7,8]] == [[19,22],[43,50]] under every
    // strategy, exactly.
    let a = Tensor::new(vec![1, 2, 3, 4], &vec![2, 2]).unwrap();
    let b = Tensor::new(vec![5, 6, 7, 8], &vec![2, 2]).unwrap();

    for mode in modes() {
        let p = a.multiply(&b, mode).unwrap();
        assert_eq!(p.data(), &vec![19, 22, 43, 50]);
    }
}

#[test]
fn test_multiply_wide_all_strategies() {
    // An inner dimension wider than a lane exercises the dot-product
    // kernel's lane accumulators and remainder loop.
    let k = 13usize;
    let row: Vec<i64> = (1..=k as i64).collect();
    let a = Tensor::new(row.clone(), &vec![1, k]).unwrap();
    let b = Tensor::new(row.clone(), &vec![k, 1]).unwrap();
    let expected: i64 = row.iter().map(|v| v * v).sum();

    for mode in modes() {
        let p = a.multiply(&b, mode).unwrap();
        assert_eq!(p.data(), &vec![expected]);
    }
}

#[test]
fn test_matmul_rank_dispatch() {
    // matrix x matrix
    let a = Tensor::new(vec![1, 2, 3, 4], &vec![2, 2]).unwrap();
    let b = Tensor::new(vec![5, 6, 7, 8], &vec![2, 2]).unwrap();
    assert_eq!(a.matmul(&b).unwrap().data(), &vec![19, 22, 43, 50]);

    // vector . vector
    let v = Tensor::new(vec![1, 2, 3], &vec![3]).unwrap();
    let w = Tensor::new(vec![4, 5, 6], &vec![3]).unwrap();
    assert_eq!(v.matmul(&w).unwrap().data(), &vec![32]);

    // matrix x vector
    let m = Tensor::new(vec![1, 2, 3, 4, 5, 6], &vec![2, 3]).unwrap();
    let x = Tensor::new(vec![1, 1, 1], &vec![3]).unwrap();
    assert_eq!(m.matmul(&x).unwrap().data(), &vec![6, 15]);

    // vector x matrix
    let y = Tensor::new(vec![1, 1], &vec![2]).unwrap();
    assert_eq!(y.matmul(&m).unwrap().data(), &vec![5, 7, 9]);

    // unsupported ranks
    let cube = Tensor::new(vec![0; 8], &vec![2, 2, 2]).unwrap();
    assert!(matches!(
        cube.matmul(&cube),
        Err(TensorError::InvalidOperation(_))
    ));
}

#[test]
fn test_tensor_transpose_involution() {
    let a = Tensor::new(vec![1, 2, 3, 4, 5, 6], &vec![2, 3]).unwrap();
    let t = a.transpose().unwrap();
    assert_eq!(t.dims(), (3, 2));
    assert_eq!(t.data(), &vec![1, 4, 2, 5, 3, 6]);

    let tt = t.transpose().unwrap();
    assert_eq!(tt.dims(), (2, 3));
    assert_eq!(tt.data(), a.data());

    let rank1 = Tensor::new(vec![1, 2], &vec![2]).unwrap();
    assert!(matches!(
        rank1.transpose(),
        Err(TensorError::DimensionError(_))
    ));
}

#[test]
fn test_scalar_multiply_and_sum_strategies() {
    let a = Tensor::new((1..=20).collect::<Vec<i64>>(), &vec![4, 5]).unwrap();

    for mode in modes() {
        let scaled = a.scalar_multiply(3, mode);
        for k in 0..20 {
            assert_eq!(scaled.data()[k], 3 * (k as i64 + 1));
        }
        assert_eq!(a.sum(mode), 210);
    }

    let scaled = a.scale(2);
    assert_eq!(scaled.data()[19], 40);

    let sq = a.square();
    assert_eq!(sq.data()[3], 16);
}

#[test]
fn test_argmax_column_vector() {
    let v = Tensor::new(vec![3, 9, 9, 1], &vec![4, 1]).unwrap();
    // The first maximum wins.
    assert_eq!(v.argmax().unwrap(), 1);

    let m = Tensor::new(vec![1, 2, 3, 4], &vec![2, 2]).unwrap();
    assert!(matches!(m.argmax(), Err(TensorError::DimensionError(_))));
}

#[test]
fn test_tensor_equality_is_exact() {
    let a = Tensor::new(vec![1, 2, 3, 4], &vec![2, 2]).unwrap();
    let b = Tensor::new(vec![1, 2, 3, 4], &vec![2, 2]).unwrap();
    let c = Tensor::new(vec![1, 2, 3, 5], &vec![2, 2]).unwrap();
    let d = Tensor::new(vec![1, 2, 3, 4], &vec![4]).unwrap();

    assert!(a == b);
    assert!(a != c);
    // The same data under a different shape is a different tensor.
    assert!(a != d);
}
