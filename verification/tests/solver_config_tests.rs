use oxiblas::eigen::{
    probe_states, start_states, Arnoldi, EigenvalueError, FilterPlan, GeneralizedEigen,
    GeneralizedEigenConfig, GeneralizedMode, GeneralizedPlan, IntervalEigen, IntervalEigenConfig,
    LanczosConfig, PolynomialFilterConfig, PolynomialFilteredLanczos, WhichEigenvalues,
};
use oxiblas::sparse::CsrMatrix;
use oxiblas::svd::{
    lcg_states, transpose_dense, IncrementalSVD, IncrementalSVDConfig, RandomizedSparseSvd,
    RandomizedSparseSvdConfig, RandomizedSparseSvdResult, SVDError, SvdRoute, TruncatedSVD,
    TruncatedSVDConfig,
};

fn identity(n: usize) -> CsrMatrix<f64> {
    CsrMatrix::new(n, n, (0..=n).collect(), (0..n).collect(), vec![1.0; n]).unwrap()
}

fn empty_rect(m: usize, n: usize) -> CsrMatrix<f64> {
    CsrMatrix::new(m, n, vec![0; m + 1], vec![], vec![]).unwrap()
}

fn generalized_config(nev: usize, kd: usize) -> GeneralizedEigenConfig<f64> {
    GeneralizedEigenConfig {
        num_eigenvalues: nev,
        which: WhichEigenvalues::LargestMagnitude,
        max_iterations: 100,
        tolerance: 1e-8,
        compute_eigenvectors: false,
        krylov_dimension: kd,
        symmetric: true,
        mode: GeneralizedMode::default(),
        sigma: 0.0,
    }
}

fn lanczos_config(nev: usize, kd: usize) -> LanczosConfig<f64> {
    LanczosConfig {
        num_eigenvalues: nev,
        which: WhichEigenvalues::LargestMagnitude,
        max_iterations: 100,
        tolerance: 1e-8,
        compute_eigenvectors: false,
        krylov_dimension: kd,
        full_reorthogonalization: true,
    }
}

#[test]
fn test_generalized_mode_default_is_shift_invert() {
    assert_eq!(GeneralizedMode::default(), GeneralizedMode::ShiftInvert);
}

#[test]
fn test_generalized_plan() {
    let solver = GeneralizedEigen::new(generalized_config(2, 3));
    let plan = solver.compute(&identity(10), &identity(10)).unwrap();
    // The Krylov dimension is raised to nev + 2.
    assert_eq!(plan, GeneralizedPlan { mode: GeneralizedMode::ShiftInvert, n: 10, nev: 2, ncv: 4 });
    let small = solver.compute(&identity(3), &identity(3)).unwrap();
    assert_eq!(small.ncv, 3);
}

#[test]
fn test_generalized_errors() {
    let solver = GeneralizedEigen::new(generalized_config(2, 20));
    assert_eq!(
        solver.compute(&empty_rect(3, 4), &identity(3)).err(),
        Some(EigenvalueError::NotSquare { nrows: 3, ncols: 4 })
    );
    assert_eq!(
        solver.compute(&identity(3), &identity(4)).err(),
        Some(EigenvalueError::DimensionMismatch { expected: 3, actual: 4 })
    );
    let greedy = GeneralizedEigen::new(generalized_config(5, 20));
    assert_eq!(
        greedy.compute(&identity(3), &identity(3)).err(),
        Some(EigenvalueError::TooManyEigenvalues { requested: 5, max_allowed: 3 })
    );
}

#[test]
fn test_arnoldi_krylov_size() {
    let arnoldi = Arnoldi::new(lanczos_config(2, 1));
    assert_eq!(arnoldi.krylov_size(&identity(10), None), Ok(3));
    assert_eq!(arnoldi.krylov_size(&identity(2), Some(2)), Ok(2));
    assert_eq!(
        arnoldi.krylov_size(&identity(10), Some(4)).err(),
        Some(EigenvalueError::DimensionMismatch { expected: 10, actual: 4 })
    );
    assert_eq!(
        arnoldi.krylov_size(&identity(1), None).err(),
        Some(EigenvalueError::TooManyEigenvalues { requested: 2, max_allowed: 1 })
    );
    assert_eq!(
        arnoldi.krylov_size(&empty_rect(2, 3), None).err(),
        Some(EigenvalueError::NotSquare { nrows: 2, ncols: 3 })
    );
}

#[test]
fn test_interval_eigen_config_new() {
    let config: IntervalEigenConfig<f64> = IntervalEigenConfig::new(1.0, 3.0);
    assert_eq!(config.low, 1.0);
    assert_eq!(config.high, 3.0);
    assert_eq!(config.max_iterations, 500);
    assert_eq!(config.tolerance, 1e-10);
    assert!(config.compute_eigenvectors);
    assert_eq!(config.krylov_dimension, 50);
    assert!(config.full_reorthogonalization);
}

#[test]
fn test_interval_eigen_compute_decisions() {
    let solver = IntervalEigen::new(IntervalEigenConfig::new(1.0, 3.0));
    assert_eq!(solver.compute(&identity(0), None), Ok(None));
    assert_eq!(solver.compute(&identity(10), None), Ok(Some(10)));
    assert_eq!(solver.compute(&identity(80), Some(80)), Ok(Some(50)));
    assert_eq!(
        solver.compute(&empty_rect(2, 1), None).err(),
        Some(EigenvalueError::NotSquare { nrows: 2, ncols: 1 })
    );
}

#[test]
fn test_interval_eigen_inverted_interval() {
    let solver = IntervalEigen::new(IntervalEigenConfig::new(3.0, 1.0));
    assert_eq!(
        solver.compute(&identity(4), None),
        Err(EigenvalueError::ComputationError("Interval low bound must be <= high bound".to_string()))
    );
    // The empty matrix is answered before the interval is looked at.
    assert_eq!(solver.compute(&identity(0), None), Ok(None));
    let point = IntervalEigen::new(IntervalEigenConfig::new(2.0, 2.0));
    assert_eq!(point.compute(&identity(4), Some(4)), Ok(Some(4)));
    assert_eq!(
        point.compute(&identity(4), Some(3)),
        Err(EigenvalueError::DimensionMismatch { expected: 4, actual: 3 })
    );
}

#[test]
fn test_polynomial_filter_config_new() {
    let config: PolynomialFilterConfig<f64> = PolynomialFilterConfig::new(5.0, 6.0);
    assert_eq!(config.target_low, 5.0);
    assert_eq!(config.target_high, 6.0);
    assert_eq!(config.tolerance, 1e-8);
    assert_eq!(config.spectral_low, None);
    let default: PolynomialFilterConfig<f64> = PolynomialFilterConfig::default();
    assert_eq!((default.target_low, default.target_high), (0.0, 1.0));
    let solver = PolynomialFilteredLanczos::new(config);
    assert_eq!(solver.config().polynomial_degree, 20);
}

#[test]
fn test_polynomial_filter_compute_decisions() {
    let solver = PolynomialFilteredLanczos::new(PolynomialFilterConfig::new(0.5, 1.5));
    assert_eq!(solver.compute(&identity(0)), Ok(None));
    assert_eq!(solver.compute(&identity(10)), Ok(Some(FilterPlan { num_start_vectors: 6, krylov_dim: 10 })));
    assert_eq!(solver.compute(&identity(80)), Ok(Some(FilterPlan { num_start_vectors: 6, krylov_dim: 50 })));
    assert_eq!(
        solver.compute(&empty_rect(3, 2)),
        Err(EigenvalueError::NotSquare { nrows: 3, ncols: 2 })
    );
    let none_wanted = PolynomialFilterConfig { num_eigenvalues: 0, ..PolynomialFilterConfig::new(0.5, 1.5) };
    assert_eq!(
        PolynomialFilteredLanczos::new(none_wanted).compute(&identity(4)),
        Ok(Some(FilterPlan { num_start_vectors: 1, krylov_dim: 4 }))
    );
}

#[test]
fn test_start_states_formula() {
    let states = start_states(3, 2);
    assert_eq!(states.len(), 2);
    for (j, row) in states.iter().enumerate() {
        assert_eq!(row.len(), 3);
        for (i, &value) in row.iter().enumerate() {
            assert_eq!(value, ((i + j * 3) * 1103515245 + 12345) % 2147483648);
        }
    }
    assert_eq!(states[0][0], 12345);
    assert_eq!(states[0][1], 1103527590);
    assert_eq!(states[1][0], (3 * 1103515245 + 12345) % 2147483648);
    assert!(start_states(0, 4).iter().all(|row| row.is_empty()));
}

#[test]
fn test_probe_states_formula() {
    assert_eq!(probe_states(4), vec![13, 20, 27, 34]);
    let long = probe_states(20);
    assert_eq!(long[13], (13 * 7 + 13) % 101);
    assert_eq!(long[13], 3);
    assert!(probe_states(0).is_empty());
}

#[test]
fn test_truncated_svd_route_and_errors() {
    let config = |k: usize, kd: usize| TruncatedSVDConfig {
        num_singular_values: k,
        max_iterations: 100,
        tolerance: 1e-10,
        compute_vectors: true,
        krylov_dimension: kd,
        full_reorthogonalization: true,
    };
    let tall = empty_rect(6, 4);
    let wide = empty_rect(4, 6);
    assert_eq!(TruncatedSVD::new(config(2, 5)).compute(&tall), Ok(SvdRoute::ViaAtA));
    assert_eq!(TruncatedSVD::new(config(2, 5)).compute(&wide), Ok(SvdRoute::ViaAAt));
    assert_eq!(
        TruncatedSVD::new(config(0, 5)).compute(&tall),
        Err(SVDError::InvalidConfig("num_singular_values must be positive".to_string()))
    );
    assert_eq!(
        TruncatedSVD::new(config(4, 5)).compute(&tall),
        Err(SVDError::InvalidConfig("num_singular_values must be less than min(m, n)".to_string()))
    );
    assert_eq!(
        TruncatedSVD::new(config(2, 2)).compute(&tall),
        Err(SVDError::InvalidConfig(
            "krylov_dimension must be greater than num_singular_values".to_string()
        ))
    );
}

#[test]
fn test_randomized_sample_size_and_states() {
    let config = RandomizedSparseSvdConfig {
        num_singular_values: 2,
        oversampling: 3,
        power_iterations: 1,
        seed: Some(7),
        compute_vectors: true,
    };
    let svd = RandomizedSparseSvd::new(config);
    assert_eq!(svd.sample_size(10, 8), Ok(5));
    assert_eq!(
        svd.sample_size(4, 8),
        Err(SVDError::InvalidConfig("k + oversampling must be <= min(m, n)".to_string()))
    );
    let states = svd.random_states(2, 2);
    let step = |s: u64| s.wrapping_mul(1103515245).wrapping_add(12345) % 2147483648;
    let s1 = step(7);
    let s2 = step(s1);
    let s3 = step(s2);
    let s4 = step(s3);
    assert_eq!(states, vec![vec![s1, s2], vec![s3, s4]]);
    assert_eq!(lcg_states(7, 2, 2), states);
}

#[test]
fn test_random_states_without_seed() {
    // With no seed the stream starts from system randomness; it is still
    // one generator stream, entry after entry.
    let config = RandomizedSparseSvdConfig {
        num_singular_values: 1,
        oversampling: 1,
        power_iterations: 0,
        seed: None,
        compute_vectors: false,
    };
    let states = RandomizedSparseSvd::new(config).random_states(3, 2);
    let step = |s: u64| s.wrapping_mul(1103515245).wrapping_add(12345) % 2147483648;
    let flat: Vec<u64> = states.iter().flatten().copied().collect();
    assert_eq!(states.len(), 3);
    assert!(states.iter().all(|row| row.len() == 2));
    for w in flat.windows(2) {
        assert_eq!(w[1], step(w[0]));
    }
    assert!(flat.iter().all(|&s| s < 2147483648));
}

#[test]
fn test_incremental_svd_initialize() {
    let config = IncrementalSVDConfig { max_rank: 5, tolerance: 1e-10, reorthogonalize: true };
    let mut isvd: IncrementalSVD<f64> = IncrementalSVD::new(config);
    let cfg = isvd.initialize(&identity(10), 3).unwrap();
    assert_eq!(cfg.num_singular_values, 3);
    assert_eq!(cfg.oversampling, 5);
    assert_eq!(cfg.power_iterations, 2);
    assert_eq!(cfg.seed, None);
    assert_eq!(isvd.dimensions(), (10, 10));
    let cfg_small = isvd.initialize(&identity(4), 10).unwrap();
    assert_eq!((cfg_small.num_singular_values, cfg_small.oversampling), (4, 0));
    assert_eq!(
        isvd.initialize(&identity(4), 0).err(),
        Some(SVDError::InvalidConfig("Rank must be positive".to_string()))
    );
    assert_eq!(
        isvd.initialize(&empty_rect(0, 3), 1).err(),
        Some(SVDError::InvalidConfig("Matrix must be non-empty".to_string()))
    );
}

#[test]
fn test_incremental_svd_set_factors() {
    let config = IncrementalSVDConfig { max_rank: 5, tolerance: 1e-10, reorthogonalize: true };
    let mut isvd: IncrementalSVD<f64> = IncrementalSVD::new(config);
    let result = RandomizedSparseSvdResult {
        singular_values: vec![3.0, 2.0],
        u: Some(vec![vec![1.0, 0.0, 0.0], vec![0.0, 1.0, 0.0]]),
        v: Some(vec![vec![1.0, 0.0], vec![0.0, 1.0]]),
    };
    assert!(isvd.set_factors(result).is_ok());
    let missing = RandomizedSparseSvdResult { singular_values: vec![1.0], u: None, v: None };
    let mut other: IncrementalSVD<f64> = IncrementalSVD::new(IncrementalSVDConfig {
        max_rank: 5,
        tolerance: 1e-10,
        reorthogonalize: true,
    });
    assert_eq!(
        other.set_factors(missing),
        Err(SVDError::ComputationError("Failed to compute singular vectors".to_string()))
    );
    assert_eq!(isvd.rank(), 2);
    let (u, s, vt) = isvd.get_svd();
    // The singular vectors become the columns of U.
    assert_eq!(u, &[vec![1.0, 0.0], vec![0.0, 1.0], vec![0.0, 0.0]]);
    assert_eq!(s, &[3.0, 2.0]);
    assert_eq!(vt, &[vec![1.0, 0.0], vec![0.0, 1.0]]);
}

#[test]
fn test_transpose_dense_twice() {
    let m = vec![vec![1, 2, 3], vec![4, 5, 6]];
    let t = transpose_dense(&m);
    assert_eq!(t, vec![vec![1, 4], vec![2, 5], vec![3, 6]]);
    assert_eq!(transpose_dense(&t), m);
    assert!(transpose_dense::<i32>(&[]).is_empty());
    // A table without columns has an empty transpose.
    assert!(transpose_dense(&[Vec::<i32>::new(), Vec::new()]).is_empty());
}

fn initialized_isvd(max_rank: usize) -> IncrementalSVD<f64> {
    let config = IncrementalSVDConfig { max_rank, tolerance: 1e-10, reorthogonalize: true };
    let mut isvd = IncrementalSVD::new(config);
    let a = CsrMatrix::new(3, 2, vec![0, 1, 2, 2], vec![0, 1], vec![2.0, 1.0]).unwrap();
    isvd.initialize(&a, 2).unwrap();
    let result = RandomizedSparseSvdResult {
        singular_values: vec![2.0, 1.0],
        u: Some(vec![vec![1.0, 0.0, 0.0], vec![0.0, 1.0, 0.0]]),
        v: Some(vec![vec![1.0, 0.0], vec![0.0, 1.0]]),
    };
    isvd.set_factors(result).unwrap();
    isvd
}

#[test]
fn test_incremental_svd_new_row_checks() {
    let isvd = initialized_isvd(10);
    assert_eq!(isvd.check_new_rows(&[]), Ok(false));
    assert_eq!(isvd.check_new_rows(&[vec![1.0, 2.0]]), Ok(true));
    assert_eq!(
        isvd.check_new_rows(&[vec![1.0, 2.0], vec![1.0, 2.0, 3.0]]),
        Err(SVDError::InvalidConfig("New row has 3 columns, expected 2".to_string()))
    );
    assert_eq!(
        isvd.check_new_columns(&[vec![1.0; 12]]),
        Err(SVDError::InvalidConfig("New column has 12 rows, expected 3".to_string()))
    );
    assert_eq!(isvd.check_new_columns(&[vec![1.0; 3]]), Ok(true));
    let fresh: IncrementalSVD<f64> =
        IncrementalSVD::new(IncrementalSVDConfig { max_rank: 3, tolerance: 1e-10, reorthogonalize: true });
    assert_eq!(
        fresh.check_new_rows(&[vec![]]),
        Err(SVDError::ComputationError("SVD not initialized".to_string()))
    );
}

#[test]
fn test_incremental_svd_stores_updates() {
    let mut isvd = initialized_isvd(2);
    assert_eq!(isvd.updated_rank(5), 2);
    assert_eq!(isvd.updated_rank(1), 1);
    // Rank capped at 2: the first two singular values are kept, and both
    // rotated factors replace the old ones.
    isvd.store_row_update(vec![vec![1.0, 0.0]; 4], vec![vec![0.0, 1.0], vec![1.0, 0.0]], vec![3.0, 2.0, 1.0], 1);
    assert_eq!(isvd.dimensions(), (4, 2));
    assert_eq!(isvd.rank(), 2);
    assert_eq!(isvd.get_svd().1, &[3.0, 2.0]);
    assert_eq!(isvd.get_svd().0.len(), 4);
    assert_eq!(isvd.get_svd().2[0], vec![0.0, 1.0]);

    let mut wide = initialized_isvd(5);
    wide.store_row_update(
        vec![vec![0.5; 3]; 4],
        vec![vec![1.0, 0.0], vec![0.0, 1.0], vec![0.6, 0.8]],
        vec![3.0, 2.0, 1.0],
        1,
    );
    assert_eq!(wide.rank(), 3);
    let vt = wide.get_svd().2;
    assert_eq!(vt.len(), 3);
    assert_eq!(vt[2], vec![0.6, 0.8]);

    wide.append_columns(vec![vec![7.0], vec![8.0]], 1);
    assert_eq!(wide.dimensions(), (4, 3));
    assert_eq!(wide.get_svd().2[0], vec![1.0, 0.0, 7.0]);
    assert_eq!(wide.get_svd().2[1], vec![0.0, 1.0, 8.0]);
    assert_eq!(wide.get_svd().2[2], vec![0.6, 0.8]);

    wide.append_rows(vec![vec![1.0, 1.0, 1.0]]);
    assert_eq!(wide.dimensions(), (5, 3));
    assert_eq!(wide.get_svd().0.len(), 5);

    wide.store_column_update(vec![vec![0.25]; 5], vec![vec![1.0; 5]], vec![9.0], 2);
    assert_eq!(wide.dimensions(), (5, 5));
    assert_eq!(wide.rank(), 1);
    assert_eq!(wide.get_svd().1, &[9.0]);
    assert_eq!(wide.get_svd().0[4], vec![0.25]);
}
