use oxiblas::eigen::PolynomialFilterConfig;

#[test]
fn test_polynomial_filtered_config_default() {
    let config: PolynomialFilterConfig<f64> = PolynomialFilterConfig::default();

    assert_eq!(config.num_eigenvalues, 6);
    assert_eq!(config.polynomial_degree, 20);
    assert_eq!(config.krylov_dimension, 50);
    assert_eq!(config.max_iterations, 100);
    assert!(config.compute_eigenvectors);
    assert!(config.full_reorthogonalization);
}
