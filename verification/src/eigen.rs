//! Configuration and input validation of the sparse eigenvalue solvers
//! (generalized, Arnoldi, interval and polynomial-filtered).
//!
//! The floating-point iterations run outside this module; here live the
//! solver configurations, their defaults, and the decisions taken before any
//! iteration starts: which inputs are rejected and which subspace sizes and
//! operator the iteration uses.
use vstd::prelude::*;
use vstd::std_specs::cmp::PartialOrdSpec;
use crate::scalar::{decimal_or_zero, scalar_one, scalar_zero};
use crate::sparse::CsrMatrix;

verus! {

/// Which eigenvalues a solver targets.
#[derive(Debug, Clone, Copy, PartialEq, Eq, Structural)]
pub enum WhichEigenvalues {
    /// Largest in absolute value.
    LargestMagnitude,
    /// Smallest in absolute value.
    SmallestMagnitude,
    /// Largest algebraically.
    LargestAlgebraic,
    /// Smallest algebraically.
    SmallestAlgebraic,
    /// Nearest to a target value.
    NearTarget,
}

/// Errors reported by the eigenvalue solvers.
#[derive(Debug, Clone, PartialEq)]
pub enum EigenvalueError {
    /// The matrix is not square.
    NotSquare {
        /// Number of rows.
        nrows: usize,
        /// Number of columns.
        ncols: usize,
    },
    /// A vector or matrix has the wrong size.
    DimensionMismatch {
        /// Expected size.
        expected: usize,
        /// Size provided.
        actual: usize,
    },
    /// More eigenvalues were requested than the matrix has.
    TooManyEigenvalues {
        /// Number requested.
        requested: usize,
        /// Largest number possible.
        max_allowed: usize,
    },
    /// The iteration broke down.
    Breakdown {
        /// Iteration at which it happened.
        iteration: usize,
        /// What happened.
        description: String,
    },
    /// The iteration limit was reached.
    MaxIterations {
        /// Iterations performed.
        iterations: usize,
        /// Eigenvalues converged so far.
        converged_count: usize,
    },
    /// Another failure.
    ComputationError(String),
}

// -----------------------------------------------------------------------------
// Generalized eigenvalue problem A x = lambda B x
// -----------------------------------------------------------------------------

/// Operator used for the generalized eigenvalue problem.
#[derive(Debug, Clone, Copy, PartialEq, Eq, Structural)]
pub enum GeneralizedMode {
    /// Eigenvalues of `B^{-1} A`.
    Standard,
    /// Eigenvalues of `(A - sigma B)^{-1} B` (eigenvalues near sigma).
    ShiftInvert,
    /// Eigenvalues of `(A - sigma B)^{-1} A`.
    Buckling,
    /// Eigenvalues of `(A - sigma B)^{-1} (A + sigma B)`.
    Cayley,
}

impl Default for GeneralizedMode {
    fn default() -> (m: Self)
        ensures
            m == GeneralizedMode::ShiftInvert,
    {
        GeneralizedMode::ShiftInvert
    }
}

/// Configuration for the generalized eigenvalue solver.
#[derive(Debug, Clone)]
pub struct GeneralizedEigenConfig<T> {
    /// Number of eigenvalues to compute.
    pub num_eigenvalues: usize,
    /// Which eigenvalues to compute.
    pub which: WhichEigenvalues,
    /// Maximum number of outer iterations.
    pub max_iterations: usize,
    /// Convergence tolerance.
    pub tolerance: T,
    /// Whether to compute eigenvectors.
    pub compute_eigenvectors: bool,
    /// Size of the Krylov subspace.
    pub krylov_dimension: usize,
    /// Whether A is symmetric.
    pub symmetric: bool,
    /// Mode of operation.
    pub mode: GeneralizedMode,
    /// Shift for the shift-invert modes.
    pub sigma: T,
}

/// Result of a generalized eigenvalue computation.
#[derive(Debug, Clone)]
pub struct GeneralizedEigenResult<T> {
    /// Computed eigenvalues.
    pub eigenvalues: Vec<T>,
    /// Eigenvectors (if requested), B-orthonormal.
    pub eigenvectors: Option<Vec<Vec<T>>>,
    /// Number of iterations performed.
    pub iterations: usize,
    /// Residual norms for each eigenpair.
    pub residual_norms: Vec<T>,
    /// Whether all requested eigenvalues converged.
    pub converged: bool,
    /// Number of converged eigenvalues.
    pub num_converged: usize,
}

/// The iteration a generalized eigenvalue computation runs: the operator,
/// the problem size, the number of eigenvalues and the Krylov dimension.
#[derive(Debug, Clone, Copy, PartialEq, Eq, Structural)]
pub struct GeneralizedPlan {
    /// Operator to iterate with.
    pub mode: GeneralizedMode,
    /// Problem size.
    pub n: usize,
    /// Number of eigenvalues wanted.
    pub nev: usize,
    /// Krylov subspace dimension.
    pub ncv: usize,
}

/// Solver for `A x = lambda B x` with `B` symmetric positive definite.
pub struct GeneralizedEigen<T> {
    config: GeneralizedEigenConfig<T>,
}

impl<T> GeneralizedEigen<T> {
    /// The configuration.
    pub closed spec fn spec_config(&self) -> GeneralizedEigenConfig<T> { self.config }

    /// Creates a solver with the given configuration.
    pub fn new(config: GeneralizedEigenConfig<T>) -> (s: Self)
        ensures
            s.spec_config() == config,
    {
        GeneralizedEigen { config }
    }

    /// The configuration.
    pub fn config(&self) -> (c: &GeneralizedEigenConfig<T>)
        ensures
            *c == self.spec_config(),
    {
        &self.config
    }

    /// Validates `A` and `B` and decides the iteration: `ncv` is the Krylov
    /// dimension raised to at least `nev + 2` and capped at `n`.
    pub fn compute(&self, a: &CsrMatrix<T>, b: &CsrMatrix<T>) -> (r: Result<GeneralizedPlan, EigenvalueError>)
        ensures
            ({
                let n = a.spec_nrows();
                let nev = self.spec_config().num_eigenvalues;
                let kd = self.spec_config().krylov_dimension;
                let raised: int = if kd >= nev + 2 { kd as int } else { nev + 2 };
                match r {
                    Ok(plan) => a.spec_ncols() == n && b.spec_nrows() == n && b.spec_ncols() == n && nev <= n
                        && plan == (GeneralizedPlan {
                            mode: self.spec_config().mode,
                            n,
                            nev,
                            ncv: if raised <= n { raised as usize } else { n },
                        }),
                    Err(EigenvalueError::NotSquare { nrows, ncols }) =>
                        a.spec_ncols() != n && nrows == n && ncols == a.spec_ncols(),
                    Err(EigenvalueError::DimensionMismatch { expected, actual }) =>
                        a.spec_ncols() == n && (b.spec_nrows() != n || b.spec_ncols() != n)
                        && expected == n && actual == b.spec_nrows(),
                    Err(EigenvalueError::TooManyEigenvalues { requested, max_allowed }) =>
                        a.spec_ncols() == n && b.spec_nrows() == n && b.spec_ncols() == n && nev > n
                        && requested == nev && max_allowed == n,
                    Err(_) => false,
                }
            }),
    {
        let n = a.nrows();
        if a.ncols() != n {
            return Err(EigenvalueError::NotSquare { nrows: n, ncols: a.ncols() });
        }
        if b.nrows() != n || b.ncols() != n {
            return Err(EigenvalueError::DimensionMismatch { expected: n, actual: b.nrows() });
        }
        let nev = self.config.num_eigenvalues;
        if nev > n {
            return Err(EigenvalueError::TooManyEigenvalues { requested: nev, max_allowed: n });
        }
        let kd = self.config.krylov_dimension;
        let ncv = if kd >= n || n <= 2 || nev >= n - 2 { n } else if kd >= nev + 2 { kd } else { nev + 2 };
        Ok(GeneralizedPlan { mode: self.config.mode, n, nev, ncv })
    }
}

// -----------------------------------------------------------------------------
// Arnoldi iteration
// -----------------------------------------------------------------------------

/// Configuration of a Lanczos-type iteration (shared with Arnoldi).
#[derive(Debug, Clone)]
pub struct LanczosConfig<T> {
    /// Number of eigenvalues to compute.
    pub num_eigenvalues: usize,
    /// Which eigenvalues to compute.
    pub which: WhichEigenvalues,
    /// Maximum number of iterations.
    pub max_iterations: usize,
    /// Convergence tolerance.
    pub tolerance: T,
    /// Whether to compute eigenvectors.
    pub compute_eigenvectors: bool,
    /// Krylov subspace dimension.
    pub krylov_dimension: usize,
    /// Use full reorthogonalization.
    pub full_reorthogonalization: bool,
}

/// Result of an Arnoldi eigenvalue computation.
#[derive(Debug, Clone)]
pub struct ArnoldiResult<T> {
    /// Real parts of computed eigenvalues.
    pub eigenvalues_real: Vec<T>,
    /// Imaginary parts of computed eigenvalues.
    pub eigenvalues_imag: Vec<T>,
    /// Number of Arnoldi iterations performed.
    pub iterations: usize,
    /// Whether the Arnoldi process completed.
    pub converged: bool,
}

/// Arnoldi iteration for general (non-symmetric) sparse matrices.
pub struct Arnoldi<T> {
    config: LanczosConfig<T>,
}

impl<T> Arnoldi<T> {
    /// The configuration.
    pub closed spec fn spec_config(&self) -> LanczosConfig<T> { self.config }

    /// Creates an Arnoldi solver with the given configuration.
    pub fn new(config: LanczosConfig<T>) -> (s: Self)
        ensures
            s.spec_config() == config,
    {
        Arnoldi { config }
    }

    /// The configuration.
    pub fn config(&self) -> (c: &LanczosConfig<T>)
        ensures
            *c == self.spec_config(),
    {
        &self.config
    }

    /// Validates the matrix and an optional starting vector length, and
    /// returns the Krylov dimension: at least `k + 1`, at most `n`.
    pub fn krylov_size(&self, a: &CsrMatrix<T>, initial_len: Option<usize>) -> (r: Result<usize, EigenvalueError>)
        ensures
            ({
                let n = a.spec_nrows();
                let k = self.spec_config().num_eigenvalues;
                let kd = self.spec_config().krylov_dimension;
                let raised: int = if kd >= k + 1 { kd as int } else { k + 1 };
                match r {
                    Ok(m) => a.spec_ncols() == n && k <= n
                        && (initial_len matches Some(len) ==> len == n)
                        && m == if raised <= n { raised } else { n as int },
                    Err(EigenvalueError::NotSquare { nrows, ncols }) =>
                        a.spec_ncols() != n && nrows == n && ncols == a.spec_ncols(),
                    Err(EigenvalueError::TooManyEigenvalues { requested, max_allowed }) =>
                        a.spec_ncols() == n && k > n && requested == k && max_allowed == n,
                    Err(EigenvalueError::DimensionMismatch { expected, actual }) =>
                        a.spec_ncols() == n && k <= n && initial_len == Some(actual) && actual != n && expected == n,
                    Err(_) => false,
                }
            }),
    {
        let n = a.nrows();
        if a.ncols() != n {
            return Err(EigenvalueError::NotSquare { nrows: n, ncols: a.ncols() });
        }
        let k = self.config.num_eigenvalues;
        let kd = self.config.krylov_dimension;
        if k > n {
            return Err(EigenvalueError::TooManyEigenvalues { requested: k, max_allowed: n });
        }
        let m = if kd >= n || n <= 1 || k >= n - 1 { n } else if kd >= k + 1 { kd } else { k + 1 };
        match initial_len {
            Some(len) => {
                if len != n {
                    return Err(EigenvalueError::DimensionMismatch { expected: n, actual: len });
                }
            }
            None => {}
        }
        Ok(m)
    }
}

// -----------------------------------------------------------------------------
// Interval eigenvalues
// -----------------------------------------------------------------------------

/// Configuration for computing all eigenvalues in `[low, high]`.
#[derive(Debug, Clone)]
pub struct IntervalEigenConfig<T> {
    /// Lower bound of the interval.
    pub low: T,
    /// Upper bound of the interval.
    pub high: T,
    /// Maximum Lanczos iterations.
    pub max_iterations: usize,
    /// Convergence tolerance.
    pub tolerance: T,
    /// Whether to compute eigenvectors.
    pub compute_eigenvectors: bool,
    /// Krylov subspace dimension.
    pub krylov_dimension: usize,
    /// Use full reorthogonalization.
    pub full_reorthogonalization: bool,
}

impl<T: num_traits::Num> IntervalEigenConfig<T> {
    /// Configuration for the interval `[low, high]`: 500 iterations,
    /// tolerance `1e-10`, eigenvectors computed, Krylov dimension 50, full
    /// reorthogonalization.
    pub fn new(low: T, high: T) -> (c: Self)
        ensures
            c.low == low,
            c.high == high,
            c.max_iterations == 500,
            c.compute_eigenvectors,
            c.krylov_dimension == 50,
            c.full_reorthogonalization,
    {
        IntervalEigenConfig {
            low,
            high,
            max_iterations: 500,
            tolerance: decimal_or_zero("1e-10"),
            compute_eigenvectors: true,
            krylov_dimension: 50,
            full_reorthogonalization: true,
        }
    }
}

/// Result of an interval eigenvalue computation.
#[derive(Debug, Clone)]
pub struct IntervalEigenResult<T> {
    /// Eigenvalues in the interval, ascending.
    pub eigenvalues: Vec<T>,
    /// Eigenvectors (if computed).
    pub eigenvectors: Option<Vec<Vec<T>>>,
    /// Number of Lanczos iterations performed.
    pub iterations: usize,
    /// Residual norms for each eigenpair.
    pub residual_norms: Vec<T>,
    /// Whether computation converged.
    pub converged: bool,
    /// Count of eigenvalues found in the interval.
    pub count: usize,
}

/// Interval eigenvalue solver for symmetric sparse matrices.
pub struct IntervalEigen<T> {
    config: IntervalEigenConfig<T>,
}

impl<T> IntervalEigen<T> {
    /// The configuration.
    pub closed spec fn spec_config(&self) -> IntervalEigenConfig<T> { self.config }

    /// Creates an interval eigenvalue solver.
    pub fn new(config: IntervalEigenConfig<T>) -> (s: Self)
        ensures
            s.spec_config() == config,
    {
        IntervalEigen { config }
    }

    /// The configuration.
    pub fn config(&self) -> (c: &IntervalEigenConfig<T>)
        ensures
            *c == self.spec_config(),
    {
        &self.config
    }
}

/// Whether `low` lies strictly above `high` in the order of `T`.
pub open spec fn lies_above<T: PartialOrd>(low: T, high: T) -> bool {
    low.partial_cmp_spec(&high) == Some(core::cmp::Ordering::Greater)
}

impl<T: PartialOrd> IntervalEigen<T> {
    /// What an interval computation on `a`, started from an initial vector
    /// of length `initial_len` (if one is given), decides before its Lanczos
    /// iteration: a non-square `a` is refused, an empty one has no
    /// eigenvalues (`Ok(None)`), an interval whose low bound lies above its
    /// high bound is refused, so is an initial vector whose length is not
    /// `n`; otherwise the iteration builds a Krylov space of dimension
    /// `min(krylov_dimension, n)`.  Where `T`'s comparison follows its
    /// specification, the interval is refused exactly when `low > high`.
    pub fn compute(&self, a: &CsrMatrix<T>, initial_len: Option<usize>) -> (r: Result<Option<usize>, EigenvalueError>)
        ensures
            ({
                let n = a.spec_nrows();
                let kd = self.spec_config().krylov_dimension;
                let above = lies_above(self.spec_config().low, self.spec_config().high);
                let ordered = T::obeys_partial_cmp_spec();
                match r {
                    Ok(None) => a.spec_ncols() == n && n == 0,
                    Ok(Some(m)) => a.spec_ncols() == n && n > 0 && m == (if kd <= n { kd } else { n })
                        && (ordered ==> !above)
                        && (initial_len matches Some(len) ==> len == n),
                    Err(EigenvalueError::NotSquare { nrows, ncols }) =>
                        a.spec_ncols() != n && nrows == n && ncols == a.spec_ncols(),
                    Err(EigenvalueError::ComputationError(msg)) => a.spec_ncols() == n && n > 0
                        && msg@ == "Interval low bound must be <= high bound"@
                        && (ordered ==> above),
                    Err(EigenvalueError::DimensionMismatch { expected, actual }) => a.spec_ncols() == n
                        && n > 0 && (ordered ==> !above)
                        && initial_len == Some(actual) && expected == n && actual != n,
                    Err(_) => false,
                }
            }),
    {
        let n = a.nrows();
        if n != a.ncols() {
            return Err(EigenvalueError::NotSquare { nrows: n, ncols: a.ncols() });
        }
        if n == 0 {
            return Ok(None);
        }
        if self.config.low > self.config.high {
            return Err(EigenvalueError::ComputationError("Interval low bound must be <= high bound".to_owned()));
        }
        if let Some(len) = initial_len {
            if len != n {
                return Err(EigenvalueError::DimensionMismatch { expected: n, actual: len });
            }
        }
        let kd = self.config.krylov_dimension;
        Ok(Some(if kd <= n { kd } else { n }))
    }
}

// -----------------------------------------------------------------------------
// Polynomial filtered Lanczos
// -----------------------------------------------------------------------------

/// Configuration for polynomial filtered Lanczos iteration.
#[derive(Debug, Clone)]
pub struct PolynomialFilterConfig<T> {
    /// Number of eigenvalues to compute.
    pub num_eigenvalues: usize,
    /// Lower bound of target interval.
    pub target_low: T,
    /// Upper bound of target interval.
    pub target_high: T,
    /// Spectral lower bound (estimate of smallest eigenvalue).
    pub spectral_low: Option<T>,
    /// Spectral upper bound (estimate of largest eigenvalue).
    pub spectral_high: Option<T>,
    /// Degree of the Chebyshev polynomial filter.
    pub polynomial_degree: usize,
    /// Krylov subspace dimension.
    pub krylov_dimension: usize,
    /// Maximum number of outer iterations.
    pub max_iterations: usize,
    /// Convergence tolerance.
    pub tolerance: T,
    /// Whether to compute eigenvectors.
    pub compute_eigenvectors: bool,
    /// Full reorthogonalization.
    pub full_reorthogonalization: bool,
}

impl<T: num_traits::Num> PolynomialFilterConfig<T> {
    /// Six eigenvalues in `[0, 1]`, no spectral bounds, degree 20, Krylov
    /// dimension 50, 100 iterations, tolerance `1e-8`, eigenvectors computed,
    /// full reorthogonalization.
    pub fn default() -> (c: Self)
        ensures
            c.num_eigenvalues == 6,
            c.spectral_low is None,
            c.spectral_high is None,
            c.polynomial_degree == 20,
            c.krylov_dimension == 50,
            c.max_iterations == 100,
            c.compute_eigenvectors,
            c.full_reorthogonalization,
    {
        PolynomialFilterConfig {
            num_eigenvalues: 6,
            target_low: scalar_zero(),
            target_high: scalar_one(),
            spectral_low: None,
            spectral_high: None,
            polynomial_degree: 20,
            krylov_dimension: 50,
            max_iterations: 100,
            tolerance: decimal_or_zero("1e-8"),
            compute_eigenvectors: true,
            full_reorthogonalization: true,
        }
    }

    /// The default configuration retargeted to `[target_low, target_high]`.
    pub fn new(target_low: T, target_high: T) -> (c: Self)
        ensures
            c.target_low == target_low,
            c.target_high == target_high,
            c.num_eigenvalues == 6,
            c.spectral_low is None,
            c.spectral_high is None,
            c.polynomial_degree == 20,
            c.krylov_dimension == 50,
            c.max_iterations == 100,
            c.compute_eigenvectors,
            c.full_reorthogonalization,
    {
        let d: Self = Self::default();
        PolynomialFilterConfig { target_low, target_high, ..d }
    }
}

/// Result of polynomial filtered Lanczos iteration.
#[derive(Debug, Clone)]
pub struct PolynomialFilteredResult<T> {
    /// Computed eigenvalues.
    pub eigenvalues: Vec<T>,
    /// Computed eigenvectors (if requested).
    pub eigenvectors: Option<Vec<Vec<T>>>,
    /// Number of iterations performed.
    pub iterations: usize,
    /// Residual norms for each eigenvalue.
    pub residual_norms: Vec<T>,
    /// Whether convergence was achieved.
    pub converged: bool,
}

/// Polynomial filtered Lanczos iteration for interior eigenvalues.
pub struct PolynomialFilteredLanczos<T> {
    config: PolynomialFilterConfig<T>,
}

impl<T> PolynomialFilteredLanczos<T> {
    /// The configuration.
    pub closed spec fn spec_config(&self) -> PolynomialFilterConfig<T> { self.config }

    /// Creates a polynomial filtered Lanczos solver.
    pub fn new(config: PolynomialFilterConfig<T>) -> (s: Self)
        ensures
            s.spec_config() == config,
    {
        PolynomialFilteredLanczos { config }
    }

    /// The configuration.
    pub fn config(&self) -> (c: &PolynomialFilterConfig<T>)
        ensures
            *c == self.spec_config(),
    {
        &self.config
    }

    /// What a filtered computation on `a` decides before its iteration: a
    /// non-square `a` is refused, an empty one has no eigenvalues
    /// (`Ok(None)`), otherwise the iteration starts from
    /// `max(num_eigenvalues, 1)` vectors and builds Krylov spaces of
    /// dimension `min(krylov_dimension, n)`.
    pub fn compute(&self, a: &CsrMatrix<T>) -> (r: Result<Option<FilterPlan>, EigenvalueError>)
        ensures
            ({
                let n = a.spec_nrows();
                let cfg = self.spec_config();
                match r {
                    Ok(None) => a.spec_ncols() == n && n == 0,
                    Ok(Some(plan)) => a.spec_ncols() == n && n > 0
                        && plan.num_start_vectors == (if cfg.num_eigenvalues >= 1 { cfg.num_eigenvalues } else { 1 })
                        && plan.krylov_dim == (if cfg.krylov_dimension <= n { cfg.krylov_dimension } else { n }),
                    Err(EigenvalueError::NotSquare { nrows, ncols }) =>
                        a.spec_ncols() != n && nrows == n && ncols == a.spec_ncols(),
                    Err(_) => false,
                }
            }),
    {
        let n = a.nrows();
        if n != a.ncols() {
            return Err(EigenvalueError::NotSquare { nrows: n, ncols: a.ncols() });
        }
        if n == 0 {
            return Ok(None);
        }
        let nev = self.config.num_eigenvalues;
        let kd = self.config.krylov_dimension;
        Ok(Some(FilterPlan {
            num_start_vectors: if nev >= 1 { nev } else { 1 },
            krylov_dim: if kd <= n { kd } else { n },
        }))
    }
}

/// The iteration a polynomial-filtered computation runs.
#[derive(Debug, Clone, Copy, PartialEq, Eq, Structural)]
pub struct FilterPlan {
    /// Number of starting vectors.
    pub num_start_vectors: usize,
    /// Krylov subspace dimension.
    pub krylov_dim: usize,
}

/// The generator value behind entry `i` of pseudo-random starting vector
/// `j` among vectors of length `n`: `((i + j n) 1103515245 + 12345)` modulo
/// `2^31`.
pub open spec fn start_state(i: int, j: int, n: int) -> int {
    ((i + j * n) * 1103515245 + 12345) % 2147483648
}

/// The generator values of `k` pseudo-random starting vectors of length
/// `n`, vector by vector (`start_state`); the arithmetic must fit in a
/// machine word.
pub fn start_states(n: usize, k: usize) -> (m: Vec<Vec<usize>>)
    requires
        n * k == 0 || (n * k - 1) * 1103515245 + 12345 <= usize::MAX,
    ensures
        m@.len() == k,
        forall|j: int| 0 <= j < k ==> (#[trigger] m@[j])@.len() == n,
        forall|j: int, i: int| 0 <= j < k && 0 <= i < n ==> #[trigger] m@[j]@[i] == start_state(i, j, n as int),
{
    let mut m: Vec<Vec<usize>> = Vec::new();
    let mut j: usize = 0;
    while j < k
        invariant
            j <= k,
            n * k == 0 || (n * k - 1) * 1103515245 + 12345 <= usize::MAX,
            m@.len() == j,
            forall|a: int| 0 <= a < j ==> (#[trigger] m@[a])@.len() == n,
            forall|a: int, i: int| 0 <= a < j && 0 <= i < n ==> #[trigger] m@[a]@[i] == start_state(i, a, n as int),
        decreases k - j,
    {
        let mut row: Vec<usize> = Vec::new();
        let mut i: usize = 0;
        while i < n
            invariant
                i <= n,
                j < k,
                n * k == 0 || (n * k - 1) * 1103515245 + 12345 <= usize::MAX,
                row@.len() == i,
                forall|b: int| 0 <= b < i ==> #[trigger] row@[b] == start_state(b, j as int, n as int),
            decreases n - i,
        {
            assert(i + j * n <= n * k - 1 && n * k > 0) by (nonlinear_arith)
                requires i < n, j < k;
            assert((i + j * n) * 1103515245 <= (n * k - 1) * 1103515245) by (nonlinear_arith)
                requires i + j * n <= n * k - 1;
            let idx: usize = i + j * n;
            let value: usize = (idx * 1103515245 + 12345) % 2147483648;
            row.push(value);
            i = i + 1;
        }
        m.push(row);
        j = j + 1;
    }
    m
}

/// The entries, before scaling, of the probe vector of length `n` that the
/// spectral bound estimate starts from: `(7 i + 13) mod 101`.
pub fn probe_states(n: usize) -> (v: Vec<usize>)
    requires
        n == 0 || 7 * (n - 1) + 13 <= usize::MAX,
    ensures
        v@.len() == n,
        forall|i: int| 0 <= i < n ==> #[trigger] v@[i] == (7 * i + 13) % 101,
{
    let mut v: Vec<usize> = Vec::new();
    let mut i: usize = 0;
    while i < n
        invariant
            i <= n,
            n == 0 || 7 * (n - 1) + 13 <= usize::MAX,
            v@.len() == i,
            forall|b: int| 0 <= b < i ==> #[trigger] v@[b] == (7 * b + 13) % 101,
        decreases n - i,
    {
        v.push((i * 7 + 13) % 101);
        i = i + 1;
    }
    v
}

} // verus!
