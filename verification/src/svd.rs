//! Configuration, validation and bookkeeping of the sparse SVD solvers
//! (truncated, randomized and incremental).
//!
//! The floating-point kernels run outside this module; here live the
//! decisions that precede them (which inputs are accepted, which sizes and
//! parameters are used), the deterministic pseudo-random stream the
//! randomized method draws from, and the state kept between updates.
use vstd::prelude::*;
use vstd::string::StringExecFns;
use crate::sparse::CsrMatrix;

verus! {

/// Errors that can occur during SVD computation.
#[derive(Debug, Clone, PartialEq)]
pub enum SVDError {
    /// Invalid configuration
    InvalidConfig(String),
    /// Computation failed
    ComputationError(String),
    /// Failed to converge
    ConvergenceError(String),
}

/// Configuration for randomized sparse SVD computation.
#[derive(Debug, Clone)]
pub struct RandomizedSparseSvdConfig {
    /// Number of singular values to compute (k).
    pub num_singular_values: usize,
    /// Oversampling parameter (p); the algorithm uses k + p random vectors.
    pub oversampling: usize,
    /// Number of power iterations (q).
    pub power_iterations: usize,
    /// Random seed for reproducibility. If None, uses system randomness.
    pub seed: Option<u64>,
    /// Whether to compute singular vectors (U and V).
    pub compute_vectors: bool,
}

/// Configuration for truncated SVD computation.
#[derive(Debug, Clone)]
pub struct TruncatedSVDConfig<T> {
    /// Number of singular values to compute (k).
    pub num_singular_values: usize,
    /// Maximum number of Lanczos iterations.
    pub max_iterations: usize,
    /// Convergence tolerance.
    pub tolerance: T,
    /// Whether to compute singular vectors (U and V).
    pub compute_vectors: bool,
    /// Size of the Krylov subspace (should exceed num_singular_values).
    pub krylov_dimension: usize,
    /// Use full reorthogonalization.
    pub full_reorthogonalization: bool,
}

/// Configuration for incremental SVD.
#[derive(Debug, Clone)]
pub struct IncrementalSVDConfig<T> {
    /// Maximum rank to maintain.
    pub max_rank: usize,
    /// Tolerance for rank reduction.
    pub tolerance: T,
    /// Whether to maintain orthogonality via reorthogonalization.
    pub reorthogonalize: bool,
}

/// Result of truncated SVD computation.
#[derive(Debug, Clone)]
pub struct TruncatedSVDResult<T> {
    /// Singular values (in descending order).
    pub singular_values: Vec<T>,
    /// Left singular vectors (U), one vector per singular value.
    pub u: Option<Vec<Vec<T>>>,
    /// Right singular vectors (V), one vector per singular value.
    pub v: Option<Vec<Vec<T>>>,
    /// Number of iterations performed.
    pub iterations: usize,
    /// Whether the algorithm converged.
    pub converged: bool,
}

/// Result of randomized sparse SVD computation.
#[derive(Debug, Clone)]
pub struct RandomizedSparseSvdResult<T> {
    /// Singular values (in descending order).
    pub singular_values: Vec<T>,
    /// Left singular vectors (U), one vector per singular value.
    pub u: Option<Vec<Vec<T>>>,
    /// Right singular vectors (V), one vector per singular value.
    pub v: Option<Vec<Vec<T>>>,
}

/// Which symmetric product the truncated SVD diagonalizes.
#[derive(Debug, Clone, Copy, PartialEq, Eq, Structural)]
pub enum SvdRoute {
    /// Eigen-decompose `A^T A` (more rows than columns): V directly, then U = A V / sigma.
    ViaAtA,
    /// Eigen-decompose `A A^T` (at least as many columns as rows): U directly, then V = A^T U / sigma.
    ViaAAt,
}

/// The column `j` of a row-major table: the `j`-th entry of every row long
/// enough to have one, in row order.
pub open spec fn table_column<T>(rows: Seq<Vec<T>>, j: int, upto: nat) -> Seq<T>
    decreases upto,
{
    if upto == 0 {
        Seq::empty()
    } else {
        table_column(rows, j, (upto - 1) as nat) + if j < rows[upto - 1]@.len() {
            seq![rows[upto - 1]@[j]]
        } else {
            Seq::empty()
        }
    }
}

proof fn lemma_table_column_full<T>(rows: Seq<Vec<T>>, j: int, k: nat)
    requires
        k <= rows.len(),
        forall|x: int| 0 <= x < k ==> j < (#[trigger] rows[x])@.len(),
    ensures
        table_column(rows, j, k).len() == k,
        forall|x: int| 0 <= x < k ==> #[trigger] table_column(rows, j, k)[x] == rows[x]@[j],
    decreases k,
{
    if k > 0 {
        lemma_table_column_full(rows, j, (k - 1) as nat);
        assert(j < rows[k - 1]@.len());
    }
}

/// Transposing twice gives back any rectangular table with at least one
/// row and one column: if `t` is the transpose of `m` and `u` that of `t`
/// (as `transpose_dense` builds them), then `u` is `m`.
pub proof fn lemma_transpose_dense_involution<T>(m: Seq<Vec<T>>, t: Seq<Vec<T>>, u: Seq<Vec<T>>)
    requires
        m.len() > 0,
        m[0]@.len() > 0,
        forall|i: int| 0 <= i < m.len() ==> (#[trigger] m[i])@.len() == m[0]@.len(),
        t.len() == m[0]@.len(),
        forall|j: int| 0 <= j < t.len() ==> (#[trigger] t[j])@ == table_column(m, j, m.len()),
        u.len() == t[0]@.len(),
        forall|i: int| 0 <= i < u.len() ==> (#[trigger] u[i])@ == table_column(t, i, t.len()),
    ensures
        u.len() == m.len(),
        forall|i: int| 0 <= i < m.len() ==> (#[trigger] u[i])@ == m[i]@,
{
    assert forall|j: int| 0 <= j < t.len() implies (#[trigger] t[j])@.len() == m.len()
        && forall|i: int| 0 <= i < m.len() ==> #[trigger] t[j]@[i] == m[i]@[j] by {
        lemma_table_column_full(m, j, m.len());
    }
    assert(u.len() == m.len()) by {
        assert(t[0]@.len() == m.len());
    }
    assert forall|i: int| 0 <= i < m.len() implies (#[trigger] u[i])@ == m[i]@ by {
        lemma_table_column_full(t, i, t.len());
        assert(u[i]@ =~= m[i]@);
    }
}

/// Transposes a table stored as rows: result `j` collects entry `j` of each
/// row.  The first row fixes the number of columns; no row may be longer.
pub fn transpose_dense<T: Copy>(matrix: &[Vec<T>]) -> (result: Vec<Vec<T>>)
    requires
        matrix@.len() > 0 ==> forall|i: int| 0 <= i < matrix@.len() ==> #[trigger] matrix@[i]@.len() <= matrix@[0]@.len(),
    ensures
        result@.len() == if matrix@.len() == 0 { 0 } else { matrix@[0]@.len() },
        forall|j: int| 0 <= j < result@.len() ==> #[trigger] result@[j]@ == table_column(matrix@, j, matrix@.len()),
{
    if matrix.len() == 0 {
        return Vec::new();
    }
    let cols = matrix[0].len();
    let mut result: Vec<Vec<T>> = Vec::new();
    let mut j: usize = 0;
    while j < cols
        invariant
            j <= cols,
            cols == matrix@[0]@.len(),
            result@.len() == j,
            forall|c: int| 0 <= c < j ==> #[trigger] result@[c]@ == table_column(matrix@, c, matrix@.len()),
        decreases cols - j,
    {
        let mut column: Vec<T> = Vec::new();
        let mut i: usize = 0;
        while i < matrix.len()
            invariant
                i <= matrix@.len(),
                column@ == table_column(matrix@, j as int, i as nat),
            decreases matrix@.len() - i,
        {
            if j < matrix[i].len() {
                column.push(matrix[i][j]);
            }
            proof {
                assert(table_column(matrix@, j as int, (i + 1) as nat) == table_column(matrix@, j as int, i as nat)
                    + if (j as int) < matrix@[i as int]@.len() { seq![matrix@[i as int]@[j as int]] } else { Seq::<T>::empty() });
                if (j as int) >= matrix@[i as int]@.len() {
                    assert(column@ =~= table_column(matrix@, j as int, i as nat) + Seq::<T>::empty());
                }
            }
            i = i + 1;
        }
        result.push(column);
        j = j + 1;
    }
    result
}

/// One step of the linear congruential generator used for random test
/// matrices: `(1103515245 * s + 12345) mod 2^64`, then reduced mod `2^31`.
pub open spec fn lcg_next(s: u64) -> u64 {
    (vstd::wrapping::u64_specs::wrapping_add(vstd::wrapping::u64_specs::wrapping_mul(1103515245, s), 12345)
        % 2147483648) as u64
}

/// The generator state after `n` steps from `s`.
pub open spec fn lcg_iter(s: u64, n: nat) -> u64
    decreases n,
{
    if n == 0 { s } else { lcg_next(lcg_iter(s, (n - 1) as nat)) }
}

/// The decimal digits of `v`, most significant first.
pub open spec fn decimal(v: nat) -> Seq<char>
    decreases v,
{
    if v < 10 {
        seq![(v + 48) as char]
    } else {
        decimal(v / 10).push((v % 10 + 48) as char)
    }
}

/// `prefix`, the count `got` in decimal, `middle`, then `expected` in decimal.
pub open spec fn count_text(prefix: Seq<char>, got: nat, middle: Seq<char>, expected: nat) -> Seq<char> {
    prefix + decimal(got) + middle + decimal(expected)
}

/// The decimal digit `d` as text.
fn digit_text(d: usize) -> (t: &'static str)
    requires
        d < 10,
    ensures
        t@ == seq![(d + 48) as char],
{
    match d {
        0 => {
            proof { reveal_strlit("0"); }
            "0"
        }
        1 => {
            proof { reveal_strlit("1"); }
            "1"
        }
        2 => {
            proof { reveal_strlit("2"); }
            "2"
        }
        3 => {
            proof { reveal_strlit("3"); }
            "3"
        }
        4 => {
            proof { reveal_strlit("4"); }
            "4"
        }
        5 => {
            proof { reveal_strlit("5"); }
            "5"
        }
        6 => {
            proof { reveal_strlit("6"); }
            "6"
        }
        7 => {
            proof { reveal_strlit("7"); }
            "7"
        }
        8 => {
            proof { reveal_strlit("8"); }
            "8"
        }
        _ => {
            proof { reveal_strlit("9"); }
            "9"
        }
    }
}

/// Appends the decimal digits of `v` to `s`.
fn append_decimal(s: &mut String, v: usize)
    ensures
        final(s)@ == old(s)@ + decimal(v as nat),
    decreases v,
{
    if v >= 10 {
        append_decimal(s, v / 10);
    }
    let d = digit_text(v % 10);
    s.append(d);
    proof {
        if v >= 10 {
            assert(decimal(v as nat) == decimal((v / 10) as nat).push(((v % 10) + 48) as char));
        }
    }
}

/// Two text pieces and two counts, each count written in decimal: the text
/// `format!` gives for `usize` counts.
fn count_message(prefix: &str, got: usize, middle: &str, expected: usize) -> (s: String)
    ensures
        s@ == count_text(prefix@, got as nat, middle@, expected as nat),
{
    let mut s = String::from_str(prefix);
    append_decimal(&mut s, got);
    s.append(middle);
    append_decimal(&mut s, expected);
    s
}

/// The smaller of a singular value count and the maximum rank.
pub open spec fn capped_rank(len: nat, max_rank: usize) -> usize {
    if len <= max_rank { len as usize } else { max_rank }
}

/// Whether `m` is the `rows x cols` table of generator states started from
/// `start`: entry `(r, c)` is the state after `r * cols + c + 1` steps.
pub open spec fn lcg_table(m: Seq<Vec<u64>>, start: u64, rows: nat, cols: nat) -> bool {
&&& m.len() == rows
&&& forall|r: int| 0 <= r < rows ==> (#[trigger] m[r])@.len() == cols
&&& forall|r: int, c: int| 0 <= r < rows && 0 <= c < cols ==> #[trigger] m[r]@[c]
        == lcg_iter(start, (r * cols + c + 1) as nat)
}

/// The generator states that fill a `rows x cols` random test matrix, row by
/// row, starting from `seed`; the kernel maps each state `s` to
/// `s / 2^31 - 1/2`.
pub fn lcg_states(seed: u64, rows: usize, cols: usize) -> (m: Vec<Vec<u64>>)
    ensures
        lcg_table(m@, seed, rows as nat, cols as nat),
{
    let mut state: u64 = seed;
    let mut matrix: Vec<Vec<u64>> = Vec::new();
    let mut r: usize = 0;
    while r < rows
        invariant
            r <= rows,
            matrix@.len() == r,
            state == lcg_iter(seed, (r * cols) as nat),
            forall|a: int| 0 <= a < r ==> (#[trigger] matrix@[a])@.len() == cols,
            forall|a: int, c: int| 0 <= a < r && 0 <= c < cols ==> #[trigger] matrix@[a]@[c] == lcg_iter(seed, (a * cols + c + 1) as nat),
        decreases rows - r,
    {
        let mut row: Vec<u64> = Vec::new();
        let mut c: usize = 0;
        while c < cols
            invariant
                c <= cols,
                row@.len() == c,
                state == lcg_iter(seed, (r * cols + c) as nat),
                forall|b: int| 0 <= b < c ==> #[trigger] row@[b] == lcg_iter(seed, (r * cols + b + 1) as nat),
            decreases cols - c,
        {
            state = 1103515245u64.wrapping_mul(state).wrapping_add(12345) % 2147483648;
            row.push(state);
            c = c + 1;
        }
        matrix.push(row);
        proof {
            assert((r * cols + cols) == (r + 1) * cols) by (nonlinear_arith);
        }
        r = r + 1;
    }
    matrix
}

/// `std::collections::hash_map::RandomState::new`: a hasher builder whose
/// keys the standard library draws at random.  Nothing is stated about it.
#[verifier::external_body]
fn fresh_random_state() -> std::collections::hash_map::RandomState {
    std::collections::hash_map::RandomState::new()
}

/// `std::hash::BuildHasher::hash_one` of the byte 0 under `state`: a value
/// that depends on the state's random keys.  Nothing is stated about it.
#[verifier::external_body]
fn random_state_draw(state: &std::collections::hash_map::RandomState) -> u64 {
    std::hash::BuildHasher::hash_one(state, 0u8)
}

/// Randomized Sparse SVD solver.
pub struct RandomizedSparseSvd {
    config: RandomizedSparseSvdConfig,
}

impl RandomizedSparseSvd {
    /// The configuration.
    pub closed spec fn spec_config(&self) -> RandomizedSparseSvdConfig { self.config }

    /// Creates a randomized sparse SVD solver with the given configuration.
    pub fn new(config: RandomizedSparseSvdConfig) -> (s: Self)
        ensures
            s.spec_config() == config,
    {
        RandomizedSparseSvd { config }
    }

    /// The configuration.
    pub fn config(&self) -> (c: &RandomizedSparseSvdConfig)
        ensures
            *c == self.spec_config(),
    {
        &self.config
    }

    /// Checks the configuration against an `m x n` matrix and returns the
    /// number of random vectors, `k + p`.
    pub fn sample_size(&self, m: usize, n: usize) -> (r: Result<usize, SVDError>)
        ensures
            ({
                let k = self.spec_config().num_singular_values;
                let p = self.spec_config().oversampling;
                match r {
                    Ok(size) => k > 0 && k + p <= n && k + p <= m && size == k + p,
                    Err(SVDError::InvalidConfig(msg)) =>
                        (k == 0 && msg@ == "num_singular_values must be positive"@)
                        || (k > 0 && (k + p > n || k + p > m) && msg@ == "k + oversampling must be <= min(m, n)"@),
                    Err(_) => false,
                }
            }),
    {
        let k = self.config.num_singular_values;
        let p = self.config.oversampling;
        if k == 0 {
            return Err(SVDError::InvalidConfig("num_singular_values must be positive".to_owned()));
        }
        if k > n || p > n - k || k > m || p > m - k {
            return Err(SVDError::InvalidConfig("k + oversampling must be <= min(m, n)".to_owned()));
        }
        Ok(k + p)
    }

    /// The generator states that fill a `rows x cols` random test matrix,
    /// row by row (`lcg_states`), starting from the configured seed, or from
    /// a seed drawn from the system's randomness when none is set.
    pub fn random_states(&self, rows: usize, cols: usize) -> (m: Vec<Vec<u64>>)
        ensures
            exists|start: u64| #[trigger] lcg_table(m@, start, rows as nat, cols as nat)
                && (self.spec_config().seed matches Some(s) ==> start == s),
    {
        let seed: u64 = match self.config.seed {
            Some(s) => s,
            None => random_state_draw(&fresh_random_state()),
        };
        let m = lcg_states(seed, rows, cols);
        assert(lcg_table(m@, seed, rows as nat, cols as nat));
        m
    }
}

/// Truncated SVD solver using Lanczos iteration on `A^T A` or `A A^T`.
pub struct TruncatedSVD<T> {
    config: TruncatedSVDConfig<T>,
}

impl<T> TruncatedSVD<T> {
    /// The configuration.
    pub closed spec fn spec_config(&self) -> TruncatedSVDConfig<T> { self.config }

    /// Creates a truncated SVD solver with the given configuration.
    pub fn new(config: TruncatedSVDConfig<T>) -> (s: Self)
        ensures
            s.spec_config() == config,
    {
        TruncatedSVD { config }
    }

    /// The configuration.
    pub fn config(&self) -> (c: &TruncatedSVDConfig<T>)
        ensures
            *c == self.spec_config(),
    {
        &self.config
    }

    /// Checks the configuration against `a` and chooses the smaller of the
    /// two symmetric products to diagonalize.
    pub fn compute(&self, a: &CsrMatrix<T>) -> (r: Result<SvdRoute, SVDError>)
        ensures
            ({
                let k = self.spec_config().num_singular_values;
                let kd = self.spec_config().krylov_dimension;
                let m = a.spec_nrows();
                let n = a.spec_ncols();
                let min_dim = if m <= n { m } else { n };
                match r {
                    Ok(route) => k > 0 && k < min_dim && kd > k
                        && route == if n < m { SvdRoute::ViaAtA } else { SvdRoute::ViaAAt },
                    Err(SVDError::InvalidConfig(msg)) =>
                        (k == 0 && msg@ == "num_singular_values must be positive"@)
                        || (k > 0 && k >= min_dim && msg@ == "num_singular_values must be less than min(m, n)"@)
                        || (k > 0 && k < min_dim && kd <= k
                            && msg@ == "krylov_dimension must be greater than num_singular_values"@),
                    Err(_) => false,
                }
            }),
    {
        let k = self.config.num_singular_values;
        let m = a.nrows();
        let n = a.ncols();
        let min_dim = if m <= n { m } else { n };
        if k == 0 {
            return Err(SVDError::InvalidConfig("num_singular_values must be positive".to_owned()));
        }
        if k >= min_dim {
            return Err(SVDError::InvalidConfig("num_singular_values must be less than min(m, n)".to_owned()));
        }
        if self.config.krylov_dimension <= k {
            return Err(SVDError::InvalidConfig(
                "krylov_dimension must be greater than num_singular_values".to_owned(),
            ));
        }
        if n < m {
            Ok(SvdRoute::ViaAtA)
        } else {
            Ok(SvdRoute::ViaAAt)
        }
    }
}

/// Incremental SVD kept as `A ~ U diag(s) V^T` for streaming updates.
pub struct IncrementalSVD<T> {
    config: IncrementalSVDConfig<T>,
    u: Vec<Vec<T>>,
    s: Vec<T>,
    vt: Vec<Vec<T>>,
    m: usize,
    n: usize,
    k: usize,
}

/// The oversampling used to initialize an incremental SVD of rank `k` on a
/// matrix whose smaller dimension is `min_dim`: 5 when room allows, else
/// whatever room is left.
pub open spec fn initial_oversampling(k: nat, min_dim: nat) -> nat {
    if k + 5 <= min_dim { 5 } else if min_dim >= k { (min_dim - k) as nat } else { 0 }
}

/// The oversampling chosen at initialization leaves room for the sample:
/// for a rank `k` with `0 < k <= min_dim`, `k` plus the oversampling never
/// exceeds `min_dim`, and the oversampling is `min(5, min_dim - k)`: it is 5
/// unless that would overflow `min_dim`, in which case it fills it exactly.
pub proof fn lemma_initial_sample_fits(k: nat, min_dim: nat)
    requires
        0 < k <= min_dim,
    ensures
        k + initial_oversampling(k, min_dim) <= min_dim,
        initial_oversampling(k, min_dim) <= 5,
        initial_oversampling(k, min_dim) == 5 || k + initial_oversampling(k, min_dim) == min_dim,
{
}

impl<T> IncrementalSVD<T> {
    /// The configuration.
    pub closed spec fn spec_config(&self) -> IncrementalSVDConfig<T> { self.config }

    /// Left singular vectors, one row per matrix row.
    pub closed spec fn spec_u(&self) -> Seq<Vec<T>> { self.u@ }

    /// Singular values.
    pub closed spec fn spec_s(&self) -> Seq<T> { self.s@ }

    /// Right singular vectors transposed, one row per singular value.
    pub closed spec fn spec_vt(&self) -> Seq<Vec<T>> { self.vt@ }

    /// Current number of rows.
    pub closed spec fn spec_m(&self) -> usize { self.m }

    /// Current number of columns.
    pub closed spec fn spec_n(&self) -> usize { self.n }

    /// Current rank.
    pub closed spec fn spec_k(&self) -> usize { self.k }

    /// Creates an empty incremental SVD.
    pub fn new(config: IncrementalSVDConfig<T>) -> (s: Self)
        ensures
            s.spec_config() == config,
            s.spec_u().len() == 0,
            s.spec_s().len() == 0,
            s.spec_vt().len() == 0,
            s.spec_m() == 0,
            s.spec_n() == 0,
            s.spec_k() == 0,
    {
        IncrementalSVD { config, u: Vec::new(), s: Vec::new(), vt: Vec::new(), m: 0, n: 0, k: 0 }
    }

    /// Records the shape of the initial matrix and decides the randomized SVD
    /// that computes the initial factors: rank `min(rank, m, n)`, oversampling
    /// per `initial_oversampling`, two power iterations, vectors requested.
    /// The factors it produces are stored with `set_factors`.
    pub fn initialize(&mut self, a: &CsrMatrix<T>, rank: usize) -> (r: Result<RandomizedSparseSvdConfig, SVDError>)
        ensures
            final(self).spec_m() == a.spec_nrows(),
            final(self).spec_n() == a.spec_ncols(),
            final(self).spec_config() == old(self).spec_config(),
            final(self).spec_u() == old(self).spec_u(),
            final(self).spec_s() == old(self).spec_s(),
            final(self).spec_vt() == old(self).spec_vt(),
            final(self).spec_k() == old(self).spec_k(),
            ({
                let m = a.spec_nrows() as nat;
                let n = a.spec_ncols() as nat;
                let min_dim: nat = if m <= n { m } else { n };
                let k: nat = if rank <= min_dim { rank as nat } else { min_dim };
                match r {
                    Ok(cfg) => m > 0 && n > 0 && k > 0
                        && cfg.num_singular_values == k
                        && cfg.oversampling == initial_oversampling(k, min_dim)
                        && cfg.num_singular_values + cfg.oversampling <= m
                        && cfg.num_singular_values + cfg.oversampling <= n
                        && cfg.oversampling <= 5
                        && (cfg.oversampling == 5 || cfg.num_singular_values + cfg.oversampling == min_dim)
                        && cfg.power_iterations == 2
                        && cfg.seed is None
                        && cfg.compute_vectors,
                    Err(SVDError::InvalidConfig(msg)) =>
                        ((m == 0 || n == 0) && msg@ == "Matrix must be non-empty"@)
                        || (m > 0 && n > 0 && k == 0 && msg@ == "Rank must be positive"@),
                    Err(_) => false,
                }
            }),
    {
        self.m = a.nrows();
        self.n = a.ncols();
        if self.m == 0 || self.n == 0 {
            return Err(SVDError::InvalidConfig("Matrix must be non-empty".to_owned()));
        }
        let min_dim = if self.m <= self.n { self.m } else { self.n };
        let k = if rank <= min_dim { rank } else { min_dim };
        if k == 0 {
            return Err(SVDError::InvalidConfig("Rank must be positive".to_owned()));
        }
        let oversampling = if min_dim >= 5 && k <= min_dim - 5 { 5 } else { min_dim - k };
        Ok(RandomizedSparseSvdConfig {
            num_singular_values: k,
            oversampling,
            power_iterations: 2,
            seed: None,
            compute_vectors: true,
        })
    }

    /// Stores the factors of the initial randomized SVD: the singular values
    /// and rank always; `U` (transposed into one row per matrix row) and
    /// `V^T` only when both sets of vectors are present, which is required.
    pub fn set_factors(&mut self, result: RandomizedSparseSvdResult<T>) -> (r: Result<(), SVDError>)
        where T: Copy,
        requires
            result.u matches Some(u) ==> u@.len() > 0 ==> forall|i: int| 0 <= i < u@.len()
                ==> #[trigger] u@[i]@.len() <= u@[0]@.len(),
        ensures
            final(self).spec_s() == result.singular_values@,
            final(self).spec_k() == result.singular_values@.len(),
            final(self).spec_m() == old(self).spec_m(),
            final(self).spec_n() == old(self).spec_n(),
            final(self).spec_config() == old(self).spec_config(),
            match (result.u, result.v) {
                (Some(u), Some(v)) => r is Ok && final(self).spec_vt() == v@
                    && final(self).spec_u().len() == if u@.len() == 0 { 0 } else { u@[0]@.len() }
                    && forall|i: int| 0 <= i < final(self).spec_u().len()
                        ==> #[trigger] final(self).spec_u()[i]@ == table_column(u@, i, u@.len()),
                _ => (r matches Err(SVDError::ComputationError(msg)) && msg@ == "Failed to compute singular vectors"@)
                    && final(self).spec_u() == old(self).spec_u() && final(self).spec_vt() == old(self).spec_vt(),
            },
    {
        let RandomizedSparseSvdResult { singular_values, u, v } = result;
        let k = singular_values.len();
        self.s = singular_values;
        self.k = k;
        match (u, v) {
            (Some(u_vecs), Some(v_vecs)) => {
                self.u = transpose_dense(u_vecs.as_slice());
                self.vt = v_vecs;
                Ok(())
            }
            _ => Err(SVDError::ComputationError("Failed to compute singular vectors".to_owned())),
        }
    }

    /// The checks before `n`-column rows are appended: no rows is nothing to
    /// do (`Ok(false)`); the first row whose length is not the current
    /// column count is reported; an uninitialized SVD (rank 0) is refused;
    /// otherwise the update goes ahead (`Ok(true)`).
    pub fn check_new_rows(&self, new_rows: &[Vec<T>]) -> (r: Result<bool, SVDError>)
        ensures
            match r {
                Ok(false) => new_rows@.len() == 0,
                Ok(true) => new_rows@.len() > 0 && self.spec_k() > 0
                    && forall|i: int| 0 <= i < new_rows@.len() ==> (#[trigger] new_rows@[i])@.len() == self.spec_n(),
                Err(SVDError::InvalidConfig(msg)) => exists|b: int| 0 <= b < new_rows@.len()
                    && (forall|i: int| 0 <= i < b ==> (#[trigger] new_rows@[i])@.len() == self.spec_n())
                    && new_rows@[b]@.len() != self.spec_n()
                    && msg@ == count_text("New row has "@, new_rows@[b]@.len(), " columns, expected "@, self.spec_n() as nat),
                Err(SVDError::ComputationError(msg)) => new_rows@.len() > 0 && self.spec_k() == 0
                    && (forall|i: int| 0 <= i < new_rows@.len() ==> (#[trigger] new_rows@[i])@.len() == self.spec_n())
                    && msg@ == "SVD not initialized"@,
                Err(_) => false,
            },
    {
        if new_rows.len() == 0 {
            return Ok(false);
        }
        let mut i: usize = 0;
        while i < new_rows.len()
            invariant
                i <= new_rows@.len(),
                forall|j: int| 0 <= j < i ==> (#[trigger] new_rows@[j])@.len() == self.spec_n(),
            decreases new_rows@.len() - i,
        {
            if new_rows[i].len() != self.n {
                let msg = count_message("New row has ", new_rows[i].len(), " columns, expected ", self.n);
                return Err(SVDError::InvalidConfig(msg));
            }
            i = i + 1;
        }
        if self.k == 0 {
            return Err(SVDError::ComputationError("SVD not initialized".to_owned()));
        }
        Ok(true)
    }

    /// The checks before `m`-row columns are appended, as for rows.
    pub fn check_new_columns(&self, new_cols: &[Vec<T>]) -> (r: Result<bool, SVDError>)
        ensures
            match r {
                Ok(false) => new_cols@.len() == 0,
                Ok(true) => new_cols@.len() > 0 && self.spec_k() > 0
                    && forall|i: int| 0 <= i < new_cols@.len() ==> (#[trigger] new_cols@[i])@.len() == self.spec_m(),
                Err(SVDError::InvalidConfig(msg)) => exists|b: int| 0 <= b < new_cols@.len()
                    && (forall|i: int| 0 <= i < b ==> (#[trigger] new_cols@[i])@.len() == self.spec_m())
                    && new_cols@[b]@.len() != self.spec_m()
                    && msg@ == count_text("New column has "@, new_cols@[b]@.len(), " rows, expected "@, self.spec_m() as nat),
                Err(SVDError::ComputationError(msg)) => new_cols@.len() > 0 && self.spec_k() == 0
                    && (forall|i: int| 0 <= i < new_cols@.len() ==> (#[trigger] new_cols@[i])@.len() == self.spec_m())
                    && msg@ == "SVD not initialized"@,
                Err(_) => false,
            },
    {
        if new_cols.len() == 0 {
            return Ok(false);
        }
        let mut i: usize = 0;
        while i < new_cols.len()
            invariant
                i <= new_cols@.len(),
                forall|j: int| 0 <= j < i ==> (#[trigger] new_cols@[j])@.len() == self.spec_m(),
            decreases new_cols@.len() - i,
        {
            if new_cols[i].len() != self.m {
                let msg = count_message("New column has ", new_cols[i].len(), " rows, expected ", self.m);
                return Err(SVDError::InvalidConfig(msg));
            }
            i = i + 1;
        }
        if self.k == 0 {
            return Err(SVDError::ComputationError("SVD not initialized".to_owned()));
        }
        Ok(true)
    }

    /// The rank kept after an update whose small SVD has `s_len` singular
    /// values: at most `max_rank`.
    pub fn updated_rank(&self, s_len: usize) -> (k: usize)
        ensures
            k == capped_rank(s_len as nat, self.spec_config().max_rank),
    {
        if s_len <= self.config.max_rank { s_len } else { self.config.max_rank }
    }

    /// Appends the rows of `U` for `p` new matrix rows when they add no new
    /// direction: the rank and the other factors stay.
    pub fn append_rows(&mut self, u_rows: Vec<Vec<T>>)
        requires
            old(self).spec_m() + u_rows@.len() <= usize::MAX,
        ensures
            final(self).spec_u() == old(self).spec_u() + u_rows@,
            final(self).spec_m() == old(self).spec_m() + u_rows@.len(),
            final(self).spec_s() == old(self).spec_s(),
            final(self).spec_vt() == old(self).spec_vt(),
            final(self).spec_n() == old(self).spec_n(),
            final(self).spec_k() == old(self).spec_k(),
            final(self).spec_config() == old(self).spec_config(),
    {
        let p = u_rows.len();
        let mut rows = u_rows;
        self.u.append(&mut rows);
        self.m = self.m + p;
    }

    /// Appends the entries of `V^T` for `q` new matrix columns when they add
    /// no new direction: row `i` of `V^T` gains `extra[i]` for each row that
    /// `extra` holds (one per singular value); the rank and the other
    /// factors stay.
    pub fn append_columns(&mut self, extra: Vec<Vec<T>>, q: usize)
        requires
            extra@.len() <= old(self).spec_vt().len(),
            forall|i: int| 0 <= i < extra@.len() ==> (#[trigger] extra@[i])@.len() == q,
            old(self).spec_n() + q <= usize::MAX,
        ensures
            final(self).spec_vt().len() == old(self).spec_vt().len(),
            forall|i: int| 0 <= i < extra@.len() ==> (#[trigger] final(self).spec_vt()[i])@
                == old(self).spec_vt()[i]@ + extra@[i]@,
            forall|i: int| extra@.len() <= i < old(self).spec_vt().len()
                ==> #[trigger] final(self).spec_vt()[i] == old(self).spec_vt()[i],
            final(self).spec_n() == old(self).spec_n() + q,
            final(self).spec_u() == old(self).spec_u(),
            final(self).spec_s() == old(self).spec_s(),
            final(self).spec_m() == old(self).spec_m(),
            final(self).spec_k() == old(self).spec_k(),
            final(self).spec_config() == old(self).spec_config(),
    {
        let ghost old_vt = self.vt@;
        let ghost all_extra = extra@;
        let ghost before = *self;
        let mut extra = extra;
        let mut i: usize = extra.len();
        while i > 0
            invariant
                i <= all_extra.len(),
                all_extra.len() <= old_vt.len(),
                forall|j: int| 0 <= j < all_extra.len() ==> (#[trigger] all_extra[j])@.len() == q,
                extra@ == all_extra.take(i as int),
                self.vt@.len() == old_vt.len(),
                forall|j: int| 0 <= j < i ==> #[trigger] self.vt@[j] == old_vt[j],
                forall|j: int| all_extra.len() <= j < old_vt.len() ==> #[trigger] self.vt@[j] == old_vt[j],
                forall|j: int| i <= j < all_extra.len() ==> (#[trigger] self.vt@[j])@ == old_vt[j]@ + all_extra[j]@,
                self.n == before.n && self.m == before.m && self.k == before.k,
                self.u == before.u && self.s == before.s && self.config == before.config,
                before.n + q <= usize::MAX,
            decreases i,
        {
            let mut more = extra.pop().unwrap();
            assert(more == all_extra[i - 1]);
            i = i - 1;
            self.vt[i].append(&mut more);
        }
        self.n = self.n + q;
    }

    /// Stores the factors after `p` rows added new directions: `U` and `V^T`
    /// become the rotated factors `u_new` and `vt_new`, the singular values
    /// the first `updated_rank` of `s_new`, and the row count grows by `p`.
    pub fn store_row_update(&mut self, u_new: Vec<Vec<T>>, vt_new: Vec<Vec<T>>, s_new: Vec<T>, p: usize)
        requires
            old(self).spec_m() + p <= usize::MAX,
        ensures
            final(self).spec_u() == u_new@,
            final(self).spec_vt() == vt_new@,
            final(self).spec_s() == s_new@.take(capped_rank(s_new@.len(), old(self).spec_config().max_rank) as int),
            final(self).spec_k() == capped_rank(s_new@.len(), old(self).spec_config().max_rank),
            final(self).spec_k() <= old(self).spec_config().max_rank,
            final(self).spec_m() == old(self).spec_m() + p,
            final(self).spec_n() == old(self).spec_n(),
            final(self).spec_config() == old(self).spec_config(),
    {
        let k_new = self.updated_rank(s_new.len());
        let mut s = s_new;
        s.truncate(k_new);
        self.u = u_new;
        self.vt = vt_new;
        self.s = s;
        self.k = k_new;
        self.m = self.m + p;
    }

    /// Stores the factors after `q` columns added new directions: `U` and
    /// `V^T` become the rotated factors `u_new` and `vt_new`, the singular
    /// values the first `updated_rank` of `s_new`, and the column count
    /// grows by `q`.
    pub fn store_column_update(&mut self, u_new: Vec<Vec<T>>, vt_new: Vec<Vec<T>>, s_new: Vec<T>, q: usize)
        requires
            old(self).spec_n() + q <= usize::MAX,
        ensures
            final(self).spec_u() == u_new@,
            final(self).spec_vt() == vt_new@,
            final(self).spec_s() == s_new@.take(capped_rank(s_new@.len(), old(self).spec_config().max_rank) as int),
            final(self).spec_k() == capped_rank(s_new@.len(), old(self).spec_config().max_rank),
            final(self).spec_k() <= old(self).spec_config().max_rank,
            final(self).spec_n() == old(self).spec_n() + q,
            final(self).spec_m() == old(self).spec_m(),
            final(self).spec_config() == old(self).spec_config(),
    {
        let k_new = self.updated_rank(s_new.len());
        let mut s = s_new;
        s.truncate(k_new);
        self.u = u_new;
        self.vt = vt_new;
        self.s = s;
        self.k = k_new;
        self.n = self.n + q;
    }

    /// Current factors `(U, s, V^T)`.
    pub fn get_svd(&self) -> (f: (&[Vec<T>], &[T], &[Vec<T>]))
        ensures
            f.0@ == self.spec_u(),
            f.1@ == self.spec_s(),
            f.2@ == self.spec_vt(),
    {
        (self.u.as_slice(), self.s.as_slice(), self.vt.as_slice())
    }

    /// Current rank.
    pub fn rank(&self) -> (k: usize)
        ensures
            k == self.spec_k(),
    {
        self.k
    }

    /// Current dimensions `(m, n)`.
    pub fn dimensions(&self) -> (d: (usize, usize))
        ensures
            d == (self.spec_m(), self.spec_n()),
    {
        (self.m, self.n)
    }
}

} // verus!
