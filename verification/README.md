# oxiblas (verified core)

The structural core of a BLAS / sparse linear algebra toolkit, written in
Verus.  The functions in `src/` are verified against their contracts, with
these exceptions: five small trusted wrappers whose contracts are assumed,
not proved, and which state nothing about their results
(`scalar_zero`, `scalar_one` and `scalar_from_decimal` in `scalar`, calling
`num-traits`; `fresh_random_state` and `random_state_draw` in `svd`, which
draw a seed from the standard library's randomly keyed hasher), and
`decimal_or_zero`, which is verified but has no `ensures`, since its result
is whatever those `num-traits` calls give back.

- `mat_ref` — strided column-major matrix views (submatrices, rows,
  columns, diagonal, transpose, splits) over borrowed slices.
- `prefetch` — cache-line prefetch plans for ranges, columns, blocks and a
  column-by-column traversal.
- `layout` — which strided two-dimensional layouts give a column-major
  view, directly or transposed.
- `compressed`, `sparse` — CSR / CSC storage, validation, conversion in
  both directions and the round-trip laws.
- `merge`, `sorted` — the union of two sorted sparse rows, step by step;
  insertion into a strictly increasing index list.
- `permutation`, `etree`, `supernodal` — inverse permutations, symmetric
  permutation of a pattern, elimination trees (from the upper or the lower
  triangle), supernode detection and block layout for supernodal
  Cholesky / LU.
- `precond`, `qr` — sparsity patterns and assembly for the SPAI / AINV
  preconditioners; the permuted working matrix of sparse QR.
- `eigen`, `svd` — solver configurations, defaults and the decisions taken
  before the iterations run; the pseudo-random starting streams; the
  bookkeeping of the incremental SVD's factors between updates.
- `iterative` — error and result types of the MINRES / QMR solvers and the
  size checks made before they iterate.
- `scalar` — zero, one and decimal constants of a generic scalar type,
  obtained from `num-traits`.

`app/` holds what runs outside the verified library: prefetch
instructions, `ndarray` / `nalgebra` conversions, and the floating-point
kernels (SPAI, AINV, sparse QR, supernodal Cholesky / LU, pivoting LU and
LDL^T, MINRES / QMR, Arnoldi, generalized and polynomial-filtered Lanczos,
interval bisection, randomized and incremental SVD) built on the library's
structural functions.

Left out: the lazy expression templates (`lazy.rs`, with `ComplexScalar`)
and the IRAM solver.  The expressions evaluate into the toolkit's owned
matrix type and rest on the core crate's scalar traits, and IRAM on its
configuration type, none of which this crate has.
