//! Prefetch planning for cache-friendly traversal of matrices.
//!
//! The functions here decide *which* byte offsets (relative to a base address)
//! must be brought into cache; issuing the actual prefetch instructions is left
//! to the caller, which owns the raw memory.
use vstd::prelude::*;

verus! {

/// Cache locality hint for prefetch operations.
#[derive(Debug, Clone, Copy, PartialEq, Eq, Structural)]
pub enum PrefetchLocality {
    /// Data will be used once and not reused.
    NonTemporal,
    /// Data will be used a few times (typically L3).
    Low,
    /// Data will be used moderately (typically L2).
    Medium,
    /// Data will be heavily reused (L1).
    High,
}

/// Cache line size in bytes (typical for modern CPUs).
pub const CACHE_LINE_SIZE: usize = 64;

/// Suggested prefetch distance in cache lines for sequential access.
pub const PREFETCH_DISTANCE_LINES: usize = 8;

/// Suggested prefetch distance in bytes for sequential access.
pub const PREFETCH_DISTANCE_BYTES: usize = PREFETCH_DISTANCE_LINES * CACHE_LINE_SIZE;

/// Number of cache lines needed to cover `bytes` bytes (rounded up).
pub open spec fn lines_for(bytes: nat) -> nat {
    ((bytes + 63) / 64) as nat
}

/// The byte offsets of the cache lines covering `[0, bytes)`, shifted by `base`.
pub open spec fn line_offsets(base: nat, bytes: nat) -> Seq<nat> {
    Seq::new(lines_for(bytes), |i: int| (base + i * 64) as nat)
}

/// Byte offsets of the cache lines that cover `len` elements of `elem_size` bytes.
///
/// An empty range needs no prefetch.
pub fn range_line_offsets(elem_size: usize, len: usize) -> (offsets: Vec<usize>)
    requires
        len * elem_size <= usize::MAX,
    ensures
        offsets@.map_values(|o: usize| o as nat) == line_offsets(0, (len * elem_size) as nat),
{
    let mut offsets: Vec<usize> = Vec::new();
    if len == 0 {
        proof {
            assert(len * elem_size == 0) by (nonlinear_arith) requires len == 0;
            assert(offsets@.map_values(|o: usize| o as nat) =~= line_offsets(0, 0));
        }
        return offsets;
    }
    let byte_len: usize = len * elem_size;
    let num_lines: usize = byte_len / CACHE_LINE_SIZE + if byte_len % CACHE_LINE_SIZE == 0 { 0 } else { 1 };
    assert(num_lines == lines_for(byte_len as nat));
    let mut i: usize = 0;
    while i < num_lines
        invariant
            i <= num_lines,
            num_lines == lines_for(byte_len as nat),
            byte_len == len * elem_size,
            num_lines * 64 <= byte_len + 63,
            offsets@.len() == i,
            forall|k: int| 0 <= k < i ==> #[trigger] offsets@[k] == k * 64,
        decreases num_lines - i,
    {
        offsets.push(i * CACHE_LINE_SIZE);
        i = i + 1;
    }
    proof {
        assert(offsets@.map_values(|o: usize| o as nat) =~= line_offsets(0, byte_len as nat));
    }
    offsets
}


/// Appends the line offsets covering `bytes` bytes starting at byte offset `base`.
fn push_line_offsets(offsets: &mut Vec<usize>, base: usize, bytes: usize)
    requires
        base + bytes + 64 <= usize::MAX,
    ensures
        final(offsets)@.map_values(|o: usize| o as nat)
            == old(offsets)@.map_values(|o: usize| o as nat) + line_offsets(base as nat, bytes as nat),
{
    let ghost start = offsets@;
    let num_lines: usize = bytes / CACHE_LINE_SIZE + if bytes % CACHE_LINE_SIZE == 0 { 0 } else { 1 };
    assert(num_lines == lines_for(bytes as nat));
    let mut i: usize = 0;
    while i < num_lines
        invariant
            i <= num_lines,
            num_lines == lines_for(bytes as nat),
            num_lines * 64 <= bytes + 63,
            base + bytes + 64 <= usize::MAX,
            offsets@.len() == start.len() + i,
            forall|k: int| 0 <= k < start.len() ==> #[trigger] offsets@[k] == start[k],
            forall|k: int| 0 <= k < i ==> #[trigger] offsets@[start.len() + k] == base + k * 64,
        decreases num_lines - i,
    {
        offsets.push(base + i * CACHE_LINE_SIZE);
        i = i + 1;
    }
    proof {
        let lhs = offsets@.map_values(|o: usize| o as nat);
        let rhs = start.map_values(|o: usize| o as nat) + line_offsets(base as nat, bytes as nat);
        assert forall|k: int| 0 <= k < lhs.len() implies lhs[k] == rhs[k] by {
            if k >= start.len() {
                assert(offsets@[start.len() + (k - start.len())] == base + (k - start.len()) * 64);
            }
        }
        assert(lhs =~= rhs);
    }
}

/// Rows of a strided column that are touched, one per cache line's worth
/// of elements: `step` is the number of elements per cache line (at least 1).
pub open spec fn strided_step(elem_size: nat) -> nat {
    if elem_size == 0 || 64nat / elem_size == 0 { 1 } else { 64nat / elem_size }
}

/// Number of prefetched rows of a strided column: the first
/// `min(lines_for(nrows * elem_size), nrows)` multiples of the step that still
/// lie inside the column.
pub open spec fn strided_count(elem_size: nat, nrows: nat) -> nat {
    let step = strided_step(elem_size);
    let cap: nat = if lines_for(nrows * elem_size) <= nrows { lines_for(nrows * elem_size) } else { nrows };
    let inside: nat = ((nrows + step - 1) / step as int) as nat;
    if cap <= inside { cap } else { inside }
}

/// Byte offsets to prefetch for one column of `nrows` elements whose
/// consecutive elements lie `row_stride` elements apart.
///
/// A column whose stride is at most one cache line is prefetched as a
/// contiguous range; otherwise one element per cache line's worth of rows is
/// prefetched.
pub open spec fn column_offsets_spec(elem_size: nat, nrows: nat, row_stride: nat) -> Seq<nat> {
    if row_stride == 1 || row_stride * elem_size <= 64 {
        line_offsets(0, nrows * elem_size)
    } else {
        Seq::new(
            strided_count(elem_size, nrows),
            |i: int| (i * strided_step(elem_size) * (row_stride * elem_size)) as nat,
        )
    }
}

proof fn lemma_row_inside(i: int, step: int, nrows: int)
    requires
        0 <= i,
        1 <= step,
        0 <= nrows,
    ensures
        i * step < nrows <==> i < (nrows + step - 1) / step,
{
    assert(i * step < nrows <==> i < (nrows + step - 1) / step) by (nonlinear_arith)
        requires 0 <= i, 1 <= step, 0 <= nrows;
}


proof fn lemma_mul_lt_bound(a: int, b: int, c: int, bound: int)
    requires
        0 <= a < b,
        0 <= c,
        b * c <= bound,
    ensures
        a * c <= bound,
        a * c + c <= bound,
{
    assert(a * c + c <= b * c) by (nonlinear_arith) requires 0 <= a < b, 0 <= c;
}

/// Byte offsets (relative to the column's first element) to prefetch for a
/// column of `nrows` elements of `elem_size` bytes, `row_stride` elements apart.
pub fn column_prefetch_offsets(elem_size: usize, nrows: usize, row_stride: usize) -> (offsets: Vec<usize>)
    requires
        nrows * elem_size + 64 <= usize::MAX,
        row_stride * elem_size <= usize::MAX,
        nrows * (row_stride * elem_size) <= usize::MAX,
    ensures
        offsets@.map_values(|o: usize| o as nat)
            == column_offsets_spec(elem_size as nat, nrows as nat, row_stride as nat),
{
    let mut offsets: Vec<usize> = Vec::new();
    let col_bytes: usize = row_stride * elem_size;
    let contiguous = row_stride == 1 || col_bytes <= CACHE_LINE_SIZE;
    if contiguous {
        proof {
            assert(offsets@.map_values(|o: usize| o as nat) =~= Seq::<nat>::empty());
        }
        push_line_offsets(&mut offsets, 0, nrows * elem_size);
        proof {
            assert(Seq::<nat>::empty() + line_offsets(0, (nrows * elem_size) as nat)
                =~= line_offsets(0, (nrows * elem_size) as nat));
        }
        return offsets;
    }
    // Strided access: the stride exceeds a cache line, so elem_size > 0.
    assert(elem_size > 0) by (nonlinear_arith)
        requires col_bytes > 64, col_bytes == row_stride * elem_size;
    let byte_len: usize = nrows * elem_size;
    let num_lines: usize = byte_len / CACHE_LINE_SIZE + if byte_len % CACHE_LINE_SIZE == 0 { 0 } else { 1 };
    let cap: usize = if num_lines <= nrows { num_lines } else { nrows };
    let per_line: usize = CACHE_LINE_SIZE / elem_size;
    let step: usize = if per_line >= 1 { per_line } else { 1 };
    assert(step <= 64);
    assert(nrows <= nrows * elem_size) by (nonlinear_arith) requires elem_size >= 1;
    let inside: usize = (nrows + step - 1) / step;
    assert(step == strided_step(elem_size as nat));
    assert(cap == if lines_for(byte_len as nat) <= nrows { lines_for(byte_len as nat) } else { nrows as nat });
    let ghost count: nat = if cap <= inside { cap as nat } else { inside as nat };
    assert(count == strided_count(elem_size as nat, nrows as nat));
    let mut i: usize = 0;
    while i < cap
        invariant
            i <= cap,
            cap <= nrows,
            1 <= step,
            col_bytes == row_stride * elem_size,
            nrows * col_bytes <= usize::MAX,
            inside == (nrows + step - 1) / step as int,
            offsets@.len() == if i <= inside { i as nat } else { inside as nat },
            forall|k: int| 0 <= k < offsets@.len() ==> #[trigger] offsets@[k] == k * step * col_bytes,
        decreases cap - i,
    {
        proof {
            lemma_row_inside(i as int, step as int, nrows as int);
        }
        if i < inside {
            let row: usize = i * step;
            proof {
                lemma_mul_lt_bound(row as int, nrows as int, col_bytes as int, usize::MAX as int);
            }
            offsets.push(row * col_bytes);
        }
        i = i + 1;
    }
    proof {
        let lhs = offsets@.map_values(|o: usize| o as nat);
        let rhs = column_offsets_spec(elem_size as nat, nrows as nat, row_stride as nat);
        assert(lhs.len() == rhs.len());
        assert forall|k: int| 0 <= k < lhs.len() implies lhs[k] == rhs[k] by {
            assert(offsets@[k] == k * step * col_bytes);
        }
        assert(lhs =~= rhs);
    }
    offsets
}


/// Byte offsets of the lines covering a `block_rows x block_cols` block whose
/// columns start `row_stride` elements apart: each column is prefetched as a
/// contiguous range, columns in increasing order.
pub open spec fn block_offsets_spec(elem_size: nat, block_rows: nat, block_cols: nat, row_stride: nat) -> Seq<nat>
    decreases block_cols,
{
    if block_cols == 0 {
        Seq::empty()
    } else {
        block_offsets_spec(elem_size, block_rows, (block_cols - 1) as nat, row_stride)
            + line_offsets(((block_cols - 1) * (row_stride * elem_size)) as nat, block_rows * elem_size)
    }
}

/// Byte offsets (relative to the block's first element) to prefetch for a
/// rectangular block of a column-major matrix.
pub fn block_prefetch_offsets(elem_size: usize, block_rows: usize, block_cols: usize, row_stride: usize) -> (offsets: Vec<usize>)
    requires
        row_stride * elem_size <= usize::MAX,
        block_cols * (row_stride * elem_size) + block_rows * elem_size + 64 <= usize::MAX,
    ensures
        offsets@.map_values(|o: usize| o as nat)
            == block_offsets_spec(elem_size as nat, block_rows as nat, block_cols as nat, row_stride as nat),
{
    let mut offsets: Vec<usize> = Vec::new();
    let col_bytes: usize = row_stride * elem_size;
    let rows_bytes: usize = block_rows * elem_size;
    let mut j: usize = 0;
    proof {
        assert(offsets@.map_values(|o: usize| o as nat) =~= block_offsets_spec(
            elem_size as nat, block_rows as nat, 0, row_stride as nat));
    }
    while j < block_cols
        invariant
            j <= block_cols,
            col_bytes == row_stride * elem_size,
            rows_bytes == block_rows * elem_size,
            block_cols * col_bytes + rows_bytes + 64 <= usize::MAX,
            offsets@.map_values(|o: usize| o as nat)
                == block_offsets_spec(elem_size as nat, block_rows as nat, j as nat, row_stride as nat),
        decreases block_cols - j,
    {
        proof {
            lemma_mul_lt_bound(j as int, block_cols as int, col_bytes as int, (usize::MAX - rows_bytes - 64) as int);
        }
        let base: usize = j * col_bytes;
        push_line_offsets(&mut offsets, base, rows_bytes);
        j = j + 1;
    }
    offsets
}

/// Prefetch planner for column-by-column traversal of a column-major matrix:
/// it keeps `distance` columns of look-ahead in cache.
pub struct MatrixPrefetcher {
    elem_size: usize,
    nrows: usize,
    ncols: usize,
    row_stride: usize,
    current_col: usize,
    distance: usize,
    locality: PrefetchLocality,
}

/// The matrix described by a prefetcher fits in the address space.
pub open spec fn prefetch_layout_fits(elem_size: nat, nrows: nat, ncols: nat, row_stride: nat) -> bool {
    &&& row_stride * elem_size <= usize::MAX
    &&& ncols * (row_stride * elem_size) + nrows * elem_size + 64 <= usize::MAX
}

/// Byte offsets of the lines covering column `col` of an `nrows`-row matrix.
pub open spec fn column_lines(elem_size: nat, nrows: nat, row_stride: nat, col: nat) -> Seq<nat> {
    line_offsets(col * (row_stride * elem_size), nrows * elem_size)
}

/// The lines of the first `count` columns, in column order.
pub open spec fn leading_columns_lines(elem_size: nat, nrows: nat, row_stride: nat, count: nat) -> Seq<nat>
    decreases count,
{
    if count == 0 {
        Seq::empty()
    } else {
        leading_columns_lines(elem_size, nrows, row_stride, (count - 1) as nat)
            + column_lines(elem_size, nrows, row_stride, (count - 1) as nat)
    }
}

impl MatrixPrefetcher {
    #[verifier::type_invariant]
    spec fn layout_fits(self) -> bool {
        prefetch_layout_fits(self.elem_size as nat, self.nrows as nat, self.ncols as nat, self.row_stride as nat)
    }

    /// Size in bytes of one element.
    pub closed spec fn spec_elem_size(self) -> usize { self.elem_size }

    /// Number of rows.
    pub closed spec fn spec_nrows(self) -> usize { self.nrows }

    /// Number of columns.
    pub closed spec fn spec_ncols(self) -> usize { self.ncols }

    /// Elements between the starts of consecutive columns.
    pub closed spec fn spec_row_stride(self) -> usize { self.row_stride }

    /// Column currently being processed.
    pub closed spec fn spec_current_col(self) -> usize { self.current_col }

    /// Look-ahead in columns.
    pub closed spec fn spec_distance(self) -> usize { self.distance }

    /// Locality hint for every prefetch.
    pub closed spec fn spec_locality(self) -> PrefetchLocality { self.locality }

    /// Creates a prefetcher positioned at column 0.
    pub fn new(
        elem_size: usize,
        nrows: usize,
        ncols: usize,
        row_stride: usize,
        distance: usize,
        locality: PrefetchLocality,
    ) -> (p: Self)
        requires
            prefetch_layout_fits(elem_size as nat, nrows as nat, ncols as nat, row_stride as nat),
        ensures
            p.spec_elem_size() == elem_size,
            p.spec_nrows() == nrows,
            p.spec_ncols() == ncols,
            p.spec_row_stride() == row_stride,
            p.spec_current_col() == 0,
            p.spec_distance() == distance,
            p.spec_locality() == locality,
    {
        MatrixPrefetcher { elem_size, nrows, ncols, row_stride, current_col: 0, distance, locality }
    }

    /// The locality hint used for every prefetch.
    pub fn locality(&self) -> (l: PrefetchLocality)
        ensures
            l == self.spec_locality(),
    {
        self.locality
    }

    /// Byte offsets of the first `min(distance, ncols)` columns, prefetched
    /// when the traversal starts.
    pub fn initial_offsets(&self) -> (offsets: Vec<usize>)
        ensures
            offsets@.map_values(|o: usize| o as nat) == leading_columns_lines(
                self.spec_elem_size() as nat,
                self.spec_nrows() as nat,
                self.spec_row_stride() as nat,
                if self.spec_distance() <= self.spec_ncols() { self.spec_distance() as nat } else { self.spec_ncols() as nat },
            ),
    {
        proof { use_type_invariant(self); }
        let count: usize = if self.distance <= self.ncols { self.distance } else { self.ncols };
        let col_bytes: usize = self.row_stride * self.elem_size;
        let rows_bytes: usize = self.nrows * self.elem_size;
        let mut offsets: Vec<usize> = Vec::new();
        let mut j: usize = 0;
        proof {
            assert(offsets@.map_values(|o: usize| o as nat) =~= leading_columns_lines(
                self.elem_size as nat, self.nrows as nat, self.row_stride as nat, 0));
        }
        while j < count
            invariant
                j <= count,
                count <= self.ncols,
                col_bytes == self.row_stride * self.elem_size,
                rows_bytes == self.nrows * self.elem_size,
                self.ncols * col_bytes + rows_bytes + 64 <= usize::MAX,
                offsets@.map_values(|o: usize| o as nat)
                    == leading_columns_lines(self.elem_size as nat, self.nrows as nat, self.row_stride as nat, j as nat),
            decreases count - j,
        {
            proof {
                lemma_mul_lt_bound(j as int, self.ncols as int, col_bytes as int, (usize::MAX - rows_bytes - 64) as int);
            }
            let base: usize = j * col_bytes;
            push_line_offsets(&mut offsets, base, rows_bytes);
            j = j + 1;
        }
        offsets
    }

    /// Moves to the next column and returns the byte offsets of the column
    /// `distance` ahead of it, or nothing when that column is past the end.
    pub fn advance(&mut self) -> (offsets: Vec<usize>)
        requires
            old(self).spec_current_col() + 1 + old(self).spec_distance() <= usize::MAX,
        ensures
            final(self).spec_current_col() == old(self).spec_current_col() + 1,
            final(self).spec_elem_size() == old(self).spec_elem_size(),
            final(self).spec_nrows() == old(self).spec_nrows(),
            final(self).spec_ncols() == old(self).spec_ncols(),
            final(self).spec_row_stride() == old(self).spec_row_stride(),
            final(self).spec_distance() == old(self).spec_distance(),
            final(self).spec_locality() == old(self).spec_locality(),
            ({
                let target = old(self).spec_current_col() + 1 + old(self).spec_distance();
                offsets@.map_values(|o: usize| o as nat) == if target < old(self).spec_ncols() {
                    column_lines(
                        old(self).spec_elem_size() as nat,
                        old(self).spec_nrows() as nat,
                        old(self).spec_row_stride() as nat,
                        target as nat,
                    )
                } else {
                    Seq::<nat>::empty()
                }
            }),
    {
        proof { use_type_invariant(&*self); }
        self.current_col = self.current_col + 1;
        let prefetch_col: usize = self.current_col + self.distance;
        let mut offsets: Vec<usize> = Vec::new();
        proof {
            assert(offsets@.map_values(|o: usize| o as nat) =~= Seq::<nat>::empty());
        }
        if prefetch_col < self.ncols {
            let col_bytes: usize = self.row_stride * self.elem_size;
            let rows_bytes: usize = self.nrows * self.elem_size;
            proof {
                lemma_mul_lt_bound(prefetch_col as int, self.ncols as int, col_bytes as int, (usize::MAX - rows_bytes - 64) as int);
            }
            let base: usize = prefetch_col * col_bytes;
            push_line_offsets(&mut offsets, base, rows_bytes);
            proof {
                assert(Seq::<nat>::empty() + line_offsets(base as nat, rows_bytes as nat)
                    =~= line_offsets(base as nat, rows_bytes as nat));
            }
        }
        offsets
    }
}

} // verus!
