use oxiblas::prefetch::{
    block_prefetch_offsets, column_prefetch_offsets, range_line_offsets, MatrixPrefetcher,
    PrefetchLocality, CACHE_LINE_SIZE, PREFETCH_DISTANCE_BYTES, PREFETCH_DISTANCE_LINES,
};

#[test]
fn test_prefetch_locality() {
    assert_ne!(PrefetchLocality::High, PrefetchLocality::Low);
    assert_eq!(PrefetchLocality::Medium, PrefetchLocality::Medium);
}

#[test]
fn test_cache_constants() {
    assert_eq!(CACHE_LINE_SIZE, 64);
    const { assert!(PREFETCH_DISTANCE_LINES > 0) };
    assert_eq!(
        PREFETCH_DISTANCE_BYTES,
        PREFETCH_DISTANCE_LINES * CACHE_LINE_SIZE
    );
}

#[test]
fn test_prefetch_range() {
    // 4096 f64 values span 32768 bytes = 512 cache lines.
    let offsets = range_line_offsets(8, 4096);
    assert_eq!(offsets.len(), 512);
    assert_eq!(offsets[0], 0);
    assert_eq!(offsets[511], 511 * 64);
    // Empty range: nothing to prefetch.
    assert!(range_line_offsets(8, 0).is_empty());
    // Single element: one line.
    assert_eq!(range_line_offsets(8, 1), vec![0]);
}

#[test]
fn test_prefetch_column() {
    // Contiguous column of 100 f64 values: 800 bytes = 13 lines.
    let contiguous = column_prefetch_offsets(8, 100, 1);
    assert_eq!(contiguous.len(), 13);
    assert_eq!(contiguous[12], 12 * 64);
    // Strided column (10 rows, stride 100): one element per 8 rows, lines
    // capped at 2 (80 bytes), rows 0 and 8 are inside.
    let strided = column_prefetch_offsets(8, 10, 100);
    assert_eq!(strided, vec![0, 8 * 100 * 8]);
}

#[test]
fn test_prefetch_block() {
    // A 64x64 block with stride 100: each column is 512 bytes = 8 lines.
    let offsets = block_prefetch_offsets(8, 64, 64, 100);
    assert_eq!(offsets.len(), 64 * 8);
    assert_eq!(offsets[8], 100 * 8);
    assert_eq!(offsets[9], 100 * 8 + 64);
}

#[test]
fn test_matrix_prefetcher() {
    let mut prefetcher = MatrixPrefetcher::new(8, 100, 100, 100, 8, PrefetchLocality::Medium);
    assert_eq!(prefetcher.locality(), PrefetchLocality::Medium);
    // Columns 0..8 are prefetched up front, 13 lines each.
    let initial = prefetcher.initial_offsets();
    assert_eq!(initial.len(), 8 * 13);
    assert_eq!(initial[13], 100 * 8);
    // Advancing to column 1 prefetches column 9.
    let next = prefetcher.advance();
    assert_eq!(next.len(), 13);
    assert_eq!(next[0], 9 * 100 * 8);
    // Simulate processing the remaining columns.
    let mut prefetched_columns = 1;
    for _ in 1..100 {
        if !prefetcher.advance().is_empty() {
            prefetched_columns += 1;
        }
    }
    // Columns 9..100 were each prefetched once.
    assert_eq!(prefetched_columns, 91);
}
