//! Compressed sparse storage (CSR / CSC) and its structural algorithms.
//!
//! A compressed matrix stores, for each *major* index (row for CSR, column
//! for CSC), a contiguous segment of *minor* indices and values.  The
//! functions here are shared by both orientations.
use vstd::prelude::*;

verus! {

/// Structural validity of compressed storage with `nmajor` segments over
/// minor indices `< nminor` and `nvals` stored values.
pub open spec fn compressed_wf(nmajor: nat, nminor: nat, ptrs: Seq<usize>, idx: Seq<usize>, nvals: nat) -> bool {
    &&& ptrs.len() == nmajor + 1
    &&& ptrs[0] == 0
    &&& forall|a: int, b: int| 0 <= a <= b <= nmajor ==> #[trigger] ptrs[a] <= #[trigger] ptrs[b]
    &&& ptrs[nmajor as int] == idx.len()
    &&& idx.len() == nvals
    &&& forall|k: int| 0 <= k < idx.len() ==> #[trigger] idx[k] < nminor
}

/// Number of stored positions `k < n` whose minor index is `c`.
pub open spec fn count_eq(idx: Seq<usize>, c: nat, n: nat) -> nat
    decreases n,
{
    if n == 0 {
        0
    } else {
        count_eq(idx, c, (n - 1) as nat) + if idx[n - 1] == c { 1nat } else { 0nat }
    }
}

/// Number of stored positions `k < n` whose minor index is below `c`.
pub open spec fn count_lt(idx: Seq<usize>, c: nat, n: nat) -> nat
    decreases n,
{
    if n == 0 {
        0
    } else {
        count_lt(idx, c, (n - 1) as nat) + if idx[n - 1] < c { 1nat } else { 0nat }
    }
}

/// The entries with minor index `minor` among storage positions `[lo, hi)`,
/// each reported as `(major, value)`.
pub open spec fn segment_entries<T>(idx: Seq<usize>, vals: Seq<T>, major: nat, minor: nat, lo: nat, hi: nat) -> Seq<(usize, T)>
    decreases hi,
{
    if hi <= lo {
        Seq::empty()
    } else {
        segment_entries(idx, vals, major, minor, lo, (hi - 1) as nat) + if idx[hi - 1] == minor {
            seq![(major as usize, vals[hi - 1])]
        } else {
            Seq::empty()
        }
    }
}

/// All entries with minor index `minor` in the first `nmajor` segments, in
/// storage order, each reported as `(major, value)`.
pub open spec fn minor_entries<T>(ptrs: Seq<usize>, idx: Seq<usize>, vals: Seq<T>, minor: nat, nmajor: nat) -> Seq<(usize, T)>
    decreases nmajor,
{
    if nmajor == 0 {
        Seq::empty()
    } else {
        minor_entries(ptrs, idx, vals, minor, (nmajor - 1) as nat)
            + segment_entries(idx, vals, (nmajor - 1) as nat, minor, ptrs[nmajor - 1] as nat, ptrs[nmajor as int] as nat)
    }
}

/// The stored `(minor, value)` pairs of segment `major`.
pub open spec fn stored_segment<T>(ptrs: Seq<usize>, idx: Seq<usize>, vals: Seq<T>, major: nat) -> Seq<(usize, T)> {
    Seq::new(
        (ptrs[major + 1int] - ptrs[major as int]) as nat,
        |q: int| (idx[ptrs[major as int] + q], vals[ptrs[major as int] + q]),
    )
}

/// Among the first `m` entries of `s`, those whose index is `key`, each
/// re-tagged as `(tag, value)`.
pub open spec fn picked_entries<T>(s: Seq<(usize, T)>, tag: int, key: int, m: int) -> Seq<(usize, T)>
    decreases m,
{
    if m <= 0 {
        Seq::empty()
    } else {
        picked_entries(s, tag, key, m - 1) + if s[m - 1].0 == key { seq![(tag as usize, s[m - 1].1)] } else { Seq::empty() }
    }
}

/// All entries of `s` whose index is `key`, re-tagged as `(tag, value)`.
pub open spec fn picked<T>(s: Seq<(usize, T)>, tag: int, key: int) -> Seq<(usize, T)> {
    picked_entries(s, tag, key, s.len() as int)
}

/// The indices of `s` increase strictly.
pub open spec fn keys_increasing<T>(s: Seq<(usize, T)>) -> bool {
    forall|a: int, b: int| 0 <= a < b < s.len() ==> #[trigger] s[a].0 < #[trigger] s[b].0
}

pub(crate) proof fn lemma_segment_is_picked<T>(idx: Seq<usize>, vals: Seq<T>, col: Seq<(usize, T)>, j: nat, i: nat, lo: nat, m: nat)
    requires
        m <= col.len(),
        forall|t: int| 0 <= t < col.len() ==> idx[lo + t] == (#[trigger] col[t]).0 && vals[lo + t] == col[t].1,
    ensures
        segment_entries(idx, vals, j, i, lo, lo + m) == picked_entries(col, j as int, i as int, m as int),
    decreases m,
{
    if m > 0 {
        lemma_segment_is_picked(idx, vals, col, j, i, lo, (m - 1) as nat);
        let e = col[m - 1];
        assert(idx[lo + (m - 1)] == e.0);
        assert((lo + m - 1) as nat == (lo + (m - 1)) as nat);
    }
}

/// A stored segment is picked, within the segment's storage range, exactly
/// as it is picked as a sequence.
proof fn lemma_stored_segment_picked<T>(ptrs: Seq<usize>, idx: Seq<usize>, vals: Seq<T>, major: nat, minor: nat)
    requires
        major + 1 < ptrs.len(),
        ptrs[major as int] <= ptrs[major + 1int],
    ensures
        segment_entries(idx, vals, major, minor, ptrs[major as int] as nat, ptrs[major + 1int] as nat)
            == picked(stored_segment(ptrs, idx, vals, major), major as int, minor as int),
{
    let seg = stored_segment(ptrs, idx, vals, major);
    lemma_segment_is_picked(idx, vals, seg, major, minor, ptrs[major as int] as nat, seg.len());
    assert((ptrs[major as int] + seg.len()) as nat == ptrs[major + 1int] as nat);
}

proof fn lemma_picked_prefix<T>(s1: Seq<(usize, T)>, s2: Seq<(usize, T)>, tag: int, key: int, m: int)
    requires
        0 <= m <= s1.len(),
    ensures
        picked_entries(s1 + s2, tag, key, m) == picked_entries(s1, tag, key, m),
    decreases m,
{
    if m > 0 {
        lemma_picked_prefix(s1, s2, tag, key, m - 1);
    }
}

proof fn lemma_picked_concat_n<T>(s1: Seq<(usize, T)>, s2: Seq<(usize, T)>, tag: int, key: int, k: int)
    requires
        0 <= k <= s2.len(),
    ensures
        picked_entries(s1 + s2, tag, key, s1.len() + k) == picked(s1, tag, key) + picked_entries(s2, tag, key, k),
    decreases k,
{
    if k == 0 {
        lemma_picked_prefix(s1, s2, tag, key, s1.len() as int);
        assert(picked(s1, tag, key) + picked_entries(s2, tag, key, 0) =~= picked(s1, tag, key));
    } else {
        lemma_picked_concat_n(s1, s2, tag, key, k - 1);
        assert((s1 + s2)[s1.len() + k - 1] == s2[k - 1]);
        assert(picked_entries(s1 + s2, tag, key, s1.len() + k) =~= picked(s1, tag, key) + picked_entries(s2, tag, key, k));
    }
}

/// Picking from a concatenation picks from each part.
proof fn lemma_picked_concat<T>(s1: Seq<(usize, T)>, s2: Seq<(usize, T)>, tag: int, key: int)
    ensures
        picked(s1 + s2, tag, key) == picked(s1, tag, key) + picked(s2, tag, key),
{
    lemma_picked_concat_n(s1, s2, tag, key, s2.len() as int);
}

/// Every picked entry carries the tag.
proof fn lemma_picked_tags<T>(s: Seq<(usize, T)>, tag: int, key: int, m: int)
    requires
        0 <= tag <= usize::MAX,
    ensures
        forall|q: int| 0 <= q < picked_entries(s, tag, key, m).len() ==> #[trigger] picked_entries(s, tag, key, m)[q].0 == tag,
    decreases m,
{
    if m > 0 {
        lemma_picked_tags(s, tag, key, m - 1);
        let prev = picked_entries(s, tag, key, m - 1);
        if s[m - 1].0 == key {
            assert forall|q: int| 0 <= q < picked_entries(s, tag, key, m).len() implies #[trigger] picked_entries(s, tag, key, m)[q].0 == tag by {
                if q < prev.len() {
                    assert(picked_entries(s, tag, key, m)[q] == prev[q]);
                }
            }
        } else {
            assert(picked_entries(s, tag, key, m) =~= prev);
        }
    }
}

/// Picking a key that no entry carries gives nothing.
proof fn lemma_picked_none<T>(s: Seq<(usize, T)>, tag: int, key: int, m: int)
    requires
        m <= s.len(),
        forall|q: int| 0 <= q < m ==> #[trigger] s[q].0 != key,
    ensures
        picked_entries(s, tag, key, m) == Seq::<(usize, T)>::empty(),
    decreases m,
{
    if m > 0 {
        lemma_picked_none(s, tag, key, m - 1);
    }
}

/// Picking a key carried by exactly one entry gives that entry, re-tagged.
proof fn lemma_picked_one<T>(s: Seq<(usize, T)>, tag: int, key: int, m: int, p: int)
    requires
        0 <= p < m <= s.len(),
        s[p].0 == key,
        forall|q: int| 0 <= q < m && q != p ==> #[trigger] s[q].0 != key,
    ensures
        picked_entries(s, tag, key, m) == seq![(tag as usize, s[p].1)],
    decreases m,
{
    if m - 1 == p {
        lemma_picked_none(s, tag, key, m - 1);
        assert(picked_entries(s, tag, key, m) =~= seq![(tag as usize, s[p].1)]);
    } else {
        lemma_picked_one(s, tag, key, m - 1, p);
        assert(picked_entries(s, tag, key, m) =~= picked_entries(s, tag, key, m - 1));
    }
}

/// Picking, from what was picked out of `s` under tag `i` and key `j`, the
/// entries under key `i` again with tag `j` gives the entries of `s` with
/// index `j`.
proof fn lemma_picked_twice<T>(s: Seq<(usize, T)>, i: usize, j: usize, m: int)
    requires
        0 <= m <= s.len(),
    ensures
        picked(picked_entries(s, i as int, j as int, m), j as int, i as int) == picked_entries(s, j as int, j as int, m),
    decreases m,
{
    if m > 0 {
        lemma_picked_twice(s, i, j, m - 1);
        let prev = picked_entries(s, i as int, j as int, m - 1);
        if s[m - 1].0 == j {
            let one = seq![(i, s[m - 1].1)];
            lemma_picked_concat(prev, one, j as int, i as int);
            assert(picked_entries(one, j as int, i as int, 0) == Seq::<(usize, T)>::empty());
            assert(picked(one, j as int, i as int) =~= seq![(j, s[m - 1].1)]);
        } else {
            assert(picked_entries(s, i as int, j as int, m) =~= prev);
            assert(picked_entries(s, j as int, j as int, m) =~= picked_entries(s, j as int, j as int, m - 1));
        }
    }
}

/// Picking row `i` with tag `j` out of column `j` of a transposed matrix
/// (the entries with minor index `j` from its first `nmajor` segments)
/// gives the entries of segment `i` with minor index `j`, when `i` is among
/// those segments, and nothing otherwise.
pub(crate) proof fn lemma_picked_minor<T>(ptrs: Seq<usize>, idx: Seq<usize>, vals: Seq<T>, j: usize, i: usize, nmajor: nat, total: nat)
    requires
        nmajor <= total,
        ptrs.len() == total + 1,
        forall|a: int, b: int| 0 <= a <= b <= total ==> #[trigger] ptrs[a] <= #[trigger] ptrs[b],
        total < usize::MAX,
    ensures
        picked(minor_entries(ptrs, idx, vals, j as nat, nmajor), j as int, i as int)
            == if i < nmajor { picked(stored_segment(ptrs, idx, vals, i as nat), j as int, j as int) } else { Seq::empty() },
    decreases nmajor,
{
    if nmajor > 0 {
        let k = (nmajor - 1) as nat;
        lemma_picked_minor(ptrs, idx, vals, j, i, k, total);
        assert(ptrs[k as int] <= ptrs[k + 1int]);
        lemma_stored_segment_picked(ptrs, idx, vals, k, j as nat);
        let seg = stored_segment(ptrs, idx, vals, k);
        let pk = picked(seg, k as int, j as int);
        lemma_picked_concat(minor_entries(ptrs, idx, vals, j as nat, k), pk, j as int, i as int);
        if k == i {
            lemma_picked_twice(seg, i, j, seg.len() as int);
            assert(picked(minor_entries(ptrs, idx, vals, j as nat, k), j as int, i as int) =~= Seq::<(usize, T)>::empty());
        } else {
            lemma_picked_tags(seg, k as int, j as int, seg.len() as int);
            lemma_picked_none(pk, j as int, i as int, pk.len() as int);
            assert(picked(minor_entries(ptrs, idx, vals, j as nat, nmajor), j as int, i as int)
                =~= picked(minor_entries(ptrs, idx, vals, j as nat, k), j as int, i as int));
        }
    } else {
        assert(picked(minor_entries(ptrs, idx, vals, j as nat, 0), j as int, i as int) =~= Seq::<(usize, T)>::empty());
    }
}

/// Concatenating, for each index below `n`, the entries of a sequence with
/// strictly increasing indices that carry that index rebuilds the sequence.
pub(crate) proof fn lemma_picked_rebuild<T>(s: Seq<(usize, T)>, n: nat, parts: spec_fn(int) -> Seq<(usize, T)>, upto: nat)
    requires
        keys_increasing(s),
        forall|q: int| 0 <= q < s.len() ==> #[trigger] s[q].0 < n,
        forall|j: int| 0 <= j < n ==> #[trigger] parts(j) == picked(s, j, j),
        upto <= n,
    ensures
        exists|p: int| 0 <= p <= s.len()
            && #[trigger] concat_parts(parts, upto as int) == s.take(p)
            && (forall|q: int| 0 <= q < p ==> #[trigger] s[q].0 < upto)
            && (forall|q: int| p <= q < s.len() ==> #[trigger] s[q].0 >= upto),
    decreases upto,
{
    if upto == 0 {
        assert(concat_parts(parts, 0) =~= s.take(0));
    } else {
        let u = (upto - 1) as nat;
        lemma_picked_rebuild(s, n, parts, u);
        let p = choose|p: int| 0 <= p <= s.len()
            && #[trigger] concat_parts(parts, u as int) == s.take(p)
            && (forall|q: int| 0 <= q < p ==> #[trigger] s[q].0 < u)
            && (forall|q: int| p <= q < s.len() ==> #[trigger] s[q].0 >= u);
        if p < s.len() && s[p].0 == u {
            assert forall|q: int| 0 <= q < s.len() && q != p implies #[trigger] s[q].0 != u by {
                if q > p {
                    assert(s[p].0 < s[q].0);
                }
            }
            lemma_picked_one(s, u as int, u as int, s.len() as int, p);
            assert(s[p] == (u as usize, s[p].1));
            assert(concat_parts(parts, upto as int) =~= s.take(p + 1));
            assert forall|q: int| p + 1 <= q < s.len() implies #[trigger] s[q].0 >= upto by {
                assert(s[p].0 < s[q].0);
            }
        } else {
            assert forall|q: int| 0 <= q < s.len() implies #[trigger] s[q].0 != u by {
                if q >= p && p < s.len() {
                    if q > p {
                        assert(s[p].0 < s[q].0);
                    }
                }
            }
            lemma_picked_none(s, u as int, u as int, s.len() as int);
            assert(concat_parts(parts, upto as int) =~= s.take(p));
        }
    }
}

/// The concatenation `parts(0) + ... + parts(k - 1)`.
pub open spec fn concat_parts<T>(parts: spec_fn(int) -> Seq<(usize, T)>, k: int) -> Seq<(usize, T)>
    decreases k,
{
    if k <= 0 {
        Seq::empty()
    } else {
        concat_parts(parts, k - 1) + parts(k - 1)
    }
}

/// The entries with minor index `minor` from the first `k` segments are the
/// concatenation, segment by segment, of each segment's entries with that
/// minor index.
proof fn lemma_minor_as_parts<T>(ptrs: Seq<usize>, idx: Seq<usize>, vals: Seq<T>, minor: nat, k: nat, total: nat,
    parts: spec_fn(int) -> Seq<(usize, T)>)
    requires
        k <= total,
        ptrs.len() == total + 1,
        forall|a: int, b: int| 0 <= a <= b <= total ==> #[trigger] ptrs[a] <= #[trigger] ptrs[b],
        forall|j: int| 0 <= j < total ==> #[trigger] parts(j) == picked(stored_segment(ptrs, idx, vals, j as nat), j, minor as int),
    ensures
        minor_entries(ptrs, idx, vals, minor, k) == concat_parts(parts, k as int),
    decreases k,
{
    if k > 0 {
        let j = (k - 1) as nat;
        lemma_minor_as_parts(ptrs, idx, vals, minor, j, total, parts);
        assert(ptrs[j as int] <= ptrs[j + 1int]);
        lemma_stored_segment_picked(ptrs, idx, vals, j, minor);
    }
}

/// Transposing compressed storage twice gives back every segment whose
/// minor indices increase strictly: the entries of the transpose with minor
/// index `r` are segment `r` of the input.
pub(crate) proof fn lemma_transpose_twice<T>(nmajor: nat, nminor: nat,
    p1: Seq<usize>, i1: Seq<usize>, v1: Seq<T>,
    p2: Seq<usize>, i2: Seq<usize>, v2: Seq<T>, r: nat)
    requires
        nmajor < usize::MAX,
        nminor < usize::MAX,
        compressed_wf(nmajor, nminor, p1, i1, v1.len()),
        compressed_wf(nminor, nmajor, p2, i2, v2.len()),
        forall|c: int| 0 <= c < nminor ==> #[trigger] stored_segment(p2, i2, v2, c as nat) == minor_entries(p1, i1, v1, c as nat, nmajor),
        keys_increasing(stored_segment(p1, i1, v1, r)),
        r < nmajor,
    ensures
        minor_entries(p2, i2, v2, r, nminor) == stored_segment(p1, i1, v1, r),
{
    let row = stored_segment(p1, i1, v1, r);
    let parts = |j: int| picked(stored_segment(p2, i2, v2, j as nat), j, r as int);
    lemma_minor_as_parts(p2, i2, v2, r, nminor, nminor, parts);
    assert forall|j: int| 0 <= j < nminor implies #[trigger] parts(j) == picked(row, j, j) by {
        lemma_picked_minor(p1, i1, v1, j as usize, r as usize, nmajor, nmajor);
    }
    assert forall|q: int| 0 <= q < row.len() implies #[trigger] row[q].0 < nminor by {
        assert(p1[r as int] <= p1[r + 1int]);
        assert(p1[r + 1int] <= p1[nmajor as int]);
        assert(i1[p1[r as int] + q] < nminor);
    }
    lemma_picked_rebuild(row, nminor, parts, nminor);
    let p = choose|p: int| 0 <= p <= row.len()
        && #[trigger] concat_parts(parts, nminor as int) == row.take(p)
        && (forall|q: int| 0 <= q < p ==> #[trigger] row[q].0 < nminor)
        && (forall|q: int| p <= q < row.len() ==> #[trigger] row[q].0 >= nminor);
    if p < row.len() {
        assert(row[p].0 < nminor);
    }
    assert(row.take(p) =~= row);
}

proof fn lemma_count_eq_mono(idx: Seq<usize>, c: nat, a: nat, b: nat)
    requires
        a <= b,
    ensures
        count_eq(idx, c, a) <= count_eq(idx, c, b),
        count_eq(idx, c, b) <= count_eq(idx, c, a) + (b - a),
    decreases b,
{
    if a < b {
        lemma_count_eq_mono(idx, c, a, (b - 1) as nat);
    }
}

proof fn lemma_count_lt_mono_c(idx: Seq<usize>, c1: nat, c2: nat, n: nat)
    requires
        c1 <= c2,
    ensures
        count_lt(idx, c1, n) <= count_lt(idx, c2, n),
    decreases n,
{
    if n > 0 {
        lemma_count_lt_mono_c(idx, c1, c2, (n - 1) as nat);
    }
}

proof fn lemma_count_lt_step(idx: Seq<usize>, c: nat, n: nat)
    ensures
        count_lt(idx, c + 1, n) == count_lt(idx, c, n) + count_eq(idx, c, n),
    decreases n,
{
    if n > 0 {
        lemma_count_lt_step(idx, c, (n - 1) as nat);
    }
}

proof fn lemma_count_lt_zero(idx: Seq<usize>, n: nat)
    ensures
        count_lt(idx, 0, n) == 0,
    decreases n,
{
    if n > 0 {
        lemma_count_lt_zero(idx, (n - 1) as nat);
    }
}

proof fn lemma_count_lt_all(idx: Seq<usize>, m: nat, n: nat)
    requires
        n <= idx.len(),
        forall|k: int| 0 <= k < n ==> #[trigger] idx[k] < m,
    ensures
        count_lt(idx, m, n) == n,
    decreases n,
{
    if n > 0 {
        lemma_count_lt_all(idx, m, (n - 1) as nat);
    }
}

proof fn lemma_segment_len<T>(idx: Seq<usize>, vals: Seq<T>, major: nat, minor: nat, lo: nat, hi: nat)
    requires
        lo <= hi,
    ensures
        segment_entries(idx, vals, major, minor, lo, hi).len() == count_eq(idx, minor, hi) - count_eq(idx, minor, lo),
    decreases hi,
{
    lemma_count_eq_mono(idx, minor, lo, hi);
    if lo < hi {
        lemma_segment_len(idx, vals, major, minor, lo, (hi - 1) as nat);
        lemma_count_eq_mono(idx, minor, lo, (hi - 1) as nat);
    }
}

proof fn lemma_minor_entries_len<T>(ptrs: Seq<usize>, idx: Seq<usize>, vals: Seq<T>, minor: nat, i: nat, nmajor: nat)
    requires
        i <= nmajor,
        ptrs.len() == nmajor + 1,
        ptrs[0] == 0,
        forall|a: int, b: int| 0 <= a <= b <= nmajor ==> #[trigger] ptrs[a] <= #[trigger] ptrs[b],
    ensures
        minor_entries(ptrs, idx, vals, minor, i).len() == count_eq(idx, minor, ptrs[i as int] as nat),
    decreases i,
{
    if i > 0 {
        lemma_minor_entries_len(ptrs, idx, vals, minor, (i - 1) as nat, nmajor);
        assert(ptrs[i - 1] <= ptrs[i as int]);
        lemma_segment_len(idx, vals, (i - 1) as nat, minor, ptrs[i - 1] as nat, ptrs[i as int] as nat);
        lemma_count_eq_mono(idx, minor, ptrs[i - 1] as nat, ptrs[i as int] as nat);
    }
}

/// A vector of `n` zeros.
pub fn zeros(n: usize) -> (v: Vec<usize>)
    ensures
        v@.len() == n,
        forall|k: int| 0 <= k < n ==> #[trigger] v@[k] == 0,
{
    let mut v: Vec<usize> = Vec::new();
    let mut i: usize = 0;
    while i < n
        invariant
            i <= n,
            v@.len() == i,
            forall|k: int| 0 <= k < i ==> #[trigger] v@[k] == 0,
        decreases n - i,
    {
        v.push(0);
        i = i + 1;
    }
    v
}


/// Segment pointers of the transposed storage: `out[c]` is the number of
/// stored entries whose minor index is below `c`.
fn transposed_pointers(nminor: usize, idx: &[usize]) -> (out: Vec<usize>)
    requires
        nminor < usize::MAX,
        forall|k: int| 0 <= k < idx@.len() ==> #[trigger] idx@[k] < nminor,
    ensures
        out@.len() == nminor + 1,
        forall|c: int| 0 <= c <= nminor ==> #[trigger] out@[c] == count_lt(idx@, c as nat, idx@.len()),
{
    let nnz = idx.len();
    let mut counts = zeros(nminor);
    let mut k: usize = 0;
    while k < nnz
        invariant
            k <= nnz,
            nnz == idx@.len(),
            counts@.len() == nminor,
            forall|j: int| 0 <= j < idx@.len() ==> #[trigger] idx@[j] < nminor,
            forall|c: int| 0 <= c < nminor ==> #[trigger] counts@[c] == count_eq(idx@, c as nat, k as nat),
            forall|c: int| 0 <= c < nminor ==> #[trigger] counts@[c] <= k,
        decreases nnz - k,
    {
        let c = idx[k];
        proof {
            lemma_count_eq_mono(idx@, c as nat, 0, k as nat);
        }
        let old_count = counts[c];
        counts.set(c, old_count + 1);
        proof {
            assert forall|d: int| 0 <= d < nminor implies #[trigger] counts@[d] == count_eq(idx@, d as nat, (k + 1) as nat) by {
                assert(count_eq(idx@, d as nat, (k + 1) as nat) == count_eq(idx@, d as nat, k as nat)
                    + if idx@[k as int] == d { 1nat } else { 0nat });
            }
        }
        k = k + 1;
    }
    let mut out: Vec<usize> = Vec::new();
    out.push(0);
    proof {
        lemma_count_lt_zero(idx@, nnz as nat);
    }
    let mut c: usize = 0;
    while c < nminor
        invariant
            c <= nminor,
            nnz == idx@.len(),
            counts@.len() == nminor,
            forall|j: int| 0 <= j < idx@.len() ==> #[trigger] idx@[j] < nminor,
            forall|d: int| 0 <= d < nminor ==> #[trigger] counts@[d] == count_eq(idx@, d as nat, nnz as nat),
            out@.len() == c + 1,
            forall|d: int| 0 <= d <= c ==> #[trigger] out@[d] == count_lt(idx@, d as nat, nnz as nat),
        decreases nminor - c,
    {
        proof {
            lemma_count_lt_step(idx@, c as nat, nnz as nat);
            lemma_count_lt_mono_c(idx@, (c + 1) as nat, nminor as nat, nnz as nat);
            lemma_count_lt_all(idx@, nminor as nat, nnz as nat);
        }
        let next = out[c] + counts[c];
        out.push(next);
        c = c + 1;
    }
    out
}


/// Positions `[out_ptrs[c], out_ptrs[c] + e.len())` of the scattered output
/// hold the entries `e`: the major index in `rows_out`, and the storage
/// position of the value in `src`.
spec fn column_filled<T>(
    out_ptrs: Seq<usize>,
    rows_out: Seq<usize>,
    src: Seq<usize>,
    vals: Seq<T>,
    e: Seq<(usize, T)>,
    c: int,
) -> bool {
    forall|q: int| 0 <= q < e.len() ==> {
        &&& rows_out[out_ptrs[c] + q] == (#[trigger] e[q]).0
        &&& src[out_ptrs[c] + q] < vals.len()
        &&& vals[src[out_ptrs[c] + q] as int] == e[q].1
    }
}

/// The entries of minor index `c` met so far when the scan is at storage
/// position `k` of segment `i`.
spec fn scanned_entries<T>(ptrs: Seq<usize>, idx: Seq<usize>, vals: Seq<T>, c: nat, i: nat, k: nat) -> Seq<(usize, T)> {
    minor_entries(ptrs, idx, vals, c, i) + segment_entries(idx, vals, i, c, ptrs[i as int] as nat, k)
}

proof fn lemma_out_ptrs_bounds(idx: Seq<usize>, nminor: nat, out_ptrs: Seq<usize>, c: nat, d: nat)
    requires
        out_ptrs.len() == nminor + 1,
        forall|x: int| 0 <= x <= nminor ==> #[trigger] out_ptrs[x] == count_lt(idx, x as nat, idx.len()),
        c <= d <= nminor,
    ensures
        out_ptrs[c as int] <= out_ptrs[d as int],
        c < nminor ==> out_ptrs[c + 1int] == out_ptrs[c as int] + count_eq(idx, c, idx.len()),
{
    lemma_count_lt_mono_c(idx, c, d, idx.len());
    if c < nminor {
        lemma_count_lt_step(idx, c, idx.len());
    }
}

/// Transposes compressed storage: segment `c` of the result lists, in storage
/// order, the entries of the input whose minor index is `c`, tagged with the
/// input segment they came from.  Converts CSR to CSC and CSC to CSR.
pub fn transpose_compressed<T: Copy>(
    nmajor: usize,
    nminor: usize,
    ptrs: &[usize],
    idx: &[usize],
    vals: &[T],
) -> (res: (Vec<usize>, Vec<usize>, Vec<T>))
    requires
        nminor < usize::MAX,
        compressed_wf(nmajor as nat, nminor as nat, ptrs@, idx@, vals@.len()),
    ensures
        compressed_wf(nminor as nat, nmajor as nat, res.0@, res.1@, res.2@.len()),
        res.2@.len() == vals@.len(),
        forall|c: int| 0 <= c < nminor ==> #[trigger] stored_segment(res.0@, res.1@, res.2@, c as nat)
            == minor_entries(ptrs@, idx@, vals@, c as nat, nmajor as nat),
{
    let nnz = idx.len();
    let out_ptrs = transposed_pointers(nminor, idx);
    let mut next = out_ptrs.clone();
    let mut rows_out = zeros(nnz);
    let mut src = zeros(nnz);
    proof {
        lemma_count_lt_all(idx@, nminor as nat, nnz as nat);
        assert(out_ptrs@ =~= next@);
        assert forall|c: int| 0 <= c < nminor implies column_filled(out_ptrs@, rows_out@, src@, vals@,
            #[trigger] scanned_entries(ptrs@, idx@, vals@, c as nat, 0, 0), c) by {
            assert(scanned_entries(ptrs@, idx@, vals@, c as nat, 0, 0) =~= Seq::<(usize, T)>::empty());
        }
    }
    let mut i: usize = 0;
    while i < nmajor
        invariant
            i <= nmajor,
            nnz == idx@.len(),
            nminor < usize::MAX,
            compressed_wf(nmajor as nat, nminor as nat, ptrs@, idx@, vals@.len()),
            out_ptrs@.len() == nminor + 1,
            forall|x: int| 0 <= x <= nminor ==> #[trigger] out_ptrs@[x] == count_lt(idx@, x as nat, nnz as nat),
            out_ptrs@[nminor as int] == nnz,
            next@.len() == nminor + 1,
            rows_out@.len() == nnz,
            src@.len() == nnz,
            forall|p: int| 0 <= p < nnz ==> #[trigger] rows_out@[p] < nmajor || nnz == 0,
            forall|p: int| 0 <= p < nnz ==> #[trigger] src@[p] < nnz,
            forall|c: int| 0 <= c < nminor ==> #[trigger] next@[c] == out_ptrs@[c] + count_eq(idx@, c as nat, ptrs@[i as int] as nat),
            forall|c: int| 0 <= c < nminor ==> column_filled(out_ptrs@, rows_out@, src@, vals@,
                #[trigger] scanned_entries(ptrs@, idx@, vals@, c as nat, i as nat, ptrs@[i as int] as nat), c),
        decreases nmajor - i,
    {
        let lo = ptrs[i];
        let hi = ptrs[i + 1];
        assert(lo <= hi);
        let mut k: usize = lo;
        while k < hi
            invariant
                lo <= k <= hi,
                i < nmajor,
                lo == ptrs@[i as int],
                hi == ptrs@[i + 1],
                nnz == idx@.len(),
                compressed_wf(nmajor as nat, nminor as nat, ptrs@, idx@, vals@.len()),
                out_ptrs@.len() == nminor + 1,
                forall|x: int| 0 <= x <= nminor ==> #[trigger] out_ptrs@[x] == count_lt(idx@, x as nat, nnz as nat),
                out_ptrs@[nminor as int] == nnz,
                next@.len() == nminor + 1,
                rows_out@.len() == nnz,
                src@.len() == nnz,
                forall|p: int| 0 <= p < nnz ==> #[trigger] rows_out@[p] < nmajor || nnz == 0,
                forall|p: int| 0 <= p < nnz ==> #[trigger] src@[p] < nnz,
                forall|c: int| 0 <= c < nminor ==> #[trigger] next@[c] == out_ptrs@[c] + count_eq(idx@, c as nat, k as nat),
                forall|c: int| 0 <= c < nminor ==> column_filled(out_ptrs@, rows_out@, src@, vals@,
                    #[trigger] scanned_entries(ptrs@, idx@, vals@, c as nat, i as nat, k as nat), c),
            decreases hi - k,
        {
            assert(ptrs@[i + 1] <= ptrs@[nmajor as int]);
            let c = idx[k];
            let ghost old_rows = rows_out@;
            let ghost old_src = src@;
            proof {
                lemma_count_eq_mono(idx@, c as nat, (k + 1) as nat, nnz as nat);
                lemma_out_ptrs_bounds(idx@, nminor as nat, out_ptrs@, c as nat, nminor as nat);
                lemma_out_ptrs_bounds(idx@, nminor as nat, out_ptrs@, (c + 1) as nat, nminor as nat);
                assert(count_eq(idx@, c as nat, (k + 1) as nat) == count_eq(idx@, c as nat, k as nat) + 1);
                assert(next@[c as int] < nnz);
            }
            let pos = next[c];
            rows_out.set(pos, i);
            src.set(pos, k);
            next.set(c, pos + 1);
            proof {
                assert forall|d: int| 0 <= d < nminor implies #[trigger] next@[d] == out_ptrs@[d] + count_eq(idx@, d as nat, (k + 1) as nat) by {
                    assert(count_eq(idx@, d as nat, (k + 1) as nat) == count_eq(idx@, d as nat, k as nat)
                        + if idx@[k as int] == d { 1nat } else { 0nat });
                }
                assert forall|d: int| 0 <= d < nminor implies column_filled(out_ptrs@, rows_out@, src@, vals@,
                    #[trigger] scanned_entries(ptrs@, idx@, vals@, d as nat, i as nat, (k + 1) as nat), d) by {
                    let e_old = scanned_entries(ptrs@, idx@, vals@, d as nat, i as nat, k as nat);
                    let e_new = scanned_entries(ptrs@, idx@, vals@, d as nat, i as nat, (k + 1) as nat);
                    assert(column_filled(out_ptrs@, old_rows, old_src, vals@, e_old, d));
                    lemma_minor_entries_len(ptrs@, idx@, vals@, d as nat, i as nat, nmajor as nat);
                    lemma_segment_len(idx@, vals@, i as nat, d as nat, lo as nat, k as nat);
                    lemma_count_eq_mono(idx@, d as nat, lo as nat, k as nat);
                    lemma_count_eq_mono(idx@, d as nat, k as nat, nnz as nat);
                    assert(e_old.len() == count_eq(idx@, d as nat, k as nat));
                    lemma_out_ptrs_bounds(idx@, nminor as nat, out_ptrs@, d as nat, nminor as nat);
                    if d == c {
                        assert(e_new =~= e_old.push((i, vals@[k as int])));
                        assert forall|q: int| 0 <= q < e_new.len() implies {
                            &&& rows_out@[out_ptrs@[d] + q] == (#[trigger] e_new[q]).0
                            &&& src@[out_ptrs@[d] + q] < vals@.len()
                            &&& vals@[src@[out_ptrs@[d] + q] as int] == e_new[q].1
                        } by {
                            if q < e_old.len() {
                                assert(e_new[q] == e_old[q]);
                            }
                        }
                    } else {
                        assert(e_new =~= e_old);
                        lemma_out_ptrs_bounds(idx@, nminor as nat, out_ptrs@, (d + 1) as nat, nminor as nat);
                        if d < c {
                            lemma_out_ptrs_bounds(idx@, nminor as nat, out_ptrs@, (d + 1) as nat, c as nat);
                        } else {
                            lemma_out_ptrs_bounds(idx@, nminor as nat, out_ptrs@, (c + 1) as nat, d as nat);
                        }
                        assert forall|q: int| 0 <= q < e_new.len() implies {
                            &&& rows_out@[out_ptrs@[d] + q] == (#[trigger] e_new[q]).0
                            &&& src@[out_ptrs@[d] + q] < vals@.len()
                            &&& vals@[src@[out_ptrs@[d] + q] as int] == e_new[q].1
                        } by {
                            assert(e_new[q] == e_old[q]);
                            assert(out_ptrs@[d] + q < out_ptrs@[d + 1]);
                            assert(out_ptrs@[d] + q != pos);
                            assert(rows_out@[out_ptrs@[d] + q] == old_rows[out_ptrs@[d] + q]);
                            assert(src@[out_ptrs@[d] + q] == old_src[out_ptrs@[d] + q]);
                        }
                    }
                }
            }
            k = k + 1;
        }
        let ghost prev = i;
        i = i + 1;
        proof {
            assert forall|c: int| 0 <= c < nminor implies column_filled(out_ptrs@, rows_out@, src@, vals@,
                #[trigger] scanned_entries(ptrs@, idx@, vals@, c as nat, i as nat, ptrs@[i as int] as nat), c) by {
                let e1 = scanned_entries(ptrs@, idx@, vals@, c as nat, prev as nat, hi as nat);
                let e2 = scanned_entries(ptrs@, idx@, vals@, c as nat, i as nat, ptrs@[i as int] as nat);
                assert(column_filled(out_ptrs@, rows_out@, src@, vals@, e1, c));
                assert(segment_entries(idx@, vals@, i as nat, c as nat, ptrs@[i as int] as nat, ptrs@[i as int] as nat)
                    =~= Seq::<(usize, T)>::empty());
                assert(e2 =~= e1);
            }
        }
    }
    let mut out_vals: Vec<T> = Vec::new();
    let mut p: usize = 0;
    while p < nnz
        invariant
            p <= nnz,
            src@.len() == nnz,
            nnz == vals@.len(),
            forall|r: int| 0 <= r < nnz ==> #[trigger] src@[r] < nnz,
            out_vals@.len() == p,
            forall|r: int| 0 <= r < p ==> #[trigger] out_vals@[r] == vals@[src@[r] as int],
        decreases nnz - p,
    {
        out_vals.push(vals[src[p]]);
        p = p + 1;
    }
    proof {
        lemma_count_lt_zero(idx@, nnz as nat);
        assert forall|a: int, b: int| 0 <= a <= b <= nminor implies #[trigger] out_ptrs@[a] <= #[trigger] out_ptrs@[b] by {
            lemma_out_ptrs_bounds(idx@, nminor as nat, out_ptrs@, a as nat, b as nat);
        }
        assert forall|c: int| 0 <= c < nminor implies #[trigger] stored_segment(out_ptrs@, rows_out@, out_vals@, c as nat)
            == minor_entries(ptrs@, idx@, vals@, c as nat, nmajor as nat) by {
            let e = scanned_entries(ptrs@, idx@, vals@, c as nat, nmajor as nat, ptrs@[nmajor as int] as nat);
            let m = minor_entries(ptrs@, idx@, vals@, c as nat, nmajor as nat);
            assert(e =~= m);
            assert(column_filled(out_ptrs@, rows_out@, src@, vals@, e, c));
            lemma_minor_entries_len(ptrs@, idx@, vals@, c as nat, nmajor as nat, nmajor as nat);
            lemma_out_ptrs_bounds(idx@, nminor as nat, out_ptrs@, c as nat, nminor as nat);
            let st = stored_segment(out_ptrs@, rows_out@, out_vals@, c as nat);
            assert(st.len() == m.len());
            assert forall|q: int| 0 <= q < m.len() implies st[q] == m[q] by {
                assert(e[q] == m[q]);
            }
            assert(st =~= m);
        }
    }
    (out_ptrs, rows_out, out_vals)
}

} // verus!
