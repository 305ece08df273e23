//! Structural (symbolic) part of supernodal factorization: supernodes, the
//! elimination tree, supernode detection and block storage layout.
use vstd::prelude::*;
use crate::compressed::compressed_wf;
use crate::sorted::{insert_sorted_unique, strictly_increasing};
use crate::etree::{elimination_tree_of_lower, is_elimination_tree_of_lower};
use crate::sparse::CscMatrix;
use crate::permutation::{invert_permutation, is_inverse, is_permutation, permute_symmetric, permuted_column};

verus! {

/// Error type for supernodal factorization.
#[derive(Debug, Clone, PartialEq, Eq, Structural)]
pub enum SupernodalError {
    /// Matrix is not square.
    NotSquare {
        /// Number of rows.
        nrows: usize,
        /// Number of columns.
        ncols: usize,
    },
    /// Matrix is not positive definite.
    NotPositiveDefinite {
        /// Index where failure occurred.
        index: usize,
    },
    /// Matrix is singular.
    Singular {
        /// Index where singularity was detected.
        index: usize,
    },
    /// Zero pivot encountered.
    ZeroPivot {
        /// Index of zero pivot.
        index: usize,
    },
}

/// A group of consecutive columns with nested sparsity patterns.
#[derive(Debug, Clone)]
pub struct Supernode {
    /// First column in the supernode.
    pub first_col: usize,
    /// Number of columns in the supernode.
    pub size: usize,
    /// Row indices below the diagonal block (sorted).
    pub sub_rows: Vec<usize>,
}

impl Supernode {
    /// The last column index (inclusive).
    pub fn last_col(&self) -> (c: usize)
        requires
            1 <= self.first_col + self.size <= usize::MAX,
        ensures
            c == self.first_col + self.size - 1,
    {
        self.first_col + self.size - 1
    }

    /// The half-open range of columns `first_col..first_col + size`.
    pub fn cols(&self) -> (r: core::ops::Range<usize>)
        requires
            self.first_col + self.size <= usize::MAX,
        ensures
            r.start == self.first_col,
            r.end == self.first_col + self.size,
    {
        self.first_col..(self.first_col + self.size)
    }
}

/// Total number of elements of the dense diagonal blocks of the first `k`
/// supernodes (each `size x size`).
pub open spec fn diag_total(sizes: Seq<usize>, k: nat) -> nat
    decreases k,
{
    if k == 0 { 0 } else { diag_total(sizes, (k - 1) as nat) + (sizes[k - 1] as nat) * (sizes[k - 1] as nat) }
}

/// Total number of elements of the dense off-diagonal blocks of the first
/// `k` supernodes (each `|sub_rows| x size`).
pub open spec fn offdiag_total(sizes: Seq<usize>, subs: Seq<usize>, k: nat) -> nat
    decreases k,
{
    if k == 0 { 0 } else { offdiag_total(sizes, subs, (k - 1) as nat) + (subs[k - 1] as nat) * (sizes[k - 1] as nat) }
}

/// Sizes of the supernodes.
pub open spec fn sizes_of(sns: Seq<Supernode>) -> Seq<usize> {
    sns.map_values(|sn: Supernode| sn.size)
}

/// Number of rows below the diagonal block of each supernode.
pub open spec fn sub_lens_of(sns: Seq<Supernode>) -> Seq<usize> {
    sns.map_values(|sn: Supernode| sn.sub_rows@.len() as usize)
}

proof fn lemma_totals_mono(sizes: Seq<usize>, subs: Seq<usize>, a: nat, b: nat)
    requires
        a <= b,
    ensures
        diag_total(sizes, a) <= diag_total(sizes, b),
        offdiag_total(sizes, subs, a) <= offdiag_total(sizes, subs, b),
    decreases b,
{
    if a < b {
        lemma_totals_mono(sizes, subs, a, (b - 1) as nat);
        assert(sizes[b - 1] * sizes[b - 1] >= 0 && subs[b - 1] * sizes[b - 1] >= 0) by (nonlinear_arith);
    }
}

/// Offsets of each supernode's dense blocks in the concatenated storage:
/// `diag_offsets[k]` / `offdiag_offsets[k]` is where supernode `k` starts, and
/// the last entry is the total size.
pub fn block_storage_offsets(supernodes: &[Supernode]) -> (offsets: (Vec<usize>, Vec<usize>))
    requires
        diag_total(sizes_of(supernodes@), supernodes@.len()) <= usize::MAX,
        offdiag_total(sizes_of(supernodes@), sub_lens_of(supernodes@), supernodes@.len()) <= usize::MAX,
    ensures
        offsets.0@.len() == supernodes@.len() + 1,
        offsets.1@.len() == supernodes@.len() + 1,
        forall|k: int| 0 <= k <= supernodes@.len() ==> #[trigger] offsets.0@[k] == diag_total(sizes_of(supernodes@), k as nat),
        forall|k: int| 0 <= k <= supernodes@.len()
            ==> #[trigger] offsets.1@[k] == offdiag_total(sizes_of(supernodes@), sub_lens_of(supernodes@), k as nat),
        offsets.0@[0] == 0,
        offsets.1@[0] == 0,
        forall|k: int| 0 <= k < supernodes@.len() ==> #[trigger] offsets_step(offsets.0@, offsets.1@, supernodes@, k),
{
    let ghost sizes = sizes_of(supernodes@);
    let ghost subs = sub_lens_of(supernodes@);
    let mut diag_size: usize = 0;
    let mut offdiag_size: usize = 0;
    let mut diag_offsets: Vec<usize> = Vec::new();
    let mut offdiag_offsets: Vec<usize> = Vec::new();
    diag_offsets.push(0);
    offdiag_offsets.push(0);
    let mut k: usize = 0;
    while k < supernodes.len()
        invariant
            k <= supernodes@.len(),
            sizes == sizes_of(supernodes@),
            subs == sub_lens_of(supernodes@),
            diag_total(sizes, supernodes@.len()) <= usize::MAX,
            offdiag_total(sizes, subs, supernodes@.len()) <= usize::MAX,
            diag_size == diag_total(sizes, k as nat),
            offdiag_size == offdiag_total(sizes, subs, k as nat),
            diag_offsets@.len() == k + 1,
            offdiag_offsets@.len() == k + 1,
            forall|j: int| 0 <= j <= k ==> #[trigger] diag_offsets@[j] == diag_total(sizes, j as nat),
            forall|j: int| 0 <= j <= k ==> #[trigger] offdiag_offsets@[j] == offdiag_total(sizes, subs, j as nat),
            forall|j: int| 0 <= j < k ==> #[trigger] offsets_step(diag_offsets@, offdiag_offsets@, supernodes@, j),
        decreases supernodes@.len() - k,
    {
        let sn = &supernodes[k];
        let sub_len: usize = sn.sub_rows.len();
        proof {
            lemma_totals_mono(sizes, subs, (k + 1) as nat, supernodes@.len());
            assert(sizes[k as int] == sn.size);
            assert(subs[k as int] == sn.sub_rows@.len());
        }
        let dsz: usize = sn.size * sn.size;
        diag_size = diag_size + dsz;
        let osz: usize = sub_len * sn.size;
        offdiag_size = offdiag_size + osz;
        let ghost od = diag_offsets@;
        let ghost oo = offdiag_offsets@;
        diag_offsets.push(diag_size);
        offdiag_offsets.push(offdiag_size);
        proof {
            assert forall|j: int| 0 <= j < k + 1 implies #[trigger] offsets_step(diag_offsets@, offdiag_offsets@, supernodes@, j) by {
                if j < k {
                    assert(offsets_step(od, oo, supernodes@, j));
                    assert(diag_offsets@[j] == od[j] && diag_offsets@[j + 1] == od[j + 1]);
                    assert(offdiag_offsets@[j] == oo[j] && offdiag_offsets@[j + 1] == oo[j + 1]);
                } else {
                    assert(diag_offsets@[j] == od[j] && offdiag_offsets@[j] == oo[j]);
                }
            }
        }
        k = k + 1;
    }
    (diag_offsets, offdiag_offsets)
}

/// Block `k` of the diagonal storage is `size x size` and block `k` of the
/// off-diagonal storage holds one entry per (row below the diagonal block,
/// column of the supernode) pair.
pub open spec fn offsets_step(diag: Seq<usize>, offdiag: Seq<usize>, sns: Seq<Supernode>, k: int) -> bool {
    &&& diag[k + 1] - diag[k] == sns[k].size * sns[k].size
    &&& offdiag[k + 1] - offdiag[k] == sns[k].sub_rows@.len() * sns[k].size
}


/// Stored values at positions `[lo, hi)` that exceed `bound`, in storage order.
pub open spec fn rows_above(idx: Seq<usize>, lo: int, hi: int, bound: int) -> Seq<usize>
    decreases hi - lo,
{
    if hi <= lo {
        Seq::empty()
    } else {
        rows_above(idx, lo, hi - 1, bound) + if idx[hi - 1] > bound { seq![idx[hi - 1]] } else { Seq::empty() }
    }
}

/// The rows stored below the diagonal of column `c`, in storage order.
pub open spec fn below_diagonal(ptrs: Seq<usize>, idx: Seq<usize>, c: int) -> Seq<usize> {
    rows_above(idx, ptrs[c] as int, ptrs[c + 1] as int, c)
}

/// The entries of `s` that exceed `bound`, in order.
pub open spec fn keep_above(s: Seq<usize>, bound: int) -> Seq<usize>
    decreases s.len(),
{
    if s.len() == 0 {
        Seq::empty()
    } else {
        keep_above(s.drop_last(), bound) + if s.last() > bound { seq![s.last()] } else { Seq::empty() }
    }
}

/// Column `c` continues the supernode of column `c - 1`: `c` is the parent
/// of `c - 1` in the elimination tree and the pattern below the diagonal of
/// `c` is that of `c - 1` without the row `c`.
pub open spec fn continues_supernode(ptrs: Seq<usize>, idx: Seq<usize>, parent: Seq<Option<usize>>, c: int) -> bool {
    &&& parent[c - 1] == Some(c as usize)
    &&& below_diagonal(ptrs, idx, c) == keep_above(below_diagonal(ptrs, idx, c - 1), c)
}

/// Storage position `q` belongs to column `c`.
pub open spec fn in_column(ptrs: Seq<usize>, c: int, q: int) -> bool {
    ptrs[c] <= q < ptrs[c + 1]
}

/// Row `r` is stored in some column of `[first, end)` at or below row `end`.
pub open spec fn touches_below(ptrs: Seq<usize>, idx: Seq<usize>, first: int, end: int, r: usize) -> bool {
    exists|c: int, q: int| first <= c < end && #[trigger] in_column(ptrs, c, q) && idx[q] == r && r >= end
}

/// Supernode `sn` covers columns `[first, end)`, every column after the first
/// continues it, and its rows below the diagonal block are exactly the rows
/// touched from its columns at or below `end`, sorted.
pub open spec fn supernode_ok(ptrs: Seq<usize>, idx: Seq<usize>, parent: Seq<Option<usize>>, sn: Supernode) -> bool {
    let first = sn.first_col as int;
    let end = sn.first_col + sn.size;
    &&& sn.size >= 1
    &&& forall|c: int| first < c < end ==> #[trigger] continues_supernode(ptrs, idx, parent, c)
    &&& strictly_increasing(sn.sub_rows@)
    &&& forall|r: usize| sn.sub_rows@.contains(r) <==> touches_below(ptrs, idx, first, end, r)
}

/// `sns` splits columns `[0, n)` into consecutive maximal supernodes.
pub open spec fn is_supernode_partition(sns: Seq<Supernode>, n: nat, ptrs: Seq<usize>, idx: Seq<usize>, parent: Seq<Option<usize>>) -> bool {
    &&& (sns.len() == 0 <==> n == 0)
    &&& sns.len() > 0 ==> sns[0].first_col == 0
    &&& sns.len() > 0 ==> sns.last().first_col + sns.last().size == n
    &&& forall|s: int| 0 <= s < sns.len() - 1 ==> #[trigger] sns[s + 1].first_col == sns[s].first_col + sns[s].size
    &&& forall|s: int| 0 <= s < sns.len() ==> #[trigger] supernode_ok(ptrs, idx, parent, sns[s])
    &&& forall|s: int| 0 <= s < sns.len() ==> (#[trigger] sns[s]).first_col + sns[s].size < n
        ==> !continues_supernode(ptrs, idx, parent, sns[s].first_col + sns[s].size)
}

proof fn lemma_partition_ends(sns: Seq<Supernode>, n: nat, ptrs: Seq<usize>, idx: Seq<usize>, parent: Seq<Option<usize>>, s: int)
    requires
        is_supernode_partition(sns, n, ptrs, idx, parent),
        0 <= s < sns.len(),
    ensures
        sns[s].first_col + sns[s].size <= n,
        s + 1 < sns.len() ==> sns[s].first_col + sns[s].size < n,
    decreases sns.len() - s,
{
    assert(supernode_ok(ptrs, idx, parent, sns[s]));
    if s + 1 < sns.len() {
        lemma_partition_ends(sns, n, ptrs, idx, parent, s + 1);
        assert(sns[s + 1].first_col == sns[s].first_col + sns[s].size);
        assert(supernode_ok(ptrs, idx, parent, sns[s + 1]));
    }
}

/// The supernode partition is determined by the pattern and the tree: two
/// sequences of supernodes that both satisfy `is_supernode_partition` have
/// the same supernodes, so `detect_supernodes`'s contract fixes its result.
pub proof fn lemma_supernode_partition_unique(a: Seq<Supernode>, b: Seq<Supernode>, n: nat, ptrs: Seq<usize>, idx: Seq<usize>, parent: Seq<Option<usize>>)
    requires
        is_supernode_partition(a, n, ptrs, idx, parent),
        is_supernode_partition(b, n, ptrs, idx, parent),
    ensures
        a.len() == b.len(),
        forall|s: int| 0 <= s < a.len() ==> #[trigger] a[s].first_col == b[s].first_col
            && a[s].size == b[s].size && a[s].sub_rows@ == b[s].sub_rows@,
{
    if a.len() > 0 && b.len() > 0 {
        lemma_partition_prefix(a, b, n, ptrs, idx, parent, 0);
    }
    let k: int = if a.len() <= b.len() { a.len() as int } else { b.len() as int };
    if k > 0 {
        lemma_partition_prefix(a, b, n, ptrs, idx, parent, k - 1);
        lemma_partition_ends(a, n, ptrs, idx, parent, k - 1);
        lemma_partition_ends(b, n, ptrs, idx, parent, k - 1);
        if a.len() < b.len() {
            assert(a.last() == a[k - 1]);
        }
        if b.len() < a.len() {
            assert(b.last() == b[k - 1]);
        }
    }
    assert forall|s: int| 0 <= s < a.len() implies #[trigger] a[s].first_col == b[s].first_col
        && a[s].size == b[s].size && a[s].sub_rows@ == b[s].sub_rows@ by {
        lemma_partition_prefix(a, b, n, ptrs, idx, parent, s);
        assert(supernode_ok(ptrs, idx, parent, a[s]));
        assert(supernode_ok(ptrs, idx, parent, b[s]));
        crate::sorted::lemma_increasing_same_elements(a[s].sub_rows@, b[s].sub_rows@);
    }
}

/// Supernode `s` starts and ends at the same columns in both partitions.
proof fn lemma_partition_prefix(a: Seq<Supernode>, b: Seq<Supernode>, n: nat, ptrs: Seq<usize>, idx: Seq<usize>, parent: Seq<Option<usize>>, s: int)
    requires
        is_supernode_partition(a, n, ptrs, idx, parent),
        is_supernode_partition(b, n, ptrs, idx, parent),
        0 <= s < a.len(),
        s < b.len(),
    ensures
        a[s].first_col == b[s].first_col,
        a[s].size == b[s].size,
    decreases s,
{
    if s > 0 {
        lemma_partition_prefix(a, b, n, ptrs, idx, parent, s - 1);
        let t = s - 1;
        assert(a[t + 1].first_col == a[t].first_col + a[t].size);
        assert(b[t + 1].first_col == b[t].first_col + b[t].size);
    }
    let f = a[s].first_col as int;
    let ea = a[s].first_col + a[s].size;
    let eb = b[s].first_col + b[s].size;
    assert(supernode_ok(ptrs, idx, parent, a[s]));
    assert(supernode_ok(ptrs, idx, parent, b[s]));
    lemma_partition_ends(a, n, ptrs, idx, parent, s);
    lemma_partition_ends(b, n, ptrs, idx, parent, s);
    if ea < eb {
        assert(continues_supernode(ptrs, idx, parent, ea));
        assert(!continues_supernode(ptrs, idx, parent, ea));
    }
    if eb < ea {
        assert(continues_supernode(ptrs, idx, parent, eb));
        assert(!continues_supernode(ptrs, idx, parent, eb));
    }
}

/// The rows stored below the diagonal of column `c`.
fn column_below_diagonal(ptrs: &[usize], idx: &[usize], c: usize) -> (rows: Vec<usize>)
    requires
        c + 1 < ptrs@.len(),
        ptrs@[c as int] <= ptrs@[c + 1] <= idx@.len(),
    ensures
        rows@ == below_diagonal(ptrs@, idx@, c as int),
{
    let mut rows: Vec<usize> = Vec::new();
    let _len = ptrs.len();
    let hi = ptrs[c + 1];
    let mut q: usize = ptrs[c];
    while q < hi
        invariant
            c + 1 < ptrs@.len(),
            hi == ptrs@[c + 1],
            ptrs@[c as int] <= q <= ptrs@[c + 1] <= idx@.len(),
            rows@ == rows_above(idx@, ptrs@[c as int] as int, q as int, c as int),
        decreases ptrs@[c + 1] - q,
    {
        if idx[q] > c {
            rows.push(idx[q]);
        } else {
            assert(rows@ =~= rows_above(idx@, ptrs@[c as int] as int, q as int, c as int) + Seq::<usize>::empty());
        }
        q = q + 1;
    }
    rows
}

/// The entries of `s` that exceed `bound`.
fn entries_above(s: &Vec<usize>, bound: usize) -> (out: Vec<usize>)
    ensures
        out@ == keep_above(s@, bound as int),
{
    let mut out: Vec<usize> = Vec::new();
    let mut i: usize = 0;
    while i < s.len()
        invariant
            i <= s@.len(),
            out@ == keep_above(s@.subrange(0, i as int), bound as int),
        decreases s@.len() - i,
    {
        proof {
            assert(s@.subrange(0, i + 1).drop_last() =~= s@.subrange(0, i as int));
        }
        if s[i] > bound {
            out.push(s[i]);
        } else {
            assert(out@ =~= keep_above(s@.subrange(0, i as int), bound as int) + Seq::<usize>::empty());
        }
        i = i + 1;
    }
    proof {
        assert(s@.subrange(0, s@.len() as int) =~= s@);
    }
    out
}

/// Equality of two index vectors.
fn same_indices(a: &Vec<usize>, b: &Vec<usize>) -> (eq: bool)
    ensures
        eq == (a@ == b@),
{
    if a.len() != b.len() {
        return false;
    }
    let mut i: usize = 0;
    while i < a.len()
        invariant
            i <= a@.len(),
            a@.len() == b@.len(),
            forall|k: int| 0 <= k < i ==> a@[k] == b@[k],
        decreases a@.len() - i,
    {
        if a[i] != b[i] {
            return false;
        }
        i = i + 1;
    }
    proof {
        assert(a@ =~= b@);
    }
    true
}

/// Detects the fundamental supernodes of an `n x n` column-compressed
/// symmetric pattern with elimination tree `parent`: scanning left to right,
/// a column joins the current supernode while it continues it.
pub fn detect_supernodes(n: usize, ptrs: &[usize], idx: &[usize], parent: &[Option<usize>]) -> (sns: Vec<Supernode>)
    requires
        compressed_wf(n as nat, n as nat, ptrs@, idx@, idx@.len()),
        parent@.len() == n,
    ensures
        is_supernode_partition(sns@, n as nat, ptrs@, idx@, parent@),
{
    let mut sns: Vec<Supernode> = Vec::new();
    let mut j: usize = 0;
    while j < n
        invariant
            j <= n,
            compressed_wf(n as nat, n as nat, ptrs@, idx@, idx@.len()),
            parent@.len() == n,
            (sns@.len() == 0 <==> j == 0),
            sns@.len() > 0 ==> sns@[0].first_col == 0,
            sns@.len() > 0 ==> sns@.last().first_col + sns@.last().size == j,
            forall|s: int| 0 <= s < sns@.len() - 1 ==> #[trigger] sns@[s + 1].first_col == sns@[s].first_col + sns@[s].size,
            forall|s: int| 0 <= s < sns@.len() ==> #[trigger] supernode_ok(ptrs@, idx@, parent@, sns@[s]),
            forall|s: int| 0 <= s < sns@.len() ==> (#[trigger] sns@[s]).first_col + sns@[s].size < j
                ==> !continues_supernode(ptrs@, idx@, parent@, sns@[s].first_col + sns@[s].size),
            sns@.len() > 0 && j < n ==> !continues_supernode(ptrs@, idx@, parent@, j as int),
            forall|s: int| 0 <= s < sns@.len() - 1 ==> (#[trigger] sns@[s]).first_col + sns@[s].size < j,
        decreases n - j,
    {
        let start = j;
        let ghost blocked: bool = sns@.len() > 0 ==> !continues_supernode(ptrs@, idx@, parent@, start as int);
        proof {
            assert(blocked);
            assert(ptrs@[j as int] <= ptrs@[j + 1] <= ptrs@[n as int]);
        }
        let mut sub_rows = column_below_diagonal(ptrs, idx, j);
        j = j + 1;
        let mut extending = true;
        while extending && j < n
            invariant
                start < j <= n,
                compressed_wf(n as nat, n as nat, ptrs@, idx@, idx@.len()),
                parent@.len() == n,
                sub_rows@ == below_diagonal(ptrs@, idx@, j - 1),
                forall|c: int| start < c < j ==> #[trigger] continues_supernode(ptrs@, idx@, parent@, c),
                !extending ==> j < n && !continues_supernode(ptrs@, idx@, parent@, j as int),
            decreases n - j, if extending { 1int } else { 0int },
        {
            let linked = match parent[j - 1] {
                Some(p) => p == j,
                None => false,
            };
            if !linked {
                extending = false;
            } else {
                proof {
                    assert(ptrs@[j as int] <= ptrs@[j + 1] <= ptrs@[n as int]);
                }
                let next_rows = column_below_diagonal(ptrs, idx, j);
                let expected = entries_above(&sub_rows, j);
                if same_indices(&next_rows, &expected) {
                    j = j + 1;
                    sub_rows = next_rows;
                } else {
                    extending = false;
                }
            }
        }
        // Rows touched from the supernode's columns at or below its end.
        let mut full: Vec<usize> = Vec::new();
        let mut col: usize = start;
        while col < j
            invariant
                start <= col <= j <= n,
                compressed_wf(n as nat, n as nat, ptrs@, idx@, idx@.len()),
                strictly_increasing(full@),
                forall|r: usize| full@.contains(r) <==> touches_below(ptrs@, idx@, start as int, col as int, r) && r >= j,
            decreases j - col,
        {
            proof {
                assert(ptrs@[col as int] <= ptrs@[col + 1] <= ptrs@[n as int]);
            }
            let mut q: usize = ptrs[col];
            while q < ptrs[col + 1]
                invariant
                    start <= col < j <= n,
                    compressed_wf(n as nat, n as nat, ptrs@, idx@, idx@.len()),
                    ptrs@[col as int] <= q <= ptrs@[col + 1],
                    strictly_increasing(full@),
                    forall|r: usize| full@.contains(r) <==> (touches_below(ptrs@, idx@, start as int, col as int, r) && r >= j)
                        || (exists|p: int| ptrs@[col as int] <= p < q && #[trigger] idx@[p] == r && r >= j),
                decreases ptrs@[col + 1] - q,
            {
                assert(ptrs@[col + 1] <= ptrs@[n as int]);
                let row = idx[q];
                if row >= j {
                    insert_sorted_unique(&mut full, row);
                }
                proof {
                    assert forall|r: usize| full@.contains(r) <==> (touches_below(ptrs@, idx@, start as int, col as int, r) && r >= j)
                        || (exists|p: int| ptrs@[col as int] <= p < q + 1 && #[trigger] idx@[p] == r && r >= j) by {
                        if r == row && r >= j {
                            assert(idx@[q as int] == r);
                        }
                        if exists|p: int| ptrs@[col as int] <= p < q + 1 && #[trigger] idx@[p] == r && r >= j {
                            let p = choose|p: int| ptrs@[col as int] <= p < q + 1 && #[trigger] idx@[p] == r && r >= j;
                            if p < q {
                                assert(exists|p: int| ptrs@[col as int] <= p < q && #[trigger] idx@[p] == r && r >= j);
                            }
                        }
                    }
                }
                q = q + 1;
            }
            proof {
                assert forall|r: usize| full@.contains(r) <==> touches_below(ptrs@, idx@, start as int, col + 1, r) && r >= j by {
                    if touches_below(ptrs@, idx@, start as int, col + 1, r) && r >= j {
                        let (c, p) = choose|c: int, p: int| start <= c < col + 1 && #[trigger] in_column(ptrs@, c, p)
                            && idx@[p] == r && r >= col + 1;
                        if c < col {
                            assert(touches_below(ptrs@, idx@, start as int, col as int, r)) by {
                                assert(start <= c < col && in_column(ptrs@, c, p) && idx@[p] == r);
                                assert(r >= col) by {
                                    assert(r >= j);
                                }
                            }
                        } else {
                            assert(exists|p: int| ptrs@[col as int] <= p < ptrs@[col + 1] && #[trigger] idx@[p] == r && r >= j);
                        }
                    }
                    if full@.contains(r) {
                        if touches_below(ptrs@, idx@, start as int, col as int, r) && r >= j {
                            let (c, p) = choose|c: int, p: int| start <= c < col && #[trigger] in_column(ptrs@, c, p)
                                && idx@[p] == r && r >= col;
                            assert(start <= c < col + 1 && in_column(ptrs@, c, p) && idx@[p] == r && r >= col + 1);
                        } else {
                            let p = choose|p: int| ptrs@[col as int] <= p < ptrs@[col + 1] && #[trigger] idx@[p] == r && r >= j;
                            assert(start <= col < col + 1 && in_column(ptrs@, col as int, p) && idx@[p] == r && r >= col + 1);
                        }
                    }
                }
            }
            col = col + 1;
        }
        let sn = Supernode { first_col: start, size: j - start, sub_rows: full };
        proof {
            assert forall|r: usize| sn.sub_rows@.contains(r) <==> touches_below(ptrs@, idx@, start as int, j as int, r) by {
            }
            assert(supernode_ok(ptrs@, idx@, parent@, sn));
        }
        let ghost old_sns = sns@;
        sns.push(sn);
        proof {
            assert forall|s: int| 0 <= s < sns@.len() implies #[trigger] supernode_ok(ptrs@, idx@, parent@, sns@[s]) by {
                if s < old_sns.len() {
                    assert(sns@[s] == old_sns[s]);
                }
            }
            assert forall|s: int| 0 <= s < sns@.len() - 1 implies #[trigger] sns@[s + 1].first_col == sns@[s].first_col + sns@[s].size by {
                if s + 1 < old_sns.len() {
                    assert(sns@[s + 1] == old_sns[s + 1]);
                    assert(sns@[s] == old_sns[s]);
                } else {
                    assert(sns@[s] == old_sns.last());
                }
            }
            assert forall|s: int| 0 <= s < sns@.len() - 1 implies (#[trigger] sns@[s]).first_col + sns@[s].size < j by {
                assert(sns@[s] == old_sns[s]);
                if s == old_sns.len() - 1 {
                    assert(old_sns.last() == old_sns[s]);
                }
            }
            assert forall|s: int| 0 <= s < sns@.len() && (#[trigger] sns@[s]).first_col + sns@[s].size < j
                implies !continues_supernode(ptrs@, idx@, parent@, sns@[s].first_col + sns@[s].size) by {
                if s < old_sns.len() {
                    assert(sns@[s] == old_sns[s]);
                    if s == old_sns.len() - 1 {
                        assert(old_sns.last() == old_sns[s]);
                        assert(old_sns[s].first_col + old_sns[s].size == start);
                        assert(blocked);
                        assert(!continues_supernode(ptrs@, idx@, parent@, start as int));
                    } else {
                        assert(old_sns[s].first_col + old_sns[s].size < start);
                    }
                } else {
                    assert(sns@[s].first_col + sns@[s].size == j);
                }
            }
        }
    }
    sns
}

/// Symbolic analysis of a square symmetric matrix whose lower triangle is
/// stored column by column: its elimination tree (built from the entries
/// below the diagonal) and its fundamental supernodes with respect to that
/// tree.
pub fn symbolic_analysis<T>(a: &CscMatrix<T>) -> (r: (Vec<Supernode>, Vec<Option<usize>>))
    requires
        a.spec_nrows() == a.spec_ncols(),
    ensures
        is_elimination_tree_of_lower(r.1@, a.spec_ncols() as nat, a.spec_col_ptrs(), a.spec_row_indices()),
        is_supernode_partition(r.0@, a.spec_ncols() as nat, a.spec_col_ptrs(), a.spec_row_indices(), r.1@),
{
    let n = a.ncols();
    let ptrs = a.col_ptrs();
    let idx = a.row_indices();
    let parent = elimination_tree_of_lower(n, ptrs, idx);
    let sns = detect_supernodes(n, ptrs, idx, parent.as_slice());
    (sns, parent)
}

/// One supernode per column: column `j` alone, with the rows stored below
/// its diagonal in storage order.
pub fn single_column_supernodes<T>(a: &CscMatrix<T>) -> (sns: Vec<Supernode>)
    ensures
        sns@.len() == a.spec_ncols(),
        forall|j: int| 0 <= j < a.spec_ncols() ==> {
            &&& (#[trigger] sns@[j]).first_col == j
            &&& sns@[j].size == 1
            &&& sns@[j].sub_rows@ == below_diagonal(a.spec_col_ptrs(), a.spec_row_indices(), j)
        },
{
    let n = a.ncols();
    let ptrs = a.col_ptrs();
    let idx = a.row_indices();
    let mut sns: Vec<Supernode> = Vec::new();
    let mut j: usize = 0;
    while j < n
        invariant
            j <= n,
            n == a.spec_ncols(),
            ptrs@ == a.spec_col_ptrs(),
            idx@ == a.spec_row_indices(),
            compressed_wf(n as nat, a.spec_nrows() as nat, ptrs@, idx@, a.spec_values().len()),
            sns@.len() == j,
            forall|c: int| 0 <= c < j ==> {
                &&& (#[trigger] sns@[c]).first_col == c
                &&& sns@[c].size == 1
                &&& sns@[c].sub_rows@ == below_diagonal(ptrs@, idx@, c)
            },
        decreases n - j,
    {
        proof {
            assert(ptrs@[j as int] <= ptrs@[j + 1]);
            assert(ptrs@[j + 1] <= ptrs@[n as int]);
        }
        let sub_rows = column_below_diagonal(ptrs, idx, j);
        sns.push(Supernode { first_col: j, size: 1, sub_rows });
        j = j + 1;
    }
    sns
}

/// The structural part of a supernodal Cholesky factorization of a square
/// symmetric `a` under the fill-reducing ordering `perm`: the inverse
/// ordering, the lower triangle of `P A P^T`, and its elimination tree and
/// supernodes.  A non-square matrix is refused.
pub fn cholesky_symbolic<T: Copy>(a: &CscMatrix<T>, perm: &[usize])
    -> (r: Result<(CscMatrix<T>, Vec<Supernode>, Vec<Option<usize>>, Vec<usize>), SupernodalError>)
    requires
        a.spec_nrows() == a.spec_ncols() ==> is_permutation(perm@, a.spec_ncols() as nat),
    ensures
        match r {
            Err(e) => a.spec_nrows() != a.spec_ncols()
                && e == (SupernodalError::NotSquare { nrows: a.spec_nrows(), ncols: a.spec_ncols() }),
            Ok((ap, sns, parent, perm_inv)) => {
                let n = a.spec_ncols();
                &&& a.spec_nrows() == n
                &&& is_inverse(perm@, perm_inv@, n as nat)
                &&& ap.spec_nrows() == n && ap.spec_ncols() == n
                &&& forall|j: int| 0 <= j < n ==> #[trigger] ap.column(j as nat) == permuted_column(
                    a.spec_col_ptrs(), a.spec_row_indices(), a.spec_values(), perm@, j, n as int)
                &&& is_elimination_tree_of_lower(parent@, n as nat, ap.spec_col_ptrs(), ap.spec_row_indices())
                &&& is_supernode_partition(sns@, n as nat, ap.spec_col_ptrs(), ap.spec_row_indices(), parent@)
            },
        },
{
    if a.nrows() != a.ncols() {
        return Err(SupernodalError::NotSquare { nrows: a.nrows(), ncols: a.ncols() });
    }
    let perm_inv = invert_permutation(perm);
    let ap = permute_symmetric(a, perm, perm_inv.as_slice());
    let (sns, parent) = symbolic_analysis(&ap);
    Ok((ap, sns, parent, perm_inv))
}

} // verus!
