//! Elimination tree of a symmetric sparse matrix.
use vstd::prelude::*;
use crate::compressed::{compressed_wf, minor_entries, segment_entries, stored_segment, transpose_compressed, zeros};

verus! {

/// `y` is reached from `x` by following parent links (every node reaches
/// itself); parents always have larger indices.
pub open spec fn reaches(parent: Seq<Option<usize>>, x: int, y: int) -> bool
    decreases y - x,
{
    if x == y {
        true
    } else if x > y || x < 0 || x >= parent.len() {
        false
    } else {
        match parent[x] {
            Some(p) => x < p <= y && reaches(parent, p as int, y),
            None => false,
        }
    }
}

/// Position `q` holds an entry strictly above the diagonal of column `c`.
pub open spec fn upper_entry(ptrs: Seq<usize>, idx: Seq<usize>, c: int, q: int) -> bool {
    &&& ptrs[c] <= q < ptrs[c + 1]
    &&& idx[q] < c
}

/// `parent` is a forest over `n` nodes whose links go to larger indices.
pub open spec fn is_upward_forest(parent: Seq<Option<usize>>, n: nat) -> bool {
    &&& parent.len() == n
    &&& forall|k: int| 0 <= k < n ==> match #[trigger] parent[k] {
        Some(p) => k < p < n,
        None => true,
    }
}

/// Every entry above the diagonal, at row `i` of column `c`, has `c` among the
/// ancestors of `i`.
pub open spec fn covers_entries(parent: Seq<Option<usize>>, ptrs: Seq<usize>, idx: Seq<usize>, ncols: int) -> bool {
    forall|c: int, q: int| 0 <= c < ncols && #[trigger] upper_entry(ptrs, idx, c, q)
        ==> reaches(parent, idx[q] as int, c)
}

/// Every link `k -> j` is caused by an entry above the diagonal of column
/// `j` whose row lies in the subtree of `k`.
pub open spec fn links_justified(parent: Seq<Option<usize>>, ptrs: Seq<usize>, idx: Seq<usize>) -> bool {
    forall|k: int| 0 <= k < parent.len() && #[trigger] parent[k] is Some ==> exists|q: int|
        #[trigger] upper_entry(ptrs, idx, parent[k]->0 as int, q) && reaches(parent, idx[q] as int, k)
}

/// `parent` is the elimination tree of the symmetric pattern whose upper
/// triangle is stored column by column in `(ptrs, idx)`: a forest with
/// links to larger indices, in which every off-diagonal entry `(i, j)` has
/// `j` as an ancestor of `i`, and every link `k -> j` comes from an entry
/// `(i, j)` with `i` in the subtree of `k`.  Together these make `j` the
/// smallest column above `k` touched from `k`'s subtree.
pub open spec fn is_elimination_tree(parent: Seq<Option<usize>>, n: nat, ptrs: Seq<usize>, idx: Seq<usize>) -> bool {
    &&& is_upward_forest(parent, n)
    &&& covers_entries(parent, ptrs, idx, n as int)
    &&& links_justified(parent, ptrs, idx)
}

proof fn lemma_reaches_le(parent: Seq<Option<usize>>, x: int, y: int)
    requires
        reaches(parent, x, y),
    ensures
        x <= y,
    decreases y - x,
{
}

proof fn lemma_reaches_trans(parent: Seq<Option<usize>>, x: int, y: int, z: int)
    requires
        reaches(parent, x, y),
        reaches(parent, y, z),
    ensures
        reaches(parent, x, z),
    decreases y - x,
{
    lemma_reaches_le(parent, x, y);
    lemma_reaches_le(parent, y, z);
    if x != y {
        let p = parent[x]->0 as int;
        lemma_reaches_trans(parent, p, y, z);
    }
}

proof fn lemma_reaches_link(parent: Seq<Option<usize>>, k: int, j: usize, x: int, y: int)
    requires
        0 <= k < parent.len(),
        parent[k] is None,
        reaches(parent, x, y),
    ensures
        reaches(parent.update(k, Some(j)), x, y),
    decreases y - x,
{
    if x != y {
        let p = parent[x]->0 as int;
        lemma_reaches_link(parent, k, j, p, y);
    }
}

proof fn lemma_reaches_one(parent: Seq<Option<usize>>, k: int, j: usize)
    requires
        0 <= k < j,
        k < parent.len(),
        parent[k] == Some(j),
    ensures
        reaches(parent, k, j as int),
{
    assert(reaches(parent, j as int, j as int));
}


/// Links point upward and never above `top`.
spec fn links_bounded(parent: Seq<Option<usize>>, top: int) -> bool {
    forall|x: int| 0 <= x < parent.len() ==> match #[trigger] parent[x] {
        Some(p) => x < p <= top,
        None => true,
    }
}

/// For nodes below `upto`, `ancestor[x]` is `x` exactly for roots, lies in
/// `[x, top]`, and is an ancestor of `x` unless it equals `top`.
spec fn ancestors_sound(parent: Seq<Option<usize>>, ancestor: Seq<usize>, upto: int, top: int) -> bool {
    forall|x: int| 0 <= x < upto ==> {
        &&& x <= #[trigger] ancestor[x] <= top
        &&& (ancestor[x] < top ==> reaches(parent, x, ancestor[x] as int))
        &&& ((ancestor[x] == x) == (parent[x] is None))
    }
}

/// Entries of columns below `c`, and of column `c` before position `q`,
/// are covered.
spec fn covered_upto(parent: Seq<Option<usize>>, ptrs: Seq<usize>, idx: Seq<usize>, c: int, q: int) -> bool {
    &&& covers_entries(parent, ptrs, idx, c)
    &&& forall|r: int| ptrs[c] <= r < q && #[trigger] upper_entry(ptrs, idx, c, r) ==> reaches(parent, idx[r] as int, c)
}

proof fn lemma_link_preserves(
    parent: Seq<Option<usize>>,
    ptrs: Seq<usize>,
    idx: Seq<usize>,
    ancestor: Seq<usize>,
    k: int,
    j: usize,
    q: int,
)
    requires
        0 <= k < j < parent.len(),
        parent[k] is None,
        links_justified(parent, ptrs, idx),
        covers_entries(parent, ptrs, idx, j as int),
        forall|r: int| ptrs[j as int] <= r < q && #[trigger] upper_entry(ptrs, idx, j as int, r) ==> reaches(parent, idx[r] as int, j as int),
        upper_entry(ptrs, idx, j as int, q),
        reaches(parent, idx[q] as int, k),
    ensures
        links_justified(parent.update(k, Some(j)), ptrs, idx),
        covers_entries(parent.update(k, Some(j)), ptrs, idx, j as int),
        forall|r: int| ptrs[j as int] <= r < q && #[trigger] upper_entry(ptrs, idx, j as int, r)
            ==> reaches(parent.update(k, Some(j)), idx[r] as int, j as int),
        forall|x: int, y: int| reaches(parent, x, y) ==> #[trigger] reaches(parent.update(k, Some(j)), x, y),
{
    let np = parent.update(k, Some(j));
    assert forall|x: int, y: int| reaches(parent, x, y) implies #[trigger] reaches(np, x, y) by {
        lemma_reaches_link(parent, k, j, x, y);
    }
    assert forall|x: int| 0 <= x < np.len() && #[trigger] np[x] is Some implies exists|r: int|
        #[trigger] upper_entry(ptrs, idx, np[x]->0 as int, r) && reaches(np, idx[r] as int, x) by {
        if x == k {
            assert(upper_entry(ptrs, idx, np[x]->0 as int, q) && reaches(np, idx[q] as int, x));
        } else {
            assert(parent[x] is Some);
            let r = choose|r: int| #[trigger] upper_entry(ptrs, idx, parent[x]->0 as int, r) && reaches(parent, idx[r] as int, x);
            assert(upper_entry(ptrs, idx, np[x]->0 as int, r) && reaches(np, idx[r] as int, x));
        }
    }
}

/// Computes the elimination tree of a symmetric matrix from the entries
/// above the diagonal of its `n x n` column-compressed pattern, using
/// ancestor pointers with path compression: `parent[k]` is `None` for a root.
pub fn elimination_tree(n: usize, ptrs: &[usize], idx: &[usize]) -> (parent: Vec<Option<usize>>)
    requires
        compressed_wf(n as nat, n as nat, ptrs@, idx@, idx@.len()),
    ensures
        is_elimination_tree(parent@, n as nat, ptrs@, idx@),
{
    let mut parent: Vec<Option<usize>> = Vec::new();
    let mut t: usize = 0;
    while t < n
        invariant
            t <= n,
            parent@.len() == t,
            forall|x: int| 0 <= x < t ==> #[trigger] parent@[x] is None,
        decreases n - t,
    {
        parent.push(None);
        t = t + 1;
    }
    let mut ancestor = zeros(n);
    proof {
        assert(covered_upto(parent@, ptrs@, idx@, 0, ptrs@[0] as int));
    }
    let mut j: usize = 0;
    while j < n
        invariant
            j <= n,
            compressed_wf(n as nat, n as nat, ptrs@, idx@, idx@.len()),
            parent@.len() == n,
            ancestor@.len() == n,
            links_bounded(parent@, j as int - 1),
            ancestors_sound(parent@, ancestor@, j as int, j as int),
            forall|x: int| 0 <= x < j ==> #[trigger] ancestor@[x] < j,
            covers_entries(parent@, ptrs@, idx@, j as int),
            links_justified(parent@, ptrs@, idx@),
        decreases n - j,
    {
        ancestor.set(j, j);
        proof {
            assert(parent@[j as int] is None);
            assert(ptrs@[j as int] <= ptrs@[j + 1]);
        }
        let lo = ptrs[j];
        let hi = ptrs[j + 1];
        let mut q: usize = lo;
        while q < hi
            invariant
                j < n,
                lo == ptrs@[j as int],
                hi == ptrs@[j + 1],
                lo <= q <= hi,
                compressed_wf(n as nat, n as nat, ptrs@, idx@, idx@.len()),
                parent@.len() == n,
                ancestor@.len() == n,
                links_bounded(parent@, j as int),
                parent@[j as int] is None,
                ancestor@[j as int] == j,
                ancestors_sound(parent@, ancestor@, j as int, j as int),
                forall|x: int| 0 <= x < j && #[trigger] ancestor@[x] == j ==> reaches(parent@, x, j as int),
                covered_upto(parent@, ptrs@, idx@, j as int, q as int),
                links_justified(parent@, ptrs@, idx@),
            decreases hi - q,
        {
            assert(ptrs@[j + 1] <= ptrs@[n as int]);
            let i = idx[q];
            if i < j {
                let mut k: usize = i;
                while ancestor[k] != k && ancestor[k] != j
                    invariant
                        j < n,
                        i < j,
                        i <= k < j,
                        reaches(parent@, i as int, k as int),
                        parent@.len() == n,
                        ancestor@.len() == n,
                        links_bounded(parent@, j as int),
                        parent@[j as int] is None,
                        ancestor@[j as int] == j,
                        ancestors_sound(parent@, ancestor@, j as int, j as int),
                        forall|x: int| 0 <= x < j && #[trigger] ancestor@[x] == j
                            ==> reaches(parent@, x, j as int) || (x != k && reaches(parent@, x, k as int)),
                    decreases j - k,
                {
                    let next = ancestor[k];
                    let ghost old_anc = ancestor@;
                    ancestor.set(k, j);
                    proof {
                        assert(reaches(parent@, k as int, next as int));
                        lemma_reaches_trans(parent@, i as int, k as int, next as int);
                        assert forall|x: int| 0 <= x < j && #[trigger] ancestor@[x] == j
                            implies reaches(parent@, x, j as int) || (x != next && reaches(parent@, x, next as int)) by {
                            if x == k {
                            } else if old_anc[x] == j {
                                if !reaches(parent@, x, j as int) {
                                    lemma_reaches_trans(parent@, x, k as int, next as int);
                                    lemma_reaches_le(parent@, x, k as int);
                                }
                            }
                        }
                    }
                    k = next;
                }
                if ancestor[k] != j {
                    let ghost old_parent = parent@;
                    let ghost old_anc = ancestor@;
                    proof {
                        assert(ancestor@[k as int] == k);
                        assert(parent@[k as int] is None);
                        assert(upper_entry(ptrs@, idx@, j as int, q as int));
                        lemma_link_preserves(parent@, ptrs@, idx@, ancestor@, k as int, j, q as int);
                    }
                    parent.set(k, Some(j));
                    ancestor.set(k, j);
                    proof {
                        assert(parent@ == old_parent.update(k as int, Some(j)));
                        lemma_reaches_one(parent@, k as int, j);
                        assert forall|x: int| 0 <= x < j && #[trigger] ancestor@[x] == j implies reaches(parent@, x, j as int) by {
                            if x == k {
                            } else {
                                assert(old_anc[x] == j);
                                if reaches(old_parent, x, j as int) {
                                } else {
                                    assert(reaches(parent@, x, k as int));
                                    lemma_reaches_trans(parent@, x, k as int, j as int);
                                }
                            }
                        }
                        assert(reaches(parent@, i as int, k as int));
                        lemma_reaches_trans(parent@, i as int, k as int, j as int);
                    }
                } else {
                    proof {
                        assert(reaches(parent@, k as int, j as int));
                        lemma_reaches_trans(parent@, i as int, k as int, j as int);
                        assert forall|x: int| 0 <= x < j && #[trigger] ancestor@[x] == j implies reaches(parent@, x, j as int) by {
                            if !reaches(parent@, x, j as int) {
                                lemma_reaches_trans(parent@, x, k as int, j as int);
                            }
                        }
                    }
                }
            }
            q = q + 1;
        }
        proof {
            assert forall|c: int, r: int| 0 <= c < j + 1 && #[trigger] upper_entry(ptrs@, idx@, c, r)
                implies reaches(parent@, idx@[r] as int, c) by {
                if c == j {
                } else {
                }
            }
            assert forall|x: int| 0 <= x < j + 1 implies {
                &&& x <= #[trigger] ancestor@[x] <= j + 1
                &&& (ancestor@[x] < j + 1 ==> reaches(parent@, x, ancestor@[x] as int))
                &&& ((ancestor@[x] == x) == (parent@[x] is None))
            } by {
                if x < j && ancestor@[x] == j {
                }
            }
            assert forall|x: int| 0 <= x < j + 1 implies #[trigger] ancestor@[x] < j + 1 by {
            }
        }
        j = j + 1;
    }
    proof {
        assert forall|k: int| 0 <= k < n implies match #[trigger] parent@[k] {
            Some(p) => k < p < n,
            None => true,
        } by {
            assert(links_bounded(parent@, n as int - 1));
        }
    }
    parent
}

proof fn lemma_reaches_agree(p1: Seq<Option<usize>>, p2: Seq<Option<usize>>, x: int, y: int)
    requires
        p1.len() == p2.len(),
        forall|z: int| 0 <= z < y && z < p1.len() ==> #[trigger] p1[z] == p2[z],
    ensures
        reaches(p1, x, y) == reaches(p2, x, y),
    decreases y - x,
{
    if x < y && 0 <= x < p1.len() {
        match p1[x] {
            Some(p) => {
                if x < p <= y {
                    lemma_reaches_agree(p1, p2, p as int, y);
                }
            },
            None => {},
        }
    }
}

proof fn lemma_reaches_fork(parent: Seq<Option<usize>>, i: int, k: int, j: int)
    requires
        reaches(parent, i, k),
        reaches(parent, i, j),
        k <= j,
    ensures
        reaches(parent, k, j),
    decreases k - i,
{
    lemma_reaches_le(parent, i, k);
    if i < k {
        let p = parent[i]->0 as int;
        lemma_reaches_fork(parent, p, k, j);
    }
}

proof fn lemma_link_below(parent: Seq<Option<usize>>, k: int, j: int)
    requires
        reaches(parent, k, j),
        k < j,
    ensures
        parent[k] is Some,
        k < parent[k]->0 <= j,
{
}

/// The elimination tree is determined by the pattern: two parent arrays
/// that both satisfy `is_elimination_tree` for the same pattern agree, so
/// `elimination_tree`'s contract fixes its result.
pub proof fn lemma_elimination_tree_unique(p1: Seq<Option<usize>>, p2: Seq<Option<usize>>, n: nat, ptrs: Seq<usize>, idx: Seq<usize>)
    requires
        compressed_wf(n, n, ptrs, idx, idx.len()),
        is_elimination_tree(p1, n, ptrs, idx),
        is_elimination_tree(p2, n, ptrs, idx),
    ensures
        p1 == p2,
{
    lemma_unique_upto(p1, p2, n, ptrs, idx, n as int);
    assert(p1 =~= p2);
}

proof fn lemma_unique_upto(p1: Seq<Option<usize>>, p2: Seq<Option<usize>>, n: nat, ptrs: Seq<usize>, idx: Seq<usize>, k: int)
    requires
        compressed_wf(n, n, ptrs, idx, idx.len()),
        is_elimination_tree(p1, n, ptrs, idx),
        is_elimination_tree(p2, n, ptrs, idx),
        0 <= k <= n,
    ensures
        forall|z: int| 0 <= z < k ==> #[trigger] p1[z] == p2[z],
    decreases k,
{
    if k > 0 {
        let m = k - 1;
        lemma_unique_upto(p1, p2, n, ptrs, idx, m);
        lemma_parent_bound(p1, p2, n, ptrs, idx, m);
        lemma_parent_bound(p2, p1, n, ptrs, idx, m);
        assert forall|z: int| 0 <= z < k implies #[trigger] p1[z] == p2[z] by {
            if z == m {
                match (p1[m], p2[m]) {
                    (Some(a), Some(b)) => { assert(a == b); },
                    (None, None) => {},
                    _ => {},
                }
            }
        }
    }
}

/// Where `p1` and `p2` agree below `m`, a link `m -> j1` in `p1` forces a
/// link in `p2` from `m` to some `j2 <= j1`.
proof fn lemma_parent_bound(p1: Seq<Option<usize>>, p2: Seq<Option<usize>>, n: nat, ptrs: Seq<usize>, idx: Seq<usize>, m: int)
    requires
        compressed_wf(n, n, ptrs, idx, idx.len()),
        is_elimination_tree(p1, n, ptrs, idx),
        is_elimination_tree(p2, n, ptrs, idx),
        0 <= m < n,
        forall|z: int| 0 <= z < m ==> #[trigger] p1[z] == p2[z],
    ensures
        p1[m] is Some ==> p2[m] is Some && p2[m]->0 <= p1[m]->0,
{
    if p1[m] is Some {
        let j1 = p1[m]->0 as int;
        assert(m < j1 < n);
        let q = choose|q: int| #[trigger] upper_entry(ptrs, idx, j1, q) && reaches(p1, idx[q] as int, m);
        let i = idx[q] as int;
        lemma_reaches_agree(p1, p2, i, m);
        assert(reaches(p2, i, m));
        assert(reaches(p2, i, j1));
        lemma_reaches_fork(p2, i, m, j1);
        lemma_link_below(p2, m, j1);
    }
}

/// Position `q` of column `c` holds an entry strictly below the diagonal.
pub open spec fn lower_entry(ptrs: Seq<usize>, idx: Seq<usize>, c: int, q: int) -> bool {
    &&& ptrs[c] <= q < ptrs[c + 1]
    &&& idx[q] > c
}

/// `parent` is the elimination tree of the symmetric pattern whose lower
/// triangle is stored column by column in `(ptrs, idx)`: a forest with
/// links to larger indices, in which every entry `(r, c)` below the
/// diagonal has `r` as an ancestor of `c`, and every link `k -> j` comes
/// from an entry `(j, c)` with `c` in the subtree of `k`.
pub open spec fn is_elimination_tree_of_lower(parent: Seq<Option<usize>>, n: nat, ptrs: Seq<usize>, idx: Seq<usize>) -> bool {
    &&& is_upward_forest(parent, n)
    &&& forall|c: int, q: int| 0 <= c < n && #[trigger] lower_entry(ptrs, idx, c, q)
            ==> reaches(parent, c, idx[q] as int)
    &&& forall|k: int| 0 <= k < parent.len() && #[trigger] parent[k] is Some ==> exists|c: int, q: int|
            0 <= c < n && #[trigger] lower_entry(ptrs, idx, c, q) && idx[q] == parent[k]->0 && reaches(parent, c, k)
}

/// Segment `c` of `(ptrs, idx)` stores the index `r`.
pub open spec fn segment_stores(ptrs: Seq<usize>, idx: Seq<usize>, c: int, r: int) -> bool {
    exists|q: int| ptrs[c] <= q < ptrs[c + 1] && #[trigger] idx[q] == r
}

/// An entry tagged `c` occurs among the entries of `[lo, hi)` with index
/// `minor`, tagged `major`, exactly when `c == major` and one is stored.
proof fn lemma_segment_has<T>(idx: Seq<usize>, vals: Seq<T>, major: nat, minor: nat, lo: nat, hi: nat, c: int)
    requires
        major <= usize::MAX,
    ensures
        (exists|t: int| 0 <= t < segment_entries(idx, vals, major, minor, lo, hi).len()
            && #[trigger] segment_entries(idx, vals, major, minor, lo, hi)[t].0 == c)
        <==> (c == major && exists|q: int| lo <= q < hi && #[trigger] idx[q] == minor),
    decreases hi,
{
    if hi <= lo {
        assert forall|q: int| lo <= q < hi implies #[trigger] idx[q] != minor by {}
    } else {
        let h1 = (hi - 1) as nat;
        lemma_segment_has(idx, vals, major, minor, lo, h1, c);
        let prev = segment_entries(idx, vals, major, minor, lo, h1);
        let cur = segment_entries(idx, vals, major, minor, lo, hi);
        let tail: Seq<(usize, T)> = if idx[hi - 1] == minor { seq![(major as usize, vals[hi - 1])] } else { Seq::empty() };
        assert(cur == prev + tail);
        if exists|t: int| 0 <= t < cur.len() && #[trigger] cur[t].0 == c {
            let t = choose|t: int| 0 <= t < cur.len() && #[trigger] cur[t].0 == c;
            if t < prev.len() {
                assert(prev[t].0 == c);
                let q = choose|q: int| lo <= q < h1 && #[trigger] idx[q] == minor;
                assert(lo <= q < hi && idx[q] == minor);
            } else {
                assert(idx[hi - 1] == minor);
                assert(cur[t] == tail[t - prev.len()]);
                assert(c == major);
            }
        }
        if c == major && exists|q: int| lo <= q < hi && #[trigger] idx[q] == minor {
            let q = choose|q: int| lo <= q < hi && #[trigger] idx[q] == minor;
            if q < h1 {
                let t = choose|t: int| 0 <= t < prev.len() && #[trigger] prev[t].0 == c;
                assert(cur[t] == prev[t]);
            } else {
                assert(cur[prev.len() as int] == tail[0]);
                assert(cur[prev.len() as int].0 == c);
            }
        }
    }
}

/// An entry tagged `c` occurs among the entries with minor index `minor` of
/// the first `nmajor` segments exactly when segment `c` is one of them and
/// stores `minor`.
proof fn lemma_minor_has<T>(ptrs: Seq<usize>, idx: Seq<usize>, vals: Seq<T>, minor: nat, nmajor: nat, c: int)
    requires
        nmajor < ptrs.len(),
        nmajor <= usize::MAX,
    ensures
        (exists|t: int| 0 <= t < minor_entries(ptrs, idx, vals, minor, nmajor).len()
            && #[trigger] minor_entries(ptrs, idx, vals, minor, nmajor)[t].0 == c)
        <==> (0 <= c < nmajor && exists|q: int| ptrs[c] <= q < ptrs[c + 1] && #[trigger] idx[q] == minor),
    decreases nmajor,
{
    if nmajor > 0 {
        let m1 = (nmajor - 1) as nat;
        lemma_minor_has(ptrs, idx, vals, minor, m1, c);
        lemma_segment_has(idx, vals, m1, minor, ptrs[m1 as int] as nat, ptrs[nmajor as int] as nat, c);
        let prev = minor_entries(ptrs, idx, vals, minor, m1);
        let seg = segment_entries(idx, vals, m1, minor, ptrs[m1 as int] as nat, ptrs[nmajor as int] as nat);
        let all = minor_entries(ptrs, idx, vals, minor, nmajor);
        assert(all == prev + seg);
        if exists|t: int| 0 <= t < all.len() && #[trigger] all[t].0 == c {
            let t = choose|t: int| 0 <= t < all.len() && #[trigger] all[t].0 == c;
            if t < prev.len() {
                assert(prev[t].0 == c);
            } else {
                assert(seg[t - prev.len()].0 == c);
            }
        }
        if 0 <= c < nmajor && exists|q: int| ptrs[c] <= q < ptrs[c + 1] && #[trigger] idx[q] == minor {
            if c < m1 {
                let t = choose|t: int| 0 <= t < prev.len() && #[trigger] prev[t].0 == c;
                assert(all[t] == prev[t]);
            } else {
                let t = choose|t: int| 0 <= t < seg.len() && #[trigger] seg[t].0 == c;
                assert(all[prev.len() + t] == seg[t]);
            }
        }
    }
}

/// The elimination tree of the symmetric pattern whose lower triangle is
/// stored column by column in `(ptrs, idx)`; entries above the diagonal
/// are ignored.
pub fn elimination_tree_of_lower(n: usize, ptrs: &[usize], idx: &[usize]) -> (parent: Vec<Option<usize>>)
    requires
        n < usize::MAX,
        compressed_wf(n as nat, n as nat, ptrs@, idx@, idx@.len()),
    ensures
        is_elimination_tree_of_lower(parent@, n as nat, ptrs@, idx@),
{
    let (tptrs, tidx, tvals) = transpose_compressed(n, n, ptrs, idx, idx);
    let parent = elimination_tree(n, tptrs.as_slice(), tidx.as_slice());
    proof {
        // Column `r` of the transpose stores row `c` exactly when column `c`
        // stores row `r`.
        assert forall|r: int, c: int| 0 <= r < n implies
            (#[trigger] segment_stores(tptrs@, tidx@, r, c) <==> (0 <= c < n && segment_stores(ptrs@, idx@, c, r))) by {
            let seg = stored_segment(tptrs@, tidx@, tvals@, r as nat);
            assert(seg == minor_entries(ptrs@, idx@, idx@, r as nat, n as nat));
            lemma_minor_has(ptrs@, idx@, idx@, r as nat, n as nat, c);
            assert(tptrs@[r] <= tptrs@[r + 1]);
            if segment_stores(tptrs@, tidx@, r, c) {
                let q = choose|q: int| tptrs@[r] <= q < tptrs@[r + 1] && #[trigger] tidx@[q] == c;
                assert(seg[q - tptrs@[r]].0 == c);
            }
            if exists|t: int| 0 <= t < seg.len() && #[trigger] seg[t].0 == c {
                let t = choose|t: int| 0 <= t < seg.len() && #[trigger] seg[t].0 == c;
                assert(tidx@[tptrs@[r] + t] == c);
            }
        }
        assert forall|c: int, q: int| 0 <= c < n && #[trigger] lower_entry(ptrs@, idx@, c, q)
            implies reaches(parent@, c, idx@[q] as int) by {
            let r = idx@[q] as int;
            assert(ptrs@[c] <= ptrs@[c + 1] <= ptrs@[n as int]);
            assert(r < n);
            assert(segment_stores(ptrs@, idx@, c, r));
            assert(segment_stores(tptrs@, tidx@, r, c));
            let qt = choose|qt: int| tptrs@[r] <= qt < tptrs@[r + 1] && #[trigger] tidx@[qt] == c;
            assert(upper_entry(tptrs@, tidx@, r, qt));
        }
        assert forall|k: int| 0 <= k < parent@.len() && #[trigger] parent@[k] is Some implies exists|c: int, q: int|
            0 <= c < n && #[trigger] lower_entry(ptrs@, idx@, c, q) && idx@[q] == parent@[k]->0 && reaches(parent@, c, k) by {
            let j = parent@[k]->0 as int;
            let qt = choose|qt: int| #[trigger] upper_entry(tptrs@, tidx@, j, qt) && reaches(parent@, tidx@[qt] as int, k);
            let c = tidx@[qt] as int;
            assert(segment_stores(tptrs@, tidx@, j, c));
            assert(segment_stores(ptrs@, idx@, c, j));
            let q = choose|q: int| ptrs@[c] <= q < ptrs@[c + 1] && #[trigger] idx@[q] == j;
            assert(lower_entry(ptrs@, idx@, c, q));
        }
    }
    parent
}

/// The elimination tree of a lower triangle is determined by it: two
/// parent arrays that both satisfy `is_elimination_tree_of_lower` for the
/// same pattern agree, so `elimination_tree_of_lower`'s contract fixes its
/// result.
pub proof fn lemma_elimination_tree_of_lower_unique(p1: Seq<Option<usize>>, p2: Seq<Option<usize>>, n: nat, ptrs: Seq<usize>, idx: Seq<usize>)
    requires
        compressed_wf(n, n, ptrs, idx, idx.len()),
        is_elimination_tree_of_lower(p1, n, ptrs, idx),
        is_elimination_tree_of_lower(p2, n, ptrs, idx),
    ensures
        p1 == p2,
{
    lemma_lower_unique_upto(p1, p2, n, ptrs, idx, n as int);
    assert(p1 =~= p2);
}

proof fn lemma_lower_unique_upto(p1: Seq<Option<usize>>, p2: Seq<Option<usize>>, n: nat, ptrs: Seq<usize>, idx: Seq<usize>, k: int)
    requires
        compressed_wf(n, n, ptrs, idx, idx.len()),
        is_elimination_tree_of_lower(p1, n, ptrs, idx),
        is_elimination_tree_of_lower(p2, n, ptrs, idx),
        0 <= k <= n,
    ensures
        forall|z: int| 0 <= z < k ==> #[trigger] p1[z] == p2[z],
    decreases k,
{
    if k > 0 {
        let m = k - 1;
        lemma_lower_unique_upto(p1, p2, n, ptrs, idx, m);
        lemma_lower_parent_bound(p1, p2, n, ptrs, idx, m);
        lemma_lower_parent_bound(p2, p1, n, ptrs, idx, m);
        assert forall|z: int| 0 <= z < k implies #[trigger] p1[z] == p2[z] by {
            if z == m {
                match (p1[m], p2[m]) {
                    (Some(a), Some(b)) => { assert(a == b); },
                    (None, None) => {},
                    _ => {},
                }
            }
        }
    }
}

/// Where `p1` and `p2` agree below `m`, a link `m -> j1` in `p1` forces a
/// link in `p2` from `m` to some `j2 <= j1`.
proof fn lemma_lower_parent_bound(p1: Seq<Option<usize>>, p2: Seq<Option<usize>>, n: nat, ptrs: Seq<usize>, idx: Seq<usize>, m: int)
    requires
        compressed_wf(n, n, ptrs, idx, idx.len()),
        is_elimination_tree_of_lower(p1, n, ptrs, idx),
        is_elimination_tree_of_lower(p2, n, ptrs, idx),
        0 <= m < n,
        forall|z: int| 0 <= z < m ==> #[trigger] p1[z] == p2[z],
    ensures
        p1[m] is Some ==> p2[m] is Some && p2[m]->0 <= p1[m]->0,
{
    if p1[m] is Some {
        let j1 = p1[m]->0 as int;
        assert(m < j1 < n);
        let (c, q) = choose|c: int, q: int| 0 <= c < n && #[trigger] lower_entry(ptrs, idx, c, q)
            && idx[q] == j1 && reaches(p1, c, m);
        lemma_reaches_agree(p1, p2, c, m);
        assert(reaches(p2, c, m));
        assert(reaches(p2, c, j1));
        lemma_reaches_fork(p2, c, m, j1);
        lemma_link_below(p2, m, j1);
    }
}

} // verus!
