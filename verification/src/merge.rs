//! Merging two sparse rows by column index, the structural part of the
//! sums `A + sigma B` and `A - sigma B` of two CSR matrices.
use vstd::prelude::*;
use crate::sparse::CsrMatrix;

verus! {

/// One step of a merge: an entry taken from the left row only, from the
/// right row only, or from both at once (same column), given by storage
/// positions.
#[derive(Debug, Clone, Copy, PartialEq, Eq, Structural)]
pub enum MergeStep {
    /// Position in the left row's storage.
    Left(usize),
    /// Position in the right row's storage.
    Right(usize),
    /// Positions in the left and right rows' storage, same column.
    Both(usize, usize),
}

/// The steps of a two-pointer merge of positions `[pa, ha)` of `ia` with
/// positions `[pb, hb)` of `ib`: the smaller column goes first, equal
/// columns are taken together, and what is left of either row follows.
pub open spec fn merge_steps(ia: Seq<usize>, pa: int, ha: int, ib: Seq<usize>, pb: int, hb: int) -> Seq<MergeStep>
    decreases (if pa < ha { ha - pa } else { 0 }) + (if pb < hb { hb - pb } else { 0 }),
{
    if pa < ha && pb < hb {
        if ia[pa] < ib[pb] {
            seq![MergeStep::Left(pa as usize)] + merge_steps(ia, pa + 1, ha, ib, pb, hb)
        } else if ia[pa] > ib[pb] {
            seq![MergeStep::Right(pb as usize)] + merge_steps(ia, pa, ha, ib, pb + 1, hb)
        } else {
            seq![MergeStep::Both(pa as usize, pb as usize)] + merge_steps(ia, pa + 1, ha, ib, pb + 1, hb)
        }
    } else if pa < ha {
        seq![MergeStep::Left(pa as usize)] + merge_steps(ia, pa + 1, ha, ib, pb, hb)
    } else if pb < hb {
        seq![MergeStep::Right(pb as usize)] + merge_steps(ia, pa, ha, ib, pb + 1, hb)
    } else {
        Seq::empty()
    }
}

/// The column a merge step stands for.
pub open spec fn step_column(ia: Seq<usize>, ib: Seq<usize>, s: MergeStep) -> usize {
    match s {
        MergeStep::Left(k) => ia[k as int],
        MergeStep::Right(k) => ib[k as int],
        MergeStep::Both(k, _) => ia[k as int],
    }
}

/// Positions `[lo, hi)` of `idx` hold strictly increasing columns.
pub open spec fn increasing_range(idx: Seq<usize>, lo: int, hi: int) -> bool {
    forall|x: int, y: int| lo <= x < y < hi ==> #[trigger] idx[x] < #[trigger] idx[y]
}

/// Some position of `[lo, hi)` holds column `c`.
pub open spec fn in_range(idx: Seq<usize>, lo: int, hi: int, c: usize) -> bool {
    exists|k: int| lo <= k < hi && #[trigger] idx[k] == c
}

/// Every column a merge produces is at least `bound` when both rows start
/// at or above it.
proof fn lemma_merge_lower(ia: Seq<usize>, pa: int, ha: int, ib: Seq<usize>, pb: int, hb: int, bound: int)
    requires
        0 <= pa <= ha <= ia.len() <= usize::MAX,
        0 <= pb <= hb <= ib.len() <= usize::MAX,
        increasing_range(ia, pa, ha),
        increasing_range(ib, pb, hb),
        pa < ha ==> bound <= ia[pa],
        pb < hb ==> bound <= ib[pb],
    ensures
        forall|x: int| 0 <= x < merge_steps(ia, pa, ha, ib, pb, hb).len()
            ==> bound <= #[trigger] step_column(ia, ib, merge_steps(ia, pa, ha, ib, pb, hb)[x]),
    decreases (ha - pa) + (hb - pb),
{
    let m = merge_steps(ia, pa, ha, ib, pb, hb);
    if pa < ha && pb < hb {
        if ia[pa] < ib[pb] {
            if pa + 1 < ha { assert(ia[pa] < ia[pa + 1]); }
            lemma_merge_lower(ia, pa + 1, ha, ib, pb, hb, bound);
        } else if ia[pa] > ib[pb] {
            if pb + 1 < hb { assert(ib[pb] < ib[pb + 1]); }
            lemma_merge_lower(ia, pa, ha, ib, pb + 1, hb, bound);
        } else {
            if pa + 1 < ha { assert(ia[pa] < ia[pa + 1]); }
            if pb + 1 < hb { assert(ib[pb] < ib[pb + 1]); }
            lemma_merge_lower(ia, pa + 1, ha, ib, pb + 1, hb, bound);
        }
    } else if pa < ha {
        if pa + 1 < ha { assert(ia[pa] < ia[pa + 1]); }
        lemma_merge_lower(ia, pa + 1, ha, ib, pb, hb, bound);
    } else if pb < hb {
        if pb + 1 < hb { assert(ib[pb] < ib[pb + 1]); }
        lemma_merge_lower(ia, pa, ha, ib, pb + 1, hb, bound);
    }
    assert forall|x: int| 0 <= x < m.len() implies bound <= #[trigger] step_column(ia, ib, m[x]) by {
        if x > 0 {
            if pa < ha && pb < hb {
                if ia[pa] < ib[pb] {
                    assert(m[x] == merge_steps(ia, pa + 1, ha, ib, pb, hb)[x - 1]);
                } else if ia[pa] > ib[pb] {
                    assert(m[x] == merge_steps(ia, pa, ha, ib, pb + 1, hb)[x - 1]);
                } else {
                    assert(m[x] == merge_steps(ia, pa + 1, ha, ib, pb + 1, hb)[x - 1]);
                }
            } else if pa < ha {
                assert(m[x] == merge_steps(ia, pa + 1, ha, ib, pb, hb)[x - 1]);
            } else {
                assert(m[x] == merge_steps(ia, pa, ha, ib, pb + 1, hb)[x - 1]);
            }
        }
    }
}

/// The columns of a merge of rows with strictly increasing columns.
proof fn lemma_merge_step(ia: Seq<usize>, pa: int, ha: int, ib: Seq<usize>, pb: int, hb: int,
    s: MergeStep, na: int, nb: int)
    requires
        0 <= pa <= ha <= ia.len() <= usize::MAX,
        0 <= pb <= hb <= ib.len() <= usize::MAX,
        increasing_range(ia, pa, ha),
        increasing_range(ib, pb, hb),
        pa <= na <= ha,
        pb <= nb <= hb,
        merge_steps(ia, pa, ha, ib, pb, hb) == seq![s] + merge_steps(ia, na, ha, ib, nb, hb),
        na < ha ==> step_column(ia, ib, s) < ia[na],
        nb < hb ==> step_column(ia, ib, s) < ib[nb],
        forall|c: usize| (c == step_column(ia, ib, s) || in_range(ia, na, ha, c) || in_range(ib, nb, hb, c))
            <==> (in_range(ia, pa, ha, c) || in_range(ib, pb, hb, c)),
        ({
            let r = merge_steps(ia, na, ha, ib, nb, hb);
            &&& forall|x: int, y: int| 0 <= x < y < r.len()
                ==> #[trigger] step_column(ia, ib, r[x]) < #[trigger] step_column(ia, ib, r[y])
            &&& forall|c: usize| (exists|x: int| 0 <= x < r.len() && #[trigger] step_column(ia, ib, r[x]) == c)
                <==> (in_range(ia, na, ha, c) || in_range(ib, nb, hb, c))
        }),
    ensures
        ({
            let m = merge_steps(ia, pa, ha, ib, pb, hb);
            &&& forall|x: int, y: int| 0 <= x < y < m.len()
                ==> #[trigger] step_column(ia, ib, m[x]) < #[trigger] step_column(ia, ib, m[y])
            &&& forall|c: usize| (exists|x: int| 0 <= x < m.len() && #[trigger] step_column(ia, ib, m[x]) == c)
                <==> (in_range(ia, pa, ha, c) || in_range(ib, pb, hb, c))
        }),
{
    let m = merge_steps(ia, pa, ha, ib, pb, hb);
    let rest = merge_steps(ia, na, ha, ib, nb, hb);
    let c0 = step_column(ia, ib, s);
    lemma_merge_lower(ia, na, ha, ib, nb, hb, c0 + 1);
    assert forall|x: int, y: int| 0 <= x < y < m.len()
        implies #[trigger] step_column(ia, ib, m[x]) < #[trigger] step_column(ia, ib, m[y]) by {
        assert(m[y] == rest[y - 1]);
        if x > 0 {
            assert(m[x] == rest[x - 1]);
        }
    }
    assert forall|c: usize| (exists|x: int| 0 <= x < m.len() && #[trigger] step_column(ia, ib, m[x]) == c)
        <==> (in_range(ia, pa, ha, c) || in_range(ib, pb, hb, c)) by {
        if exists|x: int| 0 <= x < m.len() && #[trigger] step_column(ia, ib, m[x]) == c {
            let x = choose|x: int| 0 <= x < m.len() && #[trigger] step_column(ia, ib, m[x]) == c;
            if x > 0 {
                assert(m[x] == rest[x - 1]);
                assert(step_column(ia, ib, rest[x - 1]) == c);
            }
        }
        if c == c0 {
            assert(step_column(ia, ib, m[0]) == c);
        } else if in_range(ia, na, ha, c) || in_range(ib, nb, hb, c) {
            let x = choose|x: int| 0 <= x < rest.len() && #[trigger] step_column(ia, ib, rest[x]) == c;
            assert(m[x + 1] == rest[x]);
        }
    }
}

/// Merging rows with strictly increasing columns gives strictly increasing
/// columns, exactly the columns found in one row or the other: the pattern
/// of a sum of two sparse rows is the union of their patterns.
pub proof fn lemma_merge_sorted_union(ia: Seq<usize>, pa: int, ha: int, ib: Seq<usize>, pb: int, hb: int)
    requires
        0 <= pa <= ha <= ia.len() <= usize::MAX,
        0 <= pb <= hb <= ib.len() <= usize::MAX,
        increasing_range(ia, pa, ha),
        increasing_range(ib, pb, hb),
    ensures
        ({
            let m = merge_steps(ia, pa, ha, ib, pb, hb);
            &&& forall|x: int, y: int| 0 <= x < y < m.len()
                ==> #[trigger] step_column(ia, ib, m[x]) < #[trigger] step_column(ia, ib, m[y])
            &&& forall|c: usize| (exists|x: int| 0 <= x < m.len() && #[trigger] step_column(ia, ib, m[x]) == c)
                <==> (in_range(ia, pa, ha, c) || in_range(ib, pb, hb, c))
        }),
    decreases (ha - pa) + (hb - pb),
{
    let m = merge_steps(ia, pa, ha, ib, pb, hb);
    if pa < ha && pb < hb {
        if ia[pa] < ib[pb] {
            lemma_merge_sorted_union(ia, pa + 1, ha, ib, pb, hb);
            if pa + 1 < ha { assert(ia[pa] < ia[pa + 1]); }
            assert forall|c: usize| (c == ia[pa] || in_range(ia, pa + 1, ha, c) || in_range(ib, pb, hb, c))
                <==> (in_range(ia, pa, ha, c) || in_range(ib, pb, hb, c)) by {
                if c == ia[pa] { assert(in_range(ia, pa, ha, c)); }
                if in_range(ia, pa + 1, ha, c) {
                    let k = choose|k: int| pa + 1 <= k < ha && #[trigger] ia[k] == c;
                    assert(pa <= k < ha && ia[k] == c);
                }
                if in_range(ia, pa, ha, c) {
                    let k = choose|k: int| pa <= k < ha && #[trigger] ia[k] == c;
                    if k > pa { assert(in_range(ia, pa + 1, ha, c)); }
                }
            }
            lemma_merge_step(ia, pa, ha, ib, pb, hb, MergeStep::Left(pa as usize), pa + 1, pb);
        } else if ia[pa] > ib[pb] {
            lemma_merge_sorted_union(ia, pa, ha, ib, pb + 1, hb);
            if pb + 1 < hb { assert(ib[pb] < ib[pb + 1]); }
            assert forall|c: usize| (c == ib[pb] || in_range(ia, pa, ha, c) || in_range(ib, pb + 1, hb, c))
                <==> (in_range(ia, pa, ha, c) || in_range(ib, pb, hb, c)) by {
                if c == ib[pb] { assert(in_range(ib, pb, hb, c)); }
                if in_range(ib, pb + 1, hb, c) {
                    let k = choose|k: int| pb + 1 <= k < hb && #[trigger] ib[k] == c;
                    assert(pb <= k < hb && ib[k] == c);
                }
                if in_range(ib, pb, hb, c) {
                    let k = choose|k: int| pb <= k < hb && #[trigger] ib[k] == c;
                    if k > pb { assert(in_range(ib, pb + 1, hb, c)); }
                }
            }
            lemma_merge_step(ia, pa, ha, ib, pb, hb, MergeStep::Right(pb as usize), pa, pb + 1);
        } else {
            lemma_merge_sorted_union(ia, pa + 1, ha, ib, pb + 1, hb);
            if pa + 1 < ha { assert(ia[pa] < ia[pa + 1]); }
            if pb + 1 < hb { assert(ib[pb] < ib[pb + 1]); }
            assert forall|c: usize| (c == ia[pa] || in_range(ia, pa + 1, ha, c) || in_range(ib, pb + 1, hb, c))
                <==> (in_range(ia, pa, ha, c) || in_range(ib, pb, hb, c)) by {
                if c == ia[pa] { assert(in_range(ia, pa, ha, c)); }
                if in_range(ia, pa + 1, ha, c) {
                    let k = choose|k: int| pa + 1 <= k < ha && #[trigger] ia[k] == c;
                    assert(pa <= k < ha && ia[k] == c);
                }
                if in_range(ib, pb + 1, hb, c) {
                    let k = choose|k: int| pb + 1 <= k < hb && #[trigger] ib[k] == c;
                    assert(pb <= k < hb && ib[k] == c);
                }
                if in_range(ia, pa, ha, c) {
                    let k = choose|k: int| pa <= k < ha && #[trigger] ia[k] == c;
                    if k > pa { assert(in_range(ia, pa + 1, ha, c)); }
                }
                if in_range(ib, pb, hb, c) {
                    let k = choose|k: int| pb <= k < hb && #[trigger] ib[k] == c;
                    if k > pb { assert(in_range(ib, pb + 1, hb, c)); } else { assert(c == ia[pa]); }
                }
            }
            lemma_merge_step(ia, pa, ha, ib, pb, hb, MergeStep::Both(pa as usize, pb as usize), pa + 1, pb + 1);
        }
    } else if pa < ha {
        lemma_merge_sorted_union(ia, pa + 1, ha, ib, pb, hb);
        if pa + 1 < ha { assert(ia[pa] < ia[pa + 1]); }
        assert forall|c: usize| (c == ia[pa] || in_range(ia, pa + 1, ha, c) || in_range(ib, pb, hb, c))
            <==> (in_range(ia, pa, ha, c) || in_range(ib, pb, hb, c)) by {
            if c == ia[pa] { assert(in_range(ia, pa, ha, c)); }
            if in_range(ia, pa + 1, ha, c) {
                let k = choose|k: int| pa + 1 <= k < ha && #[trigger] ia[k] == c;
                assert(pa <= k < ha && ia[k] == c);
            }
            if in_range(ia, pa, ha, c) {
                let k = choose|k: int| pa <= k < ha && #[trigger] ia[k] == c;
                if k > pa { assert(in_range(ia, pa + 1, ha, c)); }
            }
        }
        lemma_merge_step(ia, pa, ha, ib, pb, hb, MergeStep::Left(pa as usize), pa + 1, pb);
    } else if pb < hb {
        lemma_merge_sorted_union(ia, pa, ha, ib, pb + 1, hb);
        if pb + 1 < hb { assert(ib[pb] < ib[pb + 1]); }
        assert forall|c: usize| (c == ib[pb] || in_range(ia, pa, ha, c) || in_range(ib, pb + 1, hb, c))
            <==> (in_range(ia, pa, ha, c) || in_range(ib, pb, hb, c)) by {
            if c == ib[pb] { assert(in_range(ib, pb, hb, c)); }
            if in_range(ib, pb + 1, hb, c) {
                let k = choose|k: int| pb + 1 <= k < hb && #[trigger] ib[k] == c;
                assert(pb <= k < hb && ib[k] == c);
            }
            if in_range(ib, pb, hb, c) {
                let k = choose|k: int| pb <= k < hb && #[trigger] ib[k] == c;
                if k > pb { assert(in_range(ib, pb + 1, hb, c)); }
            }
        }
        lemma_merge_step(ia, pa, ha, ib, pb, hb, MergeStep::Right(pb as usize), pa, pb + 1);
    } else {
        assert(m == Seq::<MergeStep>::empty());
        assert forall|c: usize| !(in_range(ia, pa, ha, c) || in_range(ib, pb, hb, c)) by {}
    }
}

/// The merge steps for row `i` of two matrices: a two-pointer walk over
/// the row's stored columns in both.
pub fn merge_row<T>(a: &CsrMatrix<T>, b: &CsrMatrix<T>, i: usize) -> (steps: Vec<MergeStep>)
    requires
        i < a.spec_nrows(),
        i < b.spec_nrows(),
    ensures
        steps@ == merge_steps(
            a.spec_col_indices(), a.spec_row_ptrs()[i as int] as int, a.spec_row_ptrs()[i + 1] as int,
            b.spec_col_indices(), b.spec_row_ptrs()[i as int] as int, b.spec_row_ptrs()[i + 1] as int),
{
    let ap = a.row_ptrs();
    let ai = a.col_indices();
    let bp = b.row_ptrs();
    let bi = b.col_indices();
    proof {
        assert(ap@[i as int] <= ap@[i + 1] <= ap@[a.spec_nrows() as int]);
        assert(bp@[i as int] <= bp@[i + 1] <= bp@[b.spec_nrows() as int]);
    }
    let ha = ap[i + 1];
    let hb = bp[i + 1];
    let mut pa = ap[i];
    let mut pb = bp[i];
    let ghost whole = merge_steps(ai@, pa as int, ha as int, bi@, pb as int, hb as int);
    let mut steps: Vec<MergeStep> = Vec::new();
    while pa < ha || pb < hb
        invariant
            ap@[i as int] <= pa <= ha <= ai@.len(),
            bp@[i as int] <= pb <= hb <= bi@.len(),
            steps@ + merge_steps(ai@, pa as int, ha as int, bi@, pb as int, hb as int) == whole,
        decreases (ha - pa) + (hb - pb),
    {
        let ghost rest = merge_steps(ai@, pa as int, ha as int, bi@, pb as int, hb as int);
        let s = if pa < ha && pb < hb {
            if ai[pa] < bi[pb] {
                MergeStep::Left(pa)
            } else if ai[pa] > bi[pb] {
                MergeStep::Right(pb)
            } else {
                MergeStep::Both(pa, pb)
            }
        } else if pa < ha {
            MergeStep::Left(pa)
        } else {
            MergeStep::Right(pb)
        };
        let ghost old_steps = steps@;
        steps.push(s);
        match s {
            MergeStep::Left(_) => { pa = pa + 1; }
            MergeStep::Right(_) => { pb = pb + 1; }
            MergeStep::Both(_, _) => { pa = pa + 1; pb = pb + 1; }
        }
        proof {
            let next = merge_steps(ai@, pa as int, ha as int, bi@, pb as int, hb as int);
            assert(rest == seq![s] + next);
            assert(steps@ + next =~= old_steps + (seq![s] + next));
        }
    }
    proof {
        assert(merge_steps(ai@, pa as int, ha as int, bi@, pb as int, hb as int) == Seq::<MergeStep>::empty());
        assert(steps@ + Seq::<MergeStep>::empty() =~= steps@);
    }
    steps
}

} // verus!
