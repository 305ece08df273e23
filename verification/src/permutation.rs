//! Permutations and symmetric permutation of sparse patterns.
use vstd::prelude::*;
use crate::compressed::{compressed_wf, stored_segment};
use crate::sparse::CscMatrix;

verus! {

/// `perm` is a bijection of `[0, n)`: `n` entries, each below `n`, no two
/// equal (on a finite range this already makes it onto, see
/// `lemma_permutation_onto`).
pub open spec fn is_permutation(perm: Seq<usize>, n: nat) -> bool {
    &&& perm.len() == n
    &&& forall|i: int| 0 <= i < n ==> #[trigger] perm[i] < n
    &&& forall|a: int, b: int| 0 <= a < n && 0 <= b < n && a != b ==> #[trigger] perm[a] != #[trigger] perm[b]
}

/// `inv` undoes `perm` on both sides.
pub open spec fn is_inverse(perm: Seq<usize>, inv: Seq<usize>, n: nat) -> bool {
    &&& perm.len() == n
    &&& inv.len() == n
    &&& forall|i: int| 0 <= i < n ==> #[trigger] perm[i] < n && inv[perm[i] as int] == i
    &&& forall|j: int| 0 <= j < n ==> #[trigger] inv[j] < n && perm[inv[j] as int] == j
}

/// Every index of `[0, n)` is the image of some position under a
/// permutation of `[0, n)`.
pub proof fn lemma_permutation_onto(perm: Seq<usize>, n: nat, j: int)
    requires
        is_permutation(perm, n),
        0 <= j < n,
    ensures
        exists|i: int| 0 <= i < n && #[trigger] perm[i] == j,
{
    let s = perm.map_values(|x: usize| x as int);
    assert(s.no_duplicates()) by {
        assert forall|a: int, b: int| 0 <= a < s.len() && 0 <= b < s.len() && a != b implies s[a] != s[b] by {
            assert(perm[a] != perm[b]);
        }
    }
    s.unique_seq_to_set();
    if !(exists|i: int| 0 <= i < n && #[trigger] perm[i] == j) {
        let r = vstd::set_lib::set_int_range(0, n as int).remove(j);
        vstd::set_lib::lemma_int_range(0, n as int);
        assert(s.to_set().subset_of(r)) by {
            assert forall|x: int| s.to_set().contains(x) implies r.contains(x) by {
                let i = choose|i: int| 0 <= i < s.len() && s[i] == x;
                assert(perm[i] < n);
                assert(perm[i] != j);
            }
        }
        vstd::set_lib::lemma_len_subset(s.to_set(), r);
    }
}

/// The inverse of a permutation is a permutation, whose inverse is the
/// permutation it came from.
pub proof fn lemma_inverse_of_inverse(perm: Seq<usize>, inv: Seq<usize>, n: nat)
    requires
        is_permutation(perm, n),
        is_inverse(perm, inv, n),
    ensures
        is_permutation(inv, n),
        is_inverse(inv, perm, n),
{
    assert forall|a: int, b: int| 0 <= a < n && 0 <= b < n && a != b implies #[trigger] inv[a] != #[trigger] inv[b] by {
        assert(perm[inv[a] as int] == a);
        assert(perm[inv[b] as int] == b);
    }
}

/// The inverse of `perm`, or `None` when `perm` is not a permutation of
/// `[0, perm.len())`.
pub fn inverse_permutation(perm: &[usize]) -> (inv: Option<Vec<usize>>)
    ensures
        match inv {
            Some(v) => is_permutation(perm@, perm@.len()) && is_inverse(perm@, v@, perm@.len()),
            None => !is_permutation(perm@, perm@.len()),
        },
{
    let n = perm.len();
    let mut inv: Vec<usize> = Vec::new();
    let mut t: usize = 0;
    while t < n
        invariant
            t <= n,
            inv@.len() == t,
            forall|x: int| 0 <= x < t ==> #[trigger] inv@[x] == n,
        decreases n - t,
    {
        inv.push(n);
        t = t + 1;
    }
    let mut i: usize = 0;
    while i < n
        invariant
            i <= n,
            n == perm@.len(),
            inv@.len() == n,
            forall|a: int| 0 <= a < i ==> #[trigger] perm@[a] < n && inv@[perm@[a] as int] == a,
            forall|a: int, b: int| 0 <= a < i && 0 <= b < i && a != b ==> #[trigger] perm@[a] != #[trigger] perm@[b],
            forall|x: int| 0 <= x < n ==> #[trigger] inv@[x] == n || (inv@[x] < i && perm@[inv@[x] as int] == x),
        decreases n - i,
    {
        let p = perm[i];
        if p >= n {
            proof {
                assert(!(perm@[i as int] < n));
            }
            return None;
        }
        if inv[p] != n {
            proof {
                let a = inv@[p as int] as int;
                assert(perm@[a] == p && a != i);
                assert(perm@[a] == perm@[i as int]);
            }
            return None;
        }
        inv.set(p, i);
        i = i + 1;
    }
    proof {
        assert forall|x: int| 0 <= x < n implies #[trigger] inv@[x] < n && perm@[inv@[x] as int] == x by {
            lemma_permutation_onto(perm@, n as nat, x);
            let a = choose|a: int| 0 <= a < n && #[trigger] perm@[a] == x;
            assert(inv@[perm@[a] as int] == a);
        }
    }
    Some(inv)
}

/// The inverse of a permutation of `[0, perm.len())`: `inv[perm[i]] = i`.
pub fn invert_permutation(perm: &[usize]) -> (inv: Vec<usize>)
    requires
        is_permutation(perm@, perm@.len()),
    ensures
        is_inverse(perm@, inv@, perm@.len()),
{
    let n = perm.len();
    let mut inv: Vec<usize> = Vec::new();
    let mut t: usize = 0;
    while t < n
        invariant
            t <= n,
            inv@.len() == t,
        decreases n - t,
    {
        inv.push(0);
        t = t + 1;
    }
    let mut i: usize = 0;
    while i < n
        invariant
            i <= n,
            n == perm@.len(),
            is_permutation(perm@, n as nat),
            inv@.len() == n,
            forall|a: int| 0 <= a < i ==> #[trigger] inv@[perm@[a] as int] == a,
        decreases n - i,
    {
        let p = perm[i];
        inv.set(p, i);
        proof {
            assert forall|a: int| 0 <= a < i + 1 implies #[trigger] inv@[perm@[a] as int] == a by {
                if a < i {
                    assert(perm@[a] != perm@[i as int]);
                }
            }
        }
        i = i + 1;
    }
    proof {
        assert forall|x: int| 0 <= x < n implies #[trigger] inv@[x] < n && perm@[inv@[x] as int] == x by {
            lemma_permutation_onto(perm@, n as nat, x);
            let a = choose|a: int| 0 <= a < n && #[trigger] perm@[a] == x;
            assert(inv@[perm@[a] as int] == a);
        }
    }
    inv
}

/// Value of the first entry of row `row` among storage positions `[lo, hi)`.
pub open spec fn first_match<T>(idx: Seq<usize>, vals: Seq<T>, lo: int, hi: int, row: int) -> Option<T>
    decreases hi - lo,
{
    if lo >= hi {
        None
    } else if idx[lo] == row {
        Some(vals[lo])
    } else {
        first_match(idx, vals, lo + 1, hi, row)
    }
}

/// The value placed at new row `r` of new column `nj` of `P A P^T` (lower
/// triangle): the first stored `(perm[r], perm[nj])` entry of `A`, else, off
/// the diagonal, the first stored `(perm[nj], perm[r])` entry.
pub open spec fn permuted_value<T>(ptrs: Seq<usize>, idx: Seq<usize>, vals: Seq<T>, perm: Seq<usize>, nj: int, r: int) -> Option<T> {
    let oj = perm[nj] as int;
    let or = perm[r] as int;
    match first_match(idx, vals, ptrs[oj] as int, ptrs[oj + 1] as int, or) {
        Some(v) => Some(v),
        None => if r != nj { first_match(idx, vals, ptrs[or] as int, ptrs[or + 1] as int, oj) } else { None },
    }
}

/// New column `nj` of the lower triangle of `P A P^T`, rows `[nj, upto)`,
/// ascending.
pub open spec fn permuted_column<T>(ptrs: Seq<usize>, idx: Seq<usize>, vals: Seq<T>, perm: Seq<usize>, nj: int, upto: int) -> Seq<(usize, T)>
    decreases upto - nj,
{
    if upto <= nj {
        Seq::empty()
    } else {
        permuted_column(ptrs, idx, vals, perm, nj, upto - 1) + match permuted_value(ptrs, idx, vals, perm, nj, upto - 1) {
            Some(v) => seq![((upto - 1) as usize, v)],
            None => Seq::empty(),
        }
    }
}

/// First stored value in positions `[lo, hi)` with index `row`.
fn find_first<T: Copy>(idx: &[usize], vals: &[T], lo: usize, hi: usize, row: usize) -> (r: Option<T>)
    requires
        lo <= hi <= idx@.len(),
        idx@.len() == vals@.len(),
    ensures
        r == first_match(idx@, vals@, lo as int, hi as int, row as int),
    decreases hi - lo,
{
    let mut q: usize = lo;
    while q < hi
        invariant
            lo <= q <= hi <= idx@.len(),
            idx@.len() == vals@.len(),
            first_match(idx@, vals@, lo as int, hi as int, row as int) == first_match(idx@, vals@, q as int, hi as int, row as int),
        decreases hi - q,
    {
        if idx[q] == row {
            return Some(vals[q]);
        }
        q = q + 1;
    }
    None
}

/// Lower triangle of `P A P^T` for a square symmetric `A`, completed from
/// whichever triangle of `A` stores each entry: new column `j` holds, in
/// ascending row order, the rows `r >= j` for which `permuted_value` finds
/// an entry.
pub fn permute_symmetric<T: Copy>(a: &CscMatrix<T>, perm: &[usize], perm_inv: &[usize]) -> (p: CscMatrix<T>)
    requires
        a.spec_nrows() == a.spec_ncols(),
        is_permutation(perm@, a.spec_ncols() as nat),
        is_inverse(perm@, perm_inv@, a.spec_ncols() as nat),
    ensures
        p.spec_nrows() == a.spec_nrows(),
        p.spec_ncols() == a.spec_ncols(),
        forall|j: int| 0 <= j < a.spec_ncols() ==> #[trigger] p.column(j as nat) == permuted_column(
            a.spec_col_ptrs(), a.spec_row_indices(), a.spec_values(), perm@, j, a.spec_ncols() as int),
{
    let n = a.ncols();
    let ptrs = a.col_ptrs();
    let idx = a.row_indices();
    let vals = a.values();
    let mut col_ptrs: Vec<usize> = Vec::new();
    let mut row_indices: Vec<usize> = Vec::new();
    let mut values: Vec<T> = Vec::new();
    col_ptrs.push(0);
    let mut nj: usize = 0;
    while nj < n
        invariant
            nj <= n,
            n == a.spec_ncols(),
            n == a.spec_nrows(),
            n < usize::MAX,
            ptrs@ == a.spec_col_ptrs(),
            idx@ == a.spec_row_indices(),
            vals@ == a.spec_values(),
            compressed_wf(n as nat, n as nat, ptrs@, idx@, vals@.len()),
            is_permutation(perm@, n as nat),
            col_ptrs@.len() == nj + 1,
            col_ptrs@[0] == 0,
            col_ptrs@[nj as int] == row_indices@.len(),
            row_indices@.len() == values@.len(),
            forall|x: int, y: int| 0 <= x <= y <= nj ==> #[trigger] col_ptrs@[x] <= #[trigger] col_ptrs@[y],
            forall|k: int| 0 <= k < row_indices@.len() ==> #[trigger] row_indices@[k] < n,
            forall|c: int| 0 <= c < nj ==> #[trigger] stored_segment(col_ptrs@, row_indices@, values@, c as nat)
                == permuted_column(ptrs@, idx@, vals@, perm@, c, n as int),
        decreases n - nj,
    {
        let oj = perm[nj];
        let ghost start = row_indices@.len();
        let ghost before_rows = row_indices@;
        let ghost before_vals = values@;
        proof {
            assert(ptrs@[oj as int] <= ptrs@[oj + 1] <= ptrs@[n as int]);
        }
        let mut r: usize = nj;
        while r < n
            invariant
                nj <= r <= n,
                n == a.spec_ncols(),
                oj == perm@[nj as int],
                ptrs@ == a.spec_col_ptrs(),
                idx@ == a.spec_row_indices(),
                vals@ == a.spec_values(),
                compressed_wf(n as nat, n as nat, ptrs@, idx@, vals@.len()),
                is_permutation(perm@, n as nat),
                row_indices@.len() == values@.len(),
                row_indices@.len() >= start,
                before_rows.len() == start,
                before_vals.len() == start,
                forall|k: int| 0 <= k < start ==> row_indices@[k] == before_rows[k] && values@[k] == before_vals[k],
                forall|k: int| 0 <= k < row_indices@.len() ==> #[trigger] row_indices@[k] < n,
                Seq::new((row_indices@.len() - start) as nat, |q: int| (row_indices@[start + q], values@[start + q]))
                    == permuted_column(ptrs@, idx@, vals@, perm@, nj as int, r as int),
            decreases n - r,
        {
            let or = perm[r];
            proof {
                assert(ptrs@[or as int] <= ptrs@[or + 1] <= ptrs@[n as int]);
            }
            let mut found = find_first(idx, vals, ptrs[oj], ptrs[oj + 1], or);
            if found.is_none() && r != nj {
                found = find_first(idx, vals, ptrs[or], ptrs[or + 1], oj);
            }
            let ghost seg_before = Seq::new((row_indices@.len() - start) as nat, |q: int| (row_indices@[start + q], values@[start + q]));
            match found {
                Some(v) => {
                    row_indices.push(r);
                    values.push(v);
                    proof {
                        let seg = Seq::new((row_indices@.len() - start) as nat, |q: int| (row_indices@[start + q], values@[start + q]));
                        assert(seg =~= seg_before.push((r, v)));
                    }
                }
                None => {
                    proof {
                        assert(permuted_column(ptrs@, idx@, vals@, perm@, nj as int, r + 1)
                            =~= permuted_column(ptrs@, idx@, vals@, perm@, nj as int, r as int));
                    }
                }
            }
            r = r + 1;
        }
        let ghost old_ptrs = col_ptrs@;
        col_ptrs.push(row_indices.len());
        proof {
            assert forall|c: int| 0 <= c < nj + 1 implies #[trigger] stored_segment(col_ptrs@, row_indices@, values@, c as nat)
                == permuted_column(ptrs@, idx@, vals@, perm@, c, n as int) by {
                if c < nj {
                    assert(old_ptrs[c] <= old_ptrs[c + 1]);
                    assert(old_ptrs[c + 1] <= old_ptrs[nj as int]);
                    assert(col_ptrs@[c] == old_ptrs[c]);
                    assert(col_ptrs@[c + 1] == old_ptrs[c + 1]);
                    assert(stored_segment(col_ptrs@, row_indices@, values@, c as nat)
                        =~= stored_segment(old_ptrs, before_rows, before_vals, c as nat));
                } else {
                    assert(stored_segment(col_ptrs@, row_indices@, values@, c as nat)
                        =~= Seq::new((row_indices@.len() - start) as nat, |q: int| (row_indices@[start + q], values@[start + q])));
                }
            }
            assert forall|x: int, y: int| 0 <= x <= y <= nj + 1 implies #[trigger] col_ptrs@[x] <= #[trigger] col_ptrs@[y] by {
                if y == nj + 1 && x <= nj {
                    assert(old_ptrs[x] <= old_ptrs[nj as int]);
                } else if y <= nj {
                    assert(old_ptrs[x] <= old_ptrs[y]);
                }
            }
        }
        nj = nj + 1;
    }
    CscMatrix::from_parts(n, n, col_ptrs, row_indices, values)
}

} // verus!
