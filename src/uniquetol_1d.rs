use vstd::prelude::*;

use crate::isapprox::{
    NanComparison, Tols, envelope_deterministic, envelope_symmetric, envelope_total, is_nan_spec,
    isapprox, isapprox_outcome, lemma_isapprox_symmetric, order_key, order_key_spec,
};

verus! {

/// Which member of a group stands for it: the first in ascending order
/// (`Lowest`) or the first in descending order (`Highest`).
#[derive(Debug, Clone, Copy, PartialEq, Eq, Structural)]
pub enum Occurrence {
    Lowest,
    Highest,
}

impl Default for Occurrence {
    fn default() -> (r: Self)
        ensures
            r == Occurrence::Lowest,
    {
        Occurrence::Lowest
    }
}

/// `Highest` sorts descending.
pub open spec fn descending(occurrence: Occurrence) -> bool {
    occurrence == Occurrence::Highest
}

/// Index `i` comes before index `j` when the values are sorted ascending
/// (`reverse` false) or descending (`reverse` true) by their order keys,
/// ties kept in index order.
pub open spec fn precedes(arr: Seq<u64>, reverse: bool, i: int, j: int) -> bool {
    let ki = order_key_spec(arr[i]);
    let kj = order_key_spec(arr[j]);
    if ki == kj {
        i < j
    } else if reverse {
        ki > kj
    } else {
        ki < kj
    }
}

/// `p` lists every index of `arr` once, in the stable sorted order.
pub open spec fn is_sorted_perm(p: Seq<usize>, arr: Seq<u64>, reverse: bool) -> bool {
    &&& p.len() == arr.len()
    &&& forall|a: int| 0 <= a < p.len() ==> #[trigger] p[a] < arr.len()
    &&& forall|a: int, b: int|
        0 <= a < b < p.len() ==> precedes(arr, reverse, #[trigger] p[a] as int, #[trigger] p[b] as int)
    &&& forall|i: int| 0 <= i < arr.len() ==> #[trigger] p.contains(i as usize)
}

/// `s` lists every index of `lo..hi` once, in the stable sorted order.
pub open spec fn is_sorted_range(s: Seq<usize>, arr: Seq<u64>, reverse: bool, lo: int, hi: int) -> bool {
    &&& s.len() == hi - lo
    &&& forall|a: int| 0 <= a < s.len() ==> lo <= #[trigger] s[a] < hi
    &&& forall|a: int, b: int|
        0 <= a < b < s.len() ==> precedes(arr, reverse, #[trigger] s[a] as int, #[trigger] s[b] as int)
    &&& forall|k: int| lo <= k < hi ==> #[trigger] s.contains(k as usize)
}

/// Whether index `i` comes before index `j`; see `precedes`.
fn precedes_exec(arr: &Vec<u64>, reverse: bool, i: usize, j: usize) -> (r: bool)
    requires
        i < arr@.len(),
        j < arr@.len(),
    ensures
        r == precedes(arr@, reverse, i as int, j as int),
{
    let ki = order_key(arr[i]);
    let kj = order_key(arr[j]);
    if ki == kj {
        i < j
    } else if reverse {
        ki > kj
    } else {
        ki < kj
    }
}

/// Merges the sorted orders of `lo..mid` and `mid..hi` into that of `lo..hi`.
fn merge(arr: &Vec<u64>, reverse: bool, a: &Vec<usize>, b: &Vec<usize>, lo: usize, mid: usize, hi: usize) -> (s:
    Vec<usize>)
    requires
        lo <= mid <= hi <= arr@.len(),
        is_sorted_range(a@, arr@, reverse, lo as int, mid as int),
        is_sorted_range(b@, arr@, reverse, mid as int, hi as int),
    ensures
        is_sorted_range(s@, arr@, reverse, lo as int, hi as int),
{
    let mut s: Vec<usize> = Vec::new();
    let mut i: usize = 0;
    let mut j: usize = 0;
    while i < a.len() || j < b.len()
        invariant
            lo <= mid <= hi <= arr@.len(),
            is_sorted_range(a@, arr@, reverse, lo as int, mid as int),
            is_sorted_range(b@, arr@, reverse, mid as int, hi as int),
            i <= a@.len(),
            j <= b@.len(),
            s@.len() == i + j,
            forall|z: int| 0 <= z < s@.len() ==> lo <= #[trigger] s@[z] < hi,
            forall|p: int, q: int|
                0 <= p < q < s@.len() ==> precedes(
                    arr@,
                    reverse,
                    #[trigger] s@[p] as int,
                    #[trigger] s@[q] as int,
                ),
            forall|p: int|
                0 <= p < s@.len() && i < a@.len() ==> precedes(
                    arr@,
                    reverse,
                    #[trigger] s@[p] as int,
                    a@[i as int] as int,
                ),
            forall|p: int|
                0 <= p < s@.len() && j < b@.len() ==> precedes(
                    arr@,
                    reverse,
                    #[trigger] s@[p] as int,
                    b@[j as int] as int,
                ),
            forall|x: int| 0 <= x < i ==> s@.contains(#[trigger] a@[x]),
            forall|y: int| 0 <= y < j ==> s@.contains(#[trigger] b@[y]),
        decreases a@.len() + b@.len() - i - j,
    {
        let ghost s0 = s@;
        if j >= b.len() || (i < a.len() && precedes_exec(arr, reverse, a[i], b[j])) {
            let x = a[i];
            proof {
                if j < b@.len() {
                    assert(precedes(arr@, reverse, x as int, b@[j as int] as int));
                }
                if i + 1 < a@.len() {
                    assert(precedes(arr@, reverse, x as int, a@[i + 1] as int));
                }
            }
            s.push(x);
            i += 1;
        } else {
            let y = b[j];
            proof {
                if i < a@.len() {
                    assert(a@[i as int] < mid <= y);
                    assert(!precedes(arr@, reverse, a@[i as int] as int, y as int));
                    assert(precedes(arr@, reverse, y as int, a@[i as int] as int));
                }
                if j + 1 < b@.len() {
                    assert(precedes(arr@, reverse, y as int, b@[j + 1] as int));
                }
            }
            s.push(y);
            j += 1;
        }
        proof {
            assert forall|x: int| 0 <= x < i implies s@.contains(#[trigger] a@[x]) by {
                if x < i - 1 || s@.last() != a@[x] {
                    if s0.contains(a@[x]) {
                        let z = choose|z: int| 0 <= z < s0.len() && s0[z] == a@[x];
                        assert(s@[z] == a@[x]);
                    }
                }
                if s@.last() == a@[x] {
                    assert(s@[s@.len() - 1] == a@[x]);
                }
            }
            assert forall|y: int| 0 <= y < j implies s@.contains(#[trigger] b@[y]) by {
                if y < j - 1 || s@.last() != b@[y] {
                    if s0.contains(b@[y]) {
                        let z = choose|z: int| 0 <= z < s0.len() && s0[z] == b@[y];
                        assert(s@[z] == b@[y]);
                    }
                }
                if s@.last() == b@[y] {
                    assert(s@[s@.len() - 1] == b@[y]);
                }
            }
        }
    }
    proof {
        assert forall|k: int| lo <= k < hi implies #[trigger] s@.contains(k as usize) by {
            if k < mid {
                assert(a@.contains(k as usize));
                let x = choose|x: int| 0 <= x < a@.len() && a@[x] == k as usize;
                assert(s@.contains(a@[x]));
            } else {
                assert(b@.contains(k as usize));
                let y = choose|y: int| 0 <= y < b@.len() && b@[y] == k as usize;
                assert(s@.contains(b@[y]));
            }
        }
    }
    s
}

/// The stable sorted order of the indices `lo..hi`, by merge sort.
fn merge_sort(arr: &Vec<u64>, reverse: bool, lo: usize, hi: usize) -> (s: Vec<usize>)
    requires
        lo <= hi <= arr@.len(),
    ensures
        is_sorted_range(s@, arr@, reverse, lo as int, hi as int),
    decreases hi - lo,
{
    if hi - lo <= 1 {
        let mut s: Vec<usize> = Vec::new();
        if hi > lo {
            s.push(lo);
            assert(s@[0] == lo);
        }
        return s;
    }
    let mid = lo + (hi - lo) / 2;
    let a = merge_sort(arr, reverse, lo, mid);
    let b = merge_sort(arr, reverse, mid, hi);
    merge(arr, reverse, &a, &b, lo, mid, hi)
}

/// The permutation that sorts `arr` by order key, ascending or (with
/// `reverse`) descending; equal keys keep their index order, and every NaN
/// sorts above every number.
pub fn sortperm(arr: &Vec<u64>, reverse: bool) -> (perm: Vec<usize>)
    ensures
        is_sorted_perm(perm@, arr@, reverse),
{
    merge_sort(arr, reverse, 0, arr.len())
}

/// The de-duplication of a sequence of `n` values into `m` groups.
#[derive(Debug, Clone, PartialEq)]
pub struct UniqueTolResult {
    /// The value that stands for each group, in sorted order (length `m`).
    pub arr_unique: Vec<u64>,
    /// The original index of each group's representative (length `m`).
    pub indices_unique: Vec<usize>,
    /// For each original position, the group it belongs to (length `n`).
    pub inverse_unique: Vec<usize>,
    /// The size of each group (length `m`).
    pub counts_unique: Vec<usize>,
}

/// The position in sorted order where group `g` starts: the sizes of the
/// groups before it, summed.
pub open spec fn run_start(counts: Seq<usize>, g: int) -> int
    decreases g,
{
    if g <= 0 {
        0
    } else {
        run_start(counts, g - 1) + counts[g - 1]
    }
}

pub proof fn lemma_run_start_mono(counts: Seq<usize>, g: int, h: int)
    requires
        0 <= g <= h <= counts.len(),
    ensures
        run_start(counts, g) <= run_start(counts, h),
    decreases h - g,
{
    if g < h {
        lemma_run_start_mono(counts, g, h - 1);
    }
}

impl UniqueTolResult {
    /// The four containers fit together: one entry per group in three of
    /// them, and every group number in range.
    pub open spec fn wf(self) -> bool {
        let m = self.arr_unique@.len();
        &&& self.indices_unique@.len() == m
        &&& self.counts_unique@.len() == m
        &&& forall|i: int|
            0 <= i < self.inverse_unique@.len() ==> #[trigger] self.inverse_unique@[i] < m
    }

    /// Each original position replaced by the value of its group.
    pub fn remap_to_original(&self) -> (r: Vec<u64>)
        requires
            self.wf(),
        ensures
            r@.len() == self.inverse_unique@.len(),
            forall|i: int|
                0 <= i < r@.len() ==> #[trigger] r@[i] == self.arr_unique@[self.inverse_unique@[i] as int],
    {
        let mut r: Vec<u64> = Vec::new();
        let mut i: usize = 0;
        while i < self.inverse_unique.len()
            invariant
                self.wf(),
                i <= self.inverse_unique@.len(),
                r@.len() == i,
                forall|k: int|
                    0 <= k < i ==> #[trigger] r@[k] == self.arr_unique@[self.inverse_unique@[k] as int],
            decreases self.inverse_unique@.len() - i,
        {
            r.push(self.arr_unique[self.inverse_unique[i]]);
            i += 1;
        }
        r
    }

    /// The number of groups.
    pub fn get_len_unique(&self) -> (r: usize)
        ensures
            r == self.arr_unique@.len(),
    {
        self.arr_unique.len()
    }

    /// The number of original values.
    pub fn get_len_original(&self) -> (r: usize)
        ensures
            r == self.inverse_unique@.len(),
    {
        self.inverse_unique.len()
    }
}

/// `r` is what the sweep makes of `arr` taken in the order `p`: runs of
/// consecutive positions, each judged equal to the run's first value, and a
/// new run wherever a value was judged unequal to the current run's first.
pub open spec fn sweep_matches<E: Fn(u64, u64, Tols) -> bool>(
    p: Seq<usize>,
    arr: Seq<u64>,
    tols: Tols,
    nan_cmp: NanComparison,
    envelope: E,
    r: UniqueTolResult,
) -> bool {
    let c = r.counts_unique@;
    let m = c.len();
    &&& r.arr_unique@.len() == m
    &&& r.indices_unique@.len() == m
    &&& r.inverse_unique@.len() == arr.len()
    &&& run_start(c, m as int) == arr.len()
    &&& forall|g: int| 0 <= g < m ==> #[trigger] c[g] >= 1
    &&& forall|g: int|
        0 <= g < m ==> #[trigger] r.indices_unique@[g] == p[run_start(c, g)]
            && r.arr_unique@[g] == arr[p[run_start(c, g)] as int]
    &&& forall|g: int, t: int|
        #![trigger run_start(c, g), r.inverse_unique@[p[t] as int]]
        0 <= g < m && run_start(c, g) <= t < run_start(c, g + 1)
            ==> r.inverse_unique@[p[t] as int] == g
    &&& forall|g: int, t: int|
        #![trigger run_start(c, g), p[t]]
        0 <= g < m && run_start(c, g) < t < run_start(c, g + 1) ==> isapprox_outcome(
            r.arr_unique@[g],
            arr[p[t] as int],
            tols,
            nan_cmp,
            envelope,
            true,
        )
    &&& forall|g: int|
        0 < g < m ==> isapprox_outcome(
            r.arr_unique@[g - 1],
            #[trigger] r.arr_unique@[g],
            tols,
            nan_cmp,
            envelope,
            false,
        )
}

/// `r` is the de-duplication of `arr`: the sweep over its stable sorted
/// order, ascending for `Lowest` and descending for `Highest`.
pub open spec fn is_uniquetol<E: Fn(u64, u64, Tols) -> bool>(
    arr: Seq<u64>,
    tols: Tols,
    nan_cmp: NanComparison,
    occurrence: Occurrence,
    envelope: E,
    r: UniqueTolResult,
) -> bool {
    exists|p: Seq<usize>|
        #[trigger] is_sorted_perm(p, arr, descending(occurrence)) && sweep_matches(
            p,
            arr,
            tols,
            nan_cmp,
            envelope,
            r,
        )
}

/// Every position of each closed group is mapped to that group.
#[verifier::opaque]
spec fn inverse_ok(p: Seq<usize>, c: Seq<usize>, inv: Seq<usize>) -> bool {
    forall|g: int, t: int|
        #![trigger run_start(c, g), inv[p[t] as int]]
        0 <= g < c.len() && run_start(c, g) <= t < run_start(c, g + 1) ==> inv[p[t] as int] == g
}

/// Every later member of each closed group was judged equal to its first.
#[verifier::opaque]
spec fn runs_agree<E: Fn(u64, u64, Tols) -> bool>(
    p: Seq<usize>,
    arr: Seq<u64>,
    c: Seq<usize>,
    ind: Seq<usize>,
    tols: Tols,
    nan_cmp: NanComparison,
    envelope: E,
) -> bool {
    forall|g: int, t: int|
        #![trigger run_start(c, g), p[t]]
        0 <= g < c.len() && run_start(c, g) < t < run_start(c, g + 1) ==> isapprox_outcome(
            arr[ind[g] as int],
            arr[p[t] as int],
            tols,
            nan_cmp,
            envelope,
            true,
        )
}

proof fn lemma_run_start_push(c: Seq<usize>, cnt: usize)
    ensures
        forall|g: int| 0 <= g <= c.len() ==> #[trigger] run_start(c.push(cnt), g) == run_start(c, g),
        run_start(c.push(cnt), c.len() + 1 as int) == run_start(c, c.len() as int) + cnt,
{
    assert forall|g: int| 0 <= g <= c.len() implies #[trigger] run_start(c.push(cnt), g) == run_start(
        c,
        g,
    ) by {
        lemma_run_start_prefix(c, c.push(cnt), g);
    }
    lemma_run_start_prefix(c, c.push(cnt), c.len() as int);
}

proof fn lemma_run_start_prefix(c0: Seq<usize>, c1: Seq<usize>, g: int)
    requires
        0 <= g <= c0.len() <= c1.len(),
        forall|h: int| 0 <= h < c0.len() ==> c0[h] == c1[h],
    ensures
        run_start(c1, g) == run_start(c0, g),
    decreases g,
{
    if g > 0 {
        lemma_run_start_prefix(c0, c1, g - 1);
    }
}

proof fn lemma_runs_agree_push<E: Fn(u64, u64, Tols) -> bool>(
    p: Seq<usize>,
    arr: Seq<u64>,
    c: Seq<usize>,
    ind: Seq<usize>,
    tols: Tols,
    nan_cmp: NanComparison,
    envelope: E,
    start: int,
    cnt: usize,
)
    requires
        runs_agree(p, arr, c, ind, tols, nan_cmp, envelope),
        ind.len() == c.len(),
        start == run_start(c, c.len() as int),
        forall|t: int|
            start < t < start + cnt ==> isapprox_outcome(
                arr[p[start] as int],
                arr[#[trigger] p[t] as int],
                tols,
                nan_cmp,
                envelope,
                true,
            ),
    ensures
        runs_agree(p, arr, c.push(cnt), ind.push(p[start]), tols, nan_cmp, envelope),
{
    reveal(runs_agree);
    lemma_run_start_push(c, cnt);
    let c1 = c.push(cnt);
    let ind1 = ind.push(p[start]);
    assert forall|g: int, t: int|
        #![trigger run_start(c1, g), p[t]]
        0 <= g < c1.len() && run_start(c1, g) < t < run_start(c1, g + 1) implies isapprox_outcome(
            arr[ind1[g] as int],
            arr[p[t] as int],
            tols,
            nan_cmp,
            envelope,
            true,
        ) by {
        if g < c.len() {
            assert(run_start(c, g) < t < run_start(c, g + 1));
        }
    }
}

/// A sorted permutation lists no index twice.
pub proof fn lemma_sorted_perm_distinct(p: Seq<usize>, arr: Seq<u64>, reverse: bool)
    requires
        is_sorted_perm(p, arr, reverse),
    ensures
        forall|a: int, b: int|
            0 <= a < p.len() && 0 <= b < p.len() && a != b ==> #[trigger] p[a] != #[trigger] p[b],
{
    assert forall|a: int, b: int|
        0 <= a < p.len() && 0 <= b < p.len() && a != b implies #[trigger] p[a] != #[trigger] p[b] by {
        if a < b {
            assert(precedes(arr, reverse, p[a] as int, p[b] as int));
        } else {
            assert(precedes(arr, reverse, p[b] as int, p[a] as int));
        }
    }
}

/// Closes the run of `cnt` positions of `perm` from `start` as the next group.
fn close_run(
    perm: &Vec<usize>,
    start: usize,
    cnt: usize,
    indices: &mut Vec<usize>,
    counts: &mut Vec<usize>,
    inverse: &mut Vec<usize>,
)
    requires
        cnt >= 1,
        start + cnt <= perm@.len(),
        start == run_start(old(counts)@, old(counts)@.len() as int),
        forall|g: int| 0 <= g < old(counts)@.len() ==> #[trigger] old(counts)@[g] >= 1,
        old(indices)@.len() == old(counts)@.len(),
        inverse_ok(perm@, old(counts)@, old(inverse)@),
        forall|a: int| 0 <= a < perm@.len() ==> #[trigger] perm@[a] < old(inverse)@.len(),
        forall|a: int, b: int|
            0 <= a < perm@.len() && 0 <= b < perm@.len() && a != b ==> #[trigger] perm@[a]
                != #[trigger] perm@[b],
    ensures
        final(indices)@ == old(indices)@.push(perm@[start as int]),
        final(counts)@ == old(counts)@.push(cnt),
        final(inverse)@.len() == old(inverse)@.len(),
        inverse_ok(perm@, final(counts)@, final(inverse)@),
{
    let g = indices.len();
    indices.push(perm[start]);
    counts.push(cnt);
    let mut k: usize = 0;
    while k < cnt
        invariant
            start + cnt <= perm.len(),
            k <= cnt,
            g == old(indices)@.len(),
            forall|a: int| 0 <= a < perm@.len() ==> #[trigger] perm@[a] < old(inverse)@.len(),
            forall|a: int, b: int|
                0 <= a < perm@.len() && 0 <= b < perm@.len() && a != b ==> #[trigger] perm@[a]
                    != #[trigger] perm@[b],
            inverse@.len() == old(inverse)@.len(),
            forall|j: int| start <= j < start + k ==> inverse@[#[trigger] perm@[j] as int] == g,
            forall|j: int|
                0 <= j < perm@.len() && !(start <= j < start + k) ==> inverse@[#[trigger] perm@[j] as int]
                    == old(inverse)@[perm@[j] as int],
        decreases cnt - k,
    {
        inverse.set(perm[start + k], g);
        k += 1;
    }
    proof {
        let c0 = old(counts)@;
        let c1 = counts@;
        lemma_run_start_push(c0, cnt);
        reveal(inverse_ok);
        assert forall|gg: int, t: int|
            #![trigger run_start(c1, gg), inverse@[perm@[t] as int]]
            0 <= gg < c1.len() && run_start(c1, gg) <= t < run_start(c1, gg + 1) implies inverse@[perm@[t] as int]
                == gg by {
            if gg < c0.len() {
                lemma_run_start_mono(c0, gg + 1, c0.len() as int);
                lemma_run_start_mono(c0, 0, gg);
                assert(run_start(c1, gg) == run_start(c0, gg));
                assert(run_start(c1, gg + 1) == run_start(c0, gg + 1));
                assert(t < start);
                assert(inverse@[perm@[t] as int] == old(inverse)@[perm@[t] as int]);
                assert(run_start(c0, gg) <= t < run_start(c0, gg + 1));
                assert(old(inverse)@[perm@[t] as int] == gg);
            } else {
                assert(gg == c0.len());
                assert(run_start(c1, gg) == start);
                assert(run_start(c1, gg + 1) == start + cnt);
            }
        }
    }
}

/// The sweep over `arr` in the order `perm`.
#[verifier::rlimit(40)]
pub(crate) fn sweep<E: Fn(u64, u64, Tols) -> bool>(
    arr: &Vec<u64>,
    perm: &Vec<usize>,
    tols: Tols,
    nan_cmp: NanComparison,
    envelope: &E,
) -> (r: UniqueTolResult)
    requires
        envelope_total(*envelope),
        arr@.len() > 0,
        perm@.len() == arr@.len(),
        forall|a: int| 0 <= a < perm@.len() ==> #[trigger] perm@[a] < arr@.len(),
        forall|a: int, b: int|
            0 <= a < perm@.len() && 0 <= b < perm@.len() && a != b ==> #[trigger] perm@[a]
                != #[trigger] perm@[b],
    ensures
        sweep_matches(perm@, arr@, tols, nan_cmp, *envelope, r),
{
    let n = arr.len();
    let ghost pp = perm@;
    let mut indices_unique: Vec<usize> = Vec::new();
    let mut counts_unique: Vec<usize> = Vec::new();
    let mut inverse_unique: Vec<usize> = Vec::new();
    let mut k: usize = 0;
    while k < n
        invariant
            k <= n,
            inverse_unique@.len() == k,
        decreases n - k,
    {
        inverse_unique.push(0);
        k += 1;
    }
    assert(inverse_ok(pp, counts_unique@, inverse_unique@)) by {
        reveal(inverse_ok);
    }
    assert(runs_agree(pp, arr@, counts_unique@, indices_unique@, tols, nan_cmp, *envelope)) by {
        reveal(runs_agree);
    }
    let mut idx_curr: usize = 0;
    let mut cnt_curr: usize = 1;
    let mut val_curr = arr[perm[0]];
    let mut i: usize = 1;
    while i < n
        invariant
            n == arr@.len(),
            pp == perm@,
            pp.len() == n,
            forall|a: int| 0 <= a < pp.len() ==> #[trigger] pp[a] < n,
            forall|a: int, b: int|
                0 <= a < pp.len() && 0 <= b < pp.len() && a != b ==> #[trigger] pp[a]
                    != #[trigger] pp[b],
            envelope_total(*envelope),
            1 <= i <= n,
            inverse_unique@.len() == n,
            indices_unique@.len() == counts_unique@.len(),
            idx_curr == run_start(counts_unique@, counts_unique@.len() as int),
            cnt_curr >= 1,
            idx_curr + cnt_curr == i,
            val_curr == arr@[pp[idx_curr as int] as int],
            forall|g: int| 0 <= g < counts_unique@.len() ==> #[trigger] counts_unique@[g] >= 1,
            forall|g: int|
                0 <= g < counts_unique@.len() ==> #[trigger] indices_unique@[g] == pp[run_start(
                    counts_unique@,
                    g,
                )],
            inverse_ok(pp, counts_unique@, inverse_unique@),
            runs_agree(pp, arr@, counts_unique@, indices_unique@, tols, nan_cmp, *envelope),
            forall|t: int|
                idx_curr < t < i ==> isapprox_outcome(
                    val_curr,
                    arr@[#[trigger] pp[t] as int],
                    tols,
                    nan_cmp,
                    *envelope,
                    true,
                ),
            forall|g: int|
                0 < g < indices_unique@.len() ==> isapprox_outcome(
                    arr@[indices_unique@[g - 1] as int],
                    arr@[#[trigger] indices_unique@[g] as int],
                    tols,
                    nan_cmp,
                    *envelope,
                    false,
                ),
            indices_unique@.len() > 0 ==> isapprox_outcome(
                arr@[indices_unique@[indices_unique@.len() - 1] as int],
                val_curr,
                tols,
                nan_cmp,
                *envelope,
                false,
            ),
        decreases n - i,
    {
        let val = arr[perm[i]];
        if isapprox(val_curr, val, tols, nan_cmp, envelope) {
            cnt_curr += 1;
        } else {
            let ghost c0 = counts_unique@;
            let ghost ind0 = indices_unique@;
            proof {
                lemma_runs_agree_push(
                    pp,
                    arr@,
                    c0,
                    ind0,
                    tols,
                    nan_cmp,
                    *envelope,
                    idx_curr as int,
                    cnt_curr,
                );
                lemma_run_start_push(c0, cnt_curr);
            }
            close_run(
                perm,
                idx_curr,
                cnt_curr,
                &mut indices_unique,
                &mut counts_unique,
                &mut inverse_unique,
            );
            idx_curr = i;
            cnt_curr = 1;
            val_curr = val;
        }
        i += 1;
    }
    let ghost c0 = counts_unique@;
    let ghost ind0 = indices_unique@;
    proof {
        lemma_runs_agree_push(pp, arr@, c0, ind0, tols, nan_cmp, *envelope, idx_curr as int, cnt_curr);
        lemma_run_start_push(c0, cnt_curr);
    }
    close_run(
        perm,
        idx_curr,
        cnt_curr,
        &mut indices_unique,
        &mut counts_unique,
        &mut inverse_unique,
    );
    proof {
        let c = counts_unique@;
        assert(run_start(c, c.len() as int) == n);
        assert forall|h: int| 0 <= h < indices_unique@.len() implies #[trigger] indices_unique@[h]
            < n by {
            lemma_run_start_mono(c, 0, h);
            lemma_run_start_mono(c, h + 1, c.len() as int);
        }
    }
    let mut arr_unique: Vec<u64> = Vec::new();
    let mut g: usize = 0;
    while g < indices_unique.len()
        invariant
            g <= indices_unique@.len(),
            arr_unique@.len() == g,
            forall|h: int| 0 <= h < indices_unique@.len() ==> #[trigger] indices_unique@[h] < n,
            n == arr@.len(),
            forall|h: int|
                0 <= h < g ==> #[trigger] arr_unique@[h] == arr@[indices_unique@[h] as int],
        decreases indices_unique@.len() - g,
    {
        arr_unique.push(arr[indices_unique[g]]);
        g += 1;
    }
    let r = UniqueTolResult { arr_unique, indices_unique, inverse_unique, counts_unique };
    proof {
        lemma_sweep_done(pp, arr@, tols, nan_cmp, *envelope, r);
    }
    r
}

proof fn lemma_sweep_done<E: Fn(u64, u64, Tols) -> bool>(
    p: Seq<usize>,
    arr: Seq<u64>,
    tols: Tols,
    nan_cmp: NanComparison,
    envelope: E,
    r: UniqueTolResult,
)
    requires
        p.len() == arr.len(),
        r.counts_unique@.len() == r.indices_unique@.len(),
        r.arr_unique@.len() == r.indices_unique@.len(),
        r.inverse_unique@.len() == arr.len(),
        run_start(r.counts_unique@, r.counts_unique@.len() as int) == arr.len(),
        forall|g: int| 0 <= g < r.counts_unique@.len() ==> #[trigger] r.counts_unique@[g] >= 1,
        forall|g: int|
            0 <= g < r.counts_unique@.len() ==> #[trigger] r.indices_unique@[g] == p[run_start(
                r.counts_unique@,
                g,
            )],
        forall|h: int|
            0 <= h < r.arr_unique@.len() ==> #[trigger] r.arr_unique@[h] == arr[r.indices_unique@[h] as int],
        inverse_ok(p, r.counts_unique@, r.inverse_unique@),
        runs_agree(p, arr, r.counts_unique@, r.indices_unique@, tols, nan_cmp, envelope),
        forall|g: int|
            0 < g < r.indices_unique@.len() ==> isapprox_outcome(
                arr[r.indices_unique@[g - 1] as int],
                arr[#[trigger] r.indices_unique@[g] as int],
                tols,
                nan_cmp,
                envelope,
                false,
            ),
    ensures
        sweep_matches(p, arr, tols, nan_cmp, envelope, r),
{
    reveal(inverse_ok);
    reveal(runs_agree);
    let c = r.counts_unique@;
    assert forall|g: int| 0 < g < r.arr_unique@.len() implies isapprox_outcome(
        r.arr_unique@[g - 1],
        #[trigger] r.arr_unique@[g],
        tols,
        nan_cmp,
        envelope,
        false,
    ) by {
        assert(r.arr_unique@[g - 1] == arr[r.indices_unique@[g - 1] as int]);
        assert(r.arr_unique@[g] == arr[r.indices_unique@[g] as int]);
    }
}

/// The de-duplication of `arr` within `tols`: the stable sorted order
/// (ascending for `Lowest`, descending for `Highest`) is swept once, each
/// value compared with the first value of the current run, and each run
/// becomes one group represented by its first member.
pub fn uniquetol_1d<E: Fn(u64, u64, Tols) -> bool>(
    arr: &Vec<u64>,
    tols: Tols,
    nan_cmp: NanComparison,
    occurrence: Occurrence,
    envelope: &E,
) -> (r: UniqueTolResult)
    requires
        envelope_total(*envelope),
    ensures
        is_uniquetol(arr@, tols, nan_cmp, occurrence, *envelope, r),
        r.wf(),
        run_start(r.counts_unique@, r.counts_unique@.len() as int) == arr@.len(),
        r.inverse_unique@.len() == arr@.len(),
        arr@.len() == 0 ==> r.arr_unique@.len() == 0 && r.indices_unique@.len() == 0
            && r.counts_unique@.len() == 0,
        forall|i: int|
            0 <= i < arr@.len() ==> {
                let g = #[trigger] r.inverse_unique@[i] as int;
                r.indices_unique@[g] == i || isapprox_outcome(
                    r.arr_unique@[g],
                    arr@[i],
                    tols,
                    nan_cmp,
                    *envelope,
                    true,
                )
            },
        forall|g: int, h: int|
            0 <= g < h < r.arr_unique@.len() ==> if occurrence == Occurrence::Lowest {
                order_key_spec(#[trigger] r.arr_unique@[g]) <= order_key_spec(
                    #[trigger] r.arr_unique@[h],
                )
            } else {
                order_key_spec(r.arr_unique@[g]) >= order_key_spec(r.arr_unique@[h])
            },
{
    if arr.len() == 0 {
        let r = UniqueTolResult {
            arr_unique: Vec::new(),
            indices_unique: Vec::new(),
            inverse_unique: Vec::new(),
            counts_unique: Vec::new(),
        };
        let ghost p = Seq::<usize>::empty();
        assert(is_sorted_perm(p, arr@, descending(occurrence)));
        assert(sweep_matches(p, arr@, tols, nan_cmp, *envelope, r));
        proof {
            lemma_groups_cover(arr@, tols, nan_cmp, occurrence, *envelope, r);
            lemma_unique_sorted(arr@, tols, nan_cmp, occurrence, *envelope, r);
        }
        return r;
    }
    let reverse = match occurrence {
        Occurrence::Lowest => false,
        Occurrence::Highest => true,
    };
    let perm = sortperm(arr, reverse);
    let ghost pp = perm@;
    proof {
        lemma_sorted_perm_distinct(pp, arr@, reverse);
    }
    let r = sweep(arr, &perm, tols, nan_cmp, envelope);
    assert(is_sorted_perm(pp, arr@, descending(occurrence)));
    proof {
        lemma_groups_cover(arr@, tols, nan_cmp, occurrence, *envelope, r);
        lemma_unique_sorted(arr@, tols, nan_cmp, occurrence, *envelope, r);
    }
    r
}

/// Every position `t` before the end of the last run lies in some run.
proof fn lemma_run_of(c: Seq<usize>, m: int, t: int) -> (g: int)
    requires
        0 <= m <= c.len(),
        0 <= t < run_start(c, m),
    ensures
        0 <= g < m,
        run_start(c, g) <= t < run_start(c, g + 1),
    decreases m,
{
    if t >= run_start(c, m - 1) {
        m - 1
    } else {
        lemma_run_of(c, m - 1, t)
    }
}

/// The groups of a de-duplication cover the input: their sizes sum to its
/// length, and every value belongs to a group whose value was judged equal
/// to it, unless the value is the group's representative itself.
pub proof fn lemma_groups_cover<E: Fn(u64, u64, Tols) -> bool>(
    arr: Seq<u64>,
    tols: Tols,
    nan_cmp: NanComparison,
    occurrence: Occurrence,
    envelope: E,
    r: UniqueTolResult,
)
    requires
        arr.len() <= usize::MAX,
        is_uniquetol(arr, tols, nan_cmp, occurrence, envelope, r),
    ensures
        r.wf(),
        run_start(r.counts_unique@, r.counts_unique@.len() as int) == arr.len(),
        r.inverse_unique@.len() == arr.len(),
        forall|i: int|
            0 <= i < arr.len() ==> {
                let g = #[trigger] r.inverse_unique@[i] as int;
                r.indices_unique@[g] == i || isapprox_outcome(
                    r.arr_unique@[g],
                    arr[i],
                    tols,
                    nan_cmp,
                    envelope,
                    true,
                )
            },
{
    let p = choose|p: Seq<usize>|
        #[trigger] is_sorted_perm(p, arr, descending(occurrence)) && sweep_matches(
            p,
            arr,
            tols,
            nan_cmp,
            envelope,
            r,
        );
    let c = r.counts_unique@;
    let m = c.len() as int;
    assert forall|i: int| 0 <= i < arr.len() implies {
        let g = #[trigger] r.inverse_unique@[i] as int;
        0 <= g < m && (r.indices_unique@[g] == i || isapprox_outcome(
            r.arr_unique@[g],
            arr[i],
            tols,
            nan_cmp,
            envelope,
            true,
        ))
    } by {
        assert(p.contains(i as usize));
        let t = choose|t: int| 0 <= t < p.len() && p[t] == i as usize;
        let g = lemma_run_of(c, m, t);
        assert(r.inverse_unique@[p[t] as int] == g);
        if t > run_start(c, g) {
            assert(isapprox_outcome(r.arr_unique@[g], arr[p[t] as int], tols, nan_cmp, envelope, true));
        }
    }
}

/// The values of a de-duplication come in order: ascending order keys for
/// `Lowest`, descending for `Highest`.
pub proof fn lemma_unique_sorted<E: Fn(u64, u64, Tols) -> bool>(
    arr: Seq<u64>,
    tols: Tols,
    nan_cmp: NanComparison,
    occurrence: Occurrence,
    envelope: E,
    r: UniqueTolResult,
)
    requires
        is_uniquetol(arr, tols, nan_cmp, occurrence, envelope, r),
    ensures
        forall|g: int, h: int|
            0 <= g < h < r.arr_unique@.len() ==> if occurrence == Occurrence::Lowest {
                order_key_spec(#[trigger] r.arr_unique@[g]) <= order_key_spec(
                    #[trigger] r.arr_unique@[h],
                )
            } else {
                order_key_spec(r.arr_unique@[g]) >= order_key_spec(r.arr_unique@[h])
            },
{
    let p = choose|p: Seq<usize>|
        #[trigger] is_sorted_perm(p, arr, descending(occurrence)) && sweep_matches(
            p,
            arr,
            tols,
            nan_cmp,
            envelope,
            r,
        );
    let c = r.counts_unique@;
    let m = c.len() as int;
    assert forall|g: int, h: int| 0 <= g < h < r.arr_unique@.len() implies if occurrence
        == Occurrence::Lowest {
        order_key_spec(#[trigger] r.arr_unique@[g]) <= order_key_spec(#[trigger] r.arr_unique@[h])
    } else {
        order_key_spec(r.arr_unique@[g]) >= order_key_spec(r.arr_unique@[h])
    } by {
        lemma_run_start_mono(c, g + 1, h);
        lemma_run_start_mono(c, h + 1, m);
        lemma_run_start_mono(c, 0, g);
        assert(r.indices_unique@[g] == p[run_start(c, g)]);
        assert(r.indices_unique@[h] == p[run_start(c, h)]);
        assert(precedes(
            arr,
            descending(occurrence),
            p[run_start(c, g)] as int,
            p[run_start(c, h)] as int,
        ));
    }
}

/// A strictly increasing sequence of `m` indices below `m` is `0, 1, ...`.
proof fn lemma_increasing_is_identity(p: Seq<usize>, a: int)
    requires
        0 <= a < p.len(),
        forall|i: int| 0 <= i < p.len() ==> #[trigger] p[i] < p.len(),
        forall|i: int, j: int| 0 <= i < j < p.len() ==> #[trigger] p[i] < #[trigger] p[j],
    ensures
        p[a] == a,
{
    lemma_increasing_lower(p, a);
    lemma_increasing_upper(p, a);
}

proof fn lemma_increasing_lower(p: Seq<usize>, a: int)
    requires
        0 <= a < p.len(),
        forall|i: int, j: int| 0 <= i < j < p.len() ==> #[trigger] p[i] < #[trigger] p[j],
    ensures
        p[a] >= a,
    decreases a,
{
    if a > 0 {
        lemma_increasing_lower(p, a - 1);
        assert(p[a - 1] < p[a]);
    }
}

proof fn lemma_increasing_upper(p: Seq<usize>, a: int)
    requires
        0 <= a < p.len(),
        forall|i: int| 0 <= i < p.len() ==> #[trigger] p[i] < p.len(),
        forall|i: int, j: int| 0 <= i < j < p.len() ==> #[trigger] p[i] < #[trigger] p[j],
    ensures
        p[a] <= a,
    decreases p.len() - a,
{
    if a < p.len() - 1 {
        lemma_increasing_upper(p, a + 1);
        assert(p[a] < p[a + 1]);
    }
}

/// Two answers for the same question of `isapprox_outcome` agree, given a
/// deterministic envelope test.
proof fn lemma_outcome_unique<E: Fn(u64, u64, Tols) -> bool>(
    x: u64,
    y: u64,
    tols: Tols,
    nan_cmp: NanComparison,
    envelope: E,
    r1: bool,
    r2: bool,
)
    requires
        envelope_deterministic(envelope),
        isapprox_outcome(x, y, tols, nan_cmp, envelope, r1),
        isapprox_outcome(x, y, tols, nan_cmp, envelope, r2),
    ensures
        r1 == r2,
{
    if !crate::isapprox::is_nan_spec(x) && !crate::isapprox::is_nan_spec(y)
        && !crate::isapprox::same_value_spec(x, y) {
        assert(call_ensures(envelope, (x, y, tols), r1));
        assert(call_ensures(envelope, (x, y, tols), r2));
    }
}

/// With counts all one, group `g` starts at position `g`.
proof fn lemma_run_start_ones(c: Seq<usize>, g: int)
    requires
        0 <= g <= c.len(),
        forall|h: int| 0 <= h < c.len() ==> #[trigger] c[h] == 1,
    ensures
        run_start(c, g) == g,
    decreases g,
{
    if g > 0 {
        lemma_run_start_ones(c, g - 1);
    }
}

/// De-duplicating the kept values again, with the same tolerances, NaN rule
/// and order, keeps them all, unchanged and in the same order (given a
/// deterministic envelope test).
pub proof fn lemma_uniquetol_idempotent<E: Fn(u64, u64, Tols) -> bool>(
    arr: Seq<u64>,
    tols: Tols,
    nan_cmp: NanComparison,
    occurrence: Occurrence,
    envelope: E,
    r1: UniqueTolResult,
    r2: UniqueTolResult,
)
    requires
        envelope_deterministic(envelope),
        is_uniquetol(arr, tols, nan_cmp, occurrence, envelope, r1),
        is_uniquetol(r1.arr_unique@, tols, nan_cmp, occurrence, envelope, r2),
    ensures
        r2.arr_unique@ == r1.arr_unique@,
        forall|g: int| 0 <= g < r2.counts_unique@.len() ==> #[trigger] r2.counts_unique@[g] == 1,
        forall|g: int|
            0 <= g < r2.indices_unique@.len() ==> #[trigger] r2.indices_unique@[g] == g,
{
    let u = r1.arr_unique@;
    let m = u.len() as int;
    let rev = descending(occurrence);
    lemma_unique_sorted(arr, tols, nan_cmp, occurrence, envelope, r1);
    let p2 = choose|p: Seq<usize>|
        #[trigger] is_sorted_perm(p, u, descending(occurrence)) && sweep_matches(
            p,
            u,
            tols,
            nan_cmp,
            envelope,
            r2,
        );
    // the kept values are already in sorted order, so their sorted order is
    // the identity
    assert forall|i: int, j: int| 0 <= i < j < m implies #[trigger] p2[i] < #[trigger] p2[j] by {
        let a = p2[i] as int;
        let b = p2[j] as int;
        assert(precedes(u, rev, a, b));
    }
    assert forall|a: int| 0 <= a < m implies #[trigger] p2[a] == a by {
        lemma_increasing_is_identity(p2, a);
    }
    let c2 = r2.counts_unique@;
    let m2 = c2.len() as int;
    assert forall|g: int| 0 <= g < m2 implies #[trigger] c2[g] == 1 by {
        if c2[g] > 1 {
            lemma_run_start_mono(c2, g + 1, m2);
            lemma_run_start_mono(c2, 0, g);
            let t = run_start(c2, g) + 1;
            assert(run_start(c2, g) < t < run_start(c2, g + 1));
            assert(isapprox_outcome(r2.arr_unique@[g], u[p2[t] as int], tols, nan_cmp, envelope, true));
            assert(r2.indices_unique@[g] == p2[run_start(c2, g)]);
            assert(p2[t - 1] == t - 1);
            assert(r2.arr_unique@[g] == u[t - 1]);
            assert(u[t] == u[p2[t] as int]);
            assert(isapprox_outcome(u[t - 1], u[t], tols, nan_cmp, envelope, false));
            lemma_outcome_unique(u[t - 1], u[t], tols, nan_cmp, envelope, true, false);
        }
    }
    lemma_run_start_ones(c2, m2);
    assert forall|g: int| 0 <= g < m2 implies #[trigger] r2.arr_unique@[g] == u[g]
        && r2.indices_unique@[g] == g by {
        lemma_run_start_ones(c2, g);
        assert(r2.indices_unique@[g] == p2[run_start(c2, g)]);
        assert(p2[g] == g);
    }
    assert(r2.arr_unique@ =~= u);
}

/// Read the other way round: each value is approximately equal to the value
/// of its group, given a symmetric envelope test, unless it is a NaN that the
/// NaN rule keeps unequal to itself.
pub proof fn lemma_remap_matches<E: Fn(u64, u64, Tols) -> bool>(
    arr: Seq<u64>,
    tols: Tols,
    nan_cmp: NanComparison,
    occurrence: Occurrence,
    envelope: E,
    r: UniqueTolResult,
)
    requires
        arr.len() <= usize::MAX,
        envelope_symmetric(envelope),
        is_uniquetol(arr, tols, nan_cmp, occurrence, envelope, r),
    ensures
        forall|i: int|
            0 <= i < arr.len() && (nan_cmp == NanComparison::Equal || !is_nan_spec(arr[i]))
                ==> isapprox_outcome(
                arr[i],
                r.arr_unique@[#[trigger] r.inverse_unique@[i] as int],
                tols,
                nan_cmp,
                envelope,
                true,
            ),
{
    lemma_groups_cover(arr, tols, nan_cmp, occurrence, envelope, r);
    let p = choose|p: Seq<usize>|
        #[trigger] is_sorted_perm(p, arr, descending(occurrence)) && sweep_matches(
            p,
            arr,
            tols,
            nan_cmp,
            envelope,
            r,
        );
    assert forall|i: int|
        0 <= i < arr.len() && (nan_cmp == NanComparison::Equal || !is_nan_spec(arr[i])) implies isapprox_outcome(
            arr[i],
            r.arr_unique@[#[trigger] r.inverse_unique@[i] as int],
            tols,
            nan_cmp,
            envelope,
            true,
        ) by {
        let g = r.inverse_unique@[i] as int;
        assert(r.indices_unique@[g] == p[run_start(r.counts_unique@, g)]);
        if r.indices_unique@[g] == i {
            assert(r.arr_unique@[g] == arr[i]);
        } else {
            lemma_isapprox_symmetric(r.arr_unique@[g], arr[i], tols, nan_cmp, envelope, true);
        }
    }
}

} // verus!
