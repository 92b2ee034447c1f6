use vstd::prelude::*;

use crate::isapprox::{NanComparison, Tols, envelope_total};
use crate::uniquetol_1d::{
    Occurrence, UniqueTolResult, is_sorted_perm, is_uniquetol, lemma_run_start_mono,
    lemma_sorted_perm_distinct, run_start, sortperm, sweep, sweep_matches, uniquetol_1d,
};

verus! {

/// The number of elements of an array of the given shape.
pub open spec fn shape_size(s: Seq<usize>) -> int
    decreases s.len(),
{
    if s.len() == 0 {
        1
    } else {
        shape_size(s.drop_last()) * s.last()
    }
}

pub proof fn lemma_shape_size_concat(a: Seq<usize>, b: Seq<usize>)
    ensures
        shape_size(a + b) == shape_size(a) * shape_size(b),
    decreases b.len(),
{
    if b.len() == 0 {
        assert(a + b =~= a);
    } else {
        lemma_shape_size_concat(a, b.drop_last());
        assert((a + b).drop_last() =~= a + b.drop_last());
        let x = shape_size(a);
        let y = shape_size(b.drop_last());
        let z = b.last() as int;
        assert(x * y * z == x * (y * z)) by (nonlinear_arith);
    }
}

pub proof fn lemma_shape_size_nonneg(s: Seq<usize>)
    ensures
        shape_size(s) >= 0,
    decreases s.len(),
{
    if s.len() > 0 {
        lemma_shape_size_nonneg(s.drop_last());
        let x = shape_size(s.drop_last());
        let z = s.last() as int;
        assert(x * z >= 0) by (nonlinear_arith)
            requires
                x >= 0,
                z >= 0,
        ;
    }
}

/// A product that is not zero has no zero factor, and each part of it is at
/// most the whole.
pub proof fn lemma_shape_size_split(s: Seq<usize>, lo: int, hi: int)
    requires
        0 <= lo <= hi <= s.len(),
        shape_size(s) > 0,
    ensures
        1 <= shape_size(s.subrange(lo, hi)) <= shape_size(s),
        forall|i: int| lo <= i < hi ==> #[trigger] s[i] >= 1,
    decreases hi - lo,
{
    let a = s.subrange(0, lo);
    let b = s.subrange(lo, hi);
    let c = s.subrange(hi, s.len() as int);
    assert(s =~= a + b + c);
    lemma_shape_size_concat(a + b, c);
    lemma_shape_size_concat(a, b);
    lemma_shape_size_nonneg(a);
    lemma_shape_size_nonneg(b);
    lemma_shape_size_nonneg(c);
    let x = shape_size(a);
    let y = shape_size(b);
    let z = shape_size(c);
    assert(x * y * z > 0 && x >= 0 && y >= 0 && z >= 0 ==> x >= 1 && y >= 1 && z >= 1 && y <= x
        * y * z) by (nonlinear_arith);
    if lo < hi {
        lemma_shape_size_split(s, lo, hi - 1);
        assert(b.drop_last() =~= s.subrange(lo, hi - 1));
        let w = shape_size(b.drop_last());
        let v = b.last() as int;
        assert(w * v >= 1 && w >= 0 && v >= 0 ==> v >= 1) by (nonlinear_arith);
    }
}

/// An array of binary64 values (as bit patterns) of any rank, in row-major
/// order.
#[derive(Debug, Clone, PartialEq)]
pub struct ArrayNd {
    pub shape: Vec<usize>,
    pub data: Vec<u64>,
}

impl ArrayNd {
    /// The data holds exactly one element per position of the shape.
    pub open spec fn wf(self) -> bool {
        self.data@.len() == shape_size(self.shape@)
    }

    /// Builds an array from a shape and its row-major data; `None` when the
    /// data's length is not the product of the extents.
    pub fn from_shape_vec(shape: Vec<usize>, data: Vec<u64>) -> (r: Option<ArrayNd>)
        ensures
            data@.len() == shape_size(shape@) <==> r.is_some(),
            r matches Some(a) ==> a.shape@ == shape@ && a.data@ == data@ && a.wf(),
    {
        let n = shape.len();
        let mut has_zero = false;
        let mut i: usize = 0;
        while i < n
            invariant
                n == shape@.len(),
                i <= n,
                has_zero <==> exists|j: int| 0 <= j < i && shape@[j] == 0,
            decreases n - i,
        {
            if shape[i] == 0 {
                has_zero = true;
            }
            i += 1;
        }
        if has_zero {
            proof {
                let j = choose|j: int| 0 <= j < n && shape@[j] == 0;
                lemma_shape_size_nonneg(shape@);
                if shape_size(shape@) > 0 {
                    lemma_shape_size_split(shape@, 0, n as int);
                    assert(shape@.subrange(0, n as int) =~= shape@);
                    assert(shape@[j] >= 1);
                }
            }
            if data.len() == 0 {
                return Some(ArrayNd { shape, data });
            } else {
                return None;
            }
        }
        let len = data.len();
        let mut size: usize = 1;
        let mut k: usize = 0;
        while k < n
            invariant
                n == shape@.len(),
                k <= n,
                forall|j: int| 0 <= j < n ==> #[trigger] shape@[j] >= 1,
                size as int == shape_size(shape@.subrange(0, k as int)),
                len == data@.len(),
            decreases n - k,
        {
            proof {
                assert(shape@.subrange(0, k + 1).drop_last() =~= shape@.subrange(0, k as int));
            }
            let d = shape[k];
            match size.checked_mul(d) {
                Some(v) => {
                    if v > len {
                        proof {
                            lemma_shape_size_grows(shape@, k as int + 1);
                        }
                        return None;
                    }
                    size = v;
                },
                None => {
                    proof {
                        lemma_shape_size_grows(shape@, k as int + 1);
                        assert(shape_size(shape@.subrange(0, k + 1)) == size * d);
                        assert(size * d > usize::MAX);
                    }
                    return None;
                },
            }
            k += 1;
        }
        proof {
            assert(shape@.subrange(0, n as int) =~= shape@);
        }
        if size == len {
            Some(ArrayNd { shape, data })
        } else {
            None
        }
    }

    /// The number of axes.
    pub fn ndim(&self) -> (r: usize)
        ensures
            r == self.shape@.len(),
    {
        self.shape.len()
    }
}

/// With no zero extent, the product grows with each further extent.
proof fn lemma_shape_size_grows(s: Seq<usize>, k: int)
    requires
        0 <= k <= s.len(),
        forall|j: int| 0 <= j < s.len() ==> #[trigger] s[j] >= 1,
    ensures
        shape_size(s.subrange(0, k)) <= shape_size(s),
        shape_size(s.subrange(0, k)) >= 1,
    decreases s.len() - k,
{
    let a = s.subrange(0, k);
    let b = s.subrange(k, s.len() as int);
    assert(s =~= a + b);
    lemma_shape_size_concat(a, b);
    lemma_shape_size_pos(a);
    lemma_shape_size_pos(b);
    let x = shape_size(a);
    let y = shape_size(b);
    assert(x >= 1 && y >= 1 ==> x <= x * y) by (nonlinear_arith);
}

proof fn lemma_shape_size_pos(s: Seq<usize>)
    requires
        forall|j: int| 0 <= j < s.len() ==> #[trigger] s[j] >= 1,
    ensures
        shape_size(s) >= 1,
    decreases s.len(),
{
    if s.len() > 0 {
        lemma_shape_size_pos(s.drop_last());
        let x = shape_size(s.drop_last());
        let z = s.last() as int;
        assert(x >= 1 && z >= 1 ==> x * z >= 1) by (nonlinear_arith);
    }
}

/// An axis that the array does not have.
#[derive(Debug, Clone, Copy, PartialEq, Eq, Structural)]
pub struct AxisBoundsError {
    pub axis: usize,
    pub ndim: usize,
}

/// De-duplicate the whole array as one flat sequence (`Whole`) or the lanes
/// along one axis (`Dim`).
#[derive(Debug, Clone, Copy, PartialEq, Eq, Structural)]
pub enum FlattenAxis {
    Whole,
    Dim(usize),
}

impl Default for FlattenAxis {
    fn default() -> (r: Self)
        ensures
            r == FlattenAxis::Whole,
    {
        FlattenAxis::Whole
    }
}

/// The runs of a sweep, each as the list of members of `group` at the run's
/// positions `p[t]`.
pub open spec fn runs_of(group: Seq<usize>, p: Seq<usize>, c: Seq<usize>) -> Seq<Seq<usize>> {
    Seq::new(
        c.len(),
        |g: int| Seq::new(c[g] as nat, |j: int| group[p[run_start(c, g) + j] as int]),
    )
}

pub open spec fn view_groups(gs: Seq<Vec<usize>>) -> Seq<Seq<usize>> {
    gs.map_values(|v: Vec<usize>| v@)
}

/// `sub` is the split of `group` by the values `vals` of its members: the
/// runs of the sweep over the ascending order of `vals`.
pub open spec fn split_matches<E: Fn(u64, u64, Tols) -> bool>(
    group: Seq<usize>,
    vals: Seq<u64>,
    sub: Seq<Seq<usize>>,
    tols: Tols,
    nan_cmp: NanComparison,
    envelope: E,
) -> bool {
    exists|p: Seq<usize>, r: UniqueTolResult|
        #![trigger is_sorted_perm(p, vals, false), sweep_matches(p, vals, tols, nan_cmp, envelope, r)]
        is_sorted_perm(p, vals, false) && sweep_matches(p, vals, tols, nan_cmp, envelope, r) && sub
            == runs_of(group, p, r.counts_unique@)
}

/// No lane appears twice, within one group or across two.
pub open spec fn groups_disjoint(gs: Seq<Seq<usize>>) -> bool {
    forall|g1: int, x1: int, g2: int, x2: int|
        0 <= g1 < gs.len() && 0 <= g2 < gs.len() && 0 <= x1 < gs[g1].len() && 0 <= x2 < gs[g2].len()
            && (g1 != g2 || x1 != x2) ==> #[trigger] gs[g1][x1] != #[trigger] gs[g2][x2]
}

/// The runs of a sweep over distinct positions of a group without repeats
/// share no member.
proof fn lemma_runs_disjoint(group: Seq<usize>, p: Seq<usize>, c: Seq<usize>)
    requires
        group.no_duplicates(),
        p.len() == group.len(),
        forall|a: int| 0 <= a < p.len() ==> #[trigger] p[a] < group.len(),
        forall|a: int, b: int|
            0 <= a < p.len() && 0 <= b < p.len() && a != b ==> #[trigger] p[a] != #[trigger] p[b],
        run_start(c, c.len() as int) == group.len(),
    ensures
        groups_disjoint(runs_of(group, p, c)),
{
    let rs = runs_of(group, p, c);
    let m = c.len() as int;
    assert forall|g1: int, x1: int, g2: int, x2: int|
        0 <= g1 < rs.len() && 0 <= g2 < rs.len() && 0 <= x1 < rs[g1].len() && 0 <= x2 < rs[g2].len()
            && (g1 != g2 || x1 != x2) implies #[trigger] rs[g1][x1] != #[trigger] rs[g2][x2] by {
        let t1 = run_start(c, g1) + x1;
        let t2 = run_start(c, g2) + x2;
        lemma_run_start_mono(c, 0, g1);
        lemma_run_start_mono(c, 0, g2);
        lemma_run_start_mono(c, g1 + 1, m);
        lemma_run_start_mono(c, g2 + 1, m);
        if g1 < g2 {
            lemma_run_start_mono(c, g1 + 1, g2);
        } else if g2 < g1 {
            lemma_run_start_mono(c, g2 + 1, g1);
        }
        assert(t1 != t2);
        assert(p[t1] != p[t2]);
        assert(rs[g1][x1] == group[p[t1] as int]);
        assert(rs[g2][x2] == group[p[t2] as int]);
    }
}

/// Splits `group` into the runs of the sweep over `vals`, the values of its
/// members at one coordinate.
fn uniquetol_groups<E: Fn(u64, u64, Tols) -> bool>(
    group: &Vec<usize>,
    vals: &Vec<u64>,
    tols: Tols,
    nan_cmp: NanComparison,
    envelope: &E,
) -> (sub: Vec<Vec<usize>>)
    requires
        envelope_total(*envelope),
        vals@.len() == group@.len(),
        group@.len() > 0,
    ensures
        split_matches(group@, vals@, view_groups(sub@), tols, nan_cmp, *envelope),
        forall|g: int| 0 <= g < sub@.len() ==> (#[trigger] sub@[g])@.len() >= 1,
        forall|g: int, j: int|
            0 <= g < sub@.len() && 0 <= j < sub@[g]@.len() ==> group@.contains(
                #[trigger] sub@[g]@[j],
            ),
        view_groups(sub@).flatten().len() == group@.len(),
        group@.no_duplicates() ==> groups_disjoint(view_groups(sub@)),
{
    let n = vals.len();
    let perm = sortperm(vals, false);
    proof {
        lemma_sorted_perm_distinct(perm@, vals@, false);
    }
    let r = sweep(vals, &perm, tols, nan_cmp, envelope);
    let ghost c = r.counts_unique@;
    let ghost runs = runs_of(group@, perm@, c);
    let mut sub: Vec<Vec<usize>> = Vec::new();
    let mut start: usize = 0;
    let mut g: usize = 0;
    while g < r.counts_unique.len()
        invariant
            n == vals@.len(),
            n == group@.len(),
            c == r.counts_unique@,
            runs == runs_of(group@, perm@, c),
            perm@.len() == n,
            forall|a: int| 0 <= a < perm@.len() ==> #[trigger] perm@[a] < n,
            run_start(c, c.len() as int) == n,
            forall|h: int| 0 <= h < c.len() ==> #[trigger] c[h] >= 1,
            g <= c.len(),
            start == run_start(c, g as int),
            sub@.len() == g,
            forall|h: int| 0 <= h < g ==> (#[trigger] sub@[h])@ == runs[h],
            forall|h: int| 0 <= h < g ==> (#[trigger] sub@[h])@.len() >= 1,
            forall|h: int, j: int|
                0 <= h < g && 0 <= j < sub@[h]@.len() ==> group@.contains(#[trigger] sub@[h]@[j]),
            view_groups(sub@).flatten().len() == start,
        decreases c.len() - g,
    {
        let cnt = r.counts_unique[g];
        proof {
            lemma_run_start_mono(c, g as int + 1, c.len() as int);
        }
        let mut members: Vec<usize> = Vec::new();
        let mut j: usize = 0;
        while j < cnt
            invariant
                n == vals@.len(),
                n == group@.len(),
                perm@.len() == n,
                forall|a: int| 0 <= a < perm@.len() ==> #[trigger] perm@[a] < n,
                start + cnt <= n,
                j <= cnt,
                members@ =~= Seq::new(j as nat, |x: int| group@[perm@[start + x] as int]),
            decreases cnt - j,
        {
            members.push(group[perm[start + j]]);
            j += 1;
        }
        proof {
            assert(members@ =~= runs[g as int]);
            assert forall|jj: int| 0 <= jj < members@.len() implies group@.contains(
                #[trigger] members@[jj],
            ) by {
                assert(group@[perm@[start + jj] as int] == members@[jj]);
            }
        }
        let ghost before = sub@;
        sub.push(members);
        proof {
            assert(view_groups(sub@) =~= view_groups(before).push(members@));
            view_groups(before).lemma_flatten_push(members@);
        }
        start = start + cnt;
        g += 1;
    }
    proof {
        assert(view_groups(sub@) =~= runs);
        if group@.no_duplicates() {
            lemma_runs_disjoint(group@, perm@, c);
        }
        assert(is_sorted_perm(perm@, vals@, false));
        assert(sweep_matches(perm@, vals@, tols, nan_cmp, *envelope, r));
    }
    sub
}

/// The position of `(o, i, q)` in a row-major block of `n1` rows of `n2`
/// elements each, repeated along the outer index `o`.
pub open spec fn at3(o: int, n1: int, i: int, n2: int, q: int) -> int {
    (o * n1 + i) * n2 + q
}

/// The number of lanes' worth of positions before axis `k`.
pub open spec fn axis_outer(shape: Seq<usize>, k: int) -> int {
    shape_size(shape.subrange(0, k))
}

/// The number of positions after axis `k`.
pub open spec fn axis_inner(shape: Seq<usize>, k: int) -> int {
    shape_size(shape.subrange(k + 1, shape.len() as int))
}

/// The value of lane `i` along axis `k` at coordinate `c`, the coordinates
/// of the other axes taken in row-major order.
pub open spec fn lane_value(a: ArrayNd, k: int, i: int, c: int) -> u64 {
    let inner = axis_inner(a.shape@, k);
    a.data@[at3(c / inner, a.shape@[k] as int, i, inner, c % inner)]
}

/// The values of the lanes of `group` at coordinate `c`.
pub open spec fn coord_vals(a: ArrayNd, k: int, group: Seq<usize>, c: int) -> Seq<u64> {
    group.map_values(|i: usize| lane_value(a, k, i as int, c))
}

/// `after` splits each group of `before` by its lanes' values at `c`.
pub open spec fn refine_matches<E: Fn(u64, u64, Tols) -> bool>(
    a: ArrayNd,
    k: int,
    c: int,
    before: Seq<Seq<usize>>,
    after: Seq<Seq<usize>>,
    tols: Tols,
    nan_cmp: NanComparison,
    envelope: E,
) -> bool {
    exists|parts: Seq<Seq<Seq<usize>>>|
        #[trigger] parts.flatten() == after && parts.len() == before.len() && forall|j: int|
            0 <= j < before.len() ==> split_matches(
                before[j],
                coord_vals(a, k, before[j], c),
                #[trigger] parts[j],
                tols,
                nan_cmp,
                envelope,
            )
}

/// Before any coordinate is looked at, all lanes form one group.
pub open spec fn initial_groups(ext: int) -> Seq<Seq<usize>> {
    if ext == 0 {
        Seq::empty()
    } else {
        seq![Seq::new(ext as nat, |i: int| i as usize)]
    }
}

/// `chain` lists the groups of lanes along axis `k` before the first
/// coordinate and after each one.
pub open spec fn is_refinement_chain<E: Fn(u64, u64, Tols) -> bool>(
    a: ArrayNd,
    k: int,
    chain: Seq<Seq<Seq<usize>>>,
    tols: Tols,
    nan_cmp: NanComparison,
    envelope: E,
) -> bool {
    let n = axis_outer(a.shape@, k) * axis_inner(a.shape@, k);
    &&& chain.len() == n + 1
    &&& chain[0] == initial_groups(a.shape@[k] as int)
    &&& forall|c: int|
        0 <= c < n ==> refine_matches(a, k, c, #[trigger] chain[c], chain[c + 1], tols, nan_cmp, envelope)
}

/// The lane that stands for a group: its first member for `Lowest`, its
/// last for `Highest`.
pub open spec fn representative(g: Seq<usize>, occurrence: Occurrence) -> usize {
    if occurrence == Occurrence::Lowest {
        g[0]
    } else {
        g.last()
    }
}

pub open spec fn representatives(gs: Seq<Seq<usize>>, occurrence: Occurrence) -> Seq<usize> {
    gs.map_values(|g: Seq<usize>| representative(g, occurrence))
}

/// `out` is `a` with only the lanes `sel` along axis `k`, in that order.
pub open spec fn is_selection(a: ArrayNd, k: int, sel: Seq<usize>, out: ArrayNd) -> bool {
    let outer = axis_outer(a.shape@, k);
    let inner = axis_inner(a.shape@, k);
    let ext = a.shape@[k] as int;
    let m = sel.len() as int;
    &&& out.shape@ == a.shape@.update(k, m as usize)
    &&& out.data@.len() == outer * m * inner
    &&& forall|o: int, g: int, q: int|
        0 <= o < outer && 0 <= g < m && 0 <= q < inner ==> #[trigger] out.data@[at3(o, m, g, inner, q)]
            == a.data@[at3(o, ext, sel[g] as int, inner, q)]
}

pub proof fn lemma_shape_size_axis(s: Seq<usize>, k: int, m: usize)
    requires
        0 <= k < s.len(),
    ensures
        shape_size(s) == axis_outer(s, k) * s[k] * axis_inner(s, k),
        shape_size(s.update(k, m)) == axis_outer(s, k) * m * axis_inner(s, k),
        axis_outer(s.update(k, m), k) == axis_outer(s, k),
        axis_inner(s.update(k, m), k) == axis_inner(s, k),
        axis_outer(s, k) >= 0,
        axis_inner(s, k) >= 0,
{
    let a = s.subrange(0, k);
    let c = s.subrange(k + 1, s.len() as int);
    let t = s.update(k, m);
    assert(s =~= a + seq![s[k]] + c);
    assert(t =~= a + seq![m] + c);
    assert(t.subrange(0, k) =~= a);
    assert(t.subrange(k + 1, t.len() as int) =~= c);
    lemma_shape_size_concat(a + seq![s[k]], c);
    lemma_shape_size_concat(a, seq![s[k]]);
    lemma_shape_size_concat(a + seq![m], c);
    lemma_shape_size_concat(a, seq![m]);
    assert(seq![s[k]].drop_last() =~= Seq::<usize>::empty());
    assert(seq![m].drop_last() =~= Seq::<usize>::empty());
    lemma_shape_size_single(s[k]);
    lemma_shape_size_single(m);
    lemma_shape_size_nonneg(a);
    lemma_shape_size_nonneg(c);
    assert(shape_size(s) == shape_size(a) * s[k] * shape_size(c));
    assert(shape_size(t) == shape_size(a) * m * shape_size(c));
}

proof fn lemma_shape_size_single(x: usize)
    ensures
        shape_size(seq![x]) == x,
{
    let s = seq![x];
    assert(s.drop_last() =~= Seq::<usize>::empty());
    assert(shape_size(Seq::<usize>::empty()) == 1);
    assert(s.last() == x);
}

proof fn lemma_at3_bound(o: int, n1: int, i: int, n2: int, q: int, outer: int)
    requires
        0 <= o < outer,
        0 <= i < n1,
        0 <= q < n2,
    ensures
        0 <= at3(o, n1, i, n2, q) < outer * n1 * n2,
{
    assert(0 <= o * n1 + i <= (o + 1) * n1 - 1) by (nonlinear_arith)
        requires
            0 <= o,
            0 <= i < n1,
    ;
    assert((o + 1) * n1 <= outer * n1) by (nonlinear_arith)
        requires
            o + 1 <= outer,
            0 <= n1,
    ;
    let r = o * n1 + i;
    assert(0 <= r * n2 + q < (r + 1) * n2) by (nonlinear_arith)
        requires
            0 <= r,
            0 <= q < n2,
    ;
    assert((r + 1) * n2 <= outer * n1 * n2) by (nonlinear_arith)
        requires
            r + 1 <= outer * n1,
            0 <= n2,
    ;
}

/// The coordinate `o * inner + q` splits back into `o` and `q`.
proof fn lemma_coord_split(o: int, q: int, inner: int)
    requires
        0 <= o,
        0 <= q < inner,
    ensures
        (o * inner + q) / inner == o,
        (o * inner + q) % inner == q,
{
    vstd::arithmetic::div_mod::lemma_fundamental_div_mod_converse(o * inner + q, inner, o, q);
}

/// A position in a block splits back into its three indices.
proof fn lemma_at3_split(x: int, n1: int, n2: int) -> (r: (int, int, int))
    requires
        0 <= x,
        n1 > 0,
        n2 > 0,
    ensures
        x == at3(r.0, n1, r.1, n2, r.2),
        0 <= r.0,
        0 <= r.1 < n1,
        0 <= r.2 < n2,
        r.0 == (x / n2) / n1,
        r.1 == (x / n2) % n1,
        r.2 == x % n2,
{
    vstd::arithmetic::div_mod::lemma_fundamental_div_mod(x, n2);
    vstd::arithmetic::div_mod::lemma_fundamental_div_mod(x / n2, n1);
    vstd::arithmetic::div_mod::lemma_div_pos_is_pos(x, n2);
    vstd::arithmetic::div_mod::lemma_mod_bound(x, n2);
    vstd::arithmetic::div_mod::lemma_div_pos_is_pos(x / n2, n1);
    vstd::arithmetic::div_mod::lemma_mod_bound(x / n2, n1);
    let o = (x / n2) / n1;
    let i = (x / n2) % n1;
    let q = x % n2;
    assert(x / n2 == n1 * o + i);
    assert(x == n2 * (x / n2) + q);
    assert(x == (o * n1 + i) * n2 + q) by (nonlinear_arith)
        requires
            x / n2 == n1 * o + i,
            x == n2 * (x / n2) + q,
    ;
    (o, i, q)
}

/// A sequence of non-empty sequences is no longer than their concatenation.
proof fn lemma_len_le_flatten_len(s: Seq<Seq<usize>>)
    requires
        forall|g: int| 0 <= g < s.len() ==> (#[trigger] s[g]).len() >= 1,
    ensures
        s.len() <= s.flatten().len(),
    decreases s.len(),
{
    if s.len() > 0 {
        let t = s.drop_last();
        assert forall|g: int| 0 <= g < t.len() implies (#[trigger] t[g]).len() >= 1 by {
            assert(t[g] == s[g]);
        }
        lemma_len_le_flatten_len(t);
        assert(t.push(s.last()) =~= s);
        t.lemma_flatten_push(s.last());
    }
}

/// Every group is non-empty and holds lanes below `ext`.
pub open spec fn groups_ok(gs: Seq<Seq<usize>>, ext: int) -> bool {
    forall|g: int|
        0 <= g < gs.len() ==> (#[trigger] gs[g]).len() >= 1 && forall|j: int|
            0 <= j < gs[g].len() ==> #[trigger] gs[g][j] < ext
}

/// Splits every group by its lanes' values at the coordinate `(o, q)`.
#[verifier::rlimit(40)]
fn refine_step<E: Fn(u64, u64, Tols) -> bool>(
    arr: &ArrayNd,
    axis: usize,
    outer: usize,
    ext: usize,
    inner: usize,
    o: usize,
    q: usize,
    groups: &Vec<Vec<usize>>,
    tols: Tols,
    nan_cmp: NanComparison,
    envelope: &E,
) -> (next: Vec<Vec<usize>>)
    requires
        envelope_total(*envelope),
        axis < arr.shape@.len(),
        ext == arr.shape@[axis as int],
        outer == axis_outer(arr.shape@, axis as int),
        inner == axis_inner(arr.shape@, axis as int),
        o < outer,
        q < inner,
        arr.data@.len() == outer * ext * inner,
        groups_ok(view_groups(groups@), ext as int),
        groups_disjoint(view_groups(groups@)),
    ensures
        groups_disjoint(view_groups(next@)),
        refine_matches(
            *arr,
            axis as int,
            o * inner + q,
            view_groups(groups@),
            view_groups(next@),
            tols,
            nan_cmp,
            *envelope,
        ),
        groups_ok(view_groups(next@), ext as int),
        view_groups(next@).flatten().len() == view_groups(groups@).flatten().len(),
{
    let len = arr.data.len();
    let ghost c = o * inner + q;
    let ghost gv = view_groups(groups@);
    proof {
        lemma_coord_split(o as int, q as int, inner as int);
    }
    let mut next: Vec<Vec<usize>> = Vec::new();
    let ghost mut parts: Seq<Seq<Seq<usize>>> = Seq::empty();
    let mut j: usize = 0;
    while j < groups.len()
        invariant
            envelope_total(*envelope),
            axis < arr.shape@.len(),
            ext == arr.shape@[axis as int],
            outer == axis_outer(arr.shape@, axis as int),
            inner == axis_inner(arr.shape@, axis as int),
            o < outer,
            q < inner,
            arr.data@.len() == outer * ext * inner,
            len == arr.data@.len(),
            c == o * inner + q,
            c / (inner as int) == o,
            c % (inner as int) == q,
            gv == view_groups(groups@),
            groups_ok(gv, ext as int),
            j <= groups@.len(),
            parts.len() == j,
            view_groups(next@) == parts.flatten(),
            forall|jj: int|
                0 <= jj < j ==> split_matches(
                    gv[jj],
                    coord_vals(*arr, axis as int, gv[jj], c),
                    #[trigger] parts[jj],
                    tols,
                    nan_cmp,
                    *envelope,
                ),
            groups_ok(view_groups(next@), ext as int),
            view_groups(next@).flatten().len() == gv.subrange(0, j as int).flatten().len(),
            groups_disjoint(gv),
            groups_disjoint(view_groups(next@)),
            forall|g: int, x: int|
                #![trigger view_groups(next@)[g][x]]
                0 <= g < view_groups(next@).len() && 0 <= x < view_groups(next@)[g].len()
                    ==> exists|jj: int|
                    #![trigger gv[jj]]
                    0 <= jj < j && gv[jj].contains(view_groups(next@)[g][x]),
        decreases groups@.len() - j,
    {
        let group = &groups[j];
        assert(gv[j as int] == group@);
        let mut vals: Vec<u64> = Vec::new();
        let mut x: usize = 0;
        while x < group.len()
            invariant
                axis < arr.shape@.len(),
                ext == arr.shape@[axis as int],
                inner == axis_inner(arr.shape@, axis as int),
                o < outer,
                q < inner,
                arr.data@.len() == outer * ext * inner,
                len == arr.data@.len(),
                c == o * inner + q,
                c / (inner as int) == o,
                c % (inner as int) == q,
                forall|y: int| 0 <= y < group@.len() ==> #[trigger] group@[y] < ext,
                x <= group@.len(),
                vals@.len() == x,
                forall|y: int|
                    0 <= y < x ==> #[trigger] vals@[y] == lane_value(
                        *arr,
                        axis as int,
                        group@[y] as int,
                        c,
                    ),
            decreases group@.len() - x,
        {
            let i = group[x];
            proof {
                lemma_at3_bound(o as int, ext as int, i as int, inner as int, q as int, outer as int);
                let r = o * ext + i;
                assert(o * ext <= r);
                assert(r <= r * inner) by (nonlinear_arith)
                    requires
                        inner >= 1,
                        r >= 0,
                ;
            }
            vals.push(arr.data[(o * ext + i) * inner + q]);
            x += 1;
        }
        proof {
            assert(vals@ =~= coord_vals(*arr, axis as int, group@, c));
        }
        proof {
            assert forall|a: int, b: int|
                0 <= a < group@.len() && 0 <= b < group@.len() && a != b implies group@[a]
                != group@[b] by {
                assert(gv[j as int][a] != gv[j as int][b]);
            }
        }
        let mut sub = uniquetol_groups(group, &vals, tols, nan_cmp, envelope);
        let ghost subv = view_groups(sub@);
        let ghost sub0 = sub@;
        proof {
            assert forall|g: int| 0 <= g < subv.len() implies forall|y: int|
                0 <= y < (#[trigger] subv[g]).len() ==> #[trigger] subv[g][y] < ext by {
                assert forall|y: int| 0 <= y < subv[g].len() implies #[trigger] subv[g][y] < ext by {
                    assert(subv[g][y] == sub@[g]@[y]);
                    assert(group@.contains(subv[g][y]));
                }
            }
        }
        let ghost next0 = next@;
        next.append(&mut sub);
        proof {
            assert(view_groups(next@) =~= view_groups(next0) + subv);
            vstd::seq_lib::lemma_flatten_concat(view_groups(next0), subv);
            parts.lemma_flatten_push(subv);
            parts = parts.push(subv);
            assert(gv.subrange(0, j + 1) =~= gv.subrange(0, j as int).push(gv[j as int]));
            gv.subrange(0, j as int).lemma_flatten_push(gv[j as int]);
            let nv = view_groups(next@);
            let n0 = view_groups(next0);
            assert forall|g: int, x: int|
                #![trigger nv[g][x]]
                0 <= g < nv.len() && 0 <= x < nv[g].len() implies exists|jj: int|
                #![trigger gv[jj]]
                0 <= jj < j + 1 && gv[jj].contains(nv[g][x]) by {
                if g < n0.len() {
                    assert(nv[g] == n0[g]);
                    assert(n0[g][x] == nv[g][x]);
                    let jj = choose|jj: int| #![trigger gv[jj]] 0 <= jj < j && gv[jj].contains(n0[g][x]);
                    assert(gv[jj].contains(nv[g][x]));
                } else {
                    assert(nv[g] == subv[g - n0.len()]);
                    assert(subv[g - n0.len()][x] == sub0[g - n0.len()]@[x]);
                    assert(gv[j as int].contains(nv[g][x]));
                }
            }
            assert forall|g1: int, x1: int, g2: int, x2: int|
                0 <= g1 < nv.len() && 0 <= g2 < nv.len() && 0 <= x1 < nv[g1].len() && 0 <= x2
                    < nv[g2].len() && (g1 != g2 || x1 != x2) implies #[trigger] nv[g1][x1]
                != #[trigger] nv[g2][x2] by {
                if g1 < n0.len() && g2 < n0.len() {
                    assert(nv[g1] == n0[g1] && nv[g2] == n0[g2]);
                    assert(n0[g1][x1] != n0[g2][x2]);
                } else if g1 >= n0.len() && g2 >= n0.len() {
                    assert(nv[g1] == subv[g1 - n0.len()] && nv[g2] == subv[g2 - n0.len()]);
                    assert(subv[g1 - n0.len()][x1] != subv[g2 - n0.len()][x2]);
                } else {
                    let (go, xo, gs, xs) = if g1 < n0.len() {
                        (g1, x1, g2, x2)
                    } else {
                        (g2, x2, g1, x1)
                    };
                    assert(nv[go] == n0[go]);
                    assert(n0[go][xo] == nv[go][xo]);
                    let jj = choose|jj: int| #![trigger gv[jj]] 0 <= jj < j && gv[jj].contains(n0[go][xo]);
                    let a = choose|a: int| 0 <= a < gv[jj].len() && gv[jj][a] == n0[go][xo];
                    assert(nv[gs] == subv[gs - n0.len()]);
                    assert(subv[gs - n0.len()][xs] == sub0[gs - n0.len()]@[xs]);
                    assert(group@.contains(nv[gs][xs]));
                    let b = choose|b: int| 0 <= b < gv[j as int].len() && gv[j as int][b] == nv[gs][xs];
                    assert(gv[jj][a] != gv[j as int][b]);
                }
            }
            assert forall|g: int| 0 <= g < nv.len() implies (#[trigger] nv[g]).len() >= 1 && forall|
                y: int,
            | 0 <= y < nv[g].len() ==> #[trigger] nv[g][y] < ext by {
                if g < n0.len() {
                    assert(nv[g] == n0[g]);
                } else {
                    assert(nv[g] == subv[g - n0.len()]);
                }
            }
        }
        j += 1;
    }
    proof {
        assert(gv.subrange(0, j as int) =~= gv);
    }
    next
}

/// A copy of `shape` with extent `m` at axis `k`.
fn shape_with(shape: &Vec<usize>, k: usize, m: usize) -> (r: Vec<usize>)
    requires
        k < shape@.len(),
    ensures
        r@ == shape@.update(k as int, m),
{
    let mut r: Vec<usize> = Vec::new();
    let mut i: usize = 0;
    while i < shape.len()
        invariant
            k < shape@.len(),
            i <= shape@.len(),
            r@ =~= shape@.update(k as int, m).subrange(0, i as int),
        decreases shape@.len() - i,
    {
        if i == k {
            r.push(m);
        } else {
            r.push(shape[i]);
        }
        i += 1;
    }
    proof {
        assert(shape@.update(k as int, m).subrange(0, i as int) =~= shape@.update(k as int, m));
    }
    r
}

/// A position in a block names its three indices back.
proof fn lemma_at3_unsplit(o: int, g: int, q: int, m: int, inner: int)
    requires
        0 <= o,
        0 <= g < m,
        0 <= q < inner,
    ensures
        (at3(o, m, g, inner, q) / inner) / m == o,
        (at3(o, m, g, inner, q) / inner) % m == g,
        at3(o, m, g, inner, q) % inner == q,
{
    vstd::arithmetic::div_mod::lemma_fundamental_div_mod_converse(
        at3(o, m, g, inner, q),
        inner,
        o * m + g,
        q,
    );
    vstd::arithmetic::div_mod::lemma_fundamental_div_mod_converse(o * m + g, m, o, g);
}

/// The lanes `sel` of `arr` along `axis`, in that order.
fn select_lanes(
    arr: &ArrayNd,
    axis: usize,
    outer: usize,
    ext: usize,
    inner: usize,
    sel: &Vec<usize>,
) -> (out: ArrayNd)
    requires
        axis < arr.shape@.len(),
        ext == arr.shape@[axis as int],
        outer == axis_outer(arr.shape@, axis as int),
        inner == axis_inner(arr.shape@, axis as int),
        arr.data@.len() == outer * ext * inner,
        outer >= 1,
        inner >= 1,
        sel@.len() <= ext,
        forall|g: int| 0 <= g < sel@.len() ==> #[trigger] sel@[g] < ext,
    ensures
        is_selection(*arr, axis as int, sel@, out),
        out.wf(),
{
    let m = sel.len();
    let len = arr.data.len();
    proof {
        lemma_shape_size_axis(arr.shape@, axis as int, m);
        assert(outer * m <= outer * m * inner <= outer * ext * inner) by (nonlinear_arith)
            requires
                m <= ext,
                outer >= 1,
                inner >= 1,
        ;
    }
    let shape = shape_with(&arr.shape, axis, m);
    let total = outer * m * inner;
    let mut data: Vec<u64> = Vec::new();
    let mut x: usize = 0;
    while x < total
        invariant
            axis < arr.shape@.len(),
            ext == arr.shape@[axis as int],
            arr.data@.len() == outer * ext * inner,
            len == arr.data@.len(),
            m == sel@.len(),
            forall|g: int| 0 <= g < sel@.len() ==> #[trigger] sel@[g] < ext,
            total == outer * m * inner,
            x <= total,
            data@.len() == x,
            forall|y: int|
                0 <= y < x ==> #[trigger] data@[y] == arr.data@[at3(
                    (y / inner as int) / m as int,
                    ext as int,
                    sel@[(y / inner as int) % m as int] as int,
                    inner as int,
                    y % inner as int,
                )],
        decreases total - x,
    {
        proof {
            assert(m > 0 && inner > 0) by (nonlinear_arith)
                requires
                    x < outer * m * inner,
                    x >= 0,
            ;
        }
        let t = x / inner;
        let qq = x % inner;
        let g = t % m;
        let o = t / m;
        proof {
            let r = lemma_at3_split(x as int, m as int, inner as int);
            assert(r.0 == o && r.1 == g && r.2 == qq);
            assert(o * m * inner <= x) by (nonlinear_arith)
                requires
                    x == (o * m + g) * inner + qq,
                    g >= 0,
                    qq >= 0,
                    inner >= 0,
            ;
            assert(o < outer) by (nonlinear_arith)
                requires
                    o * m * inner <= x,
                    x < outer * m * inner,
                    m > 0,
                    inner > 0,
            ;
            lemma_at3_bound(o as int, ext as int, sel@[g as int] as int, inner as int, qq as int, outer as int);
            let rr = o * ext + sel@[g as int];
            assert(o * ext <= rr);
            assert(rr <= rr * inner) by (nonlinear_arith)
                requires
                    inner >= 1,
                    rr >= 0,
            ;
        }
        data.push(arr.data[(o * ext + sel[g]) * inner + qq]);
        x += 1;
    }
    let out = ArrayNd { shape, data };
    proof {
        let mm = m as int;
        let ii = inner as int;
        assert forall|o: int, g: int, q: int|
            0 <= o < outer && 0 <= g < mm && 0 <= q < ii implies #[trigger] out.data@[at3(o, mm, g, ii, q)]
            == arr.data@[at3(o, ext as int, sel@[g] as int, ii, q)] by {
            lemma_at3_unsplit(o, g, q, mm, ii);
            lemma_at3_bound(o, mm, g, ii, q, outer as int);
        }
    }
    out
}

/// The product of the extents `shape[lo..hi]`, none of them zero.
fn extent_product(shape: &Vec<usize>, lo: usize, hi: usize, total: usize) -> (r: usize)
    requires
        lo <= hi <= shape@.len(),
        shape_size(shape@) == total,
        total > 0,
    ensures
        r == shape_size(shape@.subrange(lo as int, hi as int)),
        r >= 1,
{
    let mut r: usize = 1;
    let mut i: usize = lo;
    while i < hi
        invariant
            lo <= i <= hi <= shape@.len(),
            shape_size(shape@) == total,
            total > 0,
            r == shape_size(shape@.subrange(lo as int, i as int)),
        decreases hi - i,
    {
        proof {
            lemma_shape_size_split(shape@, lo as int, i as int + 1);
            assert(shape@.subrange(lo as int, i + 1).drop_last() =~= shape@.subrange(lo as int, i as int));
        }
        r = r * shape[i];
        i += 1;
    }
    proof {
        lemma_shape_size_split(shape@, lo as int, hi as int);
    }
    r
}

/// De-duplicates the lanes of `arr` along `axis`: all lanes start in one
/// group, each coordinate of the other axes in row-major order splits every
/// group by the sweep over its lanes' values there, and one lane of each
/// final group is kept.
#[verifier::rlimit(40)]
fn uniquetol_nd_flatten_axis<E: Fn(u64, u64, Tols) -> bool>(
    arr: &ArrayNd,
    tols: Tols,
    nan_cmp: NanComparison,
    occurrence: Occurrence,
    axis: usize,
    envelope: &E,
) -> (out: ArrayNd)
    requires
        envelope_total(*envelope),
        arr.wf(),
        axis < arr.shape@.len(),
    ensures
        exists|chain: Seq<Seq<Seq<usize>>>|
            #[trigger] is_refinement_chain(*arr, axis as int, chain, tols, nan_cmp, *envelope)
                && is_selection(*arr, axis as int, representatives(chain.last(), occurrence), out)
                && groups_disjoint(chain.last()) && representatives(
                chain.last(),
                occurrence,
            ).no_duplicates(),
        out.wf(),
        out.shape@.len() == arr.shape@.len(),
        out.shape@[axis as int] <= arr.shape@[axis as int],
        arr.shape@[axis as int] > 0 ==> out.shape@[axis as int] >= 1,
{
    let ext = arr.shape[axis];
    let len = arr.data.len();
    let ghost outer_i = axis_outer(arr.shape@, axis as int);
    let ghost inner_i = axis_inner(arr.shape@, axis as int);
    let ghost n = outer_i * inner_i;
    proof {
        lemma_shape_size_axis(arr.shape@, axis as int, 0);
        lemma_shape_size_axis(arr.shape@, axis as int, 1);
    }
    if ext == 0 {
        let shape = shape_with(&arr.shape, axis, 0);
        let out = ArrayNd { shape, data: Vec::new() };
        proof {
            assert(n >= 0) by (nonlinear_arith)
                requires
                    outer_i >= 0,
                    inner_i >= 0,
                    n == outer_i * inner_i,
            ;
            let chain = Seq::new((n + 1) as nat, |c: int| Seq::<Seq<usize>>::empty());
            assert forall|c: int| 0 <= c < n implies refine_matches(
                *arr,
                axis as int,
                c,
                #[trigger] chain[c],
                chain[c + 1],
                tols,
                nan_cmp,
                *envelope,
            ) by {
                let parts = Seq::<Seq<Seq<usize>>>::empty();
                assert(parts.flatten() =~= chain[c + 1]);
            }
            assert(chain[0] =~= initial_groups(0));
            assert(representatives(chain.last(), occurrence) =~= Seq::<usize>::empty());
            assert(is_refinement_chain(*arr, axis as int, chain, tols, nan_cmp, *envelope));
            assert(is_selection(*arr, axis as int, representatives(chain.last(), occurrence), out));
        }
        return out;
    }
    let mut first: Vec<usize> = Vec::new();
    let mut i: usize = 0;
    while i < ext
        invariant
            i <= ext,
            first@ =~= Seq::new(i as nat, |x: int| x as usize),
        decreases ext - i,
    {
        first.push(i);
        i += 1;
    }
    let mut groups: Vec<Vec<usize>> = Vec::new();
    groups.push(first);
    let ghost mut chain: Seq<Seq<Seq<usize>>> = seq![view_groups(groups@)];
    proof {
        assert(view_groups(groups@) =~= initial_groups(ext as int));
        assert(view_groups(groups@)[0] == Seq::new(ext as nat, |x: int| x as usize));
        assert(view_groups(groups@).flatten() =~= Seq::new(ext as nat, |x: int| x as usize)) by {
            Seq::<Seq<usize>>::empty().lemma_flatten_push(Seq::new(ext as nat, |x: int| x as usize));
            assert(view_groups(groups@) =~= Seq::<Seq<usize>>::empty().push(
                Seq::new(ext as nat, |x: int| x as usize),
            ));
        }
        let gv = view_groups(groups@);
        assert forall|g1: int, x1: int, g2: int, x2: int|
            0 <= g1 < gv.len() && 0 <= g2 < gv.len() && 0 <= x1 < gv[g1].len() && 0 <= x2 < gv[g2].len()
                && (g1 != g2 || x1 != x2) implies #[trigger] gv[g1][x1] != #[trigger] gv[g2][x2] by {
            assert(g1 == 0 && g2 == 0);
            assert(gv[0][x1] == x1 as usize && gv[0][x2] == x2 as usize);
        }
    }
    if len == 0 {
        proof {
            assert(outer_i * inner_i == 0) by (nonlinear_arith)
                requires
                    outer_i * ext * inner_i == 0,
                    ext >= 1,
            ;
            assert(outer_i == 0 || inner_i == 0) by (nonlinear_arith)
                requires
                    outer_i * inner_i == 0,
            ;
            assert(outer_i * 1 * inner_i == 0);
        }
        let shape = shape_with(&arr.shape, axis, 1);
        let out = ArrayNd { shape, data: Vec::new() };
        proof {
            assert(representatives(chain.last(), occurrence).len() == 1);
            assert(is_refinement_chain(*arr, axis as int, chain, tols, nan_cmp, *envelope));
            assert(is_selection(*arr, axis as int, representatives(chain.last(), occurrence), out));
        }
        return out;
    }
    let outer = extent_product(&arr.shape, 0, axis, len);
    let nd = arr.shape.len();
    let inner = extent_product(&arr.shape, axis + 1, nd, len);
    let mut o: usize = 0;
    while o < outer
        invariant
            envelope_total(*envelope),
            arr.wf(),
            axis < arr.shape@.len(),
            ext == arr.shape@[axis as int],
            outer == outer_i,
            inner == inner_i,
            outer_i == axis_outer(arr.shape@, axis as int),
            inner_i == axis_inner(arr.shape@, axis as int),
            outer >= 1,
            inner >= 1,
            n == outer_i * inner_i,
            len == arr.data@.len(),
            arr.data@.len() == outer * ext * inner,
            o <= outer,
            chain.len() == o * inner + 1,
            chain[0] == initial_groups(ext as int),
            chain.last() == view_groups(groups@),
            groups_ok(view_groups(groups@), ext as int),
            groups_disjoint(view_groups(groups@)),
            view_groups(groups@).flatten().len() == ext,
            forall|c: int|
                0 <= c < chain.len() - 1 ==> refine_matches(
                    *arr,
                    axis as int,
                    c,
                    #[trigger] chain[c],
                    chain[c + 1],
                    tols,
                    nan_cmp,
                    *envelope,
                ),
        decreases outer - o,
    {
        let mut q: usize = 0;
        while q < inner
            invariant
                envelope_total(*envelope),
                arr.wf(),
                axis < arr.shape@.len(),
                ext == arr.shape@[axis as int],
                outer == outer_i,
                inner == inner_i,
                outer_i == axis_outer(arr.shape@, axis as int),
                inner_i == axis_inner(arr.shape@, axis as int),
                outer >= 1,
                inner >= 1,
                len == arr.data@.len(),
                arr.data@.len() == outer * ext * inner,
                o < outer,
                q <= inner,
                chain.len() == o * inner + q + 1,
                chain[0] == initial_groups(ext as int),
                chain.last() == view_groups(groups@),
                groups_ok(view_groups(groups@), ext as int),
                groups_disjoint(view_groups(groups@)),
                view_groups(groups@).flatten().len() == ext,
                forall|c: int|
                    0 <= c < chain.len() - 1 ==> refine_matches(
                        *arr,
                        axis as int,
                        c,
                        #[trigger] chain[c],
                        chain[c + 1],
                        tols,
                        nan_cmp,
                        *envelope,
                    ),
            decreases inner - q,
        {
            let next = refine_step(
                arr,
                axis,
                outer,
                ext,
                inner,
                o,
                q,
                &groups,
                tols,
                nan_cmp,
                envelope,
            );
            let ghost chain0 = chain;
            proof {
                chain = chain.push(view_groups(next@));
                assert forall|c: int| 0 <= c < chain.len() - 1 implies refine_matches(
                    *arr,
                    axis as int,
                    c,
                    #[trigger] chain[c],
                    chain[c + 1],
                    tols,
                    nan_cmp,
                    *envelope,
                ) by {
                    if c < chain0.len() - 1 {
                        assert(chain[c] == chain0[c] && chain[c + 1] == chain0[c + 1]);
                    } else {
                        assert(c == o * inner + q);
                        assert(chain[c] == chain0.last());
                    }
                }
            }
            groups = next;
            q += 1;
        }
        proof {
            assert((o + 1) * inner == o * inner + inner) by (nonlinear_arith);
        }
        o += 1;
    }
    let mut sel: Vec<usize> = Vec::new();
    let mut g: usize = 0;
    while g < groups.len()
        invariant
            g <= groups@.len(),
            groups_ok(view_groups(groups@), ext as int),
            sel@.len() == g,
            forall|h: int|
                0 <= h < g ==> #[trigger] sel@[h] == representative(
                    view_groups(groups@)[h],
                    occurrence,
                ),
        decreases groups@.len() - g,
    {
        let members = &groups[g];
        proof {
            assert(view_groups(groups@)[g as int] == members@);
        }
        let pick = match occurrence {
            Occurrence::Lowest => members[0],
            Occurrence::Highest => members[members.len() - 1],
        };
        sel.push(pick);
        g += 1;
    }
    proof {
        let gv = view_groups(groups@);
        lemma_len_le_flatten_len(gv);
        assert(sel@ =~= representatives(chain.last(), occurrence));
        assert forall|h: int| 0 <= h < sel@.len() implies #[trigger] sel@[h] < ext by {
            assert(gv[h].len() >= 1);
            if occurrence == Occurrence::Lowest {
                assert(gv[h][0] < ext);
            } else {
                assert(gv[h][gv[h].len() - 1] < ext);
            }
        }
        assert(o * inner == n);
        assert forall|h1: int, h2: int| 0 <= h1 < sel@.len() && 0 <= h2 < sel@.len() && h1 != h2 implies sel@[h1]
            != sel@[h2] by {
            let x1 = if occurrence == Occurrence::Lowest { 0 } else { gv[h1].len() - 1 };
            let x2 = if occurrence == Occurrence::Lowest { 0 } else { gv[h2].len() - 1 };
            assert(sel@[h1] == gv[h1][x1] && sel@[h2] == gv[h2][x2]);
            assert(gv[h1][x1] != gv[h2][x2]);
        }
        if gv.len() == 0 {
            assert(gv.flatten() =~= Seq::<usize>::empty());
        }
    }
    let out = select_lanes(arr, axis, outer, ext, inner, &sel);
    proof {
        assert(is_refinement_chain(*arr, axis as int, chain, tols, nan_cmp, *envelope));
    }
    out
}

/// `out` is the rank-1 array of the values that the de-duplication of all of
/// `arr`'s elements, in row-major order, keeps.
pub open spec fn is_flat_unique<E: Fn(u64, u64, Tols) -> bool>(
    arr: ArrayNd,
    tols: Tols,
    nan_cmp: NanComparison,
    occurrence: Occurrence,
    envelope: E,
    out: ArrayNd,
) -> bool {
    exists|r: UniqueTolResult|
        #[trigger] is_uniquetol(arr.data@, tols, nan_cmp, occurrence, envelope, r)
            && out.data@ == r.arr_unique@ && out.shape@ == seq![r.arr_unique@.len() as usize]
}

/// `out` keeps one lane of each final group of the refinement along `axis`;
/// no lane is in two groups, so no lane is kept twice.
pub open spec fn is_axis_unique<E: Fn(u64, u64, Tols) -> bool>(
    arr: ArrayNd,
    tols: Tols,
    nan_cmp: NanComparison,
    occurrence: Occurrence,
    axis: int,
    envelope: E,
    out: ArrayNd,
) -> bool {
    exists|chain: Seq<Seq<Seq<usize>>>|
        #[trigger] is_refinement_chain(arr, axis, chain, tols, nan_cmp, envelope) && is_selection(
            arr,
            axis,
            representatives(chain.last(), occurrence),
            out,
        ) && groups_disjoint(chain.last()) && representatives(chain.last(), occurrence).no_duplicates()
}

fn uniquetol_nd_flatten_none<E: Fn(u64, u64, Tols) -> bool>(
    arr: &ArrayNd,
    tols: Tols,
    nan_cmp: NanComparison,
    occurrence: Occurrence,
    envelope: &E,
) -> (out: ArrayNd)
    requires
        envelope_total(*envelope),
    ensures
        is_flat_unique(*arr, tols, nan_cmp, occurrence, *envelope, out),
        out.wf(),
{
    let r = uniquetol_1d(&arr.data, tols, nan_cmp, occurrence, envelope);
    let m = r.arr_unique.len();
    let mut shape: Vec<usize> = Vec::new();
    shape.push(m);
    let ghost rr = r;
    let out = ArrayNd { shape, data: r.arr_unique };
    proof {
        lemma_shape_size_single(m);
        assert(out.shape@ =~= seq![m]);
        assert(is_uniquetol(arr.data@, tols, nan_cmp, occurrence, *envelope, rr));
    }
    out
}

/// De-duplicates `arr` within `tols`: as one flat sequence in row-major
/// order (`Whole`), giving a rank-1 array of the kept values, or by lanes
/// along an axis (`Dim`), giving the kept lanes with the other extents
/// unchanged. An axis that `arr` does not have is an error.
pub fn uniquetol_nd<E: Fn(u64, u64, Tols) -> bool>(
    arr: &ArrayNd,
    tols: Tols,
    nan_cmp: NanComparison,
    occurrence: Occurrence,
    flatten_axis: FlattenAxis,
    envelope: &E,
) -> (r: Result<ArrayNd, AxisBoundsError>)
    requires
        envelope_total(*envelope),
        arr.wf(),
    ensures
        flatten_axis == FlattenAxis::Whole ==> (r matches Ok(out) && is_flat_unique(
            *arr,
            tols,
            nan_cmp,
            occurrence,
            *envelope,
            out,
        )),
        forall|axis: usize|
            flatten_axis == FlattenAxis::Dim(axis) && axis < arr.shape@.len() ==> (r matches Ok(out)
                && is_axis_unique(*arr, tols, nan_cmp, occurrence, axis as int, *envelope, out)),
        forall|axis: usize|
            flatten_axis == FlattenAxis::Dim(axis) && axis >= arr.shape@.len() ==> r == Err::<
                ArrayNd,
                AxisBoundsError,
            >((AxisBoundsError { axis, ndim: arr.shape@.len() as usize })),
        r matches Ok(out) ==> out.wf(),
        forall|axis: usize|
            flatten_axis == FlattenAxis::Dim(axis) && axis < arr.shape@.len() ==> (r matches Ok(out)
                && out.shape@.len() == arr.shape@.len() && out.shape@[axis as int]
                <= arr.shape@[axis as int] && (arr.shape@[axis as int] > 0 ==> out.shape@[axis as int]
                >= 1)),
{
    match flatten_axis {
        FlattenAxis::Whole => Ok(uniquetol_nd_flatten_none(arr, tols, nan_cmp, occurrence, envelope)),
        FlattenAxis::Dim(axis) => {
            if axis < arr.ndim() {
                let out = uniquetol_nd_flatten_axis(arr, tols, nan_cmp, occurrence, axis, envelope);
                Ok(out)
            } else {
                Err(AxisBoundsError { axis, ndim: arr.ndim() })
            }
        },
    }
}

} // verus!
