//! Banded subsequence search over one fixed reference, with precomputed
//! envelopes.
//!
//! Construction computes per-position running lower and upper envelopes of
//! the reference and a query-independent visiting order; each query is then
//! slid over the reference, and a window is paid for with a full banded
//! alignment only when the cheap envelope lower bounds fail to prune it.
//! Pruning never invents a score: whatever the search reports for a window
//! is that window's exact banded score.  For a distance that never shrinks
//! as a pair of samples is pulled apart ([`dist_monotone`]), pruning also
//! never loses a window: the envelope bounds and the per-row remainders
//! undercount every alignment, so the search returns the least banded score
//! over all windows, at the first position attaining it.

use vstd::prelude::*;

use crate::cost::{cost_add, cost_le, cost_lt, cost_min, cost_min3, dist_monotone, Cost, Dist};
use crate::thresholddtw::{sat_add, sat_add_u};

verus! {

/// The first position of the envelope window of position `j`.
pub open spec fn window_lo(j: int, bw: int) -> int {
    if j - bw >= 0 {
        j - bw
    } else {
        0
    }
}

/// One past the last position of the envelope window of position `j`.
pub open spec fn window_hi(j: int, bw: int, len: int) -> int {
    if j + bw + 1 <= len {
        j + bw + 1
    } else {
        len
    }
}

/// The least of `acc` and the samples over positions `lo .. hi`.
pub open spec fn fold_min(s: Seq<i32>, lo: int, hi: int, acc: int) -> int
    decreases hi - lo,
{
    if hi <= lo {
        acc
    } else {
        let rest = fold_min(s, lo, hi - 1, acc);
        if s[hi - 1] < rest {
            s[hi - 1] as int
        } else {
            rest
        }
    }
}

/// The greatest of `acc` and the samples over positions `lo .. hi`.
pub open spec fn fold_max(s: Seq<i32>, lo: int, hi: int, acc: int) -> int
    decreases hi - lo,
{
    if hi <= lo {
        acc
    } else {
        let rest = fold_max(s, lo, hi - 1, acc);
        if s[hi - 1] > rest {
            s[hi - 1] as int
        } else {
            rest
        }
    }
}

/// Whether `lower` and `upper` are the running envelopes of `s`: each entry
/// is the least (greatest) sample over its sliding window of `bw` positions
/// to either side (position `j` itself seeds its own fold and always lies in
/// its own window).  The window covers every position the band can align
/// against entry `j`, which is what makes the envelope bounds sound.
pub open spec fn envelopes_ok(s: Seq<i32>, bw: int, lower: Seq<i32>, upper: Seq<i32>) -> bool {
    &&& lower.len() == s.len()
    &&& upper.len() == s.len()
    &&& forall|j: int|
        0 <= j < s.len() ==> #[trigger] lower[j] == fold_min(
            s,
            window_lo(j, bw),
            window_hi(j, bw, s.len() as int),
            s[j] as int,
        )
    &&& forall|j: int|
        0 <= j < s.len() ==> #[trigger] upper[j] == fold_max(
            s,
            window_lo(j, bw),
            window_hi(j, bw, s.len() as int),
            s[j] as int,
        )
}

/// The envelope contribution of position `i`: the distance from the sample
/// to the envelope when it lies outside, nothing when it lies within.
pub open spec fn lb_step<D: Dist>(events: Seq<i32>, lower: Seq<i32>, upper: Seq<i32>, i: int) -> u64 {
    if events[i] < lower[i] {
        D::d(events[i], lower[i])
    } else if events[i] > upper[i] {
        D::d(events[i], upper[i])
    } else {
        0
    }
}

/// The envelope lower bound accumulated over the first `upto` entries of the
/// visiting order, saturating.
pub open spec fn lb_keogh<D: Dist>(
    events: Seq<i32>,
    lower: Seq<i32>,
    upper: Seq<i32>,
    order: Seq<usize>,
    upto: int,
) -> u64
    decreases upto,
{
    if upto <= 0 {
        0
    } else {
        sat_add(
            lb_keogh::<D>(events, lower, upper, order, upto - 1),
            lb_step::<D>(events, lower, upper, order[upto - 1] as int),
        )
    }
}

/// The rolled band cell of the banded alignment of `q` against the window
/// `sr`: row `i` aligns the first `i` query samples, offset `j` addresses
/// window position `i + j - bw - 1`.  Off-band offsets are infinite, and the
/// single seed sits at offset `bw` of row zero.
pub open spec fn ucell<D: Dist>(q: Seq<i32>, sr: Seq<i32>, bw: int, i: int, j: int) -> Cost
    decreases i + i + j,
{
    if i < 0 || j < 0 || j > 2 * bw {
        Cost::Inf
    } else if i == 0 {
        if j == bw {
            Cost::Fin(0)
        } else {
            Cost::Inf
        }
    } else if i + j <= bw || q.len() + bw <= i + j - 1 {
        Cost::Inf
    } else {
        let gap = ucell::<D>(q, sr, bw, i, j - 1);
        let del = ucell::<D>(q, sr, bw, i - 1, j + 1);
        let mat = ucell::<D>(q, sr, bw, i - 1, j);
        cost_add(cost_min3(gap, del, mat), D::d(q[i - 1], sr[i + j - bw - 1]))
    }
}

/// The score of the banded alignment of the whole query against a window of
/// its own length.
pub open spec fn ucr_score<D: Dist>(q: Seq<i32>, sr: Seq<i32>, bw: int) -> Cost {
    ucell::<D>(q, sr, bw, q.len() as int, bw)
}

/// The diagonal of the band is always walkable, so the banded score of a
/// window is finite.
proof fn lemma_ucell_diag_fin<D: Dist>(q: Seq<i32>, sr: Seq<i32>, bw: int, i: int)
    requires
        0 <= i <= q.len(),
        q.len() <= sr.len(),
        0 <= bw,
    ensures
        ucell::<D>(q, sr, bw, i, bw) is Fin,
    decreases i,
{
    if i > 0 {
        lemma_ucell_diag_fin::<D>(q, sr, bw, i - 1);
    }
}

/// `x` clamped into `u64`: what a chain of saturating additions and
/// clamped subtractions reaches, expressed over the exact integer value.
pub open spec fn sat_of(x: int) -> u64 {
    if x > u64::MAX {
        u64::MAX
    } else if x < 0 {
        0
    } else {
        x as u64
    }
}

/// The exact (unsaturated) envelope contribution of entries `a .. b`.
pub open spec fn lb_step_sum<D: Dist>(
    events: Seq<i32>,
    lower: Seq<i32>,
    upper: Seq<i32>,
    a: int,
    b: int,
) -> int
    decreases b - a,
{
    if b <= a {
        0
    } else {
        lb_step_sum::<D>(events, lower, upper, a, b - 1) + lb_step::<D>(events, lower, upper, b - 1)
    }
}

/// The exact envelope contribution of the first `t` entries of a visiting
/// order.
pub open spec fn order_sum<D: Dist>(
    events: Seq<i32>,
    lower: Seq<i32>,
    upper: Seq<i32>,
    order: Seq<usize>,
    t: int,
) -> int
    decreases t,
{
    if t <= 0 {
        0
    } else {
        order_sum::<D>(events, lower, upper, order, t - 1) + lb_step::<D>(
            events,
            lower,
            upper,
            order[t - 1] as int,
        )
    }
}

/// Whether each envelope entry bounds every sample within `bw` positions
/// of its own.  This is the one fact the banded alignment needs from an
/// envelope, and it survives slicing a window out of a longer sequence's
/// envelope.
pub open spec fn env_bounds(s: Seq<i32>, lower: Seq<i32>, upper: Seq<i32>, bw: int) -> bool {
    &&& lower.len() == s.len()
    &&& upper.len() == s.len()
    &&& forall|k: int, p: int|
        #![trigger lower[k], s[p]]
        #![trigger upper[k], s[p]]
        0 <= k < s.len() && k - bw <= p <= k + bw && 0 <= p < s.len() ==> lower[k] <= s[p]
            <= upper[k]
}

/// The least alignment cell of row `i` over offsets `0 .. j`.
pub open spec fn row_min_upto<D: Dist>(q: Seq<i32>, sr: Seq<i32>, bw: int, i: int, j: int) -> Cost
    decreases j,
{
    if j <= 0 {
        Cost::Inf
    } else {
        cost_min(row_min_upto::<D>(q, sr, bw, i, j - 1), ucell::<D>(q, sr, bw, i, j - 1))
    }
}

/// The least alignment cell of row `i` over the whole band.
pub open spec fn row_min<D: Dist>(q: Seq<i32>, sr: Seq<i32>, bw: int, i: int) -> Cost {
    row_min_upto::<D>(q, sr, bw, i, 2 * bw + 1)
}

/// Whether each entry of a remainder array undercounts what every
/// alignment must still pay after the corresponding row: whenever the
/// banded score is finite, it is at least the row's least cell plus the
/// row's remainder.  Per-row early abandonment is sound against exactly
/// such an array.
pub open spec fn remainders_ok<D: Dist>(q: Seq<i32>, sr: Seq<i32>, bw: int, clb: Seq<u64>) -> bool {
    forall|i: int|
        1 <= i <= q.len() ==> cost_le(
            cost_add(row_min::<D>(q, sr, bw, i), #[trigger] clb[i - 1]),
            ucr_score::<D>(q, sr, bw),
        )
}

/// Every sample inside a fold's range bounds the fold from above.
proof fn lemma_fold_min_le(s: Seq<i32>, lo: int, hi: int, acc: int, p: int)
    requires
        lo <= p < hi,
    ensures
        fold_min(s, lo, hi, acc) <= s[p],
    decreases hi - lo,
{
    if p < hi - 1 {
        lemma_fold_min_le(s, lo, hi - 1, acc, p);
    }
}

/// Every sample inside a fold's range bounds the fold from below.
proof fn lemma_fold_max_ge(s: Seq<i32>, lo: int, hi: int, acc: int, p: int)
    requires
        lo <= p < hi,
    ensures
        fold_max(s, lo, hi, acc) >= s[p],
    decreases hi - lo,
{
    if p < hi - 1 {
        lemma_fold_max_ge(s, lo, hi - 1, acc, p);
    }
}

/// A running envelope keeps its meaning on any slice: each sliced entry
/// still bounds every sample of the slice within `bw` positions of its
/// own, because the slice's window is contained in the full one.
pub proof fn lemma_env_bounds_slice(
    s: Seq<i32>,
    bw: int,
    lower: Seq<i32>,
    upper: Seq<i32>,
    pos: int,
    n: int,
)
    requires
        envelopes_ok(s, bw, lower, upper),
        bw >= 0,
        0 <= pos,
        0 <= n,
        pos + n <= s.len(),
    ensures
        env_bounds(
            s.subrange(pos, pos + n),
            lower.subrange(pos, pos + n),
            upper.subrange(pos, pos + n),
            bw,
        ),
{
    let ss = s.subrange(pos, pos + n);
    let sl = lower.subrange(pos, pos + n);
    let su = upper.subrange(pos, pos + n);
    assert forall|k: int, p: int|
        #![trigger sl[k], ss[p]]
        #![trigger su[k], ss[p]]
        0 <= k < ss.len() && k - bw <= p <= k + bw && 0 <= p < ss.len() implies sl[k] <= ss[p]
        <= su[k] by {
        assert(sl[k] == lower[pos + k] && su[k] == upper[pos + k] && ss[p] == s[pos + p]);
        assert(window_lo(pos + k, bw) <= pos + p < window_hi(pos + k, bw, s.len() as int));
        lemma_fold_min_le(
            s,
            window_lo(pos + k, bw),
            window_hi(pos + k, bw, s.len() as int),
            s[pos + k] as int,
            pos + p,
        );
        lemma_fold_max_ge(
            s,
            window_lo(pos + k, bw),
            window_hi(pos + k, bw, s.len() as int),
            s[pos + k] as int,
            pos + p,
        );
    }
}

/// Envelope contributions never add up to a negative amount.
proof fn lemma_sum_nonneg<D: Dist>(events: Seq<i32>, lower: Seq<i32>, upper: Seq<i32>, a: int, b: int)
    ensures
        lb_step_sum::<D>(events, lower, upper, a, b) >= 0,
    decreases b - a,
{
    if b > a {
        lemma_sum_nonneg::<D>(events, lower, upper, a, b - 1);
    }
}

/// An envelope contribution splits at any midpoint.
proof fn lemma_sum_split<D: Dist>(
    events: Seq<i32>,
    lower: Seq<i32>,
    upper: Seq<i32>,
    a: int,
    m: int,
    b: int,
)
    requires
        a <= m <= b,
    ensures
        lb_step_sum::<D>(events, lower, upper, a, b) == lb_step_sum::<D>(events, lower, upper, a, m)
            + lb_step_sum::<D>(events, lower, upper, m, b),
    decreases b - m,
{
    if m < b {
        lemma_sum_split::<D>(events, lower, upper, a, m, b - 1);
    }
}

/// Saturated accumulation along a visiting order equals the exact sum
/// clamped into `u64`.
proof fn lemma_lb_keogh_val<D: Dist>(
    events: Seq<i32>,
    lower: Seq<i32>,
    upper: Seq<i32>,
    order: Seq<usize>,
    t: int,
)
    ensures
        lb_keogh::<D>(events, lower, upper, order, t) == sat_of(
            order_sum::<D>(events, lower, upper, order, t),
        ),
        order_sum::<D>(events, lower, upper, order, t) >= 0,
    decreases t,
{
    if t > 0 {
        lemma_lb_keogh_val::<D>(events, lower, upper, order, t - 1);
    }
}

/// An order's contribution depends only on the entries the prefix reads.
proof fn lemma_order_sum_congruent<D: Dist>(
    events: Seq<i32>,
    lower: Seq<i32>,
    upper: Seq<i32>,
    o1: Seq<usize>,
    o2: Seq<usize>,
    t: int,
)
    requires
        forall|u: int| 0 <= u < t ==> o1[u] == o2[u],
    ensures
        order_sum::<D>(events, lower, upper, o1, t) == order_sum::<D>(events, lower, upper, o2, t),
    decreases t,
{
    if t > 0 {
        lemma_order_sum_congruent::<D>(events, lower, upper, o1, o2, t - 1);
    }
}

/// Taking one entry out of an order's prefix takes exactly its
/// contribution out of the sum.
proof fn lemma_order_sum_remove<D: Dist>(
    events: Seq<i32>,
    lower: Seq<i32>,
    upper: Seq<i32>,
    order: Seq<usize>,
    t: int,
    k: int,
)
    requires
        0 <= k < t <= order.len(),
    ensures
        order_sum::<D>(events, lower, upper, order, t) == order_sum::<D>(
            events,
            lower,
            upper,
            order.subrange(0, t).remove(k),
            t - 1,
        ) + lb_step::<D>(events, lower, upper, order[k] as int),
    decreases t,
{
    let o2 = order.subrange(0, t).remove(k);
    if k == t - 1 {
        assert(forall|u: int| 0 <= u < t - 1 ==> o2[u] == order[u]);
        lemma_order_sum_congruent::<D>(events, lower, upper, o2, order, t - 1);
    } else {
        let o1 = order.subrange(0, t - 1).remove(k);
        lemma_order_sum_remove::<D>(events, lower, upper, order, t - 1, k);
        assert(forall|u: int| 0 <= u < t - 2 ==> o1[u] == o2[u]);
        lemma_order_sum_congruent::<D>(events, lower, upper, o1, o2, t - 2);
        assert(o2[t - 2] == order[t - 1]);
    }
}

/// A prefix of a visiting order without repeated entries contributes no
/// more than all entries together: the partial, permuted accumulation
/// undercounts the full one.
proof fn lemma_order_sum_le<D: Dist>(
    events: Seq<i32>,
    lower: Seq<i32>,
    upper: Seq<i32>,
    order: Seq<usize>,
    t: int,
    n: int,
)
    requires
        0 <= t <= order.len(),
        n >= 0,
        forall|u: int| 0 <= u < t ==> #[trigger] order[u] < n,
        forall|u: int, v: int| 0 <= u < v < t ==> order[u] != order[v],
    ensures
        order_sum::<D>(events, lower, upper, order, t) <= lb_step_sum::<D>(
            events,
            lower,
            upper,
            0,
            n,
        ),
    decreases n,
{
    lemma_sum_nonneg::<D>(events, lower, upper, 0, n);
    if n == 0 {
        if t > 0 {
            assert(order[0] < n);
        }
    } else if exists|k: int| 0 <= k < t && #[trigger] order[k] as int == n - 1 {
        let k = choose|k: int| 0 <= k < t && #[trigger] order[k] as int == n - 1;
        let o2 = order.subrange(0, t).remove(k);
        lemma_order_sum_remove::<D>(events, lower, upper, order, t, k);
        assert forall|u: int| 0 <= u < t - 1 implies #[trigger] o2[u] < n - 1 by {
            if u < k {
                assert(o2[u] == order[u] && order[u] != order[k]);
            } else {
                assert(o2[u] == order[u + 1] && order[u + 1] != order[k]);
            }
        }
        assert forall|u: int, v: int| 0 <= u < v < t - 1 implies o2[u] != o2[v] by {
            if v < k {
                assert(o2[u] == order[u] && o2[v] == order[v]);
            } else if u < k {
                assert(o2[u] == order[u] && o2[v] == order[v + 1]);
            } else {
                assert(o2[u] == order[u + 1] && o2[v] == order[v + 1]);
            }
        }
        lemma_order_sum_le::<D>(events, lower, upper, o2, t - 1, n - 1);
    } else {
        assert(forall|u: int| 0 <= u < t ==> #[trigger] order[u] < n - 1);
        lemma_order_sum_le::<D>(events, lower, upper, order, t, n - 1);
    }
}

/// A sample lying between an envelope entry's bounds is at least as far
/// from the events sample as the envelope edge is.
proof fn lemma_step_le_d<D: Dist>(
    events: Seq<i32>,
    lower: Seq<i32>,
    upper: Seq<i32>,
    k: int,
    s: i32,
)
    requires
        dist_monotone::<D>(),
        0 <= k < events.len(),
        lower.len() == events.len(),
        upper.len() == events.len(),
        lower[k] <= s <= upper[k],
    ensures
        lb_step::<D>(events, lower, upper, k) <= D::d(events[k], s),
        lb_step::<D>(events, lower, upper, k) <= D::d(s, events[k]),
{
    if events[k] < lower[k] {
        assert(D::d(events[k], lower[k]) <= D::d(events[k], s));
        assert(D::d(events[k], lower[k]) <= D::d(s, events[k]));
    } else if events[k] > upper[k] {
        assert(D::d(events[k], upper[k]) <= D::d(events[k], s));
        assert(D::d(events[k], upper[k]) <= D::d(s, events[k]));
    }
}

/// One saturated step: adding at least the next contribution on top of a
/// value that already dominates a clamped sum dominates the grown sum.
proof fn lemma_sat_step(m: u64, v: u64, d: u64, s: int, st: u64)
    requires
        v >= sat_add(m, sat_of(s)),
        d >= st,
        s >= 0,
    ensures
        sat_add(v, d) >= sat_add(m, sat_of(s + st)),
{
}

/// The row minimum bounds every cell of its row.
proof fn lemma_row_min_le<D: Dist>(q: Seq<i32>, sr: Seq<i32>, bw: int, i: int, j2: int, j: int)
    requires
        0 <= j < j2,
    ensures
        cost_le(row_min_upto::<D>(q, sr, bw, i, j2), ucell::<D>(q, sr, bw, i, j)),
    decreases j2,
{
    if j < j2 - 1 {
        lemma_row_min_le::<D>(q, sr, bw, i, j2 - 1, j);
    }
}

/// Every finite cell of the banded table has paid at least the envelope
/// contribution of every row above it, because each row's aligned sample
/// lies inside that row's envelope window.
proof fn lemma_cell_ge_rows<D: Dist>(
    q: Seq<i32>,
    sr: Seq<i32>,
    lower: Seq<i32>,
    upper: Seq<i32>,
    bw: int,
    i: int,
    j: int,
)
    requires
        dist_monotone::<D>(),
        q.len() == sr.len(),
        env_bounds(sr, lower, upper, bw),
        lower.len() == q.len(),
        upper.len() == q.len(),
        bw >= 0,
        0 <= i <= q.len(),
        0 <= j <= 2 * bw,
    ensures
        cost_le(
            Cost::Fin(sat_of(lb_step_sum::<D>(q, lower, upper, 0, i))),
            ucell::<D>(q, sr, bw, i, j),
        ),
    decreases i + i + j,
{
    lemma_sum_nonneg::<D>(q, lower, upper, 0, i);
    if i == 0 {
    } else if i + j <= bw || q.len() + bw <= i + j - 1 {
    } else {
        let p = i + j - bw - 1;
        let d = D::d(q[i - 1], sr[p]);
        assert(0 <= p < sr.len());
        assert(lower[i - 1] <= sr[p] <= upper[i - 1]);
        lemma_step_le_d::<D>(q, lower, upper, i - 1, sr[p]);
        if j > 0 {
            lemma_cell_ge_rows::<D>(q, sr, lower, upper, bw, i, j - 1);
        }
        if j + 1 <= 2 * bw {
            lemma_cell_ge_rows::<D>(q, sr, lower, upper, bw, i - 1, j + 1);
        }
        lemma_cell_ge_rows::<D>(q, sr, lower, upper, bw, i - 1, j);
        lemma_sum_nonneg::<D>(q, lower, upper, 0, i - 1);
        let s1 = lb_step_sum::<D>(q, lower, upper, 0, i - 1);
        let st = lb_step::<D>(q, lower, upper, i - 1);
        let gap = ucell::<D>(q, sr, bw, i, j - 1);
        let del = ucell::<D>(q, sr, bw, i - 1, j + 1);
        let mat = ucell::<D>(q, sr, bw, i - 1, j);
        let m3 = cost_min3(gap, del, mat);
        if m3 is Fin {
            if m3 == gap {
                assert(sat_add(m3->Fin_0, d) >= sat_of(s1 + st)) by {
                    lemma_sat_step(0, m3->Fin_0, d, s1 + st, 0);
                }
            } else {
                lemma_sat_step(0, m3->Fin_0, d, s1, st);
            }
        }
    }
}

/// Every finite cell of the banded table has paid at least the envelope
/// contribution of every window position up to the one it matches,
/// because each position, when first reached, is aligned against a query
/// sample inside that position's envelope window.
proof fn lemma_cell_ge_positions<D: Dist>(
    q: Seq<i32>,
    sr: Seq<i32>,
    qlower: Seq<i32>,
    qupper: Seq<i32>,
    bw: int,
    i: int,
    j: int,
)
    requires
        dist_monotone::<D>(),
        q.len() == sr.len(),
        env_bounds(q, qlower, qupper, bw),
        bw >= 0,
        0 <= i <= q.len(),
        0 <= j <= 2 * bw,
    ensures
        cost_le(
            Cost::Fin(sat_of(lb_step_sum::<D>(sr, qlower, qupper, 0, i + j - bw))),
            ucell::<D>(q, sr, bw, i, j),
        ),
    decreases i + i + j,
{
    lemma_sum_nonneg::<D>(sr, qlower, qupper, 0, i + j - bw);
    if i == 0 {
    } else if i + j <= bw || q.len() + bw <= i + j - 1 {
    } else {
        let p = i + j - bw - 1;
        let d = D::d(q[i - 1], sr[p]);
        assert(0 <= p < sr.len());
        assert(qlower[p] <= q[i - 1] <= qupper[p]);
        lemma_step_le_d::<D>(sr, qlower, qupper, p, q[i - 1]);
        if j > 0 {
            lemma_cell_ge_positions::<D>(q, sr, qlower, qupper, bw, i, j - 1);
        }
        if j + 1 <= 2 * bw {
            lemma_cell_ge_positions::<D>(q, sr, qlower, qupper, bw, i - 1, j + 1);
        }
        lemma_cell_ge_positions::<D>(q, sr, qlower, qupper, bw, i - 1, j);
        lemma_sum_nonneg::<D>(sr, qlower, qupper, 0, p);
        let s1 = lb_step_sum::<D>(sr, qlower, qupper, 0, p);
        let st = lb_step::<D>(sr, qlower, qupper, p);
        let gap = ucell::<D>(q, sr, bw, i, j - 1);
        let del = ucell::<D>(q, sr, bw, i - 1, j + 1);
        let mat = ucell::<D>(q, sr, bw, i - 1, j);
        let m3 = cost_min3(gap, del, mat);
        if m3 is Fin {
            if m3 == del {
                lemma_sat_step(0, m3->Fin_0, d, s1 + st, 0);
            } else {
                lemma_sat_step(0, m3->Fin_0, d, s1, st);
            }
        }
    }
}

/// Below row `i0`, every finite cell has paid at least the least cell of
/// row `i0` plus the envelope contribution of the rows in between: what a
/// row's minimum still owes can be charged row by row.
proof fn lemma_cell_ge_row_min_rows<D: Dist>(
    q: Seq<i32>,
    sr: Seq<i32>,
    lower: Seq<i32>,
    upper: Seq<i32>,
    bw: int,
    i0: int,
    i: int,
    j: int,
)
    requires
        dist_monotone::<D>(),
        q.len() == sr.len(),
        env_bounds(sr, lower, upper, bw),
        lower.len() == q.len(),
        upper.len() == q.len(),
        bw >= 0,
        1 <= i0 <= i <= q.len(),
        0 <= j <= 2 * bw,
    ensures
        cost_le(
            cost_add(
                row_min::<D>(q, sr, bw, i0),
                sat_of(lb_step_sum::<D>(q, lower, upper, i0, i)),
            ),
            ucell::<D>(q, sr, bw, i, j),
        ),
    decreases i + i + j,
{
    lemma_sum_nonneg::<D>(q, lower, upper, i0, i);
    let rm = row_min::<D>(q, sr, bw, i0);
    if i == i0 {
        lemma_row_min_le::<D>(q, sr, bw, i0, 2 * bw + 1, j);
    } else if i + j <= bw || q.len() + bw <= i + j - 1 {
    } else {
        let p = i + j - bw - 1;
        let d = D::d(q[i - 1], sr[p]);
        assert(0 <= p < sr.len());
        assert(lower[i - 1] <= sr[p] <= upper[i - 1]);
        lemma_step_le_d::<D>(q, lower, upper, i - 1, sr[p]);
        if j > 0 {
            lemma_cell_ge_row_min_rows::<D>(q, sr, lower, upper, bw, i0, i, j - 1);
        }
        if j + 1 <= 2 * bw {
            lemma_cell_ge_row_min_rows::<D>(q, sr, lower, upper, bw, i0, i - 1, j + 1);
        }
        lemma_cell_ge_row_min_rows::<D>(q, sr, lower, upper, bw, i0, i - 1, j);
        lemma_sum_nonneg::<D>(q, lower, upper, i0, i - 1);
        let s1 = lb_step_sum::<D>(q, lower, upper, i0, i - 1);
        let st = lb_step::<D>(q, lower, upper, i - 1);
        let gap = ucell::<D>(q, sr, bw, i, j - 1);
        let del = ucell::<D>(q, sr, bw, i - 1, j + 1);
        let mat = ucell::<D>(q, sr, bw, i - 1, j);
        let m3 = cost_min3(gap, del, mat);
        if m3 is Fin && rm is Fin {
            if m3 == gap {
                lemma_sat_step(rm->Fin_0, m3->Fin_0, d, s1 + st, 0);
            } else {
                lemma_sat_step(rm->Fin_0, m3->Fin_0, d, s1, st);
            }
        }
    }
}

/// Below row `i0`, every finite cell has paid at least the least cell of
/// row `i0` plus the envelope contribution of the window positions beyond
/// the furthest one row `i0` can match: those positions are still wholly
/// unpaid when row `i0` is left.
proof fn lemma_cell_ge_row_min_positions<D: Dist>(
    q: Seq<i32>,
    sr: Seq<i32>,
    qlower: Seq<i32>,
    qupper: Seq<i32>,
    bw: int,
    i0: int,
    i: int,
    j: int,
)
    requires
        dist_monotone::<D>(),
        q.len() == sr.len(),
        env_bounds(q, qlower, qupper, bw),
        bw >= 0,
        1 <= i0 <= i <= q.len(),
        0 <= j <= 2 * bw,
    ensures
        cost_le(
            cost_add(
                row_min::<D>(q, sr, bw, i0),
                sat_of(lb_step_sum::<D>(sr, qlower, qupper, i0 + bw, i + j - bw)),
            ),
            ucell::<D>(q, sr, bw, i, j),
        ),
    decreases i + i + j,
{
    lemma_sum_nonneg::<D>(sr, qlower, qupper, i0 + bw, i + j - bw);
    let rm = row_min::<D>(q, sr, bw, i0);
    if i == i0 {
        lemma_row_min_le::<D>(q, sr, bw, i0, 2 * bw + 1, j);
    } else if i + j <= bw || q.len() + bw <= i + j - 1 {
    } else {
        let p = i + j - bw - 1;
        let d = D::d(q[i - 1], sr[p]);
        assert(0 <= p < sr.len());
        assert(qlower[p] <= q[i - 1] <= qupper[p]);
        lemma_step_le_d::<D>(sr, qlower, qupper, p, q[i - 1]);
        if j > 0 {
            lemma_cell_ge_row_min_positions::<D>(q, sr, qlower, qupper, bw, i0, i, j - 1);
        }
        if j + 1 <= 2 * bw {
            lemma_cell_ge_row_min_positions::<D>(q, sr, qlower, qupper, bw, i0, i - 1, j + 1);
        }
        lemma_cell_ge_row_min_positions::<D>(q, sr, qlower, qupper, bw, i0, i - 1, j);
        lemma_sum_nonneg::<D>(sr, qlower, qupper, i0 + bw, p);
        let s1 = lb_step_sum::<D>(sr, qlower, qupper, i0 + bw, p);
        let st = lb_step::<D>(sr, qlower, qupper, p);
        let gap = ucell::<D>(q, sr, bw, i, j - 1);
        let del = ucell::<D>(q, sr, bw, i - 1, j + 1);
        let mat = ucell::<D>(q, sr, bw, i - 1, j);
        let m3 = cost_min3(gap, del, mat);
        if m3 is Fin && rm is Fin {
            if m3 == del {
                lemma_sat_step(rm->Fin_0, m3->Fin_0, d, lb_step_sum::<D>(sr, qlower, qupper, i0 + bw, i + j - bw), 0);
            } else if p >= i0 + bw {
                lemma_sat_step(rm->Fin_0, m3->Fin_0, d, s1, st);
            } else {
                lemma_sat_step(rm->Fin_0, m3->Fin_0, d, lb_step_sum::<D>(sr, qlower, qupper, i0 + bw, i + j - bw), 0);
            }
        }
    }
}

/// LB_Keogh soundness, reference-shaped: whatever prefix of the visiting
/// order the accumulation reads, and in whatever order, the accumulated
/// bound never exceeds the banded score of the window.
pub proof fn lemma_lb_keogh_row_sound<D: Dist>(
    q: Seq<i32>,
    sr: Seq<i32>,
    lower: Seq<i32>,
    upper: Seq<i32>,
    order: Seq<usize>,
    bw: int,
    t: int,
)
    requires
        dist_monotone::<D>(),
        q.len() == sr.len(),
        env_bounds(sr, lower, upper, bw),
        lower.len() == q.len(),
        upper.len() == q.len(),
        bw >= 0,
        0 <= t <= order.len(),
        forall|u: int| 0 <= u < t ==> #[trigger] order[u] < q.len(),
        forall|u: int, v: int| 0 <= u < v < t ==> order[u] != order[v],
    ensures
        cost_le(
            Cost::Fin(lb_keogh::<D>(q, lower, upper, order, t)),
            ucr_score::<D>(q, sr, bw),
        ),
{
    lemma_lb_keogh_val::<D>(q, lower, upper, order, t);
    lemma_order_sum_le::<D>(q, lower, upper, order, t, q.len() as int);
    lemma_cell_ge_rows::<D>(q, sr, lower, upper, bw, q.len() as int, bw);
}

/// LB_Keogh soundness, query-shaped: the window's samples, held against
/// the query's envelope, never accumulate past the banded score either.
pub proof fn lemma_lb_keogh_pos_sound<D: Dist>(
    q: Seq<i32>,
    sr: Seq<i32>,
    qlower: Seq<i32>,
    qupper: Seq<i32>,
    order: Seq<usize>,
    bw: int,
    t: int,
)
    requires
        dist_monotone::<D>(),
        q.len() == sr.len(),
        env_bounds(q, qlower, qupper, bw),
        bw >= 0,
        0 <= t <= order.len(),
        forall|u: int| 0 <= u < t ==> #[trigger] order[u] < sr.len(),
        forall|u: int, v: int| 0 <= u < v < t ==> order[u] != order[v],
    ensures
        cost_le(
            Cost::Fin(lb_keogh::<D>(sr, qlower, qupper, order, t)),
            ucr_score::<D>(q, sr, bw),
        ),
{
    lemma_lb_keogh_val::<D>(sr, qlower, qupper, order, t);
    lemma_order_sum_le::<D>(sr, qlower, qupper, order, t, sr.len() as int);
    lemma_cell_ge_positions::<D>(q, sr, qlower, qupper, bw, q.len() as int, bw);
}

/// Remainders built from a reference-shaped bound are sound: subtracting
/// the contributions of the rows already aligned leaves no more than what
/// the remaining rows must still pay.
pub proof fn lemma_remainders_rows<D: Dist>(
    q: Seq<i32>,
    sr: Seq<i32>,
    lower: Seq<i32>,
    upper: Seq<i32>,
    bw: int,
    clb: Seq<u64>,
    lbv: u64,
)
    requires
        dist_monotone::<D>(),
        q.len() == sr.len(),
        env_bounds(sr, lower, upper, bw),
        lower.len() == q.len(),
        upper.len() == q.len(),
        bw >= 0,
        1 <= q.len(),
        clb.len() >= q.len(),
        forall|k: int|
            0 <= k < q.len() ==> #[trigger] clb[k] <= sat_of(
                lbv - lb_step_sum::<D>(q, lower, upper, 0, k + 1),
            ),
        lbv <= sat_of(lb_step_sum::<D>(q, lower, upper, 0, q.len() as int)),
    ensures
        remainders_ok::<D>(q, sr, bw, clb),
{
    let n = q.len() as int;
    assert forall|i: int| 1 <= i <= q.len() implies cost_le(
        cost_add(row_min::<D>(q, sr, bw, i), #[trigger] clb[i - 1]),
        ucr_score::<D>(q, sr, bw),
    ) by {
        lemma_cell_ge_row_min_rows::<D>(q, sr, lower, upper, bw, i, n, bw);
        lemma_sum_split::<D>(q, lower, upper, 0, i, n);
        lemma_sum_nonneg::<D>(q, lower, upper, i, n);
        lemma_sum_nonneg::<D>(q, lower, upper, 0, i);
        assert(clb[i - 1] <= sat_of(lb_step_sum::<D>(q, lower, upper, i, n)));
    }
}

/// Remainders built from a query-shaped bound are sound once pushed `bw`
/// positions on: a row can match positions up to `bw` ahead of its own
/// index, so only contributions beyond that point are still wholly owed
/// when the row is left.
pub proof fn lemma_remainders_positions<D: Dist>(
    q: Seq<i32>,
    sr: Seq<i32>,
    qlower: Seq<i32>,
    qupper: Seq<i32>,
    bw: int,
    clb: Seq<u64>,
    clbs: Seq<u64>,
    lbv: u64,
)
    requires
        dist_monotone::<D>(),
        q.len() == sr.len(),
        env_bounds(q, qlower, qupper, bw),
        bw >= 0,
        1 <= q.len(),
        clb.len() == sr.len(),
        clbs.len() >= q.len(),
        forall|k: int|
            0 <= k < sr.len() ==> #[trigger] clb[k] <= sat_of(
                lbv - lb_step_sum::<D>(sr, qlower, qupper, 0, k + 1),
            ),
        forall|k: int|
            0 <= k < clb.len() ==> #[trigger] clbs[k] == clb[if k + bw < clb.len() {
                k + bw
            } else {
                clb.len() - 1
            }],
        lbv <= sat_of(lb_step_sum::<D>(sr, qlower, qupper, 0, sr.len() as int)),
    ensures
        remainders_ok::<D>(q, sr, bw, clbs),
{
    let n = q.len() as int;
    assert forall|i: int| 1 <= i <= q.len() implies cost_le(
        cost_add(row_min::<D>(q, sr, bw, i), #[trigger] clbs[i - 1]),
        ucr_score::<D>(q, sr, bw),
    ) by {
        lemma_cell_ge_row_min_positions::<D>(q, sr, qlower, qupper, bw, i, n, bw);
        let m = if i - 1 + bw < n {
            i - 1 + bw
        } else {
            n - 1
        };
        assert(clbs[i - 1] == clb[m]);
        lemma_sum_split::<D>(sr, qlower, qupper, 0, m + 1, n);
        lemma_sum_nonneg::<D>(sr, qlower, qupper, m + 1, n);
        lemma_sum_nonneg::<D>(sr, qlower, qupper, 0, m + 1);
        assert(clb[m] <= sat_of(lb_step_sum::<D>(sr, qlower, qupper, m + 1, n)));
        if i + bw < n {
            assert(m + 1 == i + bw);
        } else {
            lemma_sum_nonneg::<D>(sr, qlower, qupper, i + bw, n);
            assert(lb_step_sum::<D>(sr, qlower, qupper, m + 1, n) == 0);
            assert(lb_step_sum::<D>(sr, qlower, qupper, i + bw, n) == 0);
        }
    }
}

/// A banded subsequence searcher over one fixed reference: the reference,
/// its envelopes, the band half-width, and the visiting order for the lower
/// bounds, all computed once at construction.
pub struct DynamicTimeWarping<D: Dist> {
    /// The fixed reference sequence.
    pub reference: Vec<i32>,
    /// The caller's distance.
    pub dist: D,
    /// Running lower envelope of the reference.
    pub lower_envelope: Vec<i32>,
    /// Running upper envelope of the reference.
    pub upper_envelope: Vec<i32>,
    /// The band half-width.
    pub bandwidth: usize,
    /// Reference positions sorted by descending sample value.
    pub lowerbound_check_order: Vec<usize>,
}

impl<D: Dist> DynamicTimeWarping<D> {
    /// Whether the searcher's precomputed fields fit its reference.
    pub open spec fn wf(self) -> bool {
        &&& self.reference@.len() >= 1
        &&& self.reference@.len() + self.bandwidth <= usize::MAX
        &&& envelopes_ok(
            self.reference@,
            self.bandwidth as int,
            self.lower_envelope@,
            self.upper_envelope@,
        )
        &&& self.lowerbound_check_order@.len() == self.reference@.len()
        &&& forall|k: int|
            0 <= k < self.lowerbound_check_order@.len()
                ==> #[trigger] self.lowerbound_check_order@[k] < self.reference@.len()
    }

    /// Computes the running envelopes of a sequence: entry `j` of the lower
    /// (upper) envelope is the least (greatest) sample over `j`'s window.
    #[verifier::loop_isolation(false)]
    fn envelope(events: &Vec<i32>, bandwidth: usize) -> (res: (Vec<i32>, Vec<i32>))
        requires
            events@.len() >= 1,
            events@.len() + bandwidth <= usize::MAX,
        ensures
            envelopes_ok(events@, bandwidth as int, res.0@, res.1@),
    {
        let len = events.len();
        // Each position starts from its own sample, which always lies in
        // its own window.
        let mut lower: Vec<i32> = Vec::new();
        let mut upper: Vec<i32> = Vec::new();
        let mut c: usize = 0;
        while c < len
            invariant
                c <= len,
                lower@.len() == c,
                upper@.len() == c,
                forall|j: int| 0 <= j < c ==> #[trigger] lower@[j] == events@[j],
                forall|j: int| 0 <= j < c ==> #[trigger] upper@[j] == events@[j],
            decreases len - c,
        {
            let e = events[c];
            lower.push(e);
            upper.push(e);
            c = c + 1;
        }
        let ghost se = events@;
        let ghost bw = bandwidth as int;
        let mut i: usize = 0;
        while i < len
            invariant
                i <= len,
                lower@.len() == len,
                upper@.len() == len,
                forall|j: int|
                    0 <= j < len ==> #[trigger] lower@[j] == fold_min(
                        se,
                        window_lo(j, bw),
                        vstd::math::min(i as int, window_hi(j, bw, len as int)),
                        se[j] as int,
                    ),
                forall|j: int|
                    0 <= j < len ==> #[trigger] upper@[j] == fold_max(
                        se,
                        window_lo(j, bw),
                        vstd::math::min(i as int, window_hi(j, bw, len as int)),
                        se[j] as int,
                    ),
            decreases len - i,
        {
            let start = if i < bandwidth {
                0
            } else {
                i - bandwidth
            };
            let end = if i + bandwidth + 1 > len {
                len
            } else {
                i + bandwidth + 1
            };
            let v = events[i];
            let mut j: usize = start;
            while j < end
                invariant
                    i < len,
                    start <= j,
                    j <= end || j == start,
                    end <= len,
                    start == if i < bandwidth {
                        0int
                    } else {
                        i - bandwidth
                    },
                    end == if i + bandwidth + 1 > len {
                        len as int
                    } else {
                        i as int + bandwidth + 1
                    },
                    v == se[i as int],
                    lower@.len() == len,
                    upper@.len() == len,
                    forall|j0: int|
                        0 <= j0 < len && start <= j0 < j ==> #[trigger] lower@[j0] == fold_min(
                            se,
                            window_lo(j0, bw),
                            vstd::math::min(i + 1, window_hi(j0, bw, len as int)),
                            se[j0] as int,
                        ),
                    forall|j0: int|
                        0 <= j0 < len && !(start <= j0 < j) ==> #[trigger] lower@[j0] == fold_min(
                            se,
                            window_lo(j0, bw),
                            vstd::math::min(i as int, window_hi(j0, bw, len as int)),
                            se[j0] as int,
                        ),
                    forall|j0: int|
                        0 <= j0 < len && start <= j0 < j ==> #[trigger] upper@[j0] == fold_max(
                            se,
                            window_lo(j0, bw),
                            vstd::math::min(i + 1, window_hi(j0, bw, len as int)),
                            se[j0] as int,
                        ),
                    forall|j0: int|
                        0 <= j0 < len && !(start <= j0 < j) ==> #[trigger] upper@[j0] == fold_max(
                            se,
                            window_lo(j0, bw),
                            vstd::math::min(i as int, window_hi(j0, bw, len as int)),
                            se[j0] as int,
                        ),
                decreases end - j,
            {
                proof {
                    // The sample being folded lies in this position's window,
                    // so the covered range grows by exactly this sample.
                    assert(window_lo(j as int, bw) <= i as int && (i as int) < window_hi(
                        j as int,
                        bw,
                        len as int,
                    ));
                    assert(vstd::math::min(i + 1, window_hi(j as int, bw, len as int)) == i + 1);
                    assert(vstd::math::min(i as int, window_hi(j as int, bw, len as int))
                        == i as int);
                }
                if v < lower[j] {
                    lower.set(j, v);
                }
                if upper[j] < v {
                    upper.set(j, v);
                }
                proof {
                    assert(lower@[j as int] == fold_min(
                        se,
                        window_lo(j as int, bw),
                        i + 1,
                        se[j as int] as int,
                    ));
                    assert(upper@[j as int] == fold_max(
                        se,
                        window_lo(j as int, bw),
                        i + 1,
                        se[j as int] as int,
                    ));
                }
                j = j + 1;
            }
            proof {
                assert forall|j0: int| 0 <= j0 < len implies #[trigger] lower@[j0] == fold_min(
                    se,
                    window_lo(j0, bw),
                    vstd::math::min(i + 1, window_hi(j0, bw, len as int)),
                    se[j0] as int,
                ) by {
                    if !(start <= j0 < end) {
                        // This position's window does not cover the sample,
                        // so its covered range is unchanged in value.
                        if i as int >= window_hi(j0, bw, len as int) {
                            assert(vstd::math::min(i + 1, window_hi(j0, bw, len as int))
                                == vstd::math::min(i as int, window_hi(j0, bw, len as int)));
                        } else {
                            assert(window_lo(j0, bw) > i as int);
                            assert(fold_min(se, window_lo(j0, bw), i + 1, se[j0] as int)
                                == se[j0] as int);
                            assert(fold_min(se, window_lo(j0, bw), i as int, se[j0] as int)
                                == se[j0] as int);
                        }
                    }
                }
                assert forall|j0: int| 0 <= j0 < len implies #[trigger] upper@[j0] == fold_max(
                    se,
                    window_lo(j0, bw),
                    vstd::math::min(i + 1, window_hi(j0, bw, len as int)),
                    se[j0] as int,
                ) by {
                    if !(start <= j0 < end) {
                        if i as int >= window_hi(j0, bw, len as int) {
                            assert(vstd::math::min(i + 1, window_hi(j0, bw, len as int))
                                == vstd::math::min(i as int, window_hi(j0, bw, len as int)));
                        } else {
                            assert(window_lo(j0, bw) > i as int);
                            assert(fold_max(se, window_lo(j0, bw), i + 1, se[j0] as int)
                                == se[j0] as int);
                            assert(fold_max(se, window_lo(j0, bw), i as int, se[j0] as int)
                                == se[j0] as int);
                        }
                    }
                }
            }
            i = i + 1;
        }
        (lower, upper)
    }

    /// Sorts the positions of a sequence by descending sample value, so the
    /// largest contributions are checked first.  The result is a permutation
    /// of the positions: every position appears, and none twice.
    #[verifier::loop_isolation(false)]
    fn ordering(events: &Vec<i32>) -> (res: Vec<usize>)
        ensures
            res@.len() == events@.len(),
            forall|k: int| 0 <= k < res@.len() ==> #[trigger] res@[k] < events@.len(),
            forall|a: int, b: int|
                0 <= a < b < res@.len() ==> #[trigger] res@[a] != #[trigger] res@[b],
            forall|a: int, b: int|
                0 <= a <= b < res@.len() ==> events@[#[trigger] res@[a] as int] >= events@[
                    #[trigger] res@[b] as int
                ],
    {
        let len = events.len();
        let mut res: Vec<usize> = Vec::new();
        let mut t: usize = 0;
        while t < len
            invariant
                t <= len,
                res@.len() == t,
                forall|k: int| 0 <= k < res@.len() ==> #[trigger] res@[k] < t,
                forall|a: int, b: int|
                    0 <= a < b < res@.len() ==> #[trigger] res@[a] != #[trigger] res@[b],
                forall|a: int, b: int|
                    0 <= a <= b < res@.len() ==> events@[#[trigger] res@[a] as int] >= events@[
                        #[trigger] res@[b] as int
                    ],
            decreases len - t,
        {
            let v = events[t];
            let mut pos: usize = res.len();
            while pos > 0 && events[res[pos - 1]] < v
                invariant
                    pos <= res@.len(),
                    forall|b: int|
                        pos <= b < res@.len() ==> events@[#[trigger] res@[b] as int] < v,
                decreases pos,
            {
                pos = pos - 1;
            }
            let ghost oldres = res@;
            res.insert(pos, t);
            proof {
                assert forall|a: int, b: int|
                    0 <= a <= b < res@.len() implies events@[#[trigger] res@[a] as int] >= events@[
                    #[trigger] res@[b] as int
                ] by {
                    if a < pos && b < pos {
                        assert(res@[a] == oldres[a] && res@[b] == oldres[b]);
                    } else if a < pos && b == pos {
                        assert(res@[a] == oldres[a]);
                    } else if a < pos && b > pos {
                        assert(res@[a] == oldres[a] && res@[b] == oldres[b - 1]);
                    } else if a == pos && b > pos {
                        assert(res@[b] == oldres[b - 1]);
                    } else if a > pos && b > pos {
                        assert(res@[a] == oldres[a - 1] && res@[b] == oldres[b - 1]);
                    }
                }
                assert forall|k: int| 0 <= k < res@.len() implies #[trigger] res@[k] < t + 1 by {
                    if k < pos {
                        assert(res@[k] == oldres[k]);
                    } else if k > pos {
                        assert(res@[k] == oldres[k - 1]);
                    }
                }
                assert forall|a: int, b: int|
                    0 <= a < b < res@.len() implies #[trigger] res@[a] != #[trigger] res@[b] by {
                    if a < pos && b < pos {
                        assert(res@[a] == oldres[a] && res@[b] == oldres[b]);
                    } else if a < pos && b == pos {
                        assert(res@[a] == oldres[a] && oldres[a] < t);
                    } else if a < pos && b > pos {
                        assert(res@[a] == oldres[a] && res@[b] == oldres[b - 1]);
                    } else if a == pos && b > pos {
                        assert(res@[b] == oldres[b - 1] && oldres[b - 1] < t);
                    } else if a > pos && b > pos {
                        assert(res@[a] == oldres[a - 1] && res@[b] == oldres[b - 1]);
                    }
                }
            }
            t = t + 1;
        }
        res
    }

    /// Builds a searcher over a fixed reference: precomputes the envelopes
    /// and the visiting order once, so many queries can reuse them.
    pub fn new(reference: Vec<i32>, dist: D, bandwidth: usize) -> (res: DynamicTimeWarping<D>)
        requires
            reference@.len() >= 1,
            reference@.len() + bandwidth <= usize::MAX,
        ensures
            res.wf(),
            res.reference == reference,
            res.bandwidth == bandwidth,
            forall|a: int, b: int|
                0 <= a < b < res.lowerbound_check_order@.len()
                    ==> #[trigger] res.lowerbound_check_order@[a]
                    != #[trigger] res.lowerbound_check_order@[b],
            forall|a: int, b: int|
                0 <= a <= b < res.lowerbound_check_order@.len() ==> reference@[
                    #[trigger] res.lowerbound_check_order@[a] as int
                ] >= reference@[#[trigger] res.lowerbound_check_order@[b] as int],
    {
        let (lower_envelope, upper_envelope) = Self::envelope(&reference, bandwidth);
        let lowerbound_check_order = Self::ordering(&reference);
        DynamicTimeWarping {
            reference,
            dist,
            lower_envelope,
            upper_envelope,
            bandwidth,
            lowerbound_check_order,
        }
    }

    /// Accumulates the envelope lower bound in the visiting order, stopping
    /// as soon as it already exceeds the best known score.  The result is an
    /// exact prefix of the full bound; only a bound that exceeds the best
    /// known score may be partial.  For a monotone distance the accumulated
    /// value never exceeds the window's banded score, whichever way round
    /// the envelope was taken ([`lemma_lb_keogh_row_sound`],
    /// [`lemma_lb_keogh_pos_sound`]), which is what makes pruning on it
    /// lossless.
    #[verifier::loop_isolation(false)]
    fn lowerbound_keogh(
        &self,
        events: &[i32],
        lower: &[i32],
        upper: &[i32],
        order: &Vec<usize>,
        best_so_far: u64,
    ) -> (lb: u64)
        requires
            events@.len() == lower@.len(),
            events@.len() == upper@.len(),
            forall|k: int| 0 <= k < order@.len() ==> #[trigger] order@[k] < events@.len(),
        ensures
            exists|t: int|
                0 <= t <= order@.len() && lb == #[trigger] lb_keogh::<D>(
                    events@,
                    lower@,
                    upper@,
                    order@,
                    t,
                ) && (t < order@.len() ==> lb > best_so_far),
    {
        let mut lb: u64 = 0;
        let mut t: usize = 0;
        while t < order.len()
            invariant
                t <= order@.len(),
                lb == lb_keogh::<D>(events@, lower@, upper@, order@, t as int),
            decreases order@.len() - t,
        {
            if lb > best_so_far {
                proof {
                    assert(lb == lb_keogh::<D>(events@, lower@, upper@, order@, t as int) && (
                    t < order@.len() ==> lb > best_so_far));
                }
                return lb;
            }
            let i = order[t];
            let step_cost: u64 = if events[i] < lower[i] {
                self.dist.dist(events[i], lower[i])
            } else if events[i] > upper[i] {
                self.dist.dist(events[i], upper[i])
            } else {
                0
            };
            lb = sat_add_u(lb, step_cost);
            t = t + 1;
        }
        lb
    }

    /// Turns a full envelope bound into per-entry remainders: entry `i` is
    /// the bound minus the contributions of the first `i + 1` entries,
    /// clamped at zero.
    #[verifier::loop_isolation(false)]
    fn cumulative_lower_bound(
        &self,
        events: &[i32],
        lower: &[i32],
        upper: &[i32],
        lower_bound: u64,
    ) -> (clb: Vec<u64>)
        requires
            events@.len() == lower@.len(),
            events@.len() == upper@.len(),
        ensures
            clb@.len() == events@.len(),
            forall|k: int|
                0 <= k < events@.len() ==> #[trigger] clb@[k] == sat_of(
                    lower_bound - lb_step_sum::<D>(events@, lower@, upper@, 0, k + 1),
                ),
    {
        let mut clb: Vec<u64> = Vec::new();
        let mut lb = lower_bound;
        let mut i: usize = 0;
        while i < events.len()
            invariant
                i <= events@.len(),
                clb@.len() == i,
                lb == sat_of(lower_bound - lb_step_sum::<D>(events@, lower@, upper@, 0, i as int)),
                forall|k: int|
                    0 <= k < i ==> #[trigger] clb@[k] == sat_of(
                        lower_bound - lb_step_sum::<D>(events@, lower@, upper@, 0, k + 1),
                    ),
            decreases events@.len() - i,
        {
            proof {
                lemma_sum_nonneg::<D>(events@, lower@, upper@, 0, i as int);
            }
            let step_cost: u64 = if events[i] < lower[i] {
                self.dist.dist(events[i], lower[i])
            } else if events[i] > upper[i] {
                self.dist.dist(events[i], upper[i])
            } else {
                0
            };
            lb = if lb >= step_cost {
                lb - step_cost
            } else {
                0
            };
            clb.push(lb);
            i = i + 1;
        }
        clb
    }

    /// The banded alignment of the query against one window, abandoning a
    /// row as soon as its best cell plus the remaining lower bound exceeds
    /// the best known score.  Whatever comes back is either that window's
    /// exact banded score or a value that exceeds the best known score;
    /// and when the remainders soundly undercount what each row still
    /// owes, an abandoned window's exact score also exceeds the best known
    /// score, so abandoning it loses nothing.  Only the score is computed;
    /// the abandonment-count diagnostics some callers keep alongside it
    /// are no concern of the alignment itself.
    #[verifier::loop_isolation(false)]
    pub fn chiba_dtw_with_lower_bound(
        &self,
        query: &[i32],
        subref: &[i32],
        cumulative_lower_bound: &Vec<u64>,
        best_so_far: Cost,
    ) -> (res: Cost)
        requires
            query@.len() == subref@.len(),
            query@.len() >= 1,
            cumulative_lower_bound@.len() >= query@.len(),
            query@.len() + 2 * self.bandwidth + 1 <= usize::MAX,
        ensures
            res == ucr_score::<D>(query@, subref@, self.bandwidth as int) || cost_lt(
                best_so_far,
                res,
            ),
            remainders_ok::<D>(
                query@,
                subref@,
                self.bandwidth as int,
                cumulative_lower_bound@,
            ) ==> res == ucr_score::<D>(query@, subref@, self.bandwidth as int) || (cost_lt(
                best_so_far,
                res,
            ) && cost_lt(best_so_far, ucr_score::<D>(query@, subref@, self.bandwidth as int))),
    {
        let len = query.len();
        let band = self.bandwidth;
        let ghost q = query@;
        let ghost sr = subref@;
        let ghost bw = band as int;
        let width = 2 * band + 1;
        let mut previous: Vec<Cost> = vec![Cost::Inf; width];
        previous.set(band, Cost::Fin(0));
        let mut current: Vec<Cost> = vec![Cost::Inf; width];
        let mut i: usize = 1;
        while i <= len
            invariant
                1 <= i <= len + 1,
                previous@.len() == width,
                current@.len() == width,
                forall|j0: int|
                    0 <= j0 < width ==> #[trigger] previous@[j0] == ucell::<D>(q, sr, bw, i - 1, j0),
                forall|j0: int| 0 <= j0 < width ==> #[trigger] current@[j0] == Cost::Inf,
            decreases len + 1 - i,
        {
            let mut score = Cost::Inf;
            let mut j: usize = 0;
            while j < width
                invariant
                    1 <= i <= len,
                    0 <= j <= width,
                    previous@.len() == width,
                    current@.len() == width,
                    score == row_min_upto::<D>(q, sr, bw, i as int, j as int),
                    forall|j0: int|
                        0 <= j0 < width ==> #[trigger] previous@[j0] == ucell::<D>(
                            q,
                            sr,
                            bw,
                            i - 1,
                            j0,
                        ),
                    forall|j0: int|
                        0 <= j0 < j ==> #[trigger] current@[j0] == ucell::<D>(q, sr, bw, i as int, j0),
                    forall|j0: int| j <= j0 < width ==> #[trigger] current@[j0] == Cost::Inf,
                decreases width - j,
            {
                if i + j <= band || len + band <= i + j - 1 {
                    proof {
                        assert(ucell::<D>(q, sr, bw, i as int, j as int) == Cost::Inf);
                    }
                } else {
                    let gap = if j == 0 {
                        Cost::Inf
                    } else {
                        current[j - 1]
                    };
                    let del = if j == 2 * band {
                        Cost::Inf
                    } else {
                        previous[j + 1]
                    };
                    let mat = previous[j];
                    let m3 = gap.min(&del.min(&mat));
                    let d = self.dist.dist(query[i - 1], subref[i + j - band - 1]);
                    let v = m3.add(d);
                    current.set(j, v);
                    if v.lt(&score) {
                        score = v;
                    }
                    proof {
                        assert(gap == ucell::<D>(q, sr, bw, i as int, j - 1));
                        assert(del == ucell::<D>(q, sr, bw, i - 1, j + 1));
                        assert(mat == ucell::<D>(q, sr, bw, i - 1, j as int));
                        assert(d == D::d(q[i - 1], sr[i + j - bw - 1]));
                        assert(ucell::<D>(q, sr, bw, i as int, j as int) == cost_add(
                            cost_min3(gap, del, mat),
                            d,
                        ));
                        assert(current@[j as int] == ucell::<D>(q, sr, bw, i as int, j as int));
                    }
                }
                j = j + 1;
            }
            let bound = match score {
                Cost::Fin(s) => Cost::Fin(sat_add_u(s, cumulative_lower_bound[i - 1])),
                Cost::Inf => Cost::Inf,
            };
            if best_so_far.lt(&bound) {
                // Early abandonment: the row's best plus the remaining lower
                // bound already exceeds the best known score.  Against sound
                // remainders that makes the exact score exceed it as well.
                proof {
                    assert(score == row_min::<D>(q, sr, bw, i as int));
                    assert(bound == cost_add(score, cumulative_lower_bound@[i - 1]));
                    if remainders_ok::<D>(q, sr, bw, cumulative_lower_bound@) {
                        assert(cost_le(
                            cost_add(row_min::<D>(q, sr, bw, i as int), cumulative_lower_bound@[i
                                - 1]),
                            ucr_score::<D>(q, sr, bw),
                        ));
                    }
                }
                return bound;
            }
            let mut k: usize = 0;
            while k < width
                invariant
                    0 <= k <= width,
                    1 <= i <= len,
                    previous@.len() == width,
                    current@.len() == width,
                    forall|j0: int|
                        k <= j0 < width ==> #[trigger] current@[j0] == ucell::<D>(
                            q,
                            sr,
                            bw,
                            i as int,
                            j0,
                        ),
                    forall|j0: int|
                        0 <= j0 < k ==> #[trigger] previous@[j0] == ucell::<D>(q, sr, bw, i as int, j0),
                    forall|j0: int| 0 <= j0 < k ==> #[trigger] current@[j0] == Cost::Inf,
                decreases width - k,
            {
                let c = current[k];
                previous.set(k, c);
                current.set(k, Cost::Inf);
                k = k + 1;
            }
            i = i + 1;
        }
        previous[band]
    }

    /// Pushes each remainder `bandwidth` entries on: entry `k` of the
    /// result is entry `k + bandwidth` of the input, clamped to the last
    /// entry.  Remainders built against the query's envelope are indexed
    /// by window position, and a row can match positions up to the band
    /// half-width ahead of its own index, so only the remainder that many
    /// positions on is still wholly owed when the row is left.
    #[verifier::loop_isolation(false)]
    fn shift_remainders(clb: &Vec<u64>, bandwidth: usize) -> (res: Vec<u64>)
        requires
            clb@.len() >= 1,
            clb@.len() + bandwidth <= usize::MAX,
        ensures
            res@.len() == clb@.len(),
            forall|k: int|
                0 <= k < clb@.len() ==> #[trigger] res@[k] == clb@[if k + bandwidth < clb@.len() {
                    k + bandwidth
                } else {
                    clb@.len() - 1
                }],
    {
        let n = clb.len();
        let mut res: Vec<u64> = Vec::new();
        let mut k: usize = 0;
        while k < n
            invariant
                k <= n,
                res@.len() == k,
                forall|k0: int|
                    0 <= k0 < k ==> #[trigger] res@[k0] == clb@[if k0 + bandwidth < n {
                        k0 + bandwidth
                    } else {
                        n - 1
                    }],
            decreases n - k,
        {
            let idx = if k + bandwidth < n {
                k + bandwidth
            } else {
                n - 1
            };
            res.push(clb[idx]);
            k = k + 1;
        }
        res
    }

    /// Slides the query over every window of the reference, pruning windows
    /// whose envelope lower bound already exceeds the best score seen, and
    /// returns the best confirmed score with the window position where it
    /// was found.  Any finite result is the exact banded score of the query
    /// against the window at the reported position; and for a distance that
    /// never shrinks as a pair widens, neither the envelope pruning nor the
    /// per-row abandonment ever discards a window that could do better, so
    /// the result is the least banded score over every window, found at the
    /// first position attaining it.
    #[verifier::loop_isolation(false)]
    #[verifier::rlimit(100)]
    pub fn dtw(&self, query: &Vec<i32>) -> (res: (Cost, usize))
        requires
            self.wf(),
            1 <= query@.len(),
            query@.len() + 2 * self.bandwidth + 1 <= usize::MAX,
        ensures
            res.0 is Fin <==> query@.len() <= self.reference@.len(),
            query@.len() > self.reference@.len() ==> res == (Cost::Inf, 0usize),
            res.0 is Fin ==> {
                &&& res.1 + query@.len() <= self.reference@.len()
                &&& res.0 == ucr_score::<D>(
                    query@,
                    self.reference@.subrange(res.1 as int, res.1 + query@.len()),
                    self.bandwidth as int,
                )
            },
            dist_monotone::<D>() ==> forall|p: int|
                #![trigger ucr_score::<D>(query@, self.reference@.subrange(p, p + query@.len()), self.bandwidth as int)]
                0 <= p && p + query@.len() <= self.reference@.len() ==> cost_le(
                    res.0,
                    ucr_score::<D>(
                        query@,
                        self.reference@.subrange(p, p + query@.len()),
                        self.bandwidth as int,
                    ),
                ),
            dist_monotone::<D>() ==> forall|p: int|
                #![trigger ucr_score::<D>(query@, self.reference@.subrange(p, p + query@.len()), self.bandwidth as int)]
                0 <= p < res.1 ==> cost_lt(
                    res.0,
                    ucr_score::<D>(
                        query@,
                        self.reference@.subrange(p, p + query@.len()),
                        self.bandwidth as int,
                    ),
                ),
    {
        if query.len() > self.reference.len() {
            // A query longer than the reference fits no window: there is no
            // finite best, and the search never starts.
            return (Cost::Inf, 0);
        }
        let mut best_so_far = Cost::Inf;
        let mut best_position: usize = 0;
        let len = query.len();
        let (query_lower_env, query_upper_env) = Self::envelope(query, self.bandwidth);
        let query_compare_ordering = Self::ordering(query);
        proof {
            lemma_env_bounds_slice(
                query@,
                self.bandwidth as int,
                query_lower_env@,
                query_upper_env@,
                0,
                len as int,
            );
            assert(query@.subrange(0, len as int) =~= query@);
            assert(query_lower_env@.subrange(0, len as int) =~= query_lower_env@);
            assert(query_upper_env@.subrange(0, len as int) =~= query_upper_env@);
        }
        let windows = self.reference.len() - len;
        let mut pos: usize = 0;
        while pos <= windows
            invariant
                pos <= windows + 1,
                windows == self.reference@.len() - len,
                len == query@.len(),
                query_lower_env@.len() == len,
                query_upper_env@.len() == len,
                query_compare_ordering@.len() == len,
                forall|k: int|
                    0 <= k < query_compare_ordering@.len()
                        ==> #[trigger] query_compare_ordering@[k] < len,
                forall|a: int, b: int|
                    0 <= a < b < query_compare_ordering@.len()
                        ==> #[trigger] query_compare_ordering@[a]
                        != #[trigger] query_compare_ordering@[b],
                env_bounds(query@, query_lower_env@, query_upper_env@, self.bandwidth as int),
                pos >= 1 ==> best_so_far is Fin,
                best_so_far is Fin ==> {
                    &&& best_position + len <= self.reference@.len()
                    &&& best_so_far == ucr_score::<D>(
                        query@,
                        self.reference@.subrange(best_position as int, best_position + len),
                        self.bandwidth as int,
                    )
                },
                dist_monotone::<D>() ==> forall|p: int|
                    #![trigger self.reference@.subrange(p, p + len as int)]
                    0 <= p < pos ==> cost_le(
                        best_so_far,
                        ucr_score::<D>(
                            query@,
                            self.reference@.subrange(p, p + len as int),
                            self.bandwidth as int,
                        ),
                    ),
                dist_monotone::<D>() ==> forall|p: int|
                    #![trigger self.reference@.subrange(p, p + len as int)]
                    0 <= p < best_position ==> cost_lt(
                        best_so_far,
                        ucr_score::<D>(
                            query@,
                            self.reference@.subrange(p, p + len as int),
                            self.bandwidth as int,
                        ),
                    ),
            decreases windows + 1 - pos,
        {
            let ghost bw = self.bandwidth as int;
            let subref = &self.reference.as_slice()[pos..pos + len];
            proof {
                assert(subref@ == self.reference@.subrange(pos as int, pos + len));
                lemma_env_bounds_slice(
                    self.reference@,
                    bw,
                    self.lower_envelope@,
                    self.upper_envelope@,
                    pos as int,
                    len as int,
                );
            }
            let threshold: u64 = match best_so_far {
                Cost::Fin(v) => v,
                Cost::Inf => u64::MAX,
            };
            let lb_query = self.lowerbound_keogh(
                subref,
                query_lower_env.as_slice(),
                query_upper_env.as_slice(),
                &query_compare_ordering,
                threshold,
            );
            if best_so_far.is_fin() && lb_query > threshold {
                proof {
                    if dist_monotone::<D>() {
                        let t = choose|t: int|
                            0 <= t <= query_compare_ordering@.len() && lb_query == lb_keogh::<D>(
                                subref@,
                                query_lower_env@,
                                query_upper_env@,
                                query_compare_ordering@,
                                t,
                            ) && (t < query_compare_ordering@.len() ==> lb_query > threshold);
                        lemma_lb_keogh_pos_sound::<D>(
                            query@,
                            subref@,
                            query_lower_env@,
                            query_upper_env@,
                            query_compare_ordering@,
                            bw,
                            t,
                        );
                        assert forall|p: int|
                            #![trigger self.reference@.subrange(p, p + len as int)]
                            0 <= p < pos + 1 implies cost_le(
                            best_so_far,
                            ucr_score::<D>(
                                query@,
                                self.reference@.subrange(p, p + len as int),
                                bw,
                            ),
                        ) by {
                            if p == pos as int {
                                assert(self.reference@.subrange(p, p + len as int) == subref@);
                            }
                        }
                    }
                }
                pos = pos + 1;
                continue ;
            }
            let ref_lower = &self.lower_envelope.as_slice()[pos..pos + len];
            let ref_upper = &self.upper_envelope.as_slice()[pos..pos + len];
            proof {
                assert(ref_lower@ == self.lower_envelope@.subrange(pos as int, pos + len));
                assert(ref_upper@ == self.upper_envelope@.subrange(pos as int, pos + len));
            }
            let lb_ref = self.lowerbound_keogh(
                query.as_slice(),
                ref_lower,
                ref_upper,
                &query_compare_ordering,
                threshold,
            );
            if best_so_far.is_fin() && lb_ref > threshold {
                proof {
                    if dist_monotone::<D>() {
                        let t = choose|t: int|
                            0 <= t <= query_compare_ordering@.len() && lb_ref == lb_keogh::<D>(
                                query@,
                                ref_lower@,
                                ref_upper@,
                                query_compare_ordering@,
                                t,
                            ) && (t < query_compare_ordering@.len() ==> lb_ref > threshold);
                        lemma_lb_keogh_row_sound::<D>(
                            query@,
                            subref@,
                            ref_lower@,
                            ref_upper@,
                            query_compare_ordering@,
                            bw,
                            t,
                        );
                        assert forall|p: int|
                            #![trigger self.reference@.subrange(p, p + len as int)]
                            0 <= p < pos + 1 implies cost_le(
                            best_so_far,
                            ucr_score::<D>(
                                query@,
                                self.reference@.subrange(p, p + len as int),
                                bw,
                            ),
                        ) by {
                            if p == pos as int {
                                assert(self.reference@.subrange(p, p + len as int) == subref@);
                            }
                        }
                    }
                }
                pos = pos + 1;
                continue ;
            }
            let cumulative_lb: Vec<u64>;
            if lb_ref < lb_query {
                let raw = self.cumulative_lower_bound(
                    subref,
                    query_lower_env.as_slice(),
                    query_upper_env.as_slice(),
                    lb_query,
                );
                // These remainders are indexed by window position, and a row
                // can match positions up to the band half-width ahead of its
                // own index, so the remainder charged after a row is the one
                // that many positions further on.
                let shifted = Self::shift_remainders(&raw, self.bandwidth);
                proof {
                    if dist_monotone::<D>() {
                        let t = choose|t: int|
                            0 <= t <= query_compare_ordering@.len() && lb_query == lb_keogh::<D>(
                                subref@,
                                query_lower_env@,
                                query_upper_env@,
                                query_compare_ordering@,
                                t,
                            ) && (t < query_compare_ordering@.len() ==> lb_query > threshold);
                        assert(t == len as int);
                        lemma_lb_keogh_val::<D>(
                            subref@,
                            query_lower_env@,
                            query_upper_env@,
                            query_compare_ordering@,
                            t,
                        );
                        lemma_order_sum_le::<D>(
                            subref@,
                            query_lower_env@,
                            query_upper_env@,
                            query_compare_ordering@,
                            t,
                            len as int,
                        );
                        lemma_remainders_positions::<D>(
                            query@,
                            subref@,
                            query_lower_env@,
                            query_upper_env@,
                            bw,
                            raw@,
                            shifted@,
                            lb_query,
                        );
                    }
                }
                cumulative_lb = shifted;
            } else {
                let raw = self.cumulative_lower_bound(
                    query.as_slice(),
                    ref_lower,
                    ref_upper,
                    lb_ref,
                );
                proof {
                    if dist_monotone::<D>() {
                        let t = choose|t: int|
                            0 <= t <= query_compare_ordering@.len() && lb_ref == lb_keogh::<D>(
                                query@,
                                ref_lower@,
                                ref_upper@,
                                query_compare_ordering@,
                                t,
                            ) && (t < query_compare_ordering@.len() ==> lb_ref > threshold);
                        assert(t == len as int);
                        lemma_lb_keogh_val::<D>(query@, ref_lower@, ref_upper@, query_compare_ordering@, t);
                        lemma_order_sum_le::<D>(
                            query@,
                            ref_lower@,
                            ref_upper@,
                            query_compare_ordering@,
                            t,
                            len as int,
                        );
                        lemma_remainders_rows::<D>(
                            query@,
                            subref@,
                            ref_lower@,
                            ref_upper@,
                            bw,
                            raw@,
                            lb_ref,
                        );
                    }
                }
                cumulative_lb = raw;
            }
            assert(dist_monotone::<D>() ==> remainders_ok::<D>(query@, subref@, bw, cumulative_lb@));
            let score = self.chiba_dtw_with_lower_bound(
                query.as_slice(),
                subref,
                &cumulative_lb,
                best_so_far,
            );
            proof {
                if !(best_so_far is Fin) {
                    lemma_ucell_diag_fin::<D>(
                        query@,
                        subref@,
                        self.bandwidth as int,
                        query@.len() as int,
                    );
                }
            }
            if score.lt(&best_so_far) {
                proof {
                    if dist_monotone::<D>() {
                        assert(score == ucr_score::<D>(query@, subref@, bw));
                        assert forall|p: int|
                            #![trigger self.reference@.subrange(p, p + len as int)]
                            0 <= p < pos + 1 implies cost_le(
                            score,
                            ucr_score::<D>(
                                query@,
                                self.reference@.subrange(p, p + len as int),
                                bw,
                            ),
                        ) by {
                            if p == pos as int {
                                assert(self.reference@.subrange(p, p + len as int) == subref@);
                            }
                        }
                        assert forall|p: int|
                            #![trigger self.reference@.subrange(p, p + len as int)]
                            0 <= p < pos as int implies cost_lt(
                            score,
                            ucr_score::<D>(
                                query@,
                                self.reference@.subrange(p, p + len as int),
                                bw,
                            ),
                        ) by {}
                    }
                }
                best_so_far = score;
                best_position = pos;
            } else {
                proof {
                    if dist_monotone::<D>() {
                        assert forall|p: int|
                            #![trigger self.reference@.subrange(p, p + len as int)]
                            0 <= p < pos + 1 implies cost_le(
                            best_so_far,
                            ucr_score::<D>(
                                query@,
                                self.reference@.subrange(p, p + len as int),
                                bw,
                            ),
                        ) by {
                            if p == pos as int {
                                assert(self.reference@.subrange(p, p + len as int) == subref@);
                            }
                        }
                    }
                }
            }
            pos = pos + 1;
        }
        (best_so_far, best_position)
    }
}

} // verus!
