//! Laws relating the alignment engines to each other.
//!
//! Each proof function states a property of the library as a whole: symmetry
//! of the global score, the behaviour of aligning a sequence against itself,
//! non-negativity of every score, and the agreement of the early-abandoning
//! threshold search with the exact subsequence score whenever the threshold
//! is generous enough.

use vstd::prelude::*;

use crate::cost::{cost_add, cost_le, cost_lt, cost_min3, Cost, Dist};
use crate::dtw::{bt_next, bt_path, dp_cell, full_score, row_argmin, row_min, sub_score};
use crate::scoutingdtw::scouting_result;
use crate::thresholddtw::{
    min2u, min3u, sat_add, th_cell, th_row_exceeds, th_row_min, th_score, UNREACHED,
};

verus! {

/// Transposing the table swaps the roles of query and reference.
proof fn lemma_dp_transpose<D: Dist>(q: Seq<i32>, r: Seq<i32>, i: int, j: int)
    requires
        forall|a: i32, b: i32| #[trigger] D::d(a, b) == D::d(b, a),
    ensures
        dp_cell::<D>(q, r, false, i, j) == dp_cell::<D>(r, q, false, j, i),
    decreases vstd::math::max(i + j, 0),
{
    if i >= 1 && j >= 1 {
        lemma_dp_transpose::<D>(q, r, i, j - 1);
        lemma_dp_transpose::<D>(q, r, i - 1, j);
        lemma_dp_transpose::<D>(q, r, i - 1, j - 1);
    }
}

/// Law: under a symmetric distance, the full-mode score of `(q, r)` equals
/// the full-mode score of `(r, q)`.
pub proof fn lemma_full_score_symmetric<D: Dist>(q: Seq<i32>, r: Seq<i32>)
    requires
        forall|a: i32, b: i32| #[trigger] D::d(a, b) == D::d(b, a),
    ensures
        full_score::<D>(q, r) == full_score::<D>(r, q),
{
    if q.len() >= 0 && r.len() >= 0 {
        lemma_dp_transpose::<D>(q, r, q.len() as int, r.len() as int);
    }
}

/// Every diagonal cell of a self-alignment is reachable for nothing.
proof fn lemma_diag_zero<D: Dist>(s: Seq<i32>, i: int)
    requires
        forall|a: i32| #[trigger] D::d(a, a) == 0,
        0 <= i <= s.len(),
    ensures
        dp_cell::<D>(s, s, false, i, i) == Cost::Fin(0u64),
    decreases i,
{
    if i > 0 {
        lemma_diag_zero::<D>(s, i - 1);
        assert(D::d(s[i - 1], s[i - 1]) == 0);
        assert(cost_le(Cost::Fin(0u64), dp_cell::<D>(s, s, false, i, i - 1)));
        assert(cost_le(Cost::Fin(0u64), dp_cell::<D>(s, s, false, i - 1, i)));
        assert(cost_min3(
            dp_cell::<D>(s, s, false, i, i - 1),
            dp_cell::<D>(s, s, false, i - 1, i),
            dp_cell::<D>(s, s, false, i - 1, i - 1),
        ) == Cost::Fin(0u64));
    }
}

/// Law: aligning a sequence against itself under full mode with a distance
/// that is zero on equal samples yields score zero.
pub proof fn lemma_identity_score<D: Dist>(s: Seq<i32>)
    requires
        forall|a: i32| #[trigger] D::d(a, a) == 0,
    ensures
        full_score::<D>(s, s) == Cost::Fin(0u64),
{
    lemma_diag_zero::<D>(s, s.len() as int);
}

/// Law: aligning a sequence against itself under full mode with a distance
/// that is zero on equal samples yields the strictly diagonal path: the
/// diagonal predecessor costs nothing, and ties prefer the diagonal.
pub proof fn lemma_identity_path<D: Dist>(s: Seq<i32>, i: int)
    requires
        forall|a: i32| #[trigger] D::d(a, a) == 0,
        0 <= i <= s.len(),
    ensures
        bt_path::<D>(s, s, false, i, i) =~= Seq::new(i as nat, |k: int| (k, k)),
    decreases i,
{
    if i > 0 {
        lemma_diag_zero::<D>(s, i - 1);
        assert(cost_le(Cost::Fin(0u64), dp_cell::<D>(s, s, false, i, i - 1)));
        assert(cost_le(Cost::Fin(0u64), dp_cell::<D>(s, s, false, i - 1, i)));
        assert(bt_next::<D>(s, s, false, i, i) == (i - 1, i - 1));
        lemma_identity_path::<D>(s, i - 1);
        assert(bt_path::<D>(s, s, false, i, i) =~= Seq::new((i - 1) as nat, |k: int| (k, k)).push(
            (i - 1, i - 1),
        ));
    }
}

/// Law: every backtracked path is a well-formed warping path.  It is empty
/// exactly for an empty query; otherwise it begins at query index zero, ends
/// at the cell backtracking started from, and both coordinates are
/// non-decreasing, advancing by at most one step at a time and never
/// standing still.
pub proof fn lemma_path_monotone<D: Dist>(q: Seq<i32>, r: Seq<i32>, sub: bool, i: int, j: int)
    requires
        0 <= i,
        0 <= j,
        i >= 1 ==> dp_cell::<D>(q, r, sub, i, j) is Fin,
    ensures
        ({
            let p = bt_path::<D>(q, r, sub, i, j);
            &&& (p.len() == 0 <==> i == 0)
            &&& i >= 1 ==> p[p.len() - 1] == (i - 1, j - 1)
            &&& i >= 1 ==> p[0].0 == 0
            &&& forall|k: int|
                1 <= k < p.len() ==> {
                    &&& p[k - 1].0 <= #[trigger] p[k].0 <= p[k - 1].0 + 1
                    &&& p[k - 1].1 <= p[k].1 <= p[k - 1].1 + 1
                    &&& p[k].0 + p[k].1 >= p[k - 1].0 + p[k - 1].1 + 1
                }
        }),
    decreases i + j,
{
    if i >= 1 {
        if j == 0 {
            assert(dp_cell::<D>(q, r, sub, i, 0) == Cost::Inf);
        }
        let gap = dp_cell::<D>(q, r, sub, i, j - 1);
        let del = dp_cell::<D>(q, r, sub, i - 1, j);
        let mat = dp_cell::<D>(q, r, sub, i - 1, j - 1);
        // The cell is reachable, so the predecessor the walk picks is too.
        assert(dp_cell::<D>(q, r, sub, i, j) == cost_add(
            cost_min3(gap, del, mat),
            D::d(q[i - 1], r[j - 1]),
        ));
        let (ni, nj) = bt_next::<D>(q, r, sub, i, j);
        assert(ni >= 1 ==> dp_cell::<D>(q, r, sub, ni, nj) is Fin);
        if ni >= 1 && nj == 0 {
            assert(dp_cell::<D>(q, r, sub, ni, 0) == Cost::Inf);
        }
        lemma_path_monotone::<D>(q, r, sub, ni, nj);
        let tail = bt_path::<D>(q, r, sub, ni, nj);
        let p = bt_path::<D>(q, r, sub, i, j);
        assert(p == tail.push((i - 1, j - 1)));
        assert forall|k: int| 1 <= k < p.len() implies {
            &&& p[k - 1].0 <= #[trigger] p[k].0 <= p[k - 1].0 + 1
            &&& p[k - 1].1 <= p[k].1 <= p[k - 1].1 + 1
            &&& p[k].0 + p[k].1 >= p[k - 1].0 + p[k - 1].1 + 1
        } by {
            if k < tail.len() {
                assert(p[k] == tail[k] && p[k - 1] == tail[k - 1]);
            } else {
                assert(p[k] == (i - 1, j - 1));
                assert(p[k - 1] == tail[tail.len() - 1]);
            }
        }
    }
}

/// Law: every score is non-negative.  The distance type is unsigned, so
/// costs only accumulate upwards from the zero at the origin: any table
/// cell, and hence any returned score, is at least the zero cost.
pub proof fn lemma_score_nonnegative<D: Dist>(q: Seq<i32>, r: Seq<i32>, sub: bool, i: int, j: int)
    ensures
        cost_le(Cost::Fin(0u64), dp_cell::<D>(q, r, sub, i, j)),
        th_cell::<D>(q, r, i, j) >= 0,
{
}

/// Adding a distance never shrinks a cost.
proof fn lemma_cost_add_grows(x: Cost, d: u64)
    ensures
        cost_le(x, cost_add(x, d)),
{
}

/// A sentinel-table cell agrees with the exact table: finite exact cells
/// below the sentinel carry over verbatim, unreachable cells stay at or
/// above the sentinel.
proof fn lemma_th_cell_matches<D: Dist>(q: Seq<i32>, r: Seq<i32>, i: int, j: int)
    requires
        forall|i0: int, j0: int|
            1 <= i0 <= q.len() && 1 <= j0 <= r.len() ==> cost_lt(
                #[trigger] dp_cell::<D>(q, r, true, i0, j0),
                Cost::Fin(UNREACHED),
            ),
        0 <= i <= q.len(),
        0 <= j <= r.len(),
    ensures
        dp_cell::<D>(q, r, true, i, j) matches Cost::Fin(v) ==> th_cell::<D>(q, r, i, j) == v,
        dp_cell::<D>(q, r, true, i, j) is Inf ==> th_cell::<D>(q, r, i, j) >= UNREACHED,
    decreases i + j,
{
    if i == 0 {
        assert(dp_cell::<D>(q, r, true, 0, j) == Cost::Fin(0u64));
        assert(th_cell::<D>(q, r, 0, j) == 0);
    } else if j == 0 {
        assert(dp_cell::<D>(q, r, true, i, 0) == Cost::Inf);
        assert(th_cell::<D>(q, r, i, 0) == UNREACHED);
    } else {
        lemma_th_cell_matches::<D>(q, r, i, j - 1);
        lemma_th_cell_matches::<D>(q, r, i - 1, j);
        lemma_th_cell_matches::<D>(q, r, i - 1, j - 1);
        let left = dp_cell::<D>(q, r, true, i, j - 1);
        let up = dp_cell::<D>(q, r, true, i - 1, j);
        let diag = dp_cell::<D>(q, r, true, i - 1, j - 1);
        let d = D::d(q[i - 1], r[j - 1]);
        assert(dp_cell::<D>(q, r, true, i, j) == cost_add(cost_min3(left, up, diag), d));
        assert(th_cell::<D>(q, r, i, j) == sat_add(
            min3u(
                th_cell::<D>(q, r, i - 1, j),
                th_cell::<D>(q, r, i - 1, j - 1),
                th_cell::<D>(q, r, i, j - 1),
            ),
            d,
        ));
        if cost_min3(left, up, diag) is Inf {
            assert(left is Inf && up is Inf && diag is Inf);
        } else {
            // The minimal predecessor is finite and below the sentinel, so
            // both recurrences add the same distance to the same value.
            if left is Fin && 1 <= j - 1 {
                assert(cost_lt(left, Cost::Fin(UNREACHED)));
            }
            if up is Fin && 1 <= i - 1 {
                assert(cost_lt(up, Cost::Fin(UNREACHED)));
            }
            if diag is Fin && 1 <= i - 1 && 1 <= j - 1 {
                assert(cost_lt(diag, Cost::Fin(UNREACHED)));
            }
        }
    }
}

/// The sentinel-table row minimum agrees with the exact row minimum below
/// the sentinel.
proof fn lemma_th_row_min_matches<D: Dist>(q: Seq<i32>, r: Seq<i32>, i: int, upto: int)
    requires
        forall|i0: int, j0: int|
            1 <= i0 <= q.len() && 1 <= j0 <= r.len() ==> cost_lt(
                #[trigger] dp_cell::<D>(q, r, true, i0, j0),
                Cost::Fin(UNREACHED),
            ),
        1 <= i <= q.len(),
        0 <= upto <= r.len() + 1,
    ensures
        row_min::<D>(q, r, true, i, upto) matches Cost::Fin(v) ==> v < UNREACHED && th_row_min::<
            D,
        >(q, r, i, upto) == v,
        row_min::<D>(q, r, true, i, upto) is Inf ==> th_row_min::<D>(q, r, i, upto) >= UNREACHED,
    decreases upto,
{
    if upto == 1 {
        assert(dp_cell::<D>(q, r, true, i, 0) == Cost::Inf);
        assert(row_min::<D>(q, r, true, i, 1) == Cost::Inf);
    } else if upto > 1 {
        lemma_th_row_min_matches::<D>(q, r, i, upto - 1);
        lemma_th_cell_matches::<D>(q, r, i, upto - 1);
        let c = dp_cell::<D>(q, r, true, i, upto - 1);
        if c is Fin {
            assert(cost_lt(c, Cost::Fin(UNREACHED)));
        }
    }
}

/// Each row's minimum never shrinks from one query row to the next: a cell
/// of the lower row sits on top of some cell of the upper row, and costs
/// only accumulate.
proof fn lemma_row_min_mono_cell<D: Dist>(q: Seq<i32>, r: Seq<i32>, i: int, j: int)
    requires
        0 <= i,
        0 <= j <= r.len(),
    ensures
        cost_le(row_min::<D>(q, r, true, i, r.len() as int + 1), dp_cell::<D>(q, r, true, i + 1, j)),
    decreases j,
{
    let rm = row_min::<D>(q, r, true, i, r.len() as int + 1);
    if j == 0 {
        assert(dp_cell::<D>(q, r, true, i + 1, 0) == Cost::Inf);
    } else {
        lemma_row_min_mono_cell::<D>(q, r, i, j - 1);
        crate::dtw::lemma_row_min_le::<D>(q, r, true, i, r.len() as int + 1, j);
        crate::dtw::lemma_row_min_le::<D>(q, r, true, i, r.len() as int + 1, j - 1);
        let left = dp_cell::<D>(q, r, true, i + 1, j - 1);
        let up = dp_cell::<D>(q, r, true, i, j);
        let diag = dp_cell::<D>(q, r, true, i, j - 1);
        let m3 = cost_min3(left, up, diag);
        assert(cost_le(rm, m3));
        lemma_cost_add_grows(m3, D::d(q[i + 1 - 1], r[j - 1]));
    }
}

/// Row minima are monotone in the row index.
proof fn lemma_row_min_mono<D: Dist>(q: Seq<i32>, r: Seq<i32>, i1: int, i2: int)
    requires
        0 <= i1 <= i2,
        1 <= r.len(),
    ensures
        cost_le(
            row_min::<D>(q, r, true, i1, r.len() as int + 1),
            row_min::<D>(q, r, true, i2, r.len() as int + 1),
        ),
    decreases i2 - i1,
{
    if i1 < i2 {
        lemma_row_min_mono::<D>(q, r, i1, i2 - 1);
        crate::dtw::lemma_row_argmin::<D>(q, r, true, i2, r.len() as int + 1);
        let j2 = row_argmin::<D>(q, r, true, i2, r.len() as int + 1);
        lemma_row_min_mono_cell::<D>(q, r, i2 - 1, j2);
    }
}

/// Law: whenever the threshold is at least the exact subsequence score and
/// every reachable cell stays below the large finite sentinel, the
/// early-abandoning search abandons no row and its score equals the exact
/// subsequence score.
pub proof fn lemma_threshold_equivalence<D: Dist>(q: Seq<i32>, r: Seq<i32>, threshold: u64)
    requires
        1 <= q.len(),
        1 <= r.len(),
        forall|i0: int, j0: int|
            1 <= i0 <= q.len() && 1 <= j0 <= r.len() ==> cost_lt(
                #[trigger] dp_cell::<D>(q, r, true, i0, j0),
                Cost::Fin(UNREACHED),
            ),
        cost_le(sub_score::<D>(q, r), Cost::Fin(threshold)),
    ensures
        Cost::Fin(th_score::<D>(q, r)) == sub_score::<D>(q, r),
        th_score::<D>(q, r) < UNREACHED,
        forall|i: int| 1 <= i <= q.len() ==> !th_row_exceeds::<D>(q, r, threshold, i),
{
    let m = q.len() as int;
    let n = r.len() as int;
    crate::dtw::lemma_dp_fin::<D>(q, r, true, m, 1);
    crate::dtw::lemma_row_min_le::<D>(q, r, true, m, n + 1, 1);
    assert(sub_score::<D>(q, r) is Fin);
    lemma_th_row_min_matches::<D>(q, r, m, n + 1);
    assert(Cost::Fin(th_score::<D>(q, r)) == sub_score::<D>(q, r));

    assert forall|i: int| 1 <= i <= m implies !th_row_exceeds::<D>(q, r, threshold, i) by {
        lemma_row_min_mono::<D>(q, r, i, m);
        let rmi = row_min::<D>(q, r, true, i, n + 1);
        assert(cost_le(rmi, sub_score::<D>(q, r)));
        assert(rmi matches Cost::Fin(v) && v <= threshold);
        crate::dtw::lemma_row_argmin::<D>(q, r, true, i, n + 1);
        let ji = row_argmin::<D>(q, r, true, i, n + 1);
        if ji == 0 {
            assert(dp_cell::<D>(q, r, true, i, 0) == Cost::Inf);
            assert(false);
        }
        lemma_th_cell_matches::<D>(q, r, i, ji);
        assert(th_cell::<D>(q, r, i, ji) <= threshold);
        assert(!(th_cell::<D>(q, r, i, ji) > threshold));
    }
}

/// The row minimum of the rolled table bounds every real cell of its row.
proof fn lemma_th_row_min_le_cell<D: Dist>(q: Seq<i32>, r: Seq<i32>, i: int, upto: int, j: int)
    requires
        1 <= j < upto,
    ensures
        th_row_min::<D>(q, r, i, upto) <= th_cell::<D>(q, r, i, j),
    decreases upto,
{
    if j < upto - 1 {
        lemma_th_row_min_le_cell::<D>(q, r, i, upto - 1, j);
    }
}

/// Every cell of the rolled table over a window dominates the matching
/// cell of the table over the whole reference, clamped at the sentinel:
/// an alignment confined to the window is also an alignment over the
/// whole reference, and what lies beyond the window's left edge costs the
/// window at least the sentinel.
proof fn lemma_th_cell_window<D: Dist>(q: Seq<i32>, r: Seq<i32>, s: int, e: int, i: int, j: int)
    requires
        0 <= s <= e <= r.len(),
        0 <= i,
        0 <= j <= e - s,
    ensures
        th_cell::<D>(q, r.subrange(s, e), i, j) >= min2u(
            th_cell::<D>(q, r, i, s + j),
            UNREACHED,
        ),
    decreases i + j,
{
    let w = r.subrange(s, e);
    if i <= 0 {
    } else if j <= 0 {
    } else {
        lemma_th_cell_window::<D>(q, r, s, e, i - 1, j);
        lemma_th_cell_window::<D>(q, r, s, e, i - 1, j - 1);
        lemma_th_cell_window::<D>(q, r, s, e, i, j - 1);
        assert(w[j - 1] == r[s + j - 1]);
    }
}

/// The window's last-row minimum dominates the whole-reference score,
/// clamped at the sentinel.
proof fn lemma_th_window_row_min<D: Dist>(q: Seq<i32>, r: Seq<i32>, s: int, e: int, upto: int)
    requires
        0 <= s <= e <= r.len(),
        1 <= upto <= e - s + 1,
    ensures
        th_row_min::<D>(q, r.subrange(s, e), q.len() as int, upto) >= min2u(
            th_row_min::<D>(q, r, q.len() as int, r.len() as int + 1),
            UNREACHED,
        ),
    decreases upto,
{
    let m = q.len() as int;
    if upto > 1 {
        lemma_th_window_row_min::<D>(q, r, s, e, upto - 1);
        lemma_th_cell_window::<D>(q, r, s, e, m, upto - 1);
        lemma_th_row_min_le_cell::<D>(q, r, m, r.len() as int + 1, s + upto - 1);
    }
}

/// Law: a window never beats the whole.  The rolled-table score of the
/// query against any window of the reference is at least the score
/// against the reference itself, clamped at the sentinel: every alignment
/// confined to a window is also an alignment over the whole reference.
pub proof fn lemma_window_never_beats_whole<D: Dist>(q: Seq<i32>, r: Seq<i32>, s: int, e: int)
    requires
        0 <= s <= e <= r.len(),
    ensures
        th_score::<D>(q, r.subrange(s, e)) >= min2u(th_score::<D>(q, r), UNREACHED),
{
    assert(r.subrange(s, e).len() == e - s);
    lemma_th_window_row_min::<D>(q, r, s, e, e - s + 1);
}

/// Law: the scouting search never reports better than the whole.  Every
/// outcome it confirms is a window's rolled-table score, so any outcome
/// below the sentinel is bounded below by the whole-reference score —
/// which is the exact subsequence score whenever the table stays below
/// the sentinel (see [`lemma_threshold_equivalence`]).
pub proof fn lemma_scouting_never_beats_whole<D: Dist>(
    q: Seq<i32>,
    r: Seq<i32>,
    score: u64,
    p1: Seq<usize>,
    p2: Seq<usize>,
    start: int,
)
    requires
        scouting_result::<D>(q, r, score, p1, p2, start),
        score < UNREACHED,
    ensures
        score >= th_score::<D>(q, r),
{
    let (s, e) = choose|s: int, e: int|
        0 <= s < e <= r.len() && score == th_score::<D>(q, #[trigger] r.subrange(s, e));
    lemma_window_never_beats_whole::<D>(q, r, s, e);
}

} // verus!
