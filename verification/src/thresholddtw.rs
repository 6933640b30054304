//! Subsequence dynamic time warping with early abandonment.
//!
//! The table is rolled into two alternating row buffers.  Unreached cells
//! hold a very large *finite* sentinel rather than true infinity, because the
//! recurrence keeps adding to them; finite accumulation saturates at
//! `u64::MAX`.  As soon as every cell of a query row strictly exceeds the
//! caller's threshold the search is abandoned: costs are non-negative, so
//! later rows can only accumulate further.

use vstd::prelude::*;

use crate::cost::Dist;
use crate::errors::DtwError;

verus! {

/// The large finite sentinel that fills cells no alignment has reached yet.
/// It is finite on purpose: downstream arithmetic needs a number, not true
/// infinity.
pub const UNREACHED: u64 = 0x4000_0000_0000_0000;

/// `a + b` saturating at `u64::MAX`.
pub open spec fn sat_add(a: u64, b: u64) -> u64 {
    if a + b > u64::MAX {
        u64::MAX
    } else {
        (a + b) as u64
    }
}

/// The smaller of two plain costs.
pub open spec fn min2u(a: u64, b: u64) -> u64 {
    if a <= b {
        a
    } else {
        b
    }
}

/// The smallest of three plain costs.
pub open spec fn min3u(a: u64, b: u64, c: u64) -> u64 {
    min2u(a, min2u(b, c))
}

/// The rolled-table cell for query prefix `i` at reference position `j`:
/// row zero is free everywhere (a match may start at any reference
/// position), later rows start from the sentinel, and every step adds the
/// pointwise distance, saturating.
pub open spec fn th_cell<D: Dist>(q: Seq<i32>, r: Seq<i32>, i: int, j: int) -> u64
    decreases i + j,
{
    if i <= 0 {
        0
    } else if j <= 0 {
        UNREACHED
    } else {
        sat_add(
            min3u(
                th_cell::<D>(q, r, i - 1, j),
                th_cell::<D>(q, r, i - 1, j - 1),
                th_cell::<D>(q, r, i, j - 1),
            ),
            D::d(q[i - 1], r[j - 1]),
        )
    }
}

/// Whether every cell of query row `i` strictly exceeds the threshold.
pub open spec fn th_row_exceeds<D: Dist>(q: Seq<i32>, r: Seq<i32>, thr: u64, i: int) -> bool {
    forall|j: int| 1 <= j <= r.len() ==> th_cell::<D>(q, r, i, j) > thr
}

/// The minimum of row `i` over the real reference columns `1 .. upto`;
/// column zero is the sentinel boundary and takes no part in a score.
pub open spec fn th_row_min<D: Dist>(q: Seq<i32>, r: Seq<i32>, i: int, upto: int) -> u64
    decreases upto,
{
    if upto <= 1 {
        u64::MAX
    } else {
        min2u(th_row_min::<D>(q, r, i, upto - 1), th_cell::<D>(q, r, i, upto - 1))
    }
}

/// The score of the threshold search when no row is abandoned: the minimum
/// of the last query row.
pub open spec fn th_score<D: Dist>(q: Seq<i32>, r: Seq<i32>) -> u64 {
    th_row_min::<D>(q, r, q.len() as int, r.len() as int + 1)
}

/// `a + b` saturating at `u64::MAX`.
pub(crate) fn sat_add_u(a: u64, b: u64) -> (r: u64)
    ensures
        r == sat_add(a, b),
{
    if a > u64::MAX - b {
        u64::MAX
    } else {
        a + b
    }
}

/// Subsequence dynamic time warping that abandons the search as soon as a
/// whole query row strictly exceeds `threshold`.  On success returns the
/// minimum of the last row over the real reference columns, an empty path,
/// and start offset zero; on abandonment the error carries the first
/// abandoned row and the total number of query rows.  A final minimum at or
/// above the sentinel cannot be told apart from an unreached cell, so it is
/// reported as abandonment at the last row rather than let the sentinel
/// leak into a returned score.
#[verifier::loop_isolation(false)]
pub fn thresholddtw<D: Dist>(x1: &[i32], x2: &[i32], dist: &D, threshold: u64) -> (res: Result<
    (u64, (Vec<usize>, Vec<usize>), usize),
    DtwError,
>)
    requires
        x1@.len() < usize::MAX,
        x2@.len() < usize::MAX,
    ensures
        (x1@.len() == 0 || x2@.len() == 0) <==> res == Err::<
            (u64, (Vec<usize>, Vec<usize>), usize),
            DtwError,
        >(DtwError::InvalidInput),
        res matches Ok((score, paths, start)) ==> {
            &&& score == th_score::<D>(x1@, x2@)
            &&& score < UNREACHED
            &&& forall|i: int|
                1 <= i <= x1@.len() ==> !th_row_exceeds::<D>(x1@, x2@, threshold, i)
            &&& paths.0@.len() == 0
            &&& paths.1@.len() == 0
            &&& start == 0
        },
        x1@.len() >= 1 && x2@.len() >= 1 && (forall|i: int|
            1 <= i <= x1@.len() ==> !th_row_exceeds::<D>(x1@, x2@, threshold, i)) && th_score::<D>(
            x1@,
            x2@,
        ) < UNREACHED ==> res is Ok,
        res matches Err(e) ==> e == DtwError::InvalidInput || e matches DtwError::EarlyAbandoned(_, _),
        res matches Err(DtwError::EarlyAbandoned(i, t)) ==> {
            &&& 1 <= i <= x1@.len()
            &&& t == x1@.len()
            &&& (th_row_exceeds::<D>(x1@, x2@, threshold, i as int) && (forall|i0: int|
                1 <= i0 < i ==> !th_row_exceeds::<D>(x1@, x2@, threshold, i0)) || (i == x1@.len()
                && th_score::<D>(x1@, x2@) >= UNREACHED && (forall|i0: int|
                1 <= i0 <= x1@.len() ==> !th_row_exceeds::<D>(x1@, x2@, threshold, i0))))
        },
{
    let x1len = x1.len();
    let x2len = x2.len();
    if x1len == 0 || x2len == 0 {
        return Err(DtwError::InvalidInput);
    }
    let ghost q = x1@;
    let ghost r = x2@;
    let mut previous: Vec<u64> = vec![0u64; x2len + 1];
    let mut current: Vec<u64> = vec![UNREACHED; x2len + 1];
    let mut i: usize = 1;
    while i <= x1len
        invariant
            1 <= i <= x1len + 1,
            previous@.len() == x2len + 1,
            current@.len() == x2len + 1,
            forall|j0: int| 0 <= j0 <= x2len ==> #[trigger] previous@[j0] == th_cell::<D>(q, r, i - 1, j0),
            current@[0] == UNREACHED,
            forall|i0: int| 1 <= i0 < i ==> !th_row_exceeds::<D>(q, r, threshold, i0),
        decreases x1len + 1 - i,
    {
        let mut early: bool = true;
        let mut j: usize = 1;
        while j <= x2len
            invariant
                1 <= i <= x1len,
                1 <= j <= x2len + 1,
                previous@.len() == x2len + 1,
                current@.len() == x2len + 1,
                forall|j0: int|
                    0 <= j0 <= x2len ==> #[trigger] previous@[j0] == th_cell::<D>(q, r, i - 1, j0),
                current@[0] == UNREACHED,
                forall|j0: int|
                    1 <= j0 < j ==> #[trigger] current@[j0] == th_cell::<D>(q, r, i as int, j0),
                early <==> (forall|j0: int|
                    1 <= j0 < j ==> #[trigger] th_cell::<D>(q, r, i as int, j0) > threshold),
            decreases x2len + 1 - j,
        {
            let cost = dist.dist(x1[i - 1], x2[j - 1]);
            let up = previous[j];
            let diag = previous[j - 1];
            let left = current[j - 1];
            let m2 = if diag <= left {
                diag
            } else {
                left
            };
            let m3 = if up <= m2 {
                up
            } else {
                m2
            };
            let v = sat_add_u(m3, cost);
            current.set(j, v);
            proof {
                assert(th_cell::<D>(q, r, i as int, 0) == UNREACHED);
                assert(th_cell::<D>(q, r, i as int, j as int) == sat_add(
                    min3u(
                        th_cell::<D>(q, r, i - 1, j as int),
                        th_cell::<D>(q, r, i - 1, j - 1),
                        th_cell::<D>(q, r, i as int, j - 1),
                    ),
                    D::d(q[i - 1], r[j - 1]),
                ));
                assert(current@[j as int] == th_cell::<D>(q, r, i as int, j as int));
            }
            early = (v > threshold) && early;
            j = j + 1;
        }
        if early {
            proof {
                assert(th_row_exceeds::<D>(q, r, threshold, i as int));
            }
            return Err(DtwError::EarlyAbandoned(i, x1len));
        }
        let mut k: usize = 0;
        while k <= x2len
            invariant
                0 <= k <= x2len + 1,
                1 <= i <= x1len,
                previous@.len() == x2len + 1,
                current@.len() == x2len + 1,
                forall|j0: int|
                    k <= j0 <= x2len && j0 >= 1 ==> #[trigger] current@[j0] == th_cell::<D>(
                        q,
                        r,
                        i as int,
                        j0,
                    ),
                k == 0 ==> current@[0] == UNREACHED,
                k >= 1 ==> current@[0] == UNREACHED,
                forall|j0: int| 0 <= j0 < k ==> #[trigger] previous@[j0] == th_cell::<D>(q, r, i as int, j0),
            decreases x2len + 1 - k,
        {
            proof {
                if k == 0 {
                    assert(th_cell::<D>(q, r, i as int, 0) == UNREACHED);
                }
            }
            let c = current[k];
            previous.set(k, c);
            current.set(k, UNREACHED);
            k = k + 1;
        }
        i = i + 1;
    }
    let mut acc: u64 = u64::MAX;
    let mut k: usize = 1;
    while k <= x2len
        invariant
            1 <= k <= x2len + 1,
            previous@.len() == x2len + 1,
            forall|j0: int| 0 <= j0 <= x2len ==> #[trigger] previous@[j0] == th_cell::<D>(q, r, x1len as int, j0),
            acc == th_row_min::<D>(q, r, x1len as int, k as int),
        decreases x2len + 1 - k,
    {
        let c = previous[k];
        if c < acc {
            acc = c;
        }
        k = k + 1;
    }
    if acc >= UNREACHED {
        // The minimum is at sentinel magnitude: never let it leak out.
        return Err(DtwError::EarlyAbandoned(x1len, x1len));
    }
    Ok((acc, (Vec::new(), Vec::new()), 0))
}

} // verus!
