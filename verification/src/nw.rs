//! A Needleman-Wunsch style alignment in dynamic-time-warping vocabulary.
//!
//! The recurrence matches the unrestricted table except that a constant,
//! caller-supplied gap penalty is added on every insertion or deletion step.
//! Two rolling row buffers keep memory linear in the query length, and no
//! alignment path is reconstructed: only the score is returned.

use vstd::prelude::*;

use crate::cost::{cost_add, cost_min, cost_min3, Cost, Dist};
use crate::errors::DtwError;

verus! {

/// The accumulated cost of aligning the first `i` query samples against
/// reference samples ending at position `j`, with gap penalty `gap` on each
/// insertion or deletion.  An empty query prefix costs nothing at every
/// reference position, so the alignment may start anywhere in the reference.
pub open spec fn nw_cell<D: Dist>(q: Seq<i32>, r: Seq<i32>, gap: u64, j: int, i: int) -> Cost
    decreases i + j,
{
    if i <= 0 {
        Cost::Fin(0)
    } else if j <= 0 {
        Cost::Inf
    } else {
        cost_min3(
            cost_add(nw_cell::<D>(q, r, gap, j - 1, i), gap),
            cost_add(nw_cell::<D>(q, r, gap, j - 1, i - 1), D::d(q[i - 1], r[j - 1])),
            cost_add(nw_cell::<D>(q, r, gap, j, i - 1), gap),
        )
    }
}

/// The minimum of the whole-query cells over reference positions `1 .. upto`.
pub open spec fn nw_best<D: Dist>(q: Seq<i32>, r: Seq<i32>, gap: u64, upto: int) -> Cost
    decreases upto,
{
    if upto <= 1 {
        Cost::Inf
    } else {
        cost_min(
            nw_best::<D>(q, r, gap, upto - 1),
            nw_cell::<D>(q, r, gap, upto - 1, q.len() as int),
        )
    }
}

/// The score of the gap-penalty alignment: the best whole-query cell over
/// all reference positions.
pub open spec fn nw_score<D: Dist>(q: Seq<i32>, r: Seq<i32>, gap: u64) -> Cost {
    nw_best::<D>(q, r, gap, r.len() as int + 1)
}

/// Every whole-column cell with a positive reference position is reachable.
proof fn lemma_nw_fin<D: Dist>(q: Seq<i32>, r: Seq<i32>, gap: u64, j: int, i: int)
    requires
        1 <= j,
        0 <= i,
    ensures
        nw_cell::<D>(q, r, gap, j, i) is Fin,
    decreases i,
{
    if i > 0 {
        lemma_nw_fin::<D>(q, r, gap, j, i - 1);
    }
}

/// Needleman-Wunsch alignment with a constant gap penalty.  Returns the best
/// whole-query score over all reference positions, an empty path, and start
/// offset zero.
#[verifier::loop_isolation(false)]
pub fn needleman_dtw<D: Dist>(x1: &[i32], x2: &[i32], dist: &D, gap: u64) -> (res: Result<
    (Cost, (Vec<usize>, Vec<usize>), usize),
    DtwError,
>)
    requires
        x1@.len() < usize::MAX,
        x2@.len() < usize::MAX,
    ensures
        res is Ok <==> x1@.len() >= 1 && x2@.len() >= 1,
        res matches Err(e) ==> e == DtwError::InvalidInput,
        res matches Ok((score, paths, start)) ==> {
            &&& score == nw_score::<D>(x1@, x2@, gap)
            &&& score is Fin
            &&& paths.0@.len() == 0
            &&& paths.1@.len() == 0
            &&& start == 0
        },
{
    let x1len = x1.len();
    let x2len = x2.len();
    if x1len == 0 || x2len == 0 {
        return Err(DtwError::InvalidInput);
    }
    let ghost q = x1@;
    let ghost r = x2@;
    let mut previous: Vec<Cost> = vec![Cost::Inf; x1len + 1];
    previous.set(0, Cost::Fin(0));
    let mut current: Vec<Cost> = vec![Cost::Inf; x1len + 1];
    current.set(0, Cost::Fin(0));
    let mut opt = Cost::Inf;
    proof {
        assert(nw_best::<D>(q, r, gap, 1) == Cost::Inf);
    }
    let mut j: usize = 1;
    while j <= x2len
        invariant
            1 <= j <= x2len + 1,
            previous@.len() == x1len + 1,
            current@.len() == x1len + 1,
            forall|i0: int|
                0 <= i0 <= x1len ==> #[trigger] previous@[i0] == nw_cell::<D>(q, r, gap, j - 1, i0),
            current@[0] == Cost::Fin(0u64),
            opt == nw_best::<D>(q, r, gap, j as int),
        decreases x2len + 1 - j,
    {
        let mut i: usize = 1;
        while i <= x1len
            invariant
                1 <= j <= x2len,
                1 <= i <= x1len + 1,
                previous@.len() == x1len + 1,
                current@.len() == x1len + 1,
                forall|i0: int|
                    0 <= i0 <= x1len ==> #[trigger] previous@[i0] == nw_cell::<D>(
                        q,
                        r,
                        gap,
                        j - 1,
                        i0,
                    ),
                forall|i0: int|
                    0 <= i0 < i ==> #[trigger] current@[i0] == nw_cell::<D>(q, r, gap, j as int, i0),
            decreases x1len + 1 - i,
        {
            let cost = dist.dist(x1[i - 1], x2[j - 1]);
            let left = previous[i].add(gap);
            let diag = previous[i - 1].add(cost);
            let up = current[i - 1].add(gap);
            current.set(i, left.min(&diag.min(&up)));
            i = i + 1;
        }
        let tail = current[x1len];
        if tail.lt(&opt) {
            opt = tail;
        }
        proof {
            assert(nw_best::<D>(q, r, gap, j + 1) == cost_min(
                nw_best::<D>(q, r, gap, j as int),
                nw_cell::<D>(q, r, gap, j as int, x1len as int),
            ));
        }
        let mut k: usize = 0;
        while k <= x1len
            invariant
                0 <= k <= x1len + 1,
                1 <= j <= x2len,
                previous@.len() == x1len + 1,
                current@.len() == x1len + 1,
                forall|i0: int|
                    0 <= i0 <= x1len ==> #[trigger] current@[i0] == nw_cell::<D>(q, r, gap, j as int, i0),
                forall|i0: int|
                    0 <= i0 < k ==> #[trigger] previous@[i0] == nw_cell::<D>(q, r, gap, j as int, i0),
            decreases x1len + 1 - k,
        {
            let c = current[k];
            previous.set(k, c);
            k = k + 1;
        }
        current.set(0, Cost::Fin(0));
        j = j + 1;
    }
    proof {
        lemma_nw_fin::<D>(q, r, gap, x2len as int, x1len as int);
        assert(opt == nw_score::<D>(q, r, gap));
    }
    Ok((opt, (Vec::new(), Vec::new()), 0))
}

} // verus!
