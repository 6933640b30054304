//! Row-buffered subsequence dynamic time warping.
//!
//! The table is rolled into two alternating row buffers, one reference
//! position at a time, so memory stays linear in the query length.  The
//! computed cells coincide with the unrestricted subsequence table, so the
//! returned score equals the exact subsequence score; no alignment path is
//! reconstructed.

use vstd::prelude::*;

use crate::cost::{Cost, Dist};
use crate::dtw::{dp_cell, row_min, sub_score};
use crate::errors::DtwError;

verus! {

/// Subsequence dynamic time warping with two rolling buffers.  Returns the
/// exact subsequence score, an empty path, and start offset zero.
#[verifier::loop_isolation(false)]
pub fn quickdtw<D: Dist>(x1: &[i32], x2: &[i32], dist: &D) -> (res: Result<
    (Cost, (Vec<usize>, Vec<usize>), usize),
    DtwError,
>)
    requires
        x1@.len() < usize::MAX,
        x2@.len() < usize::MAX,
    ensures
        res is Ok <==> x1@.len() >= 1 && x2@.len() >= 1,
        res matches Err(e) ==> e == DtwError::InvalidInput,
        res matches Ok((score, paths, start)) ==> {
            &&& score == sub_score::<D>(x1@, x2@)
            &&& paths.0@.len() == 0
            &&& paths.1@.len() == 0
            &&& start == 0
        },
{
    let x1len = x1.len();
    let x2len = x2.len();
    if x1len == 0 || x2len == 0 {
        return Err(DtwError::InvalidInput);
    }
    let ghost q = x1@;
    let ghost r = x2@;

    // `previous` holds the column for reference position `j - 1`, `current`
    // the one being filled; entry `i` is the table cell for query prefix `i`.
    let mut previous: Vec<Cost> = vec![Cost::Inf; x1len + 1];
    previous.set(0, Cost::Fin(0));
    let mut current: Vec<Cost> = vec![Cost::Inf; x1len + 1];
    current.set(0, Cost::Fin(0));
    let mut opt = Cost::Inf;
    proof {
        assert(row_min::<D>(q, r, true, x1len as int, 0) == Cost::Inf);
        assert(dp_cell::<D>(q, r, true, x1len as int, 0) == Cost::Inf);
        assert(row_min::<D>(q, r, true, x1len as int, 1) == Cost::Inf);
    }
    let mut j: usize = 1;
    while j <= x2len
        invariant
            1 <= j <= x2len + 1,
            previous@.len() == x1len + 1,
            current@.len() == x1len + 1,
            forall|i0: int|
                0 <= i0 <= x1len ==> #[trigger] previous@[i0] == dp_cell::<D>(q, r, true, i0, j - 1),
            current@[0] == Cost::Fin(0u64),
            opt == row_min::<D>(q, r, true, x1len as int, j as int),
        decreases x2len + 1 - j,
    {
        let mut i: usize = 1;
        while i <= x1len
            invariant
                1 <= j <= x2len,
                1 <= i <= x1len + 1,
                previous@.len() == x1len + 1,
                current@.len() == x1len + 1,
                forall|i0: int|
                    0 <= i0 <= x1len ==> #[trigger] previous@[i0] == dp_cell::<D>(
                        q,
                        r,
                        true,
                        i0,
                        j - 1,
                    ),
                forall|i0: int|
                    0 <= i0 < i ==> #[trigger] current@[i0] == dp_cell::<D>(q, r, true, i0, j as int),
            decreases x1len + 1 - i,
        {
            let cost = dist.dist(x1[i - 1], x2[j - 1]);
            let left = previous[i];
            let diag = previous[i - 1];
            let up = current[i - 1];
            let m3 = left.min(&diag.min(&up));
            current.set(i, m3.add(cost));
            proof {
                assert(dp_cell::<D>(q, r, true, 0, j as int) == Cost::Fin(0u64));
            }
            i = i + 1;
        }
        let tail = current[x1len];
        if tail.lt(&opt) {
            opt = tail;
        }
        proof {
            assert(row_min::<D>(q, r, true, x1len as int, j + 1) == crate::cost::cost_min(
                row_min::<D>(q, r, true, x1len as int, j as int),
                dp_cell::<D>(q, r, true, x1len as int, j as int),
            ));
        }
        let mut k: usize = 0;
        while k <= x1len
            invariant
                0 <= k <= x1len + 1,
                1 <= j <= x2len,
                previous@.len() == x1len + 1,
                current@.len() == x1len + 1,
                forall|i0: int|
                    0 <= i0 <= x1len ==> #[trigger] current@[i0] == dp_cell::<D>(q, r, true, i0, j as int),
                forall|i0: int|
                    0 <= i0 < k ==> #[trigger] previous@[i0] == dp_cell::<D>(q, r, true, i0, j as int),
            decreases x1len + 1 - k,
        {
            let c = current[k];
            previous.set(k, c);
            k = k + 1;
        }
        current.set(0, Cost::Fin(0));
        proof {
            assert(dp_cell::<D>(q, r, true, 0, j + 1) == Cost::Fin(0u64));
        }
        j = j + 1;
    }
    proof {
        assert(opt == sub_score::<D>(q, r));
    }
    Ok((opt, (Vec::new(), Vec::new()), 0))
}

} // verus!
