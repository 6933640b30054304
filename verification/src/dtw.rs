//! Exact full and subsequence dynamic time warping, and the mode dispatcher.

use vstd::prelude::*;

use crate::cost::{cost_add, cost_le, cost_min, cost_min3, Cost, Dist, SqDist};
use crate::errors::DtwError;

verus! {

/// Mode specifier used by [`dtw`] to decide the alignment strategy.
#[derive(Debug, Copy, Clone)]
pub enum Mode {
    /// Sakoe-Chiba band with the given band width.
    SakoeChiba(usize),
    /// Itakura band with the given maximal band width (not implemented).
    Itakura(usize),
    /// Subsequence alignment: the match may start anywhere in the reference.
    Sub,
    /// Global alignment anchored at both ends.
    Full,
    /// Coarse-to-fine approximate global alignment with the given radius.
    Fast(usize),
    /// Coarse-to-fine approximate subsequence alignment with the given radius.
    FastSub(usize),
    /// Row-buffered subsequence alignment that only reports the score.
    QuickSub,
    /// Two-phase scouting subsequence search with the given number of scouts
    /// and packs.
    Scouting(usize, usize),
}

impl Mode {
    /// The name of the strategy the mode selects, without its parameters.
    pub fn name(&self) -> (r: String)
        ensures
            *self matches Mode::SakoeChiba(_) ==> r@ == "SakoeChiba"@,
            *self matches Mode::Itakura(_) ==> r@ == "Itakura"@,
            *self is Sub ==> r@ == "Sub"@,
            *self is Full ==> r@ == "Full"@,
            *self matches Mode::Fast(_) ==> r@ == "Fast"@,
            *self matches Mode::FastSub(_) ==> r@ == "FastSub"@,
            *self is QuickSub ==> r@ == "QuickSub"@,
            *self matches Mode::Scouting(_, _) ==> r@ == "Scouting"@,
    {
        match self {
            Mode::SakoeChiba(_) => "SakoeChiba".to_owned(),
            Mode::Itakura(_) => "Itakura".to_owned(),
            Mode::Sub => "Sub".to_owned(),
            Mode::Full => "Full".to_owned(),
            Mode::Fast(_) => "Fast".to_owned(),
            Mode::FastSub(_) => "FastSub".to_owned(),
            Mode::QuickSub => "QuickSub".to_owned(),
            Mode::Scouting(_, _) => "Scouting".to_owned(),
        }
    }
}

/// The accumulated cost of cell `(i, j)` of the alignment table: the minimal
/// cumulative cost of aligning the first `i` query samples against reference
/// samples ending at position `j`.  In full mode only `(0, 0)` of the border
/// is reachable; in subsequence mode every cell of row `0` costs nothing, so
/// a match may start at any reference position.  An unreachable predecessor
/// stays infinite: the pointwise distance is never added to infinity.
pub open spec fn dp_cell<D: Dist>(q: Seq<i32>, r: Seq<i32>, sub: bool, i: int, j: int) -> Cost
    decreases i + j,
{
    if i < 0 || j < 0 {
        Cost::Inf
    } else if i == 0 && j == 0 {
        Cost::Fin(0)
    } else if i == 0 {
        if sub {
            Cost::Fin(0)
        } else {
            Cost::Inf
        }
    } else if j == 0 {
        Cost::Inf
    } else {
        cost_add(
            cost_min3(
                dp_cell::<D>(q, r, sub, i, j - 1),
                dp_cell::<D>(q, r, sub, i - 1, j),
                dp_cell::<D>(q, r, sub, i - 1, j - 1),
            ),
            D::d(q[i - 1], r[j - 1]),
        )
    }
}

/// The score of a full (global) alignment of `q` against `r`.
pub open spec fn full_score<D: Dist>(q: Seq<i32>, r: Seq<i32>) -> Cost {
    dp_cell::<D>(q, r, false, q.len() as int, r.len() as int)
}

/// The minimum of the last table row over columns `0 .. upto`: the best
/// subsequence score among alignments ending before column `upto`.
pub open spec fn row_min<D: Dist>(q: Seq<i32>, r: Seq<i32>, sub: bool, i: int, upto: int) -> Cost
    decreases upto,
{
    if upto <= 0 {
        Cost::Inf
    } else {
        cost_min(row_min::<D>(q, r, sub, i, upto - 1), dp_cell::<D>(q, r, sub, i, upto - 1))
    }
}

/// The first column of row `i` that attains `row_min` over `0 .. upto`.
pub open spec fn row_argmin<D: Dist>(q: Seq<i32>, r: Seq<i32>, sub: bool, i: int, upto: int) -> int
    decreases upto,
{
    if upto <= 1 {
        0
    } else if cost_le(row_min::<D>(q, r, sub, i, upto - 1), dp_cell::<D>(q, r, sub, i, upto - 1)) {
        row_argmin::<D>(q, r, sub, i, upto - 1)
    } else {
        upto - 1
    }
}

/// The score of the best subsequence alignment of `q` inside `r`.
pub open spec fn sub_score<D: Dist>(q: Seq<i32>, r: Seq<i32>) -> Cost {
    row_min::<D>(q, r, true, q.len() as int, r.len() as int + 1)
}

/// The reference column at which the best subsequence alignment ends
/// (ties resolved towards the lowest column).
pub open spec fn sub_end<D: Dist>(q: Seq<i32>, r: Seq<i32>) -> int {
    row_argmin::<D>(q, r, true, q.len() as int, r.len() as int + 1)
}

/// The cell the backtracking walk visits after `(i, j)`: the predecessor
/// with the smallest accumulated cost, ties resolved diagonal first, then
/// the left (reference-gap) step, then the upward step.
pub open spec fn bt_next<D: Dist>(q: Seq<i32>, r: Seq<i32>, sub: bool, i: int, j: int) -> (int, int) {
    let mat = dp_cell::<D>(q, r, sub, i - 1, j - 1);
    let gap = dp_cell::<D>(q, r, sub, i, j - 1);
    let del = dp_cell::<D>(q, r, sub, i - 1, j);
    if cost_le(mat, gap) && cost_le(mat, del) {
        (i - 1, j - 1)
    } else if cost_le(gap, del) {
        (i, j - 1)
    } else {
        (i - 1, j)
    }
}

/// The alignment path recovered by backtracking from cell `(i, j)`, in
/// ascending order; each entry pairs a query index with a reference index.
pub open spec fn bt_path<D: Dist>(q: Seq<i32>, r: Seq<i32>, sub: bool, i: int, j: int) -> Seq<(int, int)>
    decreases i + j when 0 <= j
{
    if i <= 0 {
        Seq::empty()
    } else {
        let (ni, nj) = bt_next::<D>(q, r, sub, i, j);
        bt_path::<D>(q, r, sub, ni, nj).push((i - 1, j - 1))
    }
}

/// Whether the two index vectors spell out exactly the path `path`.
pub open spec fn path_matches(p1: Seq<usize>, p2: Seq<usize>, path: Seq<(int, int)>) -> bool {
    &&& p1.len() == path.len()
    &&& p2.len() == path.len()
    &&& forall|k: int| 0 <= k < path.len() ==> #[trigger] path[k] == (p1[k] as int, p2[k] as int)
}

/// Whether `(score, p1, p2, start)` is exactly the outcome of the
/// unrestricted alignment: the mode's score, the backtracked path, and the
/// reference offset where the alignment starts.
pub open spec fn norestrict_result<D: Dist>(
    q: Seq<i32>,
    r: Seq<i32>,
    sub: bool,
    score: Cost,
    p1: Seq<usize>,
    p2: Seq<usize>,
    start: int,
) -> bool {
    let m = q.len() as int;
    let n = r.len() as int;
    let endj = if sub {
        sub_end::<D>(q, r)
    } else {
        n
    };
    &&& score == if sub {
        sub_score::<D>(q, r)
    } else {
        full_score::<D>(q, r)
    }
    &&& score is Fin
    &&& path_matches(p1, p2, bt_path::<D>(q, r, sub, m, endj))
    &&& start == if sub {
        bt_path::<D>(q, r, sub, m, endj)[0].1
    } else {
        0int
    }
}

/// Every interior cell of the table is reachable, hence finite.
pub proof fn lemma_dp_fin<D: Dist>(q: Seq<i32>, r: Seq<i32>, sub: bool, i: int, j: int)
    requires
        1 <= i <= q.len(),
        1 <= j <= r.len(),
    ensures
        dp_cell::<D>(q, r, sub, i, j) is Fin,
    decreases i + j,
{
    if i == 1 && j == 1 {
        assert(dp_cell::<D>(q, r, sub, 0, 0) == Cost::Fin(0u64));
    } else if i == 1 {
        lemma_dp_fin::<D>(q, r, sub, i, j - 1);
    } else if j == 1 {
        lemma_dp_fin::<D>(q, r, sub, i - 1, j);
    } else {
        lemma_dp_fin::<D>(q, r, sub, i - 1, j - 1);
    }
}

/// The row minimum is no larger than any cell of the scanned range.
pub proof fn lemma_row_min_le<D: Dist>(q: Seq<i32>, r: Seq<i32>, sub: bool, i: int, upto: int, j: int)
    requires
        0 <= j < upto,
    ensures
        cost_le(row_min::<D>(q, r, sub, i, upto), dp_cell::<D>(q, r, sub, i, j)),
    decreases upto,
{
    if j < upto - 1 {
        lemma_row_min_le::<D>(q, r, sub, i, upto - 1, j);
    }
}

/// The first-minimum column attains the row minimum and lies in range.
pub proof fn lemma_row_argmin<D: Dist>(q: Seq<i32>, r: Seq<i32>, sub: bool, i: int, upto: int)
    requires
        1 <= upto,
    ensures
        0 <= row_argmin::<D>(q, r, sub, i, upto) < upto,
        dp_cell::<D>(q, r, sub, i, row_argmin::<D>(q, r, sub, i, upto)) == row_min::<D>(
            q,
            r,
            sub,
            i,
            upto,
        ),
    decreases upto,
{
    if upto > 1 {
        lemma_row_argmin::<D>(q, r, sub, i, upto - 1);
    }
}

/// Reverses a vector of indices.
pub(crate) fn reversed(v: &Vec<usize>) -> (r: Vec<usize>)
    ensures
        r@ == v@.reverse(),
{
    let mut r: Vec<usize> = Vec::new();
    let mut k: usize = v.len();
    while k > 0
        invariant
            k <= v.len(),
            r@.len() == v@.len() - k,
            forall|t: int| 0 <= t < r@.len() ==> r@[t] == v@[v@.len() - 1 - t],
        decreases k,
    {
        k = k - 1;
        r.push(v[k]);
    }
    assert(r@ =~= v@.reverse());
    r
}

/// Whether `t` is the filled alignment table for `q` against `r`.
pub open spec fn table_ok<D: Dist>(q: Seq<i32>, r: Seq<i32>, sub: bool, t: Seq<Vec<Cost>>) -> bool {
    &&& t.len() == q.len() + 1
    &&& forall|i: int| 0 <= i < t.len() ==> #[trigger] t[i]@.len() == r.len() + 1
    &&& forall|i: int, j: int|
        0 <= i <= q.len() && 0 <= j <= r.len() ==> #[trigger] t[i]@[j] == dp_cell::<D>(q, r, sub, i, j)
}

/// Fills the `(m + 1) x (n + 1)` alignment table cell by cell.
#[verifier::loop_isolation(false)]
fn fill_table<D: Dist>(x1: &[i32], x2: &[i32], dist: &D, sub: bool) -> (table: Vec<Vec<Cost>>)
    requires
        1 <= x1@.len() < usize::MAX,
        1 <= x2@.len() < usize::MAX,
    ensures
        table_ok::<D>(x1@, x2@, sub, table@),
{
    let x1len = x1.len();
    let x2len = x2.len();
    let ghost q = x1@;
    let ghost r = x2@;
    let mut table: Vec<Vec<Cost>> = Vec::new();
    let border = if sub {
        Cost::Fin(0)
    } else {
        Cost::Inf
    };
    let mut row0: Vec<Cost> = vec![border; x2len + 1];
    row0.set(0, Cost::Fin(0));
    assert(forall|j: int| 1 <= j <= x2len ==> dp_cell::<D>(q, r, sub, 0, j) == border);
    table.push(row0);
    let mut i: usize = 1;
    while i <= x1len
        invariant
            1 <= i <= x1len + 1,
            table@.len() == i,
            forall|i0: int| 0 <= i0 < i ==> #[trigger] table@[i0]@.len() == x2len + 1,
            forall|i0: int, j0: int|
                0 <= i0 < i && 0 <= j0 <= x2len ==> #[trigger] table@[i0]@[j0] == dp_cell::<D>(
                    q,
                    r,
                    sub,
                    i0,
                    j0,
                ),
        decreases x1len + 1 - i,
    {
        let mut rowi: Vec<Cost> = vec![Cost::Inf; x2len + 1];
        let mut j: usize = 1;
        while j <= x2len
            invariant
                1 <= i <= x1len,
                1 <= j <= x2len + 1,
                table@.len() == i,
                forall|i0: int| 0 <= i0 < i ==> #[trigger] table@[i0]@.len() == x2len + 1,
                forall|i0: int, j0: int|
                    0 <= i0 < i && 0 <= j0 <= x2len ==> #[trigger] table@[i0]@[j0] == dp_cell::<
                        D,
                    >(q, r, sub, i0, j0),
                rowi@.len() == x2len + 1,
                rowi@[0] == Cost::Inf,
                forall|j0: int|
                    0 <= j0 < j ==> #[trigger] rowi@[j0] == dp_cell::<D>(q, r, sub, i as int, j0),
            decreases x2len + 1 - j,
        {
            let cost = dist.dist(x1[i - 1], x2[j - 1]);
            let up = table[i - 1][j];
            let diag = table[i - 1][j - 1];
            let left = rowi[j - 1];
            let m3 = left.min(&up.min(&diag));
            rowi.set(j, m3.add(cost));
            j = j + 1;
        }
        table.push(rowi);
        i = i + 1;
    }
    assert(table_ok::<D>(q, r, sub, table@));
    table
}

/// Scans the last table row for its first minimum.
#[verifier::loop_isolation(false)]
fn last_row_min<D: Dist>(x1: &[i32], x2: &[i32], table: &Vec<Vec<Cost>>, sub: bool) -> (res: (
    Cost,
    usize,
))
    requires
        1 <= x1@.len() < usize::MAX,
        1 <= x2@.len() < usize::MAX,
        table_ok::<D>(x1@, x2@, sub, table@),
    ensures
        res.0 == row_min::<D>(x1@, x2@, sub, x1@.len() as int, x2@.len() as int + 1),
        res.1 as int == row_argmin::<D>(x1@, x2@, sub, x1@.len() as int, x2@.len() as int + 1),
        res.0 is Fin,
        1 <= res.1 <= x2@.len(),
{
    let x1len = x1.len();
    let x2len = x2.len();
    let ghost q = x1@;
    let ghost r = x2@;
    let mut best = Cost::Inf;
    let mut bestj: usize = 0;
    let mut j: usize = 0;
    while j <= x2len
        invariant
            0 <= j <= x2len + 1,
            best == row_min::<D>(q, r, sub, x1len as int, j as int),
            bestj as int == row_argmin::<D>(q, r, sub, x1len as int, j as int),
            bestj <= x2len,
        decreases x2len + 1 - j,
    {
        let c = table[x1len][j];
        if c.lt(&best) {
            best = c;
            bestj = j;
        }
        j = j + 1;
    }
    proof {
        lemma_dp_fin::<D>(q, r, sub, x1len as int, 1);
        lemma_row_min_le::<D>(q, r, sub, x1len as int, x2len as int + 1, 1);
        lemma_row_argmin::<D>(q, r, sub, x1len as int, x2len as int + 1);
        assert(best is Fin);
        if bestj == 0 {
            assert(dp_cell::<D>(q, r, sub, x1len as int, 0) == Cost::Inf);
            assert(false);
        }
    }
    (best, bestj)
}

/// Walks the filled table back from `(m, startj)` and returns the alignment
/// path in ascending order.
#[verifier::loop_isolation(false)]
fn backtrack<D: Dist>(x1: &[i32], x2: &[i32], table: &Vec<Vec<Cost>>, sub: bool, startj: usize) -> (res: (
    Vec<usize>,
    Vec<usize>,
))
    requires
        1 <= x1@.len() < usize::MAX,
        1 <= x2@.len() < usize::MAX,
        table_ok::<D>(x1@, x2@, sub, table@),
        1 <= startj <= x2@.len(),
        dp_cell::<D>(x1@, x2@, sub, x1@.len() as int, startj as int) is Fin,
    ensures
        path_matches(res.0@, res.1@, bt_path::<D>(x1@, x2@, sub, x1@.len() as int, startj as int)),
{
    let x1len = x1.len();
    let x2len = x2.len();
    let ghost q = x1@;
    let ghost r = x2@;
    let mut x1pos: usize = x1len;
    let mut x2pos: usize = startj;
    let mut p1: Vec<usize> = Vec::new();
    let mut p2: Vec<usize> = Vec::new();
    while x1pos > 0
        invariant
            x1pos <= x1len,
            x2pos <= x2len,
            x1pos >= 1 ==> x2pos >= 1 && dp_cell::<D>(q, r, sub, x1pos as int, x2pos as int) is Fin,
            p1@.len() == p2@.len(),
            bt_path::<D>(q, r, sub, x1len as int, startj as int) =~= bt_path::<D>(
                q,
                r,
                sub,
                x1pos as int,
                x2pos as int,
            ) + Seq::new(
                p1@.len(),
                |k: int| (p1@[p1@.len() - 1 - k] as int, p2@[p2@.len() - 1 - k] as int),
            ),
        decreases x1pos + x2pos,
    {
        let ghost oldpos = (x1pos as int, x2pos as int);
        p1.push(x1pos - 1);
        p2.push(x2pos - 1);
        let diag = table[x1pos - 1][x2pos - 1];
        let gap = table[x1pos][x2pos - 1];
        let del = table[x1pos - 1][x2pos];
        proof {
            // The cell the walk stands on is finite, so its smallest
            // predecessor is finite as well.
            assert(dp_cell::<D>(q, r, sub, oldpos.0, oldpos.1) == cost_add(
                cost_min3(gap, del, diag),
                D::d(q[oldpos.0 - 1], r[oldpos.1 - 1]),
            ));
        }
        if diag.le(&gap) && diag.le(&del) {
            proof {
                assert(diag is Fin);
            }
            x1pos = x1pos - 1;
            x2pos = x2pos - 1;
        } else if gap.le(&del) {
            proof {
                assert(gap is Fin);
            }
            x2pos = x2pos - 1;
        } else {
            proof {
                assert(del is Fin);
            }
            x1pos = x1pos - 1;
        }
        proof {
            assert((x1pos as int, x2pos as int) == bt_next::<D>(q, r, sub, oldpos.0, oldpos.1));
            if x1pos >= 1 && x2pos == 0 {
                assert(dp_cell::<D>(q, r, sub, x1pos as int, 0) == Cost::Inf);
                assert(false);
            }
            assert(bt_path::<D>(q, r, sub, oldpos.0, oldpos.1) == bt_path::<D>(
                q,
                r,
                sub,
                x1pos as int,
                x2pos as int,
            ).push((oldpos.0 - 1, oldpos.1 - 1)));
            assert(bt_path::<D>(q, r, sub, x1len as int, startj as int) =~= bt_path::<D>(
                q,
                r,
                sub,
                x1pos as int,
                x2pos as int,
            ) + Seq::new(
                p1@.len(),
                |k: int| (p1@[p1@.len() - 1 - k] as int, p2@[p2@.len() - 1 - k] as int),
            ));
        }
    }
    let rev1 = reversed(&p1);
    let rev2 = reversed(&p2);
    proof {
        assert(bt_path::<D>(q, r, sub, x1pos as int, x2pos as int) =~= Seq::<(int, int)>::empty());
        assert(path_matches(
            rev1@,
            rev2@,
            bt_path::<D>(q, r, sub, x1len as int, startj as int),
        ));
    }
    (rev1, rev2)
}

/// Exact dynamic time warping without a band restriction, in full (global)
/// or subsequence mode.  Returns the score, the alignment path recovered by
/// backtracking, and the reference offset at which the alignment starts.
pub(crate) fn dtw_norestrict<D: Dist>(x1: &[i32], x2: &[i32], dist: &D, sub: bool) -> (res: Result<
    (Cost, (Vec<usize>, Vec<usize>), usize),
    DtwError,
>)
    requires
        x1@.len() < usize::MAX,
        x2@.len() < usize::MAX,
    ensures
        res is Ok <==> x1@.len() >= 1 && x2@.len() >= 1,
        res matches Err(e) ==> e == DtwError::InvalidInput,
        res matches Ok(v) ==> norestrict_result::<D>(x1@, x2@, sub, v.0, v.1.0@, v.1.1@, v.2 as int),
{
    let x1len = x1.len();
    let x2len = x2.len();
    if x1len == 0 || x2len == 0 {
        return Err(DtwError::InvalidInput);
    }
    let ghost q = x1@;
    let ghost r = x2@;
    let table = fill_table::<D>(x1, x2, dist, sub);
    let (score, startj): (Cost, usize) = if sub {
        last_row_min::<D>(x1, x2, &table, sub)
    } else {
        proof {
            lemma_dp_fin::<D>(q, r, sub, x1len as int, x2len as int);
        }
        (table[x1len][x2len], x2len)
    };
    proof {
        if sub {
            lemma_row_argmin::<D>(q, r, sub, x1len as int, x2len as int + 1);
        }
    }
    let (p1, p2) = backtrack::<D>(x1, x2, &table, sub, startj);
    let start = if sub {
        proof {
            assert(bt_path::<D>(q, r, sub, x1len as int, startj as int).len() >= 1);
        }
        p2[0]
    } else {
        0
    };
    Ok((score, (p1, p2), start))
}


/// Dispatches an alignment to the engine the mode selects, after validating
/// the mode-specific preconditions.  Each arm's result is exactly the
/// corresponding engine's result.
pub fn dtw<D: Dist>(x1: &[i32], x2: &[i32], mode: Mode, dist: &D) -> (res: Result<
    (Cost, (Vec<usize>, Vec<usize>), usize),
    DtwError,
>)
    requires
        x1@.len() < usize::MAX,
        x2@.len() < usize::MAX,
        mode matches Mode::SakoeChiba(b) ==> (x1@.len() + 1) * b <= usize::MAX,
        mode matches Mode::Fast(rad) ==> x1@.len() + rad + 2 <= usize::MAX && x2@.len() + rad + 2
            <= usize::MAX && 2 * (x1@.len() + x2@.len()) + 4 <= usize::MAX && (x1@.len() + 1) * (
        x2@.len() + 1) <= usize::MAX,
        mode matches Mode::FastSub(rad) ==> x1@.len() + rad + 2 <= usize::MAX && x2@.len() + rad + 2
            <= usize::MAX && 2 * (x1@.len() + x2@.len()) + 4 <= usize::MAX && (x1@.len() + 1) * (
        x2@.len() + 1) <= usize::MAX,
        mode matches Mode::Scouting(ns, np) ==> np >= 1 && x1@.len() * 3 <= usize::MAX && x2@.len()
            + x1@.len() * 3 / 2 + 1 <= usize::MAX && (x1@.len() == 0 || x2@.len() == 0 || ns
            <= x2@.len()),
    ensures
        mode is Full ==> {
            &&& res is Ok <==> x1@.len() >= 1 && x2@.len() >= 1
            &&& (res matches Ok(v) ==> norestrict_result::<D>(
                x1@,
                x2@,
                false,
                v.0,
                v.1.0@,
                v.1.1@,
                v.2 as int,
            ))
        },
        mode is Sub ==> {
            &&& res is Ok <==> x1@.len() >= 1 && x2@.len() >= 1
            &&& (res matches Ok(v) ==> norestrict_result::<D>(
                x1@,
                x2@,
                true,
                v.0,
                v.1.0@,
                v.1.1@,
                v.2 as int,
            ))
        },
        mode matches Mode::SakoeChiba(b) ==> {
            &&& res is Ok <==> crate::dtw_chiba::band_ok(
                x1@.len() as int,
                x2@.len() as int,
                b as int,
            )
            &&& (res matches Ok(v) ==> crate::dtw_chiba::chiba_result::<D>(
                x1@,
                x2@,
                b as int,
                v.0,
                v.1.0@,
                v.1.1@,
                v.2 as int,
            ))
        },
        mode matches Mode::Itakura(b) ==> {
            &&& res is Ok <==> x1@.len() == x2@.len()
            &&& (res matches Ok(v) ==> v.0 == Cost::Fin(0u64) && v.1.0@.len() == 0 && v.1.1@.len()
                == 0 && v.2 == 0)
        },
        mode is QuickSub ==> {
            &&& res is Ok <==> x1@.len() >= 1 && x2@.len() >= 1
            &&& (res matches Ok(v) ==> v.0 == sub_score::<D>(x1@, x2@) && v.1.0@.len() == 0
                && v.1.1@.len() == 0 && v.2 == 0)
        },
        mode matches Mode::Fast(rad) ==> {
            &&& (res is Ok <==> crate::fastdtw::fast_succeeds::<D>(x1@, x2@, rad as int))
            &&& (res matches Ok(v) ==> crate::fastdtw::win_result::<D>(
                x1@,
                x2@,
                false,
                crate::fastdtw::fast_window::<D>(x1@, x2@, rad as int, false),
                v.0,
                v.1.0@,
                v.1.1@,
                v.2 as int,
            ))
        },
        mode matches Mode::FastSub(rad) ==> res is Ok && (res matches Ok(v)
            ==> crate::fastdtw::win_result::<D>(
            x1@,
            x2@,
            true,
            crate::fastdtw::fast_window::<D>(x1@, x2@, rad as int, true),
            v.0,
            v.1.0@,
            v.1.1@,
            v.2 as int,
        )),
        mode matches Mode::Scouting(ns, np) ==> (res matches Ok(v) ==> v.0 matches Cost::Fin(sc)
            && crate::scoutingdtw::scouting_result::<D>(x1@, x2@, sc, v.1.0@, v.1.1@, v.2 as int)),
{
    match mode {
        Mode::SakoeChiba(n) => crate::dtw_chiba::dtw_chiba::<D>(x1, x2, dist, n),
        Mode::Itakura(n) => {
            if x1.len() != x2.len() {
                Err(DtwError::InvalidInput)
            } else {
                crate::dtw_itakura::dtw_itakura::<D>(x1, x2, dist, n)
            }
        },
        Mode::Full => dtw_norestrict::<D>(x1, x2, dist, false),
        Mode::Sub => dtw_norestrict::<D>(x1, x2, dist, true),
        Mode::Fast(radius) => crate::fastdtw::fast_dtw::<D>(x1, x2, dist, radius, false),
        Mode::FastSub(radius) => crate::fastdtw::fast_dtw::<D>(x1, x2, dist, radius, true),
        Mode::QuickSub => crate::quickdtw::quickdtw::<D>(x1, x2, dist),
        Mode::Scouting(num_scouts, num_packs) => {
            match crate::scoutingdtw::scouting_dtw::<D>(
                x1,
                x2,
                dist,
                Some(num_scouts),
                Some(num_packs),
            ) {
                Ok((score, paths, start)) => Ok((Cost::Fin(score), paths, start)),
                Err(e) => Err(e),
            }
        },
    }
}

/// Global dynamic time warping under the squared-difference distance,
/// returning the score and the alignment path.
pub fn dtw_with_path(x1: &[i32], x2: &[i32]) -> (res: (Cost, (Vec<usize>, Vec<usize>)))
    requires
        1 <= x1@.len() < usize::MAX,
        1 <= x2@.len() < usize::MAX,
    ensures
        norestrict_result::<SqDist>(x1@, x2@, false, res.0, res.1.0@, res.1.1@, 0),
{
    match dtw_norestrict::<SqDist>(x1, x2, &SqDist, false) {
        Ok((score, paths, _)) => (score, paths),
        Err(_) => vstd::pervasive::unreached(),
    }
}

/// The global alignment score under the squared-difference distance.
pub fn normal_dtw(x1: &[i32], x2: &[i32]) -> (res: Cost)
    requires
        1 <= x1@.len() < usize::MAX,
        1 <= x2@.len() < usize::MAX,
    ensures
        res == full_score::<SqDist>(x1@, x2@),
{
    dtw_with_path(x1, x2).0
}

/// Subsequence dynamic time warping under the squared-difference distance,
/// returning the score and the alignment path; `x1` is the query and `x2`
/// the reference.
pub fn subdtw_with_path(x1: &[i32], x2: &[i32]) -> (res: (Cost, (Vec<usize>, Vec<usize>)))
    requires
        1 <= x1@.len() < usize::MAX,
        1 <= x2@.len() < usize::MAX,
    ensures
        res.0 == sub_score::<SqDist>(x1@, x2@),
        path_matches(
            res.1.0@,
            res.1.1@,
            bt_path::<SqDist>(x1@, x2@, true, x1@.len() as int, sub_end::<SqDist>(x1@, x2@)),
        ),
{
    match dtw_norestrict::<SqDist>(x1, x2, &SqDist, true) {
        Ok((score, paths, _)) => (score, paths),
        Err(_) => vstd::pervasive::unreached(),
    }
}

/// The best subsequence alignment score under the squared-difference
/// distance; `x1` is the query and `x2` the reference.
pub fn subdtw(x1: &[i32], x2: &[i32]) -> (res: Cost)
    requires
        1 <= x1@.len() < usize::MAX,
        1 <= x2@.len() < usize::MAX,
    ensures
        res == sub_score::<SqDist>(x1@, x2@),
{
    subdtw_with_path(x1, x2).0
}

/// The global alignment path under the squared-difference distance; the
/// table argument is accepted for compatibility and not consulted.
pub fn sub_warppath(x1: &[i32], x2: &[i32], _score: &Vec<Vec<Cost>>) -> (res: (
    Vec<usize>,
    Vec<usize>,
))
    requires
        1 <= x1@.len() < usize::MAX,
        1 <= x2@.len() < usize::MAX,
    ensures
        path_matches(
            res.0@,
            res.1@,
            bt_path::<SqDist>(x1@, x2@, false, x1@.len() as int, x2@.len() as int),
        ),
{
    dtw_with_path(x1, x2).1
}

/// The best subsequence score under the squared-difference distance together
/// with the reference offset where that alignment starts.
pub fn subdtw_map(x1: &[i32], x2: &[i32]) -> (res: (Cost, usize))
    requires
        1 <= x1@.len() < usize::MAX,
        1 <= x2@.len() < usize::MAX,
    ensures
        res.0 == sub_score::<SqDist>(x1@, x2@),
        res.1 as int == bt_path::<SqDist>(
            x1@,
            x2@,
            true,
            x1@.len() as int,
            sub_end::<SqDist>(x1@, x2@),
        )[0].1,
{
    match dtw_norestrict::<SqDist>(x1, x2, &SqDist, true) {
        Ok((score, _, location)) => (score, location),
        Err(_) => vstd::pervasive::unreached(),
    }
}

} // verus!

