//! Coarse-to-fine approximate dynamic time warping.
//!
//! Long sequences are halved by averaging adjacent samples, the shrunk
//! problem is solved recursively, and the coarse alignment path is projected
//! back to fine resolution and widened by a radius into a window of cells.
//! The table is then evaluated only on that window; a cell missing from the
//! window reads as an implicit boundary value (zero on the free border,
//! infinity elsewhere), never as an absent-key error.  Each evaluated cell
//! stores its predecessor, so the path is recovered by following stored
//! predecessors until none exists.

use vstd::prelude::*;

use crate::cost::{cost_add, cost_le, cost_lt, Cost, Dist};
use crate::errors::DtwError;
use crate::dtw::{dp_cell, path_matches, row_min};

verus! {

/// Whether every window cell addresses a real table cell.
pub open spec fn win_wf(win: Seq<(usize, usize)>, m: int, n: int) -> bool {
    forall|k: int|
        0 <= k < win.len() ==> 1 <= (#[trigger] win[k]).0 <= m && 1 <= win[k].1 <= n
}

/// The cost a window cell reads from the table: the stored value if the cell
/// was evaluated, else the implicit boundary (zero on the free border,
/// infinity everywhere outside the window).
pub open spec fn wget(mp: Map<(int, int), (Cost, int, int)>, sub: bool, i: int, j: int) -> Cost {
    if mp.dom().contains((i, j)) {
        mp[(i, j)].0
    } else if i == 0 && (sub || j == 0) {
        Cost::Fin(0)
    } else {
        Cost::Inf
    }
}

/// One evaluation step at window cell `(i, j)`: the predecessor with the
/// smallest cost (ties prefer the diagonal, then the upward step), and the
/// accumulated cost, where infinity absorbs instead of being added to.
pub open spec fn wstep(mp: Map<(int, int), (Cost, int, int)>, sub: bool, i: int, j: int, d: u64) -> (
    Cost,
    int,
    int,
) {
    let p0 = wget(mp, sub, i - 1, j - 1);
    let p1 = wget(mp, sub, i - 1, j);
    let p2 = wget(mp, sub, i, j - 1);
    if cost_le(p0, p1) && cost_le(p0, p2) {
        (cost_add(p0, d), i - 1, j - 1)
    } else if cost_le(p1, p0) && cost_le(p1, p2) {
        (cost_add(p1, d), i - 1, j)
    } else {
        (cost_add(p2, d), i, j - 1)
    }
}

/// The sparse table after evaluating the window cells in order: each maps to
/// its accumulated cost and stored predecessor.
pub open spec fn win_map<D: Dist>(q: Seq<i32>, r: Seq<i32>, sub: bool, win: Seq<(usize, usize)>) -> Map<
    (int, int),
    (Cost, int, int),
>
    decreases win.len(),
{
    if win.len() == 0 {
        Map::empty()
    } else {
        let mp = win_map::<D>(q, r, sub, win.drop_last());
        let c = win.last();
        let i = c.0 as int;
        let j = c.1 as int;
        mp.insert((i, j), wstep(mp, sub, i, j, D::d(q[i - 1], r[j - 1])))
    }
}

/// The best stored whole-query cell among the window cells scanned so far,
/// together with its reference column; on ties the later window cell wins.
pub open spec fn win_best<D: Dist>(
    q: Seq<i32>,
    r: Seq<i32>,
    win: Seq<(usize, usize)>,
    upto: int,
) -> (Cost, int)
    decreases upto,
{
    if upto <= 0 {
        (Cost::Inf, 0int)
    } else {
        let prev = win_best::<D>(q, r, win, upto - 1);
        let c = win[upto - 1];
        let mp = win_map::<D>(q, r, true, win);
        if c.0 == q.len() && mp.dom().contains((c.0 as int, c.1 as int)) {
            if cost_lt(prev.0, mp[(c.0 as int, c.1 as int)].0) {
                prev
            } else {
                (mp[(c.0 as int, c.1 as int)].0, c.1 as int)
            }
        } else {
            prev
        }
    }
}

/// The alignment path recovered by following stored predecessors from
/// `(i, j)`, in ascending order.
pub open spec fn win_path(mp: Map<(int, int), (Cost, int, int)>, i: int, j: int) -> Seq<(int, int)>
    decreases i + j when 0 <= i && 0 <= j
{
    if !mp.dom().contains((i, j)) {
        Seq::empty()
    } else {
        let (_, pi, pj) = mp[(i, j)];
        if 0 <= pi && 0 <= pj && pi + pj < i + j {
            win_path(mp, pi, pj).push((pi, pj))
        } else {
            Seq::empty().push((pi, pj))
        }
    }
}

/// The reference column at which the predecessor walk from `(i, j)` stops.
pub open spec fn win_end(mp: Map<(int, int), (Cost, int, int)>, i: int, j: int) -> int
    decreases i + j when 0 <= i && 0 <= j
{
    if !mp.dom().contains((i, j)) {
        j
    } else {
        let (_, pi, pj) = mp[(i, j)];
        if 0 <= pi && 0 <= pj && pi + pj < i + j {
            win_end(mp, pi, pj)
        } else {
            pj
        }
    }
}

/// Whether every key of the sparse table addresses a real cell and stores a
/// predecessor that lies before it.
pub open spec fn win_map_wf(mp: Map<(int, int), (Cost, int, int)>, m: int, n: int) -> bool {
    forall|i: int, j: int|
        #[trigger] mp.dom().contains((i, j)) ==> {
            &&& 1 <= i <= m
            &&& 1 <= j <= n
            &&& 0 <= mp[(i, j)].1 <= i
            &&& 0 <= mp[(i, j)].2 <= j
            &&& mp[(i, j)].1 + mp[(i, j)].2 < i + j
        }
}

/// The best-cell column is never negative and never exceeds the reference.
proof fn lemma_win_best_bounds<D: Dist>(q: Seq<i32>, r: Seq<i32>, win: Seq<(usize, usize)>, upto: int, n: int)
    requires
        win_wf(win, q.len() as int, n),
        n >= 0,
    ensures
        0 <= win_best::<D>(q, r, win, upto).1 <= n,
    decreases upto,
{
    if upto > 0 {
        lemma_win_best_bounds::<D>(q, r, win, upto - 1, n);
        lemma_win_map_wf::<D>(q, r, true, win, q.len() as int, n);
        let prev = win_best::<D>(q, r, win, upto - 1);
        let c = win[upto - 1];
        let mp = win_map::<D>(q, r, true, win);
        if c.0 == q.len() && mp.dom().contains((c.0 as int, c.1 as int)) {
            assert(1 <= c.1 as int <= n);
            if cost_lt(prev.0, mp[(c.0 as int, c.1 as int)].0) {
                assert(win_best::<D>(q, r, win, upto) == prev);
            } else {
                assert(win_best::<D>(q, r, win, upto) == (mp[(c.0 as int, c.1 as int)].0, c.1 as int));
            }
        } else {
            assert(win_best::<D>(q, r, win, upto) == prev);
        }
    }
}

/// The sparse table of a well-formed window is itself well-formed.
proof fn lemma_win_map_wf<D: Dist>(
    q: Seq<i32>,
    r: Seq<i32>,
    sub: bool,
    win: Seq<(usize, usize)>,
    m: int,
    n: int,
)
    requires
        win_wf(win, m, n),
    ensures
        win_map_wf(win_map::<D>(q, r, sub, win), m, n),
    decreases win.len(),
{
    if win.len() > 0 {
        assert(win_wf(win.drop_last(), m, n));
        lemma_win_map_wf::<D>(q, r, sub, win.drop_last(), m, n);
    }
}

/// Every entry of a predecessor walk stays within the table.
proof fn lemma_win_path_wf(mp: Map<(int, int), (Cost, int, int)>, m: int, n: int, i: int, j: int)
    requires
        win_map_wf(mp, m, n),
        0 <= i,
        0 <= j,
    ensures
        forall|k: int|
            0 <= k < win_path(mp, i, j).len() ==> {
                &&& 0 <= (#[trigger] win_path(mp, i, j)[k]).0 <= m
                &&& 0 <= win_path(mp, i, j)[k].1 <= n
            },
    decreases i + j,
{
    if mp.dom().contains((i, j)) {
        let (_, pi, pj) = mp[(i, j)];
        lemma_win_path_wf(mp, m, n, pi, pj);
        let tail = win_path(mp, pi, pj);
        assert(win_path(mp, i, j) == tail.push((pi, pj)));
        assert forall|k: int| 0 <= k < win_path(mp, i, j).len() implies {
            &&& 0 <= (#[trigger] win_path(mp, i, j)[k]).0 <= m
            &&& 0 <= win_path(mp, i, j)[k].1 <= n
        } by {
            if k < tail.len() {
                assert(win_path(mp, i, j)[k] == tail[k]);
            } else {
                assert(win_path(mp, i, j)[k] == (pi, pj));
            }
        }
    }
}

/// A predecessor walk takes at least one coordinate down every step, so its
/// length is bounded by the starting coordinates.
pub proof fn lemma_win_path_len(mp: Map<(int, int), (Cost, int, int)>, m: int, n: int, i: int, j: int)
    requires
        win_map_wf(mp, m, n),
        0 <= i,
        0 <= j,
    ensures
        win_path(mp, i, j).len() <= i + j,
    decreases i + j,
{
    if mp.dom().contains((i, j)) {
        let (_, pi, pj) = mp[(i, j)];
        lemma_win_path_len(mp, m, n, pi, pj);
    }
}

/// Whether `(score, p1, p2, start)` is exactly the outcome of evaluating the
/// window `win` and backtracking through its stored predecessors.
pub open spec fn win_result<D: Dist>(
    q: Seq<i32>,
    r: Seq<i32>,
    sub: bool,
    win: Seq<(usize, usize)>,
    score: Cost,
    p1: Seq<usize>,
    p2: Seq<usize>,
    start: int,
) -> bool {
    let mp = win_map::<D>(q, r, sub, win);
    let endj = if sub {
        win_best::<D>(q, r, win, win.len() as int).1
    } else {
        r.len() as int
    };
    &&& score == if sub {
        win_best::<D>(q, r, win, win.len() as int).0
    } else {
        mp[(q.len() as int, r.len() as int)].0
    }
    &&& path_matches(p1, p2, win_path(mp, q.len() as int, endj))
    &&& start == win_end(mp, q.len() as int, endj)
}

/// One slot of the windowed table: either never evaluated, or the
/// accumulated cost with the stored predecessor.
#[derive(Clone, Copy)]
enum WinCell {
    Absent,
    Entry(Cost, usize, usize),
}

/// The flat index of table cell `(i, j)` when each row holds `n + 1` slots.
pub open spec fn fidx(i: int, j: int, n: int) -> int {
    i * (n + 1) + j
}

/// Flat indices of distinct cells are distinct.
proof fn lemma_fidx_inj(i1: int, j1: int, i2: int, j2: int, n: int)
    requires
        0 <= i1,
        0 <= i2,
        0 <= j1 <= n,
        0 <= j2 <= n,
        fidx(i1, j1, n) == fidx(i2, j2, n),
    ensures
        i1 == i2 && j1 == j2,
{
    vstd::arithmetic::div_mod::lemma_fundamental_div_mod_converse_div(
        fidx(i1, j1, n),
        n + 1,
        i1,
        j1,
    );
    vstd::arithmetic::div_mod::lemma_fundamental_div_mod_converse_mod(
        fidx(i1, j1, n),
        n + 1,
        i1,
        j1,
    );
    vstd::arithmetic::div_mod::lemma_fundamental_div_mod_converse_div(
        fidx(i2, j2, n),
        n + 1,
        i2,
        j2,
    );
    vstd::arithmetic::div_mod::lemma_fundamental_div_mod_converse_mod(
        fidx(i2, j2, n),
        n + 1,
        i2,
        j2,
    );
}

/// Flat indices of table cells lie inside the allocation.
proof fn lemma_fidx_range(i: int, j: int, m: int, n: int)
    requires
        0 <= i <= m,
        0 <= j <= n,
    ensures
        0 <= fidx(i, j, n) < (m + 1) * (n + 1),
        fidx(i, j, n) <= m * (n + 1) + n,
        n + 1 <= (m + 1) * (n + 1),
        0 <= i * (n + 1) <= fidx(i, j, n),
{
    assert(0 <= i * (n + 1) + j < (m + 1) * (n + 1) && i * (n + 1) + j <= m * (n + 1) + n && n + 1
        <= (m + 1) * (n + 1) && 0 <= i * (n + 1)) by (nonlinear_arith)
        requires
            0 <= i <= m,
            0 <= j <= n,
    ;
}

/// Whether the flat table spells out exactly the sparse map `mp`.
spec fn table_matches(
    t: Seq<WinCell>,
    mp: Map<(int, int), (Cost, int, int)>,
    m: int,
    n: int,
) -> bool {
    &&& t.len() == (m + 1) * (n + 1)
    &&& forall|i: int, j: int|
        0 <= i <= m && 0 <= j <= n ==> match t[#[trigger] fidx(i, j, n)] {
            WinCell::Absent => !mp.dom().contains((i, j)),
            WinCell::Entry(v, pi, pj) => mp.dom().contains((i, j)) && mp[(i, j)] == (
                v,
                pi as int,
                pj as int,
            ),
        }
}

/// Reads the boundary-aware cost of cell `(i, j)` from the flat table.
fn table_get(
    t: &Vec<WinCell>,
    Ghost(mp): Ghost<Map<(int, int), (Cost, int, int)>>,
    sub: bool,
    m: usize,
    n: usize,
    i: usize,
    j: usize,
) -> (c: Cost)
    requires
        table_matches(t@, mp, m as int, n as int),
        (m + 1) * (n + 1) <= usize::MAX,
        i <= m,
        j <= n,
    ensures
        c == wget(mp, sub, i as int, j as int),
{
    proof {
        lemma_fidx_range(i as int, j as int, m as int, n as int);
    }
    match t[i * (n + 1) + j] {
        WinCell::Entry(v, _, _) => v,
        WinCell::Absent => if i == 0 && (sub || j == 0) {
            Cost::Fin(0)
        } else {
            Cost::Inf
        },
    }
}

/// Whether cell `(i, j)` was evaluated.
fn table_has(
    t: &Vec<WinCell>,
    Ghost(mp): Ghost<Map<(int, int), (Cost, int, int)>>,
    m: usize,
    n: usize,
    i: usize,
    j: usize,
) -> (b: bool)
    requires
        table_matches(t@, mp, m as int, n as int),
        (m + 1) * (n + 1) <= usize::MAX,
        i <= m,
        j <= n,
    ensures
        b == mp.dom().contains((i as int, j as int)),
{
    proof {
        lemma_fidx_range(i as int, j as int, m as int, n as int);
    }
    match t[i * (n + 1) + j] {
        WinCell::Entry(_, _, _) => true,
        WinCell::Absent => false,
    }
}

/// Evaluates the table on exactly the window cells, in order.
#[verifier::loop_isolation(false)]
fn window_fill<D: Dist>(
    x1: &[i32],
    x2: &[i32],
    dist: &D,
    window: &Vec<(usize, usize)>,
    is_sub: bool,
) -> (t: Vec<WinCell>)
    requires
        win_wf(window@, x1@.len() as int, x2@.len() as int),
        (x1@.len() + 1) * (x2@.len() + 1) <= usize::MAX,
    ensures
        table_matches(t@, win_map::<D>(x1@, x2@, is_sub, window@), x1@.len() as int, x2@.len() as int),
{
    let m = x1.len();
    let n = x2.len();
    let ghost q = x1@;
    let ghost r = x2@;
    proof {
        assert((m + 1) * (n + 1) >= 1 && m + 1 <= (m + 1) * (n + 1) && n + 1 <= (m + 1) * (n + 1))
            by (nonlinear_arith)
            requires
                m >= 0,
                n >= 0,
        ;
    }
    let total = (m + 1) * (n + 1);
    let mut t: Vec<WinCell> = vec![WinCell::Absent; total];
    proof {
        assert forall|a: int, b: int| 0 <= a <= m && 0 <= b <= n implies match t@[
            #[trigger] fidx(a, b, n as int)
        ] {
            WinCell::Absent => !win_map::<D>(q, r, is_sub, window@.take(0)).dom().contains((a, b)),
            WinCell::Entry(v, pi, pj) => win_map::<D>(q, r, is_sub, window@.take(0)).dom().contains(
                (a, b),
            ) && win_map::<D>(q, r, is_sub, window@.take(0))[(a, b)] == (v, pi as int, pj as int),
        } by {
            lemma_fidx_range(a, b, m as int, n as int);
            assert(window@.take(0) =~= Seq::<(usize, usize)>::empty());
        }
    }
    let mut k: usize = 0;
    while k < window.len()
        invariant
            k <= window@.len(),
            table_matches(t@, win_map::<D>(q, r, is_sub, window@.take(k as int)), m as int, n as int),
        decreases window@.len() - k,
    {
        let ghost mpk = win_map::<D>(q, r, is_sub, window@.take(k as int));
        let (ci, cj) = window[k];
        let d = dist.dist(x1[ci - 1], x2[cj - 1]);
        let p0 = table_get(&t, Ghost(mpk), is_sub, m, n, ci - 1, cj - 1);
        let p1 = table_get(&t, Ghost(mpk), is_sub, m, n, ci - 1, cj);
        let p2 = table_get(&t, Ghost(mpk), is_sub, m, n, ci, cj - 1);
        let entry: WinCell = if p0.le(&p1) && p0.le(&p2) {
            WinCell::Entry(p0.add(d), ci - 1, cj - 1)
        } else if p1.le(&p0) && p1.le(&p2) {
            WinCell::Entry(p1.add(d), ci - 1, cj)
        } else {
            WinCell::Entry(p2.add(d), ci, cj - 1)
        };
        proof {
            lemma_fidx_range(ci as int, cj as int, m as int, n as int);
        }
        let ghost oldt = t@;
        t.set(ci * (n + 1) + cj, entry);
        proof {
            let mpk1 = win_map::<D>(q, r, is_sub, window@.take(k + 1));
            assert(window@.take(k + 1).drop_last() =~= window@.take(k as int));
            assert(window@.take(k + 1).last() == window@[k as int]);
            assert(mpk1 == mpk.insert(
                (ci as int, cj as int),
                wstep(mpk, is_sub, ci as int, cj as int, D::d(q[ci - 1], r[cj - 1])),
            ));
            assert forall|a: int, b: int| 0 <= a <= m && 0 <= b <= n implies match t@[
                #[trigger] fidx(a, b, n as int)
            ] {
                WinCell::Absent => !mpk1.dom().contains((a, b)),
                WinCell::Entry(v, pi, pj) => mpk1.dom().contains((a, b)) && mpk1[(a, b)] == (
                    v,
                    pi as int,
                    pj as int,
                ),
            } by {
                lemma_fidx_range(a, b, m as int, n as int);
                if fidx(a, b, n as int) == fidx(ci as int, cj as int, n as int) {
                    lemma_fidx_inj(a, b, ci as int, cj as int, n as int);
                } else {
                    assert(t@[fidx(a, b, n as int)] == oldt[fidx(a, b, n as int)]);
                }
            }
        }
        k = k + 1;
    }
    proof {
        assert(window@.take(window@.len() as int) =~= window@);
    }
    t
}

/// Follows the stored predecessors back from `(m, endj)` until none exists,
/// returning the alignment path in ascending order and the column where the
/// walk stopped.
#[verifier::loop_isolation(false)]
fn window_walk(
    t: &Vec<WinCell>,
    Ghost(mp): Ghost<Map<(int, int), (Cost, int, int)>>,
    m: usize,
    n: usize,
    endj: usize,
) -> (res: (Vec<usize>, Vec<usize>, usize))
    requires
        table_matches(t@, mp, m as int, n as int),
        win_map_wf(mp, m as int, n as int),
        (m + 1) * (n + 1) <= usize::MAX,
        endj <= n,
    ensures
        path_matches(res.0@, res.1@, win_path(mp, m as int, endj as int)),
        res.0@.len() == res.1@.len(),
        res.2 as int == win_end(mp, m as int, endj as int),
        forall|k: int| 0 <= k < res.0@.len() ==> #[trigger] res.0@[k] <= m && res.1@[k] <= n,
{
    let mut ci: usize = m;
    let mut cj: usize = endj;
    let mut p1: Vec<usize> = Vec::new();
    let mut p2: Vec<usize> = Vec::new();
    let mut go = table_has(t, Ghost(mp), m, n, ci, cj);
    while go
        invariant
            ci <= m,
            cj <= n,
            go == mp.dom().contains((ci as int, cj as int)),
            p1@.len() == p2@.len(),
            forall|k0: int| 0 <= k0 < p1@.len() ==> #[trigger] p1@[k0] <= m && p2@[k0] <= n,
            win_path(mp, m as int, endj as int) =~= win_path(mp, ci as int, cj as int) + Seq::new(
                p1@.len(),
                |k0: int| (p1@[p1@.len() - 1 - k0] as int, p2@[p2@.len() - 1 - k0] as int),
            ),
            win_end(mp, m as int, endj as int) == win_end(mp, ci as int, cj as int),
        decreases ci + cj,
    {
        proof {
            lemma_fidx_range(ci as int, cj as int, m as int, n as int);
        }
        match t[ci * (n + 1) + cj] {
            WinCell::Absent => {
                proof {
                    assert(false);
                }
            },
            WinCell::Entry(_, pi, pj) => {
                let ghost oldpos = (ci as int, cj as int);
                let ghost oldp1 = p1@;
                let ghost oldp2 = p2@;
                proof {
                    assert(mp.dom().contains((ci as int, cj as int)));
                    assert(mp[(ci as int, cj as int)].1 == pi as int && mp[(ci as int, cj as int)].2
                        == pj as int);
                    assert(pi <= ci && pj <= cj && pi + pj < ci + cj);
                }
                p1.push(pi);
                p2.push(pj);
                proof {
                    assert forall|k0: int| 0 <= k0 < p1@.len() implies #[trigger] p1@[k0] <= m
                        && p2@[k0] <= n by {
                        if k0 < oldp1.len() {
                            assert(p1@[k0] == oldp1[k0] && p2@[k0] == oldp2[k0]);
                        } else {
                            assert(p1@[k0] == pi && p2@[k0] == pj);
                        }
                    }
                }
                ci = pi;
                cj = pj;
                proof {
                    assert(win_path(mp, oldpos.0, oldpos.1) == win_path(
                        mp,
                        ci as int,
                        cj as int,
                    ).push((ci as int, cj as int)));
                    assert(win_path(mp, m as int, endj as int) =~= win_path(
                        mp,
                        ci as int,
                        cj as int,
                    ) + Seq::new(
                        p1@.len(),
                        |k0: int| (p1@[p1@.len() - 1 - k0] as int, p2@[p2@.len() - 1 - k0] as int),
                    ));
                }
            },
        }
        go = table_has(t, Ghost(mp), m, n, ci, cj);
    }
    let rev1 = crate::dtw::reversed(&p1);
    let rev2 = crate::dtw::reversed(&p2);
    proof {
        assert(win_path(mp, ci as int, cj as int) =~= Seq::<(int, int)>::empty());
        assert(path_matches(rev1@, rev2@, win_path(mp, m as int, endj as int)));
        assert(win_end(mp, ci as int, cj as int) == cj as int);
        assert forall|k: int| 0 <= k < rev1@.len() implies #[trigger] rev1@[k] <= m && rev2@[k]
            <= n by {
            assert(rev1@[k] == p1@[p1@.len() - 1 - k]);
            assert(rev2@[k] == p2@[p2@.len() - 1 - k]);
        }
    }
    (rev1, rev2, cj)
}

/// Evaluates the table on exactly the window cells, in order, then extracts
/// the score and backtracks through the stored predecessors.
#[verifier::loop_isolation(false)]
fn window_dtw<D: Dist>(
    x1: &[i32],
    x2: &[i32],
    dist: &D,
    window: &Vec<(usize, usize)>,
    is_sub: bool,
) -> (res: Result<(Cost, (Vec<usize>, Vec<usize>), usize), DtwError>)
    requires
        win_wf(window@, x1@.len() as int, x2@.len() as int),
        (x1@.len() + 1) * (x2@.len() + 1) <= usize::MAX,
    ensures
        is_sub ==> res is Ok,
        !is_sub ==> (res is Ok <==> win_map::<D>(x1@, x2@, false, window@).dom().contains(
            (x1@.len() as int, x2@.len() as int),
        )),
        res matches Err(e) ==> e == DtwError::MalformedWindow,
        res matches Ok(v) ==> win_result::<D>(x1@, x2@, is_sub, window@, v.0, v.1.0@, v.1.1@, v.2 as int),
{
    let m = x1.len();
    let n = x2.len();
    let ghost q = x1@;
    let ghost r = x2@;
    let t = window_fill::<D>(x1, x2, dist, window, is_sub);
    let ghost mp = win_map::<D>(q, r, is_sub, window@);
    proof {
        lemma_win_map_wf::<D>(q, r, is_sub, window@, m as int, n as int);
    }

    // Extract the score and the column where the best alignment ends.
    let (score, endj): (Cost, usize) = if is_sub {
        let mut acc = Cost::Inf;
        let mut accj: usize = 0;
        let mut k: usize = 0;
        while k < window.len()
            invariant
                k <= window@.len(),
                (acc, accj as int) == win_best::<D>(q, r, window@, k as int),
                accj <= n,
            decreases window@.len() - k,
        {
            let (ci, cj) = window[k];
            if ci == m {
                if table_has(&t, Ghost(mp), m, n, ci, cj) {
                    proof {
                        lemma_fidx_range(ci as int, cj as int, m as int, n as int);
                    }
                    match t[ci * (n + 1) + cj] {
                        WinCell::Entry(v, _, _) => {
                            if !acc.lt(&v) {
                                acc = v;
                                accj = cj;
                            }
                        },
                        WinCell::Absent => {
                            proof {
                                assert(false);
                            }
                        },
                    }
                }
            }
            k = k + 1;
        }
        (acc, accj)
    } else {
        if table_has(&t, Ghost(mp), m, n, m, n) {
            proof {
                lemma_fidx_range(m as int, n as int, m as int, n as int);
            }
            match t[m * (n + 1) + n] {
                WinCell::Entry(v, _, _) => (v, n),
                WinCell::Absent => {
                    proof {
                        assert(false);
                    }
                    (Cost::Inf, n)
                },
            }
        } else {
            return Err(DtwError::MalformedWindow);
        }
    };
    let (rev1, rev2, start) = window_walk(&t, Ghost(mp), m, n, endj);
    proof {
        assert(win_result::<D>(q, r, is_sub, window@, score, rev1@, rev2@, start as int));
    }
    Ok((score, (rev1, rev2), start))
}

/// The average of two samples, rounded towards zero as the sample division
/// does.
pub open spec fn avg2(a: int, b: int) -> int {
    if a + b >= 0 {
        (a + b) / 2
    } else {
        -((-(a + b)) / 2)
    }
}

/// Halves a sequence by averaging adjacent sample pairs; a trailing unpaired
/// sample is dropped.
#[verifier::loop_isolation(false)]
pub fn reduce_by_half(xs: &[i32]) -> (res: Vec<i32>)
    ensures
        res@.len() == xs@.len() / 2,
        forall|t: int|
            0 <= t < res@.len() ==> #[trigger] res@[t] == avg2(xs@[2 * t] as int, xs@[2 * t + 1] as int),
{
    let half = xs.len() / 2;
    let mut res: Vec<i32> = Vec::new();
    let mut t: usize = 0;
    while t < half
        invariant
            t <= half,
            half == xs@.len() / 2,
            res@.len() == t,
            forall|t0: int|
                0 <= t0 < t ==> #[trigger] res@[t0] == avg2(xs@[2 * t0] as int, xs@[2 * t0 + 1] as int),
        decreases half - t,
    {
        let s: i64 = xs[2 * t] as i64 + xs[2 * t + 1] as i64;
        let a: i64 = if s >= 0 {
            s / 2
        } else {
            -((-s) / 2)
        };
        res.push(a as i32);
        t = t + 1;
    }
    res
}

/// The four fine-resolution cells a coarse path point stands for.
pub fn map_to_original(i: usize, j: usize) -> (res: Vec<(usize, usize)>)
    requires
        2 * i + 1 <= usize::MAX,
        2 * j + 1 <= usize::MAX,
    ensures
        res@.len() == 4,
        (res@[0].0 as int, res@[0].1 as int) == (2 * i as int, 2 * j as int),
        (res@[1].0 as int, res@[1].1 as int) == (2 * i as int + 1, 2 * j as int),
        (res@[2].0 as int, res@[2].1 as int) == (2 * i as int, 2 * j as int + 1),
        (res@[3].0 as int, res@[3].1 as int) == (2 * i as int + 1, 2 * j as int + 1),
{
    let mut res: Vec<(usize, usize)> = Vec::new();
    res.push((2 * i, 2 * j));
    res.push((2 * i + 1, 2 * j));
    res.push((2 * i, 2 * j + 1));
    res.push((2 * i + 1, 2 * j + 1));
    res
}

/// The window cells of row `k` over the reference-index range, clipped to
/// the real reference positions `1 ..= x2len`.
#[verifier::loop_isolation(false)]
pub fn get_window(k: usize, range: (usize, usize), x2len: usize) -> (res: Vec<(usize, usize)>)
    requires
        x2len < usize::MAX,
    ensures
        ({
            let lo: int = if range.0 >= 1 {
                range.0 as int
            } else {
                1int
            };
            let hi: int = if range.1 <= x2len {
                range.1 as int
            } else {
                x2len as int + 1
            };
            &&& res@.len() == if hi > lo {
                hi - lo
            } else {
                0int
            }
            &&& forall|t: int|
                0 <= t < res@.len() ==> (#[trigger] res@[t]).0 == k && res@[t].1 == lo + t
        }),
{
    let ghost lo: int = if range.0 >= 1 {
        range.0 as int
    } else {
        1int
    };
    let ghost hi: int = if range.1 <= x2len {
        range.1 as int
    } else {
        x2len as int + 1
    };
    let mut res: Vec<(usize, usize)> = Vec::new();
    let mut e: usize = range.0;
    while e < range.1
        invariant
            range.0 <= e <= range.1 || e == range.0,
            res@.len() == (if e <= lo || hi <= lo {
                0int
            } else if e <= hi {
                e - lo
            } else {
                hi - lo
            }),
            forall|t: int| 0 <= t < res@.len() ==> (#[trigger] res@[t]).0 == k && res@[t].1 == lo + t,
        decreases range.1 - e,
    {
        if 0 < e && e <= x2len {
            res.push((k, e));
        }
        e = e + 1;
    }
    res
}

/// The paired view of two index vectors.
pub open spec fn paired(p1: Seq<usize>, p2: Seq<usize>) -> Seq<(int, int)> {
    Seq::new(p1.len(), |k: int| (p1[k] as int, p2[k] as int))
}

/// The fine-resolution projections of a coarse path, four cells per point.
pub open spec fn spec_projected(path: Seq<(int, int)>) -> Seq<(int, int)> {
    Seq::new(
        4 * path.len(),
        |t: int|
            {
                let i = path[t / 4].0;
                let j = path[t / 4].1;
                if t % 4 == 0 {
                    (2 * i, 2 * j)
                } else if t % 4 == 1 {
                    (2 * i + 1, 2 * j)
                } else if t % 4 == 2 {
                    (2 * i, 2 * j + 1)
                } else {
                    (2 * i + 1, 2 * j + 1)
                }
            },
    )
}

/// The first query row a projected cell widens to.
pub open spec fn row_from(i: int, radius: int) -> int {
    if i > radius {
        i - radius
    } else {
        1
    }
}

/// One past the last query row a projected cell widens to.
pub open spec fn row_to(i: int, x1len: int, radius: int) -> int {
    if i + radius <= x1len {
        i + radius
    } else {
        x1len + 1
    }
}

/// The left edge of the reference range a projected cell contributes.
pub open spec fn col_left(j: int, radius: int) -> int {
    if j > radius {
        j - radius
    } else {
        1
    }
}

/// One past the right edge of the reference range a projected cell
/// contributes.
pub open spec fn col_right(j: int, x2len: int, radius: int) -> int {
    if j + radius <= x2len {
        j + radius
    } else {
        x2len + 1
    }
}

/// Paints the rows from `k` up with the cell's column range: a fresh row
/// takes the whole range, a painted row keeps its first left edge and adopts
/// the newest right edge.
pub open spec fn paint_rows(
    reg: Seq<Option<(usize, usize)>>,
    i: int,
    j: int,
    x1len: int,
    x2len: int,
    radius: int,
    k: int,
) -> Seq<Option<(usize, usize)>>
    decreases row_to(i, x1len, radius) - k,
{
    if k >= row_to(i, x1len, radius) {
        reg
    } else {
        let entry = match reg[k] {
            Some(pr) => Some((pr.0, col_right(j, x2len, radius) as usize)),
            None => Some((col_left(j, radius) as usize, col_right(j, x2len, radius) as usize)),
        };
        paint_rows(reg.update(k, entry), i, j, x1len, x2len, radius, k + 1)
    }
}

/// The per-row ranges after the first `t` projected cells are widened.
pub open spec fn regions_of(
    mp: Seq<(int, int)>,
    x1len: int,
    x2len: int,
    radius: int,
    t: int,
) -> Seq<Option<(usize, usize)>>
    decreases t,
{
    if t <= 0 {
        Seq::new((x1len + 1) as nat, |k: int| None::<(usize, usize)>)
    } else {
        let prev = regions_of(mp, x1len, x2len, radius, t - 1);
        paint_rows(
            prev,
            mp[t - 1].0,
            mp[t - 1].1,
            x1len,
            x2len,
            radius,
            row_from(mp[t - 1].0, radius),
        )
    }
}

/// One row's range turned into window cells, clipped to real positions.
pub open spec fn row_run(k: int, rg: Option<(usize, usize)>, x2len: int) -> Seq<(usize, usize)> {
    match rg {
        None => Seq::empty(),
        Some(r0) => {
            let lo: int = if r0.0 >= 1 {
                r0.0 as int
            } else {
                1
            };
            let hi: int = if r0.1 <= x2len {
                r0.1 as int
            } else {
                x2len + 1
            };
            if hi > lo {
                Seq::new((hi - lo) as nat, |t: int| (k as usize, (lo + t) as usize))
            } else {
                Seq::empty()
            }
        },
    }
}

/// The window cells of the first `k` rows, in row-major order.
pub open spec fn emit_rows(reg: Seq<Option<(usize, usize)>>, x2len: int, k: int) -> Seq<
    (usize, usize),
>
    decreases k,
{
    if k <= 0 {
        Seq::empty()
    } else {
        emit_rows(reg, x2len, k - 1) + row_run(k, reg[k], x2len)
    }
}

/// The whole window a coarse path widens to: project each path point to
/// fine resolution, widen by the radius into one merged range per query row,
/// and clip each row to the real reference positions.
pub open spec fn spec_expand(path: Seq<(int, int)>, x2len: int, x1len: int, radius: int) -> Seq<
    (usize, usize),
> {
    let mp = spec_projected(path);
    emit_rows(regions_of(mp, x1len, x2len, radius, mp.len() as int), x2len, x1len)
}

/// Every emitted window cell addresses a real table cell.
proof fn lemma_emit_rows_wf(
    reg: Seq<Option<(usize, usize)>>,
    x2len: int,
    k: int,
    x1len: int,
)
    requires
        0 <= k <= x1len,
        x1len <= usize::MAX,
        0 <= x2len,
        x2len + 1 <= usize::MAX,
    ensures
        win_wf(emit_rows(reg, x2len, k), x1len, x2len),
    decreases k,
{
    if k > 0 {
        lemma_emit_rows_wf(reg, x2len, k - 1, x1len);
        let head = emit_rows(reg, x2len, k - 1);
        let run = row_run(k, reg[k], x2len);
        assert forall|t: int|
            0 <= t < emit_rows(reg, x2len, k).len() implies 1 <= (#[trigger] emit_rows(
            reg,
            x2len,
            k,
        )[t]).0 <= x1len && 1 <= emit_rows(reg, x2len, k)[t].1 <= x2len by {
            if t < head.len() {
                assert(emit_rows(reg, x2len, k)[t] == head[t]);
            } else {
                assert(emit_rows(reg, x2len, k)[t] == run[t - head.len()]);
            }
        }
    }
}

/// The whole cost grid is a well-formed window.
proof fn lemma_grid_rows_wf(n: int, i: int, m: int)
    requires
        0 <= i <= m,
        m <= usize::MAX,
        0 <= n <= usize::MAX,
    ensures
        win_wf(grid_rows(n, i), m, n),
    decreases i,
{
    if i > 0 {
        lemma_grid_rows_wf(n, i - 1, m);
        lemma_grid_row_index(i, n);
        let head = grid_rows(n, i - 1);
        let row = grid_row(i, n);
        assert forall|t: int|
            0 <= t < grid_rows(n, i).len() implies 1 <= (#[trigger] grid_rows(n, i)[t]).0 <= m && 1
            <= grid_rows(n, i)[t].1 <= n by {
            if t < head.len() {
                assert(grid_rows(n, i)[t] == head[t]);
            } else {
                assert(grid_rows(n, i)[t] == row[t - head.len()]);
            }
        }
    }
}

/// The halved sequence: adjacent samples averaged, rounding towards zero; a
/// trailing unpaired sample is dropped.
pub open spec fn spec_shrink(s: Seq<i32>) -> Seq<i32> {
    Seq::new(s.len() / 2, |t: int| avg2(s[2 * t] as int, s[2 * t + 1] as int) as i32)
}

/// The window the coarse-to-fine search evaluates: the whole cost grid for
/// short inputs, and otherwise the radius-widened projection of the coarse
/// path obtained by solving the halved problem.
pub open spec fn fast_window<D: Dist>(q: Seq<i32>, r: Seq<i32>, radius: int, sub: bool) -> Seq<
    (usize, usize),
>
    decreases q.len() when 0 <= radius
{
    if q.len() < radius + 2 || r.len() < radius + 2 {
        grid_rows(r.len() as int, q.len() as int)
    } else {
        let q2 = spec_shrink(q);
        let r2 = spec_shrink(r);
        let w2 = fast_window::<D>(q2, r2, radius, sub);
        let mp2 = win_map::<D>(q2, r2, sub, w2);
        let endj2 = if sub {
            win_best::<D>(q2, r2, w2, w2.len() as int).1
        } else {
            r2.len() as int
        };
        spec_expand(
            win_path(mp2, q2.len() as int, endj2),
            r.len() as int,
            q.len() as int,
            radius,
        )
    }
}

/// Whether a full-mode coarse-to-fine search succeeds: every level's window
/// must hold its bottom-right cell.
pub open spec fn fast_succeeds<D: Dist>(q: Seq<i32>, r: Seq<i32>, radius: int) -> bool
    decreases q.len() when 0 <= radius
{
    if q.len() < radius + 2 || r.len() < radius + 2 {
        win_map::<D>(q, r, false, grid_rows(r.len() as int, q.len() as int)).dom().contains(
            (q.len() as int, r.len() as int),
        )
    } else {
        &&& fast_succeeds::<D>(spec_shrink(q), spec_shrink(r), radius)
        &&& win_map::<D>(q, r, false, fast_window::<D>(q, r, radius, false)).dom().contains(
            (q.len() as int, r.len() as int),
        )
    }
}

/// Every level's window is well-formed.
pub proof fn lemma_fast_window_wf<D: Dist>(q: Seq<i32>, r: Seq<i32>, radius: int, sub: bool)
    requires
        q.len() <= usize::MAX,
        r.len() + 1 <= usize::MAX,
        0 <= radius,
    ensures
        win_wf(fast_window::<D>(q, r, radius, sub), q.len() as int, r.len() as int),
{
    if q.len() < radius + 2 || r.len() < radius + 2 {
        lemma_grid_rows_wf(r.len() as int, q.len() as int, q.len() as int);
    } else {
        let q2 = spec_shrink(q);
        let r2 = spec_shrink(r);
        let w2 = fast_window::<D>(q2, r2, radius, sub);
        let mp2 = win_map::<D>(q2, r2, sub, w2);
        let endj2 = if sub {
            win_best::<D>(q2, r2, w2, w2.len() as int).1
        } else {
            r2.len() as int
        };
        let mp = spec_projected(win_path(mp2, q2.len() as int, endj2));
        lemma_emit_rows_wf(
            regions_of(mp, q.len() as int, r.len() as int, radius, mp.len() as int),
            r.len() as int,
            q.len() as int,
            q.len() as int,
        );
    }
}

/// Projects a coarse alignment path to fine resolution and widens it by
/// `radius` in both directions, merging the per-row windows into one
/// contiguous reference range per query row: exactly [`spec_expand`].
#[verifier::loop_isolation(false)]
pub fn expand_window(
    x1path: &[usize],
    x2path: &[usize],
    x2len: usize,
    x1len: usize,
    radius: usize,
) -> (res: Vec<(usize, usize)>)
    requires
        x1path@.len() == x2path@.len(),
        forall|k: int| 0 <= k < x1path@.len() ==> 2 * #[trigger] x1path@[k] + 1 <= x1len + 1,
        forall|k: int| 0 <= k < x2path@.len() ==> 2 * #[trigger] x2path@[k] + 1 <= x2len + 1,
        x1len + radius + 2 <= usize::MAX,
        x2len + radius + 2 <= usize::MAX,
        4 * x1path@.len() <= usize::MAX,
    ensures
        win_wf(res@, x1len as int, x2len as int),
        res@ == spec_expand(paired(x1path@, x2path@), x2len as int, x1len as int, radius as int),
{
    let ghost smp = spec_projected(paired(x1path@, x2path@));

    // Project every coarse path point to the four cells it stands for.
    let mut mapped: Vec<(usize, usize)> = Vec::new();
    let mut k: usize = 0;
    while k < x1path.len()
        invariant
            k <= x1path@.len(),
            mapped@.len() == 4 * k,
            forall|t: int|
                0 <= t < mapped@.len() ==> ((#[trigger] mapped@[t]).0 as int, mapped@[t].1 as int)
                    == smp[t],
            forall|t: int|
                0 <= t < mapped@.len() ==> (#[trigger] mapped@[t]).0 <= x1len + 1 && mapped@[t].1
                    <= x2len + 1,
        decreases x1path@.len() - k,
    {
        let i = x1path[k];
        let j = x2path[k];
        mapped.push((2 * i, 2 * j));
        mapped.push((2 * i + 1, 2 * j));
        mapped.push((2 * i, 2 * j + 1));
        mapped.push((2 * i + 1, 2 * j + 1));
        proof {
            assert forall|t: int| 0 <= t < mapped@.len() implies ((#[trigger] mapped@[t]).0 as int,
                mapped@[t].1 as int) == smp[t] by {
                if t >= 4 * k {
                    assert(t / 4 == k && (t % 4 == t - 4 * k));
                }
            }
        }
        k = k + 1;
    }

    // Widen each projected cell into a radius-wide range, merging overlaps
    // per query row by keeping the first left edge and the latest right edge.
    let mut region: Vec<Option<(usize, usize)>> = vec![None; x1len + 1];
    proof {
        assert(region@ =~= regions_of(smp, x1len as int, x2len as int, radius as int, 0));
    }
    let mut t: usize = 0;
    while t < mapped.len()
        invariant
            t <= mapped@.len(),
            mapped@.len() == smp.len(),
            region@.len() == x1len + 1,
            forall|t0: int|
                0 <= t0 < mapped@.len() ==> ((#[trigger] mapped@[t0]).0 as int, mapped@[t0].1 as int)
                    == smp[t0],
            forall|t0: int|
                0 <= t0 < mapped@.len() ==> (#[trigger] mapped@[t0]).0 <= x1len + 1 && mapped@[t0].1
                    <= x2len + 1,
            region@ == regions_of(smp, x1len as int, x2len as int, radius as int, t as int),
        decreases mapped@.len() - t,
    {
        let (i, j) = mapped[t];
        let start = if i > radius {
            i - radius
        } else {
            1
        };
        let end = if i + radius <= x1len {
            i + radius
        } else {
            x1len + 1
        };
        let left = if j > radius {
            j - radius
        } else {
            1
        };
        let right = if j + radius <= x2len {
            j + radius
        } else {
            x2len + 1
        };
        proof {
            assert(start as int == row_from(i as int, radius as int));
            assert(end as int == row_to(i as int, x1len as int, radius as int));
            assert(left as int == col_left(j as int, radius as int));
            assert(right as int == col_right(j as int, x2len as int, radius as int));
            assert(regions_of(smp, x1len as int, x2len as int, radius as int, t + 1) == paint_rows(
                region@,
                i as int,
                j as int,
                x1len as int,
                x2len as int,
                radius as int,
                start as int,
            ));
        }
        let mut k0: usize = start;
        while k0 < end
            invariant
                start <= k0,
                k0 <= end || k0 == start,
                end <= x1len + 1,
                left >= 1,
                right <= x2len + 1,
                left as int == col_left(j as int, radius as int),
                right as int == col_right(j as int, x2len as int, radius as int),
                end as int == row_to(i as int, x1len as int, radius as int),
                region@.len() == x1len + 1,
                regions_of(smp, x1len as int, x2len as int, radius as int, t + 1) == paint_rows(
                    region@,
                    i as int,
                    j as int,
                    x1len as int,
                    x2len as int,
                    radius as int,
                    k0 as int,
                ),
            decreases end - k0,
        {
            let ghost oldreg = region@;
            match region[k0] {
                Some(prev) => {
                    region.set(k0, Some((prev.0, right)));
                },
                None => {
                    region.set(k0, Some((left, right)));
                },
            }
            proof {
                assert(paint_rows(
                    oldreg,
                    i as int,
                    j as int,
                    x1len as int,
                    x2len as int,
                    radius as int,
                    k0 as int,
                ) == paint_rows(
                    region@,
                    i as int,
                    j as int,
                    x1len as int,
                    x2len as int,
                    radius as int,
                    k0 + 1,
                ));
            }
            k0 = k0 + 1;
        }
        t = t + 1;
    }

    // Turn each row's range into window cells, dropping positions outside
    // the reference.
    let ghost regfinal = region@;
    let mut res: Vec<(usize, usize)> = Vec::new();
    let mut k1: usize = 1;
    while k1 <= x1len
        invariant
            1 <= k1 <= x1len + 1,
            region@ == regfinal,
            region@.len() == x1len + 1,
            win_wf(res@, x1len as int, x2len as int),
            res@ == emit_rows(regfinal, x2len as int, k1 - 1),
        decreases x1len + 1 - k1,
    {
        let ghost oldres = res@;
        match region[k1] {
            Some(rg) => {
                let mut cells = get_window(k1, rg, x2len);
                proof {
                    assert(cells@ =~= row_run(k1 as int, regfinal[k1 as int], x2len as int));
                    assert(forall|t0: int|
                        0 <= t0 < cells@.len() ==> 1 <= (#[trigger] cells@[t0]).1 <= x2len);
                }
                res.append(&mut cells);
                proof {
                    assert forall|t0: int|
                        0 <= t0 < res@.len() implies 1 <= (#[trigger] res@[t0]).0 <= x1len && 1
                        <= res@[t0].1 <= x2len by {
                        if t0 < oldres.len() {
                            assert(res@[t0] == oldres[t0]);
                        }
                    }
                }
            },
            None => {},
        }
        proof {
            assert(res@ =~= emit_rows(regfinal, x2len as int, k1 as int));
        }
        k1 = k1 + 1;
    }
    proof {
        assert(res@ == spec_expand(
            paired(x1path@, x2path@),
            x2len as int,
            x1len as int,
            radius as int,
        ));
    }
    res
}

/// Coarse-to-fine approximate dynamic time warping.  Short inputs fall back
/// to the exact table over the full cost grid; longer ones are halved, the
/// coarse path is widened by `radius`, and the table is evaluated on that
/// window alone.  The result is always the exact outcome of evaluating some
/// well-formed window of cells.
#[verifier::loop_isolation(false)]
pub fn fast_dtw<D: Dist>(x1: &[i32], x2: &[i32], dist: &D, radius: usize, is_sub: bool) -> (res:
    Result<(Cost, (Vec<usize>, Vec<usize>), usize), DtwError>)
    requires
        x1@.len() + radius + 2 <= usize::MAX,
        x2@.len() + radius + 2 <= usize::MAX,
        2 * (x1@.len() + x2@.len()) + 4 <= usize::MAX,
        (x1@.len() + 1) * (x2@.len() + 1) <= usize::MAX,
    ensures
        is_sub ==> res is Ok,
        !is_sub ==> (res is Ok <==> fast_succeeds::<D>(x1@, x2@, radius as int)),
        res matches Err(e) ==> e == DtwError::MalformedWindow,
        res matches Ok(v) ==> win_result::<D>(
            x1@,
            x2@,
            is_sub,
            fast_window::<D>(x1@, x2@, radius as int, is_sub),
            v.0,
            v.1.0@,
            v.1.1@,
            v.2 as int,
        ),
        (x1@.len() < radius + 2 || x2@.len() < radius + 2) && 1 <= x1@.len() && 1 <= x2@.len()
            ==> res is Ok && (res matches Ok(v) ==> v.0 == if is_sub {
            crate::dtw::sub_score::<D>(x1@, x2@)
        } else {
            crate::dtw::full_score::<D>(x1@, x2@)
        }),
    decreases x1@.len(),
{
    let min_length = radius + 2;
    if x1.len() < min_length || x2.len() < min_length {
        // The whole cost grid is the window: every cell pair is valid.
        let ghost gn = x2@.len() as int;
        let mut window: Vec<(usize, usize)> = Vec::new();
        let mut i: usize = 1;
        while i <= x1.len()
            invariant
                1 <= i <= x1@.len() + 1,
                win_wf(window@, x1@.len() as int, x2@.len() as int),
                window@ == grid_rows(gn, i - 1),
            decreases x1@.len() + 1 - i,
        {
            let mut j: usize = 1;
            while j <= x2.len()
                invariant
                    1 <= i <= x1@.len(),
                    1 <= j <= x2@.len() + 1,
                    win_wf(window@, x1@.len() as int, x2@.len() as int),
                    window@ == grid_rows(gn, i - 1) + grid_row(i as int, j - 1),
                decreases x2@.len() + 1 - j,
            {
                window.push((i, j));
                proof {
                    assert(window@ =~= grid_rows(gn, i - 1) + grid_row(i as int, j as int));
                }
                j = j + 1;
            }
            proof {
                assert(window@ =~= grid_rows(gn, i as int));
                assert(grid_rows(gn, i as int) + grid_row(i + 1, 0) =~= grid_rows(gn, i as int));
            }
            i = i + 1;
        }
        proof {
            if 1 <= x1@.len() && 1 <= x2@.len() {
                lemma_full_grid_exact::<D>(x1@, x2@, is_sub);
            } else {
                assert(grid_rows(gn, 0) =~= Seq::<(usize, usize)>::empty());
            }
        }
        let res = window_dtw::<D>(x1, x2, dist, &window, is_sub);
        proof {
            assert(fast_window::<D>(x1@, x2@, radius as int, is_sub) == window@);
            assert(res matches Ok(v) ==> win_result::<D>(
                x1@,
                x2@,
                is_sub,
                fast_window::<D>(x1@, x2@, radius as int, is_sub),
                v.0,
                v.1.0@,
                v.1.1@,
                v.2 as int,
            ));
        }
        res
    } else {
        let x1_shrunk = reduce_by_half(x1);
        let x2_shrunk = reduce_by_half(x2);
        let ghost q = x1@;
        let ghost r = x2@;
        let ghost rad = radius as int;
        let ghost q2 = spec_shrink(q);
        let ghost r2 = spec_shrink(r);
        proof {
            assert((x1@.len() / 2 + 1) * (x2@.len() / 2 + 1) <= (x1@.len() + 1) * (x2@.len() + 1))
                by (nonlinear_arith)
                requires
                    x1@.len() >= 0,
                    x2@.len() >= 0,
            ;
            // The halved vectors are exactly the specification's shrink.
            assert forall|t: int| 0 <= t < x1_shrunk@.len() implies #[trigger] x1_shrunk@[t]
                == q2[t] by {
                assert(x1_shrunk@[t] == avg2(q[2 * t] as int, q[2 * t + 1] as int));
                assert(i32::MIN <= avg2(q[2 * t] as int, q[2 * t + 1] as int) <= i32::MAX);
            }
            assert(x1_shrunk@ =~= q2);
            assert forall|t: int| 0 <= t < x2_shrunk@.len() implies #[trigger] x2_shrunk@[t]
                == r2[t] by {
                assert(x2_shrunk@[t] == avg2(r[2 * t] as int, r[2 * t + 1] as int));
                assert(i32::MIN <= avg2(r[2 * t] as int, r[2 * t + 1] as int) <= i32::MAX);
            }
            assert(x2_shrunk@ =~= r2);
        }
        let coarse = fast_dtw::<D>(x1_shrunk.as_slice(), x2_shrunk.as_slice(), dist, radius, is_sub);
        let (cscore, p1c, p2c, cstart) = match coarse {
            Ok((s, (pa, pb), st)) => (s, pa, pb, st),
            Err(e) => {
                proof {
                    assert(!fast_succeeds::<D>(q2, r2, rad));
                    assert(!fast_succeeds::<D>(q, r, rad));
                }
                return Err(e);
            },
        };
        let ghost w2 = fast_window::<D>(q2, r2, rad, is_sub);
        let ghost mp2 = win_map::<D>(q2, r2, is_sub, w2);
        let ghost endj2 = if is_sub {
            win_best::<D>(q2, r2, w2, w2.len() as int).1
        } else {
            r2.len() as int
        };
        proof {
            assert(win_result::<D>(q2, r2, is_sub, w2, cscore, p1c@, p2c@, cstart as int));
            lemma_fast_window_wf::<D>(q2, r2, rad, is_sub);
            lemma_win_map_wf::<D>(q2, r2, is_sub, w2, q2.len() as int, r2.len() as int);
            lemma_win_best_bounds::<D>(q2, r2, w2, w2.len() as int, r2.len() as int);
            lemma_win_path_wf(mp2, q2.len() as int, r2.len() as int, q2.len() as int, endj2);
            lemma_win_path_len(mp2, q2.len() as int, r2.len() as int, q2.len() as int, endj2);
            assert(p1c@.len() == win_path(mp2, q2.len() as int, endj2).len());
            assert(4 * p1c@.len() <= usize::MAX);
            assert forall|k: int|
                0 <= k < p1c@.len() implies 2 * #[trigger] p1c@[k] + 1 <= x1@.len() + 1 by {
                assert((p1c@[k] as int, p2c@[k] as int) == win_path(mp2, q2.len() as int, endj2)[k]);
            }
            assert forall|k: int|
                0 <= k < p2c@.len() implies 2 * #[trigger] p2c@[k] + 1 <= x2@.len() + 1 by {
                assert((p1c@[k] as int, p2c@[k] as int) == win_path(mp2, q2.len() as int, endj2)[k]);
            }
        }
        let window = expand_window(p1c.as_slice(), p2c.as_slice(), x2.len(), x1.len(), radius);
        proof {
            // The expanded window is exactly this level's specification
            // window: the coarse path is the recursion's backtracked path.
            assert(paired(p1c@, p2c@) =~= win_path(mp2, q2.len() as int, endj2));
            assert(window@ == spec_expand(
                win_path(mp2, q2.len() as int, endj2),
                r.len() as int,
                q.len() as int,
                rad,
            ));
            assert(fast_window::<D>(q, r, rad, is_sub) == window@);
        }
                let res = window_dtw::<D>(x1, x2, dist, &window, is_sub);
        proof {
            assert(res matches Ok(v) ==> win_result::<D>(
                q,
                r,
                is_sub,
                fast_window::<D>(q, r, rad, is_sub),
                v.0,
                v.1.0@,
                v.1.1@,
                v.2 as int,
            ));
            if !is_sub {
                assert(fast_succeeds::<D>(q2, r2, rad));
                assert(res is Ok <==> fast_succeeds::<D>(q, r, rad));
            }
        }
        res
    }
}


/// The window cells of row `i` over columns `1 ..= j`, in column order.
pub open spec fn grid_row(i: int, j: int) -> Seq<(usize, usize)>
    decreases j,
{
    if j <= 0 {
        Seq::empty()
    } else {
        grid_row(i, j - 1).push((i as usize, j as usize))
    }
}

/// The window holding every cell of the first `i` rows, row-major: the whole
/// cost grid when `i` is the query length.
pub open spec fn grid_rows(n: int, i: int) -> Seq<(usize, usize)>
    decreases i,
{
    if i <= 0 {
        Seq::empty()
    } else {
        grid_rows(n, i - 1) + grid_row(i, n)
    }
}

proof fn lemma_grid_row_index(i: int, j: int)
    requires
        0 <= j,
    ensures
        grid_row(i, j).len() == j,
        forall|t: int| 0 <= t < j ==> grid_row(i, j)[t] == (i as usize, (t + 1) as usize),
    decreases j,
{
    if j > 0 {
        lemma_grid_row_index(i, j - 1);
    }
}

proof fn lemma_grid_rows_len(n: int, i: int)
    requires
        0 <= n,
        0 <= i,
    ensures
        grid_rows(n, i).len() == i * n,
    decreases i,
{
    if i > 0 {
        lemma_grid_rows_len(n, i - 1);
        lemma_grid_row_index(i, n);
        assert(i * n == (i - 1) * n + n) by (nonlinear_arith);
        assert(grid_rows(n, i).len() == grid_rows(n, i - 1).len() + grid_row(i, n).len());
    } else {
        assert(i * n == 0) by (nonlinear_arith)
            requires
                i == 0,
        ;
    }
}

proof fn lemma_grid_rows_index(n: int, i: int, k: int)
    requires
        1 <= n,
        1 <= i,
        0 <= k < i * n,
    ensures
        grid_rows(n, i)[k] == ((k / n + 1) as usize, (k % n + 1) as usize),
    decreases i,
{
    lemma_grid_rows_len(n, i - 1);
    lemma_grid_row_index(i, n);
    assert(i * n == (i - 1) * n + n) by (nonlinear_arith);
    if k < (i - 1) * n {
        lemma_grid_rows_index(n, i - 1, k);
    } else {
        let t = k - (i - 1) * n;
        assert(0 <= t < n);
        assert(k == (i - 1) * n + t);
        vstd::arithmetic::div_mod::lemma_fundamental_div_mod_converse_div(k, n, i - 1, t);
        vstd::arithmetic::div_mod::lemma_fundamental_div_mod_converse_mod(k, n, i - 1, t);
        assert(grid_rows(n, i)[k] == grid_row(i, n)[t]);
    }
}

/// Evaluating the grid through cell `(i, j)` stores exactly the table cells
/// up to that point, each with its exact accumulated cost.
proof fn lemma_grid_map_exact<D: Dist>(q: Seq<i32>, r: Seq<i32>, sub: bool, i: int, j: int)
    requires
        1 <= i <= q.len(),
        0 <= j <= r.len(),
        q.len() <= usize::MAX,
        r.len() <= usize::MAX,
    ensures
        ({
            let mp = win_map::<D>(q, r, sub, grid_rows(r.len() as int, i - 1) + grid_row(i, j));
            &&& forall|a: int, b: int|
                #[trigger] mp.dom().contains((a, b)) <==> (1 <= a && 1 <= b && ((a < i && b
                    <= r.len()) || (a == i && b <= j)))
            &&& forall|a: int, b: int|
                #[trigger] mp.dom().contains((a, b)) ==> mp[(a, b)].0 == dp_cell::<D>(q, r, sub, a, b)
        }),
    decreases i, j,
{
    let n = r.len() as int;
    if j == 0 {
        if i == 1 {
            assert(grid_rows(n, 0) + grid_row(1, 0) =~= Seq::<(usize, usize)>::empty());
        } else {
            lemma_grid_map_exact::<D>(q, r, sub, i - 1, n);
            assert(grid_rows(n, i - 1) + grid_row(i, 0) =~= grid_rows(n, i - 2) + grid_row(
                i - 1,
                n,
            ));
        }
    } else {
        lemma_grid_map_exact::<D>(q, r, sub, i, j - 1);
        let w0 = grid_rows(n, i - 1) + grid_row(i, j - 1);
        let w = grid_rows(n, i - 1) + grid_row(i, j);
        assert(w.drop_last() =~= w0);
        assert(w.last() == (i as usize, j as usize));
        let mp0 = win_map::<D>(q, r, sub, w0);
        let mp = win_map::<D>(q, r, sub, w);
        let d = D::d(q[i - 1], r[j - 1]);
        assert(mp == mp0.insert((i, j), wstep(mp0, sub, i, j, d)));
        // Each predecessor reads its exact table value, stored or boundary.
        assert(wget(mp0, sub, i, j - 1) == dp_cell::<D>(q, r, sub, i, j - 1));
        assert(wget(mp0, sub, i - 1, j) == dp_cell::<D>(q, r, sub, i - 1, j));
        assert(wget(mp0, sub, i - 1, j - 1) == dp_cell::<D>(q, r, sub, i - 1, j - 1));
        assert(wstep(mp0, sub, i, j, d).0 == dp_cell::<D>(q, r, sub, i, j));
    }
}

/// Scanning grid cells below the last row selects nothing.
proof fn lemma_grid_best_early<D: Dist>(q: Seq<i32>, r: Seq<i32>, upto: int)
    requires
        1 <= q.len(),
        1 <= r.len(),
        q.len() <= usize::MAX,
        r.len() <= usize::MAX,
        0 <= upto <= (q.len() - 1) * r.len(),
    ensures
        win_best::<D>(q, r, grid_rows(r.len() as int, q.len() as int), upto) == (Cost::Inf, 0int),
    decreases upto,
{
    let m = q.len() as int;
    let n = r.len() as int;
    if upto > 0 {
        lemma_grid_best_early::<D>(q, r, upto - 1);
        lemma_grid_rows_len(n, m);
        assert((m - 1) * n <= m * n) by (nonlinear_arith)
            requires
                n >= 0,
                m >= 1,
        ;
        lemma_grid_rows_index(n, m, upto - 1);
        let c = grid_rows(n, m)[upto - 1];
        vstd::arithmetic::div_mod::lemma_fundamental_div_mod(upto - 1, n);
        assert((upto - 1) / n < m - 1 || ((upto - 1) / n == m - 1 && (upto - 1) % n == 0
            && upto - 1 == (m - 1) * n)) by {
            if (upto - 1) / n >= m - 1 {
                vstd::arithmetic::mul::lemma_mul_inequality(m - 1, (upto - 1) / n, n);
                assert((m - 1) * n <= ((upto - 1) / n) * n);
                assert(((upto - 1) / n) * n == n * ((upto - 1) / n)) by (nonlinear_arith);
            }
        }
        assert(c.0 < m);
    }
}

/// Scanning the last grid row folds the exact row minimum.
proof fn lemma_grid_best<D: Dist>(q: Seq<i32>, r: Seq<i32>, t: int)
    requires
        1 <= q.len(),
        1 <= r.len(),
        q.len() <= usize::MAX,
        r.len() <= usize::MAX,
        0 <= t <= r.len(),
    ensures
        win_best::<D>(q, r, grid_rows(r.len() as int, q.len() as int), (q.len() - 1) * r.len() + t).0
            == row_min::<D>(q, r, true, q.len() as int, t + 1),
    decreases t,
{
    let m = q.len() as int;
    let n = r.len() as int;
    let w = grid_rows(n, m);
    lemma_grid_rows_len(n, m);
    assert(m * n == (m - 1) * n + n) by (nonlinear_arith);
    if t == 0 {
        lemma_grid_best_early::<D>(q, r, (m - 1) * n);
        assert(dp_cell::<D>(q, r, true, m, 0) == Cost::Inf);
        assert(row_min::<D>(q, r, true, m, 0) == Cost::Inf);
    } else {
        lemma_grid_best::<D>(q, r, t - 1);
        let k = (m - 1) * n + t;
        assert(0 <= k - 1 < m * n) by (nonlinear_arith)
            requires
                k == (m - 1) * n + t,
                m * n == (m - 1) * n + n,
                1 <= t <= n,
                (m - 1) * n >= 0,
        ;
        lemma_grid_rows_index(n, m, k - 1);
        vstd::arithmetic::div_mod::lemma_fundamental_div_mod_converse_div(k - 1, n, m - 1, t - 1);
        vstd::arithmetic::div_mod::lemma_fundamental_div_mod_converse_mod(k - 1, n, m - 1, t - 1);
        assert(w[k - 1] == (m as usize, t as usize));
        lemma_grid_map_exact::<D>(q, r, true, m, n);
        assert(grid_rows(n, m) =~= grid_rows(n, m - 1) + grid_row(m, n));
        let mp = win_map::<D>(q, r, true, w);
        assert(mp.dom().contains((m, t)));
        assert(mp[(m, t)].0 == dp_cell::<D>(q, r, true, m, t));
    }
}

/// Law: on the whole cost grid the windowed evaluation is the exact one.
/// The bottom-right cell holds the full-mode score, and the best whole-query
/// cell is the exact subsequence score; this is the fallback the
/// coarse-to-fine search takes on short inputs.
pub proof fn lemma_full_grid_exact<D: Dist>(q: Seq<i32>, r: Seq<i32>, sub: bool)
    requires
        1 <= q.len(),
        1 <= r.len(),
        q.len() <= usize::MAX,
        r.len() <= usize::MAX,
    ensures
        ({
            let w = grid_rows(r.len() as int, q.len() as int);
            let mp = win_map::<D>(q, r, sub, w);
            &&& mp.dom().contains((q.len() as int, r.len() as int))
            &&& mp[(q.len() as int, r.len() as int)].0 == dp_cell::<D>(
                q,
                r,
                sub,
                q.len() as int,
                r.len() as int,
            )
            &&& win_best::<D>(q, r, w, w.len() as int).0 == row_min::<D>(
                q,
                r,
                true,
                q.len() as int,
                r.len() as int + 1,
            )
        }),
{
    let m = q.len() as int;
    let n = r.len() as int;
    lemma_grid_map_exact::<D>(q, r, sub, m, n);
    let w = grid_rows(n, m);
    assert(w =~= grid_rows(n, m - 1) + grid_row(m, n));
    let mp = win_map::<D>(q, r, sub, w);
    assert(mp.dom().contains((m, n)));
    assert(mp[(m, n)].0 == dp_cell::<D>(q, r, sub, m, n));
    lemma_grid_rows_len(n, m);
    assert(m * n == (m - 1) * n + n) by (nonlinear_arith);
    lemma_grid_best::<D>(q, r, n);
    assert(win_best::<D>(q, r, w, (m - 1) * n + n).0 == row_min::<D>(q, r, true, m, n + 1));
    assert(w.len() as int == (m - 1) * n + n);
}

} // verus!

