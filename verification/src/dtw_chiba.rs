//! Sakoe-Chiba banded dynamic time warping.
//!
//! Only cells within a diagonal band of the alignment table are stored, in a
//! flattened array.  `matrix_to_dp_idx` and `dp_to_matrix_idx` form a
//! bijection between band-local linear indices and table coordinates, so
//! backtracking can recover coordinates from any stored index.  The two
//! extreme diagonals of the band are seeded to infinity, so no alignment path
//! can leak out of the band; off-band cells are never read as finite.

use vstd::arithmetic::div_mod::{
    lemma_fundamental_div_mod, lemma_fundamental_div_mod_converse_div,
    lemma_fundamental_div_mod_converse_mod,
};
use vstd::prelude::*;

use crate::cost::{cost_add, cost_le, cost_min3, Cost, Dist};
use crate::dtw::path_matches;
use crate::errors::DtwError;

verus! {

/// Whether table coordinates `(i, j)` lie within the diagonal band.
pub open spec fn in_band(band: int, i: int, j: int) -> bool {
    -((band - 1) / 2) <= j - i <= (band - 1) / 2
}

/// The band-local linear index of table coordinates `(i, j)`.
pub open spec fn spec_matrix_to_dp(i: int, j: int, band: int) -> int {
    band * i + j - i + band / 2
}

/// The table coordinates of band-local linear index `x`.
pub open spec fn spec_dp_to_matrix(x: int, band: int) -> (int, int) {
    (x / band, x / band + x % band - (band - 1) / 2)
}

/// Whether linear index `x` denotes an in-band cell with a reference
/// coordinate between `1` and `len`.
pub open spec fn spec_dp_valid(x: int, band: int, len: int) -> bool {
    x / band + x % band <= (band - 1) / 2 + len && x / band + x % band > (band - 1) / 2
}

/// Law: on every in-band pair of table coordinates, the band-local linear
/// index mapping is inverted exactly by the coordinate mapping.
pub proof fn lemma_matrix_dp_round_trip(i: int, j: int, band: int)
    requires
        band >= 1,
        band % 2 == 1,
        0 <= i,
        0 <= j,
        in_band(band, i, j),
    ensures
        spec_dp_to_matrix(spec_matrix_to_dp(i, j, band), band) == (i, j),
{
    let o = j - i + band / 2;
    let x = spec_matrix_to_dp(i, j, band);
    assert(band / 2 == (band - 1) / 2);
    assert(0 <= o < band);
    assert(x == i * band + o) by (nonlinear_arith)
        requires
            x == band * i + j - i + band / 2,
            o == j - i + band / 2,
    ;
    lemma_fundamental_div_mod_converse_div(x, band, i, o);
    lemma_fundamental_div_mod_converse_mod(x, band, i, o);
}

/// Law: every linear index is recovered exactly from its table coordinates.
pub proof fn lemma_dp_matrix_round_trip(x: int, band: int)
    requires
        band >= 1,
        band % 2 == 1,
        0 <= x,
    ensures
        spec_matrix_to_dp(spec_dp_to_matrix(x, band).0, spec_dp_to_matrix(x, band).1, band) == x,
{
    lemma_fundamental_div_mod(x, band);
    assert(band * (x / band) == (x / band) * band) by (nonlinear_arith);
}

/// Distinct in-band coordinates use distinct linear indices.
proof fn lemma_matrix_to_dp_injective(i1: int, j1: int, i2: int, j2: int, band: int)
    requires
        band >= 1,
        band % 2 == 1,
        0 <= i1,
        0 <= j1,
        0 <= i2,
        0 <= j2,
        in_band(band, i1, j1),
        in_band(band, i2, j2),
        spec_matrix_to_dp(i1, j1, band) == spec_matrix_to_dp(i2, j2, band),
    ensures
        i1 == i2 && j1 == j2,
{
    lemma_matrix_dp_round_trip(i1, j1, band);
    lemma_matrix_dp_round_trip(i2, j2, band);
}

/// Maps a band-local linear index back to table coordinates.
pub fn dp_to_matrix_idx(x: usize, band: usize) -> (res: (usize, usize))
    requires
        band >= 1,
        x as int / band as int + x as int % band as int >= (band - 1) as int / 2,
    ensures
        (res.0 as int, res.1 as int) == spec_dp_to_matrix(x as int, band as int),
{
    proof {
        lemma_div_mod_sum_le(x as int, band as int);
    }
    (x / band, x / band + x % band - (band - 1) / 2)
}

/// The quotient and the remainder together never exceed the dividend.
proof fn lemma_div_mod_sum_le(x: int, b: int)
    requires
        x >= 0,
        b >= 1,
    ensures
        x / b + x % b <= x,
        x / b >= 0,
        0 <= x % b < b,
{
    lemma_fundamental_div_mod(x, b);
    vstd::arithmetic::div_mod::lemma_div_pos_is_pos(x, b);
    assert(b * (x / b) >= x / b) by (nonlinear_arith)
        requires
            x / b >= 0,
            b >= 1,
    ;
}

/// Maps table coordinates to their band-local linear index.
pub fn matrix_to_dp_idx(i: usize, j: usize, band: usize) -> (res: usize)
    requires
        band >= 1,
        band % 2 == 1,
        in_band(band as int, i as int, j as int),
        band as int * (i + 1) <= usize::MAX,
    ensures
        res as int == spec_matrix_to_dp(i as int, j as int, band as int),
{
    assert(band as int * i <= band as int * (i + 1) - band && i <= band as int * i)
        by (nonlinear_arith)
        requires
            band >= 1,
            i >= 0,
    ;
    let off = j + band / 2 - i;
    assert(band * i + off <= usize::MAX && band * i >= 0) by (nonlinear_arith)
        requires
            band as int * (i + 1) <= usize::MAX,
            0 <= off < band,
            band >= 1,
            i >= 0,
    ;
    band * i + off
}

/// Whether a linear index denotes an in-band cell whose reference coordinate
/// lies between `1` and `len`.
pub fn dp_valid_idx(x: usize, band: usize, len: usize) -> (res: bool)
    requires
        band >= 1,
        (band - 1) as int / 2 + len <= usize::MAX,
    ensures
        res == spec_dp_valid(x as int, band as int, len as int),
{
    proof {
        lemma_div_mod_sum_le(x as int, band as int);
    }
    x / band + x % band <= (band - 1) / 2 + len && x / band + x % band > (band - 1) / 2
}

/// Whether the band width and the sequence lengths are acceptable: the band
/// must be odd, at least three, no wider than either sequence, and the two
/// sequences must have equal lengths.
pub open spec fn band_ok(x1len: int, x2len: int, band: int) -> bool {
    &&& band != 1
    &&& band % 2 == 1
    &&& band <= x1len
    &&& band <= x2len
    &&& x1len == x2len
}

/// Law: a banded alignment is refused exactly when the band width is one or
/// even or wider than a sequence, or the lengths differ.
pub fn detect_err_about_band(x1len: usize, x2len: usize, band: usize) -> (res: Result<
    (),
    DtwError,
>)
    ensures
        res is Ok <==> band_ok(x1len as int, x2len as int, band as int),
        res matches Err(e) ==> e == DtwError::InvalidInput,
{
    if band == 1 {
        Err(DtwError::InvalidInput)
    } else if band % 2 == 0 {
        Err(DtwError::InvalidInput)
    } else if band > x1len || band > x2len {
        Err(DtwError::InvalidInput)
    } else if x1len != x2len {
        Err(DtwError::InvalidInput)
    } else {
        Ok(())
    }
}

/// Whether `(i, j)` is one of the seeded band cells: the table border or one
/// of the band's two extreme diagonals, all fixed at infinity (except the
/// origin).
pub open spec fn band_border(band: int, i: int, j: int) -> bool {
    i == 0 || j == 0 || i - j == (band - 1) / 2 || j - i == (band - 1) / 2
}

/// The accumulated cost of in-band cell `(i, j)`: the same recurrence as the
/// unrestricted table, but every off-band or seeded cell is infinite.
pub open spec fn chiba_cell<D: Dist>(q: Seq<i32>, r: Seq<i32>, band: int, i: int, j: int) -> Cost
    decreases i + j,
{
    if i < 0 || j < 0 || !in_band(band, i, j) {
        Cost::Inf
    } else if i == 0 && j == 0 {
        Cost::Fin(0)
    } else if band_border(band, i, j) {
        Cost::Inf
    } else {
        cost_add(
            cost_min3(
                chiba_cell::<D>(q, r, band, i, j - 1),
                chiba_cell::<D>(q, r, band, i - 1, j),
                chiba_cell::<D>(q, r, band, i - 1, j - 1),
            ),
            D::d(q[i - 1], r[j - 1]),
        )
    }
}

/// The score of the banded alignment: the bottom-right in-band cell.
pub open spec fn chiba_score<D: Dist>(q: Seq<i32>, r: Seq<i32>, band: int) -> Cost {
    chiba_cell::<D>(q, r, band, q.len() as int, q.len() as int)
}

/// The cell the banded backtracking walk visits after `(i, j)`: the
/// cheapest in-band predecessor, ties resolved diagonal first, then the
/// left (reference-gap) step, then the upward step.
pub open spec fn cb_next<D: Dist>(q: Seq<i32>, r: Seq<i32>, band: int, i: int, j: int) -> (
    int,
    int,
) {
    let mat = chiba_cell::<D>(q, r, band, i - 1, j - 1);
    let gap = chiba_cell::<D>(q, r, band, i, j - 1);
    let del = chiba_cell::<D>(q, r, band, i - 1, j);
    if cost_le(mat, gap) && cost_le(mat, del) {
        (i - 1, j - 1)
    } else if cost_le(gap, del) {
        (i, j - 1)
    } else {
        (i - 1, j)
    }
}

/// The banded alignment path recovered by backtracking from `(i, j)`.
pub open spec fn cb_path<D: Dist>(q: Seq<i32>, r: Seq<i32>, band: int, i: int, j: int) -> Seq<
    (int, int),
>
    decreases vstd::math::max(i + j, 0) when 0 <= j
{
    if i <= 0 {
        Seq::empty()
    } else {
        let (ni, nj) = cb_next::<D>(q, r, band, i, j);
        cb_path::<D>(q, r, band, ni, nj).push((i - 1, j - 1))
    }
}

/// Whether cell `(a, b)` comes before `(i, j)` in the order the band is
/// filled: row by row, each row left to right.
pub open spec fn lex_before(a: int, b: int, i: int, j: int) -> bool {
    a < i || (a == i && b < j)
}

/// Whether the flattened band array agrees with `chiba_cell` on every seeded
/// cell and on every interior cell filled before position `(i, j)`.
pub open spec fn banddp_ok<D: Dist>(
    q: Seq<i32>,
    r: Seq<i32>,
    band: int,
    dp: Seq<Cost>,
    i: int,
    j: int,
) -> bool {
    &&& dp.len() == (q.len() + 1) * band
    &&& forall|a: int, b: int|
        0 <= a <= q.len() && 0 <= b <= q.len() && in_band(band, a, b) && (band_border(band, a, b)
            || (a == 0 && b == 0) || lex_before(a, b, i, j)) ==> dp[
            #[trigger] spec_matrix_to_dp(a, b, band)
        ] == chiba_cell::<D>(q, r, band, a, b)
}

/// Every in-band cell's linear index lies inside the flattened array.
proof fn lemma_mtd_range(a: int, b: int, band: int, n: int)
    requires
        band >= 1,
        band % 2 == 1,
        0 <= a <= n,
        0 <= b,
        in_band(band, a, b),
    ensures
        0 <= spec_matrix_to_dp(a, b, band) < (n + 1) * band,
{
    let o = b - a + band / 2;
    assert(0 <= o < band);
    assert(0 <= band * a + o < (n + 1) * band) by (nonlinear_arith)
        requires
            0 <= o < band,
            0 <= a <= n,
            band >= 1,
    ;
}

/// Within the band array's bounds, a row's linear indices fit in `usize`.
proof fn lemma_row_fits(i: int, band: int, n: int)
    requires
        band >= 1,
        0 <= i <= n,
        (n + 1) * band <= usize::MAX,
    ensures
        band * (i + 1) <= usize::MAX,
{
    vstd::arithmetic::mul::lemma_mul_inequality(i + 1, n + 1, band);
    assert((i + 1) * band == band * (i + 1)) by (nonlinear_arith);
}

/// Every cell on the main diagonal of the band is reachable, hence finite.
proof fn lemma_chiba_diag_fin<D: Dist>(q: Seq<i32>, r: Seq<i32>, band: int, i: int)
    requires
        band >= 3,
        band % 2 == 1,
        0 <= i <= q.len(),
        q.len() == r.len(),
    ensures
        chiba_cell::<D>(q, r, band, i, i) is Fin,
    decreases i,
{
    if i > 0 {
        lemma_chiba_diag_fin::<D>(q, r, band, i - 1);
    }
}

/// Fills the flattened band array so that every in-band cell holds its
/// `chiba_cell` value.  Cells outside the band are never touched or read.
#[verifier::loop_isolation(false)]
fn chiba_fill<D: Dist>(x1: &[i32], x2: &[i32], dist: &D, band: usize) -> (dp: Vec<Cost>)
    requires
        x1@.len() == x2@.len(),
        3 <= band <= x1@.len(),
        band % 2 == 1,
        (x1@.len() + 1) * band <= usize::MAX,
    ensures
        banddp_ok::<D>(x1@, x2@, band as int, dp@, x1@.len() as int + 1, 0),
{
    let n = x1.len();
    let ghost q = x1@;
    let ghost r = x2@;
    let ghost bd = band as int;
    assert((n + 1) * band == n * band + band && n * band >= n) by (nonlinear_arith)
        requires
            band >= 3,
            n >= 0,
    ;
    let total = (n + 1) * band;
    let mut dp: Vec<Cost> = vec![Cost::Inf; total];
    proof {
        lemma_row_fits(0, bd, n as int);
    }
    let idx00 = matrix_to_dp_idx(0, 0, band);
    proof {
        lemma_mtd_range(0, 0, bd, n as int);
    }
    dp.set(idx00, Cost::Fin(0));
    proof {
        assert forall|a: int, b: int|
            0 <= a <= n && 0 <= b <= n && in_band(bd, a, b) && (band_border(bd, a, b) || (a == 0
                && b == 0) || lex_before(a, b, 1, 0)) implies dp@[
            #[trigger] spec_matrix_to_dp(a, b, bd)
        ] == chiba_cell::<D>(q, r, bd, a, b) by {
            lemma_mtd_range(a, b, bd, n as int);
            if spec_matrix_to_dp(a, b, bd) == idx00 {
                lemma_matrix_to_dp_injective(a, b, 0, 0, bd);
            }
        }
    }
    let half = (band - 3) / 2;
    let mut i: usize = 1;
    while i <= n
        invariant
            1 <= i <= n + 1,
            banddp_ok::<D>(q, r, bd, dp@, i as int, 0),
        decreases n + 1 - i,
    {
        let jlo = if i > half {
            i - half
        } else {
            1
        };
        let jhi = if i + half <= n {
            i + half
        } else {
            n
        };
        let mut j: usize = jlo;
        while j <= jhi
            invariant
                1 <= i <= n,
                jlo <= j <= jhi + 1,
                jlo == if i as int - half >= 1 { i as int - half } else { 1int },
                jhi == if i + half <= n { i as int + half } else { n as int },
                banddp_ok::<D>(q, r, bd, dp@, i as int, j as int),
            decreases jhi + 1 - j,
        {
            let ghost olddp = dp@;
            let cost = dist.dist(x1[i - 1], x2[j - 1]);
            proof {
                lemma_row_fits(i as int - 1, bd, n as int);
                lemma_row_fits(i as int, bd, n as int);
            }
            let i_diag = matrix_to_dp_idx(i - 1, j - 1, band);
            let i_up = matrix_to_dp_idx(i - 1, j, band);
            let i_left = matrix_to_dp_idx(i, j - 1, band);
            let i_cur = matrix_to_dp_idx(i, j, band);
            proof {
                lemma_mtd_range(i as int - 1, j as int - 1, bd, n as int);
                lemma_mtd_range(i as int - 1, j as int, bd, n as int);
                lemma_mtd_range(i as int, j as int - 1, bd, n as int);
                lemma_mtd_range(i as int, j as int, bd, n as int);
            }
            let diag = dp[i_diag];
            let up = dp[i_up];
            let left = dp[i_left];
            let m3 = left.min(&up.min(&diag));
            dp.set(i_cur, m3.add(cost));
            proof {
                assert(dp@[i_cur as int] == chiba_cell::<D>(q, r, bd, i as int, j as int));
                assert forall|a: int, b: int|
                    0 <= a <= n && 0 <= b <= n && in_band(bd, a, b) && (band_border(bd, a, b) || (
                    a == 0 && b == 0) || lex_before(a, b, i as int, j + 1)) implies dp@[
                    #[trigger] spec_matrix_to_dp(a, b, bd)
                ] == chiba_cell::<D>(q, r, bd, a, b) by {
                    lemma_mtd_range(a, b, bd, n as int);
                    if spec_matrix_to_dp(a, b, bd) == i_cur as int {
                        lemma_matrix_to_dp_injective(a, b, i as int, j as int, bd);
                    } else {
                        assert(dp@[spec_matrix_to_dp(a, b, bd)] == olddp[spec_matrix_to_dp(
                            a,
                            b,
                            bd,
                        )]);
                    }
                }
            }
            j = j + 1;
        }
        proof {
            assert forall|a: int, b: int|
                0 <= a <= n && 0 <= b <= n && in_band(bd, a, b) && (band_border(bd, a, b) || (a
                    == 0 && b == 0) || lex_before(a, b, i + 1, 0)) implies dp@[
                #[trigger] spec_matrix_to_dp(a, b, bd)
            ] == chiba_cell::<D>(q, r, bd, a, b) by {
                lemma_mtd_range(a, b, bd, n as int);
                if a == i && !band_border(bd, a, b) && !(a == 0 && b == 0) {
                    assert(b <= jhi);
                }
            }
        }
        i = i + 1;
    }
    dp
}

/// Reads the cost of cell `(a, b)` from the filled band array; off-band
/// cells read as infinity and are never read as finite.
#[verifier::loop_isolation(false)]
fn band_get<D: Dist>(x1: &[i32], x2: &[i32], dp: &Vec<Cost>, band: usize, a: usize, b: usize) -> (c: Cost)
    requires
        3 <= band <= x1@.len(),
        band % 2 == 1,
        (x1@.len() + 1) * band <= usize::MAX,
        banddp_ok::<D>(x1@, x2@, band as int, dp@, x1@.len() as int + 1, 0),
        a <= x1@.len(),
        b <= x1@.len(),
    ensures
        c == chiba_cell::<D>(x1@, x2@, band as int, a as int, b as int),
{
    let half = (band - 1) / 2;
    proof {
        assert((x1@.len() + 1) * band >= x1@.len() + band) by (nonlinear_arith)
            requires
                band >= 3,
                x1@.len() >= 0,
        ;
    }
    if b + half < a || a + half < b {
        Cost::Inf
    } else {
        proof {
            lemma_row_fits(a as int, band as int, x1@.len() as int);
        }
        let idx = matrix_to_dp_idx(a, b, band);
        proof {
            lemma_mtd_range(a as int, b as int, band as int, x1@.len() as int);
        }
        dp[idx]
    }
}

/// Walks the filled band back from the bottom-right in-band cell and returns
/// the alignment path in ascending order.
#[verifier::loop_isolation(false)]
fn chiba_backtrack<D: Dist>(x1: &[i32], x2: &[i32], dp: &Vec<Cost>, band: usize) -> (res: (
    Vec<usize>,
    Vec<usize>,
))
    requires
        x1@.len() == x2@.len(),
        3 <= band <= x1@.len(),
        band % 2 == 1,
        (x1@.len() + 1) * band <= usize::MAX,
        banddp_ok::<D>(x1@, x2@, band as int, dp@, x1@.len() as int + 1, 0),
    ensures
        path_matches(
            res.0@,
            res.1@,
            cb_path::<D>(x1@, x2@, band as int, x1@.len() as int, x1@.len() as int),
        ),
{
    let n = x1.len();
    let ghost q = x1@;
    let ghost r = x2@;
    let ghost bd = band as int;
    let mut ci: usize = n;
    let mut cj: usize = n;
    let mut p1: Vec<usize> = Vec::new();
    let mut p2: Vec<usize> = Vec::new();
    proof {
        lemma_chiba_diag_fin::<D>(q, r, bd, n as int);
    }
    while ci > 0
        invariant
            ci <= n,
            cj <= n,
            ci >= 1 ==> cj >= 1 && chiba_cell::<D>(q, r, bd, ci as int, cj as int) is Fin,
            p1@.len() == p2@.len(),
            cb_path::<D>(q, r, bd, n as int, n as int) =~= cb_path::<D>(q, r, bd, ci as int, cj as int)
                + Seq::new(
                p1@.len(),
                |k: int| (p1@[p1@.len() - 1 - k] as int, p2@[p2@.len() - 1 - k] as int),
            ),
        decreases ci + cj,
    {
        let ghost oldpos = (ci as int, cj as int);
        p1.push(ci - 1);
        p2.push(cj - 1);
        let mat = band_get::<D>(x1, x2, dp, band, ci - 1, cj - 1);
        let gap = band_get::<D>(x1, x2, dp, band, ci, cj - 1);
        let del = band_get::<D>(x1, x2, dp, band, ci - 1, cj);
        proof {
            // The cell the walk stands on is finite, so its cheapest
            // predecessor is finite as well.
            assert(chiba_cell::<D>(q, r, bd, oldpos.0, oldpos.1) == cost_add(
                cost_min3(gap, del, mat),
                D::d(q[oldpos.0 - 1], r[oldpos.1 - 1]),
            ));
        }
        if mat.le(&gap) && mat.le(&del) {
            proof {
                assert(mat is Fin);
            }
            ci = ci - 1;
            cj = cj - 1;
        } else if gap.le(&del) {
            proof {
                assert(gap is Fin);
            }
            cj = cj - 1;
        } else {
            proof {
                assert(del is Fin);
            }
            ci = ci - 1;
        }
        proof {
            assert((ci as int, cj as int) == cb_next::<D>(q, r, bd, oldpos.0, oldpos.1));
            if ci >= 1 && cj == 0 {
                assert(chiba_cell::<D>(q, r, bd, ci as int, 0) == Cost::Inf);
                assert(false);
            }
            assert(cb_path::<D>(q, r, bd, oldpos.0, oldpos.1) == cb_path::<D>(
                q,
                r,
                bd,
                ci as int,
                cj as int,
            ).push((oldpos.0 - 1, oldpos.1 - 1)));
            assert(cb_path::<D>(q, r, bd, n as int, n as int) =~= cb_path::<D>(
                q,
                r,
                bd,
                ci as int,
                cj as int,
            ) + Seq::new(
                p1@.len(),
                |k: int| (p1@[p1@.len() - 1 - k] as int, p2@[p2@.len() - 1 - k] as int),
            ));
        }
    }
    let rev1 = crate::dtw::reversed(&p1);
    let rev2 = crate::dtw::reversed(&p2);
    proof {
        assert(cb_path::<D>(q, r, bd, ci as int, cj as int) =~= Seq::<(int, int)>::empty());
        assert(path_matches(rev1@, rev2@, cb_path::<D>(q, r, bd, n as int, n as int)));
    }
    (rev1, rev2)
}

/// Whether `(score, p1, p2, start)` is exactly the outcome of the banded
/// alignment: the bottom-right in-band score, the backtracked in-band path,
/// and start offset zero.
pub open spec fn chiba_result<D: Dist>(
    q: Seq<i32>,
    r: Seq<i32>,
    band: int,
    score: Cost,
    p1: Seq<usize>,
    p2: Seq<usize>,
    start: int,
) -> bool {
    &&& score == chiba_score::<D>(q, r, band)
    &&& score is Fin
    &&& path_matches(p1, p2, cb_path::<D>(q, r, band, q.len() as int, q.len() as int))
    &&& start == 0
}

/// Banded dynamic time warping: a full alignment restricted to a Sakoe-Chiba
/// band of odd width.  The score is the bottom-right in-band cell; the start
/// offset is always zero.
pub fn dtw_chiba<D: Dist>(x1: &[i32], x2: &[i32], dist: &D, band: usize) -> (res: Result<
    (Cost, (Vec<usize>, Vec<usize>), usize),
    DtwError,
>)
    requires
        (x1@.len() + 1) * band <= usize::MAX,
    ensures
        res is Ok <==> band_ok(x1@.len() as int, x2@.len() as int, band as int),
        res matches Err(e) ==> e == DtwError::InvalidInput,
        res matches Ok(v) ==> chiba_result::<D>(x1@, x2@, band as int, v.0, v.1.0@, v.1.1@, v.2 as int),
{
    detect_err_about_band(x1.len(), x2.len(), band)?;
    let n = x1.len();
    let ghost q = x1@;
    let ghost r = x2@;
    let dp = chiba_fill::<D>(x1, x2, dist, band);
    proof {
        lemma_row_fits(n as int, band as int, n as int);
    }
    let score_idx = matrix_to_dp_idx(n, n, band);
    proof {
        lemma_mtd_range(n as int, n as int, band as int, n as int);
        lemma_chiba_diag_fin::<D>(q, r, band as int, n as int);
    }
    let score = dp[score_idx];
    let (p1, p2) = chiba_backtrack::<D>(x1, x2, &dp, band);
    Ok((score, (p1, p2), 0))
}

} // verus!
