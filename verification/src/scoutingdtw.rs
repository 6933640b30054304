//! Two-phase scouting subsequence search.
//!
//! Phase one runs a cheap threshold sweep of a short query prefix against the
//! whole reference in reference-reversed order, keeps the positions whose
//! backward score is within the k-th order statistic, and merges overlapping
//! scout windows into candidate regions ranked by score.  Phase two confirms
//! each region with the full query under the early-abandoning threshold
//! search, returning the first region that beats the threshold, else the best
//! confirmed region.

use vstd::prelude::*;

use crate::cost::Dist;
use crate::errors::DtwError;
use crate::thresholddtw::{sat_add_u, th_cell, th_row_exceeds, th_score, thresholddtw, UNREACHED};

verus! {

/// The default number of scouts kept by the first phase.
pub const NUM_SCOUT: usize = 20;

/// The default number of packs the query is divided into.
pub const PACK_SIZE: usize = 5;

/// The number of scouts a caller asked for, or the default.
pub open spec fn scouts_of(o: Option<usize>) -> int {
    match o {
        Some(n) => n as int,
        None => NUM_SCOUT as int,
    }
}

/// The number of packs a caller asked for, or the default.
pub open spec fn packs_of(o: Option<usize>) -> int {
    match o {
        Some(n) => n as int,
        None => PACK_SIZE as int,
    }
}

/// Relies on order_stat::kth: it places the k-th smallest element at index
/// `k`, permutes the slice so that smaller elements lie before index `k` and
/// larger ones after, and returns a reference to that element.
#[verifier::external_body]
fn kth_smallest(v: &mut Vec<u64>, k: usize) -> (r: u64)
    requires
        k < old(v)@.len(),
    ensures
        final(v)@.len() == old(v)@.len(),
        final(v)@.to_multiset() == old(v)@.to_multiset(),
        r == final(v)@[k as int],
        forall|i: int| 0 <= i < k ==> final(v)@[i] <= r,
        forall|i: int| k < i < final(v)@.len() ==> r <= final(v)@[i],
{
    *order_stat::kth(v.as_mut_slice(), k)
}

/// Whether every candidate region is a well-formed window of a reference of
/// length `maxlen`.
pub open spec fn regions_wf(cands: Seq<(usize, usize)>, maxlen: int) -> bool {
    forall|k: int|
        0 <= k < cands.len() ==> (#[trigger] cands[k]).0 < cands[k].1 && cands[k].1 <= maxlen
}

/// The backward sweep's final row: the rolled-table cells of the reversed
/// scout query against the reversed reference, one per sweep index.
pub open spec fn backward_row<D: Dist>(q: Seq<i32>, r: Seq<i32>) -> Seq<u64> {
    Seq::new((r.len() + 1) as nat, |j: int| th_cell::<D>(q.reverse(), r.reverse(), q.len() as int, j))
}

/// Whether the backward sweep abandons: some scout row lies entirely above
/// the threshold.
pub open spec fn sweep_abandons<D: Dist>(q: Seq<i32>, r: Seq<i32>, threshold: u64) -> bool {
    exists|i: int|
        1 <= i <= q.len() && #[trigger] th_row_exceeds::<D>(q.reverse(), r.reverse(), threshold, i)
}

/// Whether `v` is the `k`-th order statistic of `row`: some reordering of
/// the row holds `v` at index `k`, with no smaller value after it and no
/// larger one before.
pub open spec fn is_order_statistic(row: Seq<u64>, k: int, v: u64) -> bool {
    exists|p: Seq<u64>|
        {
            &&& #[trigger] p.to_multiset() == row.to_multiset()
            &&& p.len() == row.len()
            &&& 0 <= k < p.len()
            &&& p[k] == v
            &&& forall|t: int| 0 <= t < k ==> p[t] <= v
            &&& forall|t: int| k < t < p.len() ==> v <= p[t]
        }
}

/// The scouts whose backward score is at or below the cutoff, walking the
/// sweep indices from `n` down to `c`: sweep index `idx` stands for
/// reference position `n - idx`, so positions come out ascending.
pub open spec fn scouts_from(row: Seq<u64>, cutoff: u64, n: int, c: int) -> Seq<(u64, usize)>
    decreases n + 1 - c,
{
    if c > n {
        Seq::empty()
    } else {
        scouts_from(row, cutoff, n, c + 1) + (if row[c] <= cutoff {
            seq![(row[c], (n - c) as usize)]
        } else {
            Seq::empty()
        })
    }
}

/// The smaller of two bounds.
pub open spec fn clip(a: int, b: int) -> int {
    if a <= b {
        a
    } else {
        b
    }
}

/// The merge state after the first `t` scouts: the regions already emitted,
/// and the open region's start, end and best score.
pub open spec fn merge_state(
    scouts: Seq<(u64, usize)>,
    subreflen: int,
    maxlen: int,
    t: int,
) -> (Seq<(u64, usize, usize)>, int, int, u64)
    decreases t,
{
    if t <= 0 {
        (
            Seq::empty(),
            scouts[0].1 as int,
            clip(scouts[0].1 + subreflen, maxlen),
            scouts[0].0,
        )
    } else {
        let prev = merge_state(scouts, subreflen, maxlen, t - 1);
        let st = scouts[t - 1].1 as int;
        let sc = scouts[t - 1].0;
        if st <= prev.2 {
            // Overlapping: fuse, keep the smaller score, extend the end.
            (
                prev.0,
                prev.1,
                clip(st + subreflen, maxlen),
                if sc < prev.3 {
                    sc
                } else {
                    prev.3
                },
            )
        } else {
            // Far away: emit the open region (unless degenerate) and start a
            // new one with a small left-margin backoff.
            let done = if prev.1 < prev.2 {
                prev.0.push((prev.3, prev.1 as usize, prev.2 as usize))
            } else {
                prev.0
            };
            let ns: int = if st < 20 {
                0
            } else {
                st - 20
            };
            (done, ns, clip(ns + subreflen, maxlen), sc)
        }
    }
}

/// The merged regions of a non-empty scout list, final open region included.
pub open spec fn merged_regions(
    scouts: Seq<(u64, usize)>,
    subreflen: int,
    maxlen: int,
) -> Seq<(u64, usize, usize)> {
    let fin_state = merge_state(scouts, subreflen, maxlen, scouts.len() as int);
    if fin_state.1 < fin_state.2 {
        fin_state.0.push((fin_state.3, fin_state.1 as usize, fin_state.2 as usize))
    } else {
        fin_state.0
    }
}

/// Where a region is inserted to keep scores ascending: scanning from the
/// end, past every strictly larger score.
pub open spec fn ins_pos(r: Seq<(u64, usize, usize)>, x: u64, p: int) -> int
    decreases p,
{
    if p <= 0 {
        0
    } else if r[p - 1].0 > x {
        ins_pos(r, x, p - 1)
    } else {
        p
    }
}

/// The regions sorted by ascending score, by repeated insertion.
pub open spec fn sort_regions(v: Seq<(u64, usize, usize)>) -> Seq<(u64, usize, usize)>
    decreases v.len(),
{
    if v.len() == 0 {
        Seq::empty()
    } else {
        let prev = sort_regions(v.drop_last());
        prev.insert(ins_pos(prev, v.last().0, prev.len() as int), v.last())
    }
}

/// The regions' windows, scores dropped.
pub open spec fn to_pairs(v: Seq<(u64, usize, usize)>) -> Seq<(usize, usize)> {
    Seq::new(v.len(), |k: int| (v[k].1, v[k].2))
}

/// The candidate regions phase one proposes for a given cutoff: scouts at or
/// below the cutoff, merged into regions, ranked by ascending score.
pub open spec fn scout_candidates<D: Dist>(
    q: Seq<i32>,
    r: Seq<i32>,
    cutoff: u64,
    subreflen: int,
) -> Seq<(usize, usize)> {
    let scouts = scouts_from(backward_row::<D>(q, r), cutoff, r.len() as int, 0);
    if scouts.len() == 0 {
        Seq::empty()
    } else {
        to_pairs(sort_regions(merged_regions(scouts, subreflen, r.len() as int)))
    }
}

/// Sorts scored regions by ascending score: exactly [`sort_regions`].
/// Every element of the result is an element of the input.
#[verifier::loop_isolation(false)]
fn sort_by_score(v: Vec<(u64, usize, usize)>) -> (r: Vec<(u64, usize, usize)>)
    ensures
        r@ == sort_regions(v@),
        r@.len() == v@.len(),
        forall|a: int, b: int| 0 <= a <= b < r@.len() ==> (#[trigger] r@[a]).0 <= (#[trigger] r@[b]).0,
        forall|k: int| 0 <= k < r@.len() ==> v@.contains(#[trigger] r@[k]),
{
    let mut r: Vec<(u64, usize, usize)> = Vec::new();
    let mut t: usize = 0;
    while t < v.len()
        invariant
            t <= v@.len(),
            r@.len() == t,
            r@ == sort_regions(v@.take(t as int)),
            forall|a: int, b: int|
                0 <= a <= b < r@.len() ==> (#[trigger] r@[a]).0 <= (#[trigger] r@[b]).0,
            forall|k: int| 0 <= k < r@.len() ==> v@.contains(#[trigger] r@[k]),
        decreases v@.len() - t,
    {
        let item = v[t];
        // Find the insertion point that keeps the scores ascending.
        let mut pos: usize = r.len();
        while pos > 0 && r[pos - 1].0 > item.0
            invariant
                pos <= r@.len(),
                ins_pos(r@, item.0, r@.len() as int) == ins_pos(r@, item.0, pos as int),
                forall|b: int| pos <= b < r@.len() ==> (#[trigger] r@[b]).0 >= item.0,
            decreases pos,
        {
            pos = pos - 1;
        }
        let ghost oldr = r@;
        r.insert(pos, item);
        proof {
            assert(pos as int == ins_pos(oldr, item.0, oldr.len() as int));
            assert(v@.take(t + 1).drop_last() =~= v@.take(t as int));
            assert(v@.take(t + 1).last() == v@[t as int]);
            assert(r@ == sort_regions(v@.take(t + 1)));
            assert(v@.contains(item));
            assert forall|k: int| 0 <= k < r@.len() implies v@.contains(#[trigger] r@[k]) by {
                if k < pos {
                    assert(r@[k] == oldr[k]);
                } else if k > pos {
                    assert(r@[k] == oldr[k - 1]);
                }
            }
            assert forall|a: int, b: int|
                0 <= a <= b < r@.len() implies (#[trigger] r@[a]).0 <= (#[trigger] r@[b]).0 by {
                if a < pos && b < pos {
                    assert(r@[a] == oldr[a] && r@[b] == oldr[b]);
                } else if a < pos && b == pos {
                    assert(r@[a] == oldr[a]);
                } else if a < pos && b > pos {
                    assert(r@[a] == oldr[a] && r@[b] == oldr[b - 1]);
                } else if a == pos && b > pos {
                    assert(r@[b] == oldr[b - 1]);
                } else if a > pos && b > pos {
                    assert(r@[a] == oldr[a - 1] && r@[b] == oldr[b - 1]);
                }
            }
        }
        t = t + 1;
    }
    proof {
        assert(v@.take(v@.len() as int) =~= v@);
    }
    r
}

/// Merges scouts, sorted by ascending reference index, into contiguous
/// regions: exactly [`merged_regions`].  Scouts whose windows of `subreflen`
/// positions overlap are fused, keeping the smallest score; a scout far from
/// its predecessor starts a new region with a small left-margin backoff.
/// Degenerate windows that would start at the end of the reference are
/// dropped.
#[verifier::loop_isolation(false)]
fn remove_overlapping_scouts(scouts: &Vec<(u64, usize)>, subreflen: usize, maxlen: usize) -> (res:
    Vec<(u64, usize, usize)>)
    requires
        scouts@.len() >= 1,
        subreflen >= 1,
        forall|k: int| 0 <= k < scouts@.len() ==> (#[trigger] scouts@[k]).1 <= maxlen,
        maxlen + subreflen <= usize::MAX,
    ensures
        res@ == merged_regions(scouts@, subreflen as int, maxlen as int),
        forall|k: int|
            0 <= k < res@.len() ==> (#[trigger] res@[k]).1 < res@[k].2 && res@[k].2 <= maxlen,
{
    let mut res: Vec<(u64, usize, usize)> = Vec::new();
    let mut current_start: usize = scouts[0].1;
    let mut current_end: usize = if current_start + subreflen <= maxlen {
        current_start + subreflen
    } else {
        maxlen
    };
    let mut current_best: u64 = scouts[0].0;
    let mut t: usize = 0;
    while t < scouts.len()
        invariant
            t <= scouts@.len(),
            current_start <= maxlen,
            current_end <= maxlen,
            (res@, current_start as int, current_end as int, current_best) == merge_state(
                scouts@,
                subreflen as int,
                maxlen as int,
                t as int,
            ),
            forall|k: int|
                0 <= k < res@.len() ==> (#[trigger] res@[k]).1 < res@[k].2 && res@[k].2 <= maxlen,
        decreases scouts@.len() - t,
    {
        let scout = scouts[t];
        let start = scout.1;
        if start <= current_end {
            // Overlapping scouts: merge them and extend the window.
            if scout.0 < current_best {
                current_best = scout.0;
            }
            current_end = if start + subreflen <= maxlen {
                start + subreflen
            } else {
                maxlen
            };
        } else {
            // This scout is far from the previous one: emit the finished
            // region and open a new one with a small backoff to the left.
            if current_start < current_end {
                res.push((current_best, current_start, current_end));
            }
            current_start = if start < 20 {
                0
            } else {
                start - 20
            };
            current_end = if current_start + subreflen <= maxlen {
                current_start + subreflen
            } else {
                maxlen
            };
            current_best = scout.0;
        }
        proof {
            assert((res@, current_start as int, current_end as int, current_best) == merge_state(
                scouts@,
                subreflen as int,
                maxlen as int,
                t + 1,
            ));
        }
        t = t + 1;
    }
    if current_start < current_end {
        res.push((current_best, current_start, current_end));
    }
    res
}

/// Phase one: sweeps the scout query over the reversed reference with the
/// rolled threshold recurrence, keeps every position whose backward score is
/// within the `num_scout`-th order statistic, and merges the scouts into
/// candidate regions sorted by ascending score.  Returns no candidates when a
/// sweep row exceeds the threshold or a sequence is empty.
#[verifier::loop_isolation(false)]
fn scouting<D: Dist>(
    x1: &[i32],
    x2: &[i32],
    dist: &D,
    num_scout: usize,
    threshold: u64,
    subreflen: usize,
) -> (res: Vec<(usize, usize)>)
    requires
        x1@.len() < usize::MAX,
        x2@.len() < usize::MAX,
        subreflen >= 1,
        x2@.len() + subreflen <= usize::MAX,
        x1@.len() == 0 || x2@.len() == 0 || num_scout <= x2@.len(),
    ensures
        regions_wf(res@, x2@.len() as int),
        x1@.len() == 0 || x2@.len() == 0 ==> res@ == Seq::<(usize, usize)>::empty(),
        x1@.len() >= 1 && x2@.len() >= 1 && sweep_abandons::<D>(x1@, x2@, threshold) ==> res@
            == Seq::<(usize, usize)>::empty(),
        x1@.len() >= 1 && x2@.len() >= 1 && !sweep_abandons::<D>(x1@, x2@, threshold) ==> exists|
            cutoff: u64,
        |
            #[trigger] is_order_statistic(
                backward_row::<D>(x1@, x2@),
                num_scout as int,
                cutoff,
            ) && res@ == scout_candidates::<D>(x1@, x2@, cutoff, subreflen as int),
{
    let x1len = x1.len();
    let x2len = x2.len();
    if x1len == 0 || x2len == 0 {
        return Vec::new();
    }
    let ghost qr = x1@.reverse();
    let ghost rr = x2@.reverse();

    // The sweep fills the rolled table of the reversed sequences, so the
    // backward score at position `j` describes alignments of the scout query
    // ending at reference position `x2len - j`.
    let mut previous: Vec<u64> = vec![0u64; x2len + 1];
    let mut current: Vec<u64> = vec![UNREACHED; x2len + 1];
    let mut i: usize = 1;
    while i <= x1len
        invariant
            1 <= i <= x1len + 1,
            previous@.len() == x2len + 1,
            current@.len() == x2len + 1,
            forall|j0: int|
                0 <= j0 <= x2len ==> #[trigger] previous@[j0] == th_cell::<D>(qr, rr, i - 1, j0),
            current@[0] == UNREACHED,
            forall|i0: int| 1 <= i0 < i ==> !th_row_exceeds::<D>(qr, rr, threshold, i0),
        decreases x1len + 1 - i,
    {
        let mut early: bool = true;
        let mut j: usize = 1;
        while j <= x2len
            invariant
                1 <= i <= x1len,
                1 <= j <= x2len + 1,
                previous@.len() == x2len + 1,
                current@.len() == x2len + 1,
                forall|j0: int|
                    0 <= j0 <= x2len ==> #[trigger] previous@[j0] == th_cell::<D>(qr, rr, i - 1, j0),
                current@[0] == UNREACHED,
                forall|j0: int|
                    1 <= j0 < j ==> #[trigger] current@[j0] == th_cell::<D>(qr, rr, i as int, j0),
                early <==> (forall|j0: int|
                    1 <= j0 < j ==> #[trigger] th_cell::<D>(qr, rr, i as int, j0) > threshold),
            decreases x2len + 1 - j,
        {
            let cost = dist.dist(x1[x1len - i], x2[x2len - j]);
            let up = previous[j];
            let diag = previous[j - 1];
            let left = current[j - 1];
            let m2 = if diag <= left {
                diag
            } else {
                left
            };
            let m3 = if up <= m2 {
                up
            } else {
                m2
            };
            let v = sat_add_u(m3, cost);
            current.set(j, v);
            proof {
                assert(qr[i - 1] == x1@[x1len - i]);
                assert(rr[j - 1] == x2@[x2len - j]);
                assert(th_cell::<D>(qr, rr, i as int, 0) == UNREACHED);
                assert(current@[j as int] == th_cell::<D>(qr, rr, i as int, j as int));
            }
            early = (v > threshold) && early;
            j = j + 1;
        }
        if early {
            proof {
                assert(th_row_exceeds::<D>(qr, rr, threshold, i as int));
                assert(sweep_abandons::<D>(x1@, x2@, threshold));
            }
            return Vec::new();
        }
        let mut k: usize = 0;
        while k <= x2len
            invariant
                0 <= k <= x2len + 1,
                1 <= i <= x1len,
                previous@.len() == x2len + 1,
                current@.len() == x2len + 1,
                forall|j0: int|
                    k <= j0 <= x2len && j0 >= 1 ==> #[trigger] current@[j0] == th_cell::<D>(
                        qr,
                        rr,
                        i as int,
                        j0,
                    ),
                k == 0 ==> current@[0] == UNREACHED,
                k >= 1 ==> current@[0] == UNREACHED,
                forall|j0: int|
                    0 <= j0 < k ==> #[trigger] previous@[j0] == th_cell::<D>(qr, rr, i as int, j0),
            decreases x2len + 1 - k,
        {
            proof {
                if k == 0 {
                    assert(th_cell::<D>(qr, rr, i as int, 0) == UNREACHED);
                }
            }
            let c = current[k];
            previous.set(k, c);
            current.set(k, UNREACHED);
            k = k + 1;
        }
        i = i + 1;
    }

    let ghost row = backward_row::<D>(x1@, x2@);
    proof {
        assert(!sweep_abandons::<D>(x1@, x2@, threshold));
        assert(previous@ =~= row);
    }

    // The cutoff is the k-th order statistic of the backward scores; every
    // position at or below the cutoff becomes a scout, so ties are included.
    let mut sorted: Vec<u64> = Vec::new();
    let mut c: usize = 0;
    while c <= x2len
        invariant
            c <= x2len + 1,
            previous@.len() == x2len + 1,
            sorted@.len() == c,
            forall|k: int| 0 <= k < c ==> #[trigger] sorted@[k] == previous@[k],
        decreases x2len + 1 - c,
    {
        sorted.push(previous[c]);
        c = c + 1;
    }
    proof {
        assert(sorted@ =~= row);
    }
    let cutoff = kth_smallest(&mut sorted, num_scout);
    proof {
        assert(sorted@.to_multiset() == row.to_multiset());
        assert(is_order_statistic(row, num_scout as int, cutoff));
    }

    // Walk the positions from the reference's start (largest sweep index
    // first), so the scouts come out sorted by ascending reference index.
    let mut scouts: Vec<(u64, usize)> = Vec::new();
    let mut idx: usize = x2len + 1;
    while idx > 0
        invariant
            idx <= x2len + 1,
            previous@.len() == x2len + 1,
            previous@ == row,
            scouts@ == scouts_from(row, cutoff, x2len as int, idx as int),
            forall|k: int| 0 <= k < scouts@.len() ==> (#[trigger] scouts@[k]).1 <= x2len,
        decreases idx,
    {
        let ghost oldsc = scouts@;
        idx = idx - 1;
        let e = previous[idx];
        if e <= cutoff {
            scouts.push((e, x2len - idx));
        }
        proof {
            assert(scouts@ =~= scouts_from(row, cutoff, x2len as int, idx as int));
        }
    }
    if scouts.len() == 0 {
        return Vec::new();
    }
    let regions = remove_overlapping_scouts(&scouts, subreflen, x2len);
    let ranked = sort_by_score(regions);
    let mut res: Vec<(usize, usize)> = Vec::new();
    let mut t: usize = 0;
    while t < ranked.len()
        invariant
            t <= ranked@.len(),
            res@.len() == t,
            forall|k: int|
                0 <= k < ranked@.len() ==> (#[trigger] ranked@[k]).1 < ranked@[k].2 && ranked@[k].2
                    <= x2len,
            forall|k: int| 0 <= k < t ==> #[trigger] res@[k] == to_pairs(ranked@)[k],
            regions_wf(res@, x2len as int),
        decreases ranked@.len() - t,
    {
        let item = ranked[t];
        res.push((item.1, item.2));
        t = t + 1;
    }
    proof {
        assert(res@ =~= to_pairs(ranked@));
        assert(res@ == scout_candidates::<D>(x1@, x2@, cutoff, subreflen as int));
    }
    res
}

/// The scout query: the prefix of the full query one pack long.
pub open spec fn scout_prefix(q: Seq<i32>, num_packs: Option<usize>) -> Seq<i32> {
    q.subrange(0, q.len() as int / packs_of(num_packs))
}

/// The span of reference positions a scout's region covers.
pub open spec fn spec_subreflen(q: Seq<i32>) -> int {
    if q.len() as int * 3 / 2 >= 1 {
        q.len() as int * 3 / 2
    } else {
        1
    }
}

/// Whether the early-abandoning search of `q` against window `w` under
/// `threshold` succeeds: nonempty inputs, no abandoned row, and a final
/// minimum below the sentinel.
pub open spec fn th_ok<D: Dist>(q: Seq<i32>, w: Seq<i32>, threshold: u64) -> bool {
    &&& q.len() >= 1
    &&& w.len() >= 1
    &&& forall|i: int| 1 <= i <= q.len() ==> !th_row_exceeds::<D>(q, w, threshold, i)
    &&& th_score::<D>(q, w) < UNREACHED
}

/// The confirmation fold over the first `t` candidate regions: the first
/// confirmed score strictly below the threshold, if any, and otherwise the
/// best confirmed score so far.
pub open spec fn confirm_state<D: Dist>(
    q: Seq<i32>,
    r: Seq<i32>,
    cands: Seq<(usize, usize)>,
    threshold: u64,
    t: int,
) -> (Option<u64>, Option<u64>)
    decreases t,
{
    if t <= 0 {
        (None, None)
    } else {
        let prev = confirm_state::<D>(q, r, cands, threshold, t - 1);
        if prev.0 is Some {
            prev
        } else {
            let w = r.subrange(cands[t - 1].0 as int, cands[t - 1].1 as int);
            if th_ok::<D>(q, w, threshold) {
                let sc = th_score::<D>(q, w);
                if sc < threshold {
                    (Some(sc), prev.1)
                } else {
                    match prev.1 {
                        Some(b) => if sc < b {
                            (None, Some(sc))
                        } else {
                            prev
                        },
                        None => (None, Some(sc)),
                    }
                }
            } else {
                prev
            }
        }
    }
}

/// A first hit never changes once found.
proof fn lemma_confirm_hit_stable<D: Dist>(
    q: Seq<i32>,
    r: Seq<i32>,
    cands: Seq<(usize, usize)>,
    threshold: u64,
    t1: int,
    t2: int,
)
    requires
        0 <= t1 <= t2,
        confirm_state::<D>(q, r, cands, threshold, t1).0 is Some,
    ensures
        confirm_state::<D>(q, r, cands, threshold, t2) == confirm_state::<D>(
            q,
            r,
            cands,
            threshold,
            t1,
        ),
    decreases t2 - t1,
{
    if t1 < t2 {
        lemma_confirm_hit_stable::<D>(q, r, cands, threshold, t1, t2 - 1);
    }
}

/// Whether `(score, cands)` is a phase-two outcome: the first region that
/// confirmed strictly below the threshold, or the best confirmed region.
pub open spec fn confirmed_score<D: Dist>(
    q: Seq<i32>,
    r: Seq<i32>,
    cands: Seq<(usize, usize)>,
    threshold: u64,
    score: u64,
) -> bool {
    let outcome = confirm_state::<D>(q, r, cands, threshold, cands.len() as int);
    outcome.0 == Some(score) || (outcome.0 is None && outcome.1 == Some(score))
}

/// Whether `(score, p1, p2, start)` is a scouting outcome: an exact
/// rolled-table score of the query against some window of the reference,
/// with an empty path and start offset zero.
pub open spec fn scouting_result<D: Dist>(
    q: Seq<i32>,
    r: Seq<i32>,
    score: u64,
    p1: Seq<usize>,
    p2: Seq<usize>,
    start: int,
) -> bool {
    &&& exists|s: int, e: int|
        0 <= s < e <= r.len() && score == th_score::<D>(q, #[trigger] r.subrange(s, e))
    &&& p1.len() == 0
    &&& p2.len() == 0
    &&& start == 0
}

/// Scouting subsequence search bounded by a threshold: phase one proposes
/// candidate regions, phase two confirms each with the early-abandoning
/// search of the full query, returning as soon as a region beats the
/// threshold and otherwise the best confirmed region.  Any returned score is
/// the exact rolled-table score of the query against some window of the
/// reference.
#[verifier::loop_isolation(false)]
pub fn scouting_threshold_dtw<D: Dist>(
    x1: &[i32],
    x2: &[i32],
    dist: &D,
    num_scouts: Option<usize>,
    num_packs: Option<usize>,
    threshold: u64,
) -> (res: Result<(u64, (Vec<usize>, Vec<usize>), usize), DtwError>)
    requires
        x1@.len() * 3 <= usize::MAX,
        x2@.len() < usize::MAX,
        packs_of(num_packs) >= 1,
        x2@.len() + x1@.len() * 3 / 2 + 1 <= usize::MAX,
        x1@.len() == 0 || x2@.len() == 0 || scouts_of(num_scouts) <= x2@.len(),
    ensures
        res matches Ok(v) ==> scouting_result::<D>(x1@, x2@, v.0, v.1.0@, v.1.1@, v.2 as int),
        res matches Err(e) ==> e == DtwError::NoCandidates || e == DtwError::NoUsableCandidate,
        scout_prefix(x1@, num_packs).len() == 0 || x2@.len() == 0 ==> res == Err::<
            (u64, (Vec<usize>, Vec<usize>), usize),
            DtwError,
        >(DtwError::NoCandidates),
        scout_prefix(x1@, num_packs).len() >= 1 && x2@.len() >= 1 && sweep_abandons::<D>(
            scout_prefix(x1@, num_packs),
            x2@,
            threshold,
        ) ==> res == Err::<(u64, (Vec<usize>, Vec<usize>), usize), DtwError>(DtwError::NoCandidates),
        res == Err::<(u64, (Vec<usize>, Vec<usize>), usize), DtwError>(DtwError::NoCandidates)
            ==> scout_prefix(x1@, num_packs).len() == 0 || x2@.len() == 0 || sweep_abandons::<D>(
            scout_prefix(x1@, num_packs),
            x2@,
            threshold,
        ) || (exists|cutoff: u64|
            #[trigger] is_order_statistic(
                backward_row::<D>(scout_prefix(x1@, num_packs), x2@),
                scouts_of(num_scouts),
                cutoff,
            ) && scout_candidates::<D>(
                scout_prefix(x1@, num_packs),
                x2@,
                cutoff,
                spec_subreflen(x1@),
            ).len() == 0),
        res matches Ok(v) ==> exists|cutoff: u64|
            #[trigger] is_order_statistic(
                backward_row::<D>(scout_prefix(x1@, num_packs), x2@),
                scouts_of(num_scouts),
                cutoff,
            ) && confirmed_score::<D>(
                x1@,
                x2@,
                scout_candidates::<D>(
                    scout_prefix(x1@, num_packs),
                    x2@,
                    cutoff,
                    spec_subreflen(x1@),
                ),
                threshold,
                v.0,
            ),
        res == Err::<(u64, (Vec<usize>, Vec<usize>), usize), DtwError>(DtwError::NoUsableCandidate)
            ==> exists|cutoff: u64|
            #[trigger] is_order_statistic(
                backward_row::<D>(scout_prefix(x1@, num_packs), x2@),
                scouts_of(num_scouts),
                cutoff,
            ) && confirm_state::<D>(
                x1@,
                x2@,
                scout_candidates::<D>(
                    scout_prefix(x1@, num_packs),
                    x2@,
                    cutoff,
                    spec_subreflen(x1@),
                ),
                threshold,
                scout_candidates::<D>(
                    scout_prefix(x1@, num_packs),
                    x2@,
                    cutoff,
                    spec_subreflen(x1@),
                ).len() as int,
            ) == (None::<u64>, None::<u64>),
{
    let x1len = x1.len();
    let num_packs_v = match num_packs {
        Some(res) => res,
        None => PACK_SIZE,
    };
    let num_scouts_v = match num_scouts {
        Some(res) => res,
        None => NUM_SCOUT,
    };
    let scoutlen = x1len / num_packs_v;
    let subreflen = if x1len * 3 / 2 >= 1 {
        x1len * 3 / 2
    } else {
        1
    };
    let ghost prefix = scout_prefix(x1@, num_packs);
    proof {
        assert(prefix =~= x1@.subrange(0, scoutlen as int));
        assert(subreflen as int == spec_subreflen(x1@));
    }
    let candidates = scouting::<D>(
        &x1[0..scoutlen],
        x2,
        dist,
        num_scouts_v,
        threshold,
        subreflen,
    );
    if candidates.len() == 0 {
        proof {
            if prefix.len() >= 1 && x2@.len() >= 1 && !sweep_abandons::<D>(prefix, x2@, threshold) {
                let cutoff = choose|c: u64|
                    #[trigger] is_order_statistic(
                        backward_row::<D>(prefix, x2@),
                        num_scouts_v as int,
                        c,
                    ) && candidates@ == scout_candidates::<D>(prefix, x2@, c, subreflen as int);
                assert(is_order_statistic(
                    backward_row::<D>(prefix, x2@),
                    scouts_of(num_scouts),
                    cutoff,
                ) && scout_candidates::<D>(prefix, x2@, cutoff, spec_subreflen(x1@)).len() == 0);
            }
        }
        return Err(DtwError::NoCandidates);
    }
    let ghost cutoff = choose|c: u64|
        #[trigger] is_order_statistic(backward_row::<D>(prefix, x2@), num_scouts_v as int, c)
            && candidates@ == scout_candidates::<D>(prefix, x2@, c, subreflen as int);
    proof {
        assert(candidates@ == scout_candidates::<D>(prefix, x2@, cutoff, subreflen as int));
    }
    let x2len = x2.len();
    let mut opt: u64 = u64::MAX;
    let mut best: Option<(u64, (Vec<usize>, Vec<usize>), usize)> = None;
    let mut t: usize = 0;
    while t < candidates.len()
        invariant
            t <= candidates@.len(),
            regions_wf(candidates@, x2@.len() as int),
            x2len == x2@.len(),
            confirm_state::<D>(x1@, x2@, candidates@, threshold, t as int).0 is None,
            best is None ==> confirm_state::<D>(x1@, x2@, candidates@, threshold, t as int).1
                is None && opt == u64::MAX,
            best matches Some(v) ==> confirm_state::<D>(x1@, x2@, candidates@, threshold, t as int).1
                == Some(v.0) && opt == v.0 && scouting_result::<D>(
                x1@,
                x2@,
                v.0,
                v.1.0@,
                v.1.1@,
                v.2 as int,
            ),
        decreases candidates@.len() - t,
    {
        let (start, end) = candidates[t];
        let window = &x2[start..end];
        proof {
            assert(window@ == x2@.subrange(start as int, end as int));
        }
        let attempt = thresholddtw::<D>(x1, window, dist, threshold);
        proof {
            // The threshold engine's contract decides success exactly where
            // the fold's step predicate does.
            if attempt is Ok {
                assert(th_ok::<D>(x1@, window@, threshold));
            } else {
                assert(!th_ok::<D>(x1@, window@, threshold));
            }
        }
        if let Ok(hit) = attempt {
            proof {
                assert(hit.0 == th_score::<D>(x1@, x2@.subrange(start as int, end as int)));
            }
            if hit.0 < threshold {
                proof {
                    assert(confirm_state::<D>(x1@, x2@, candidates@, threshold, t + 1).0 == Some(
                        hit.0,
                    ));
                    lemma_confirm_hit_stable::<D>(
                        x1@,
                        x2@,
                        candidates@,
                        threshold,
                        t + 1,
                        candidates@.len() as int,
                    );
                    assert(confirmed_score::<D>(x1@, x2@, candidates@, threshold, hit.0));
                }
                return Ok(hit);
            } else if hit.0 < opt {
                opt = hit.0;
                best = Some(hit);
            }
        }
        proof {
            assert(confirm_state::<D>(x1@, x2@, candidates@, threshold, t + 1).0 is None);
        }
        t = t + 1;
    }
    match best {
        Some(res) => {
            proof {
                assert(confirmed_score::<D>(x1@, x2@, candidates@, threshold, res.0));
            }
            Ok(res)
        },
        None => {
            proof {
                assert(confirm_state::<D>(
                    x1@,
                    x2@,
                    candidates@,
                    threshold,
                    candidates@.len() as int,
                ) == (None::<u64>, None::<u64>));
            }
            Err(DtwError::NoUsableCandidate)
        },
    }
}

/// Scouting subsequence search with no threshold bound: the bounded search
/// called with the largest possible threshold.  Since any confirmed score
/// below the unbounded threshold returns at once, only the top-ranked region
/// is ever confirmed; this observed behaviour is kept deliberately.
pub fn scouting_dtw<D: Dist>(
    x1: &[i32],
    x2: &[i32],
    dist: &D,
    num_scouts: Option<usize>,
    num_packs: Option<usize>,
) -> (res: Result<(u64, (Vec<usize>, Vec<usize>), usize), DtwError>)
    requires
        x1@.len() * 3 <= usize::MAX,
        x2@.len() < usize::MAX,
        packs_of(num_packs) >= 1,
        x2@.len() + x1@.len() * 3 / 2 + 1 <= usize::MAX,
        x1@.len() == 0 || x2@.len() == 0 || scouts_of(num_scouts) <= x2@.len(),
    ensures
        res matches Ok(v) ==> scouting_result::<D>(x1@, x2@, v.0, v.1.0@, v.1.1@, v.2 as int),
        res matches Err(e) ==> e == DtwError::NoCandidates || e == DtwError::NoUsableCandidate,
        scout_prefix(x1@, num_packs).len() == 0 || x2@.len() == 0 ==> res == Err::<
            (u64, (Vec<usize>, Vec<usize>), usize),
            DtwError,
        >(DtwError::NoCandidates),
        scout_prefix(x1@, num_packs).len() >= 1 && x2@.len() >= 1 && sweep_abandons::<D>(
            scout_prefix(x1@, num_packs),
            x2@,
            u64::MAX,
        ) ==> res == Err::<(u64, (Vec<usize>, Vec<usize>), usize), DtwError>(DtwError::NoCandidates),
        res matches Ok(v) ==> exists|cutoff: u64|
            #[trigger] is_order_statistic(
                backward_row::<D>(scout_prefix(x1@, num_packs), x2@),
                scouts_of(num_scouts),
                cutoff,
            ) && confirmed_score::<D>(
                x1@,
                x2@,
                scout_candidates::<D>(
                    scout_prefix(x1@, num_packs),
                    x2@,
                    cutoff,
                    spec_subreflen(x1@),
                ),
                u64::MAX,
                v.0,
            ),
{
    scouting_threshold_dtw::<D>(x1, x2, dist, num_scouts, num_packs, u64::MAX)
}

} // verus!
