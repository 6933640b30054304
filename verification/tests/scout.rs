//! The two-phase scouting search.

use dtw::{scouting_dtw, scouting_threshold_dtw, Cost, DtwError, Mode, SqDist};

fn fin(score: Cost) -> u64 {
    match score {
        Cost::Fin(v) => v,
        Cost::Inf => panic!("expected a finite score"),
    }
}

fn noise(len: usize, seed: u64) -> Vec<i32> {
    let mut state = seed.wrapping_mul(6364136223846793005).wrapping_add(1442695040888963407);
    let mut out = Vec::with_capacity(len);
    for _ in 0..len {
        state = state.wrapping_mul(6364136223846793005).wrapping_add(1442695040888963407);
        out.push(((state >> 33) % 64) as i32);
    }
    out
}

fn curve(len: usize) -> Vec<i32> {
    (0..len).map(|i| {
        let half = len / 2;
        let d = if i < half { i } else { len - 1 - i };
        (d * 60 / (half + 1)) as i32
    }).collect()
}

#[test]
fn scouting_small() {
    let query = curve(500);
    let mut reference = noise(500, 5);
    reference.append(&mut curve(500));
    reference.append(&mut noise(1000, 6));
    let score = dtw::dtw(&query, &reference, Mode::Sub, &SqDist).unwrap();
    let scout = scouting_dtw(&query, &reference, &SqDist, Some(3), Some(1)).unwrap();
    assert_eq!(fin(score.0), scout.0, "{:?},{}", score.0, scout.0);
}

#[test]
fn scouting_manytimes() {
    // The summed relative error over the runs stays below two permille on
    // average, as a quantitative bound on the approximation.
    let runs = 5u64;
    let mut err_permille: u64 = 0;
    for t in 0..runs {
        let mut query = curve(500);
        query[7] += 3;
        let mut reference = noise(500, 10 + t);
        reference.append(&mut curve(500));
        reference.append(&mut noise(1000, 20 + t));
        let sub = fin(dtw::dtw(&query, &reference, Mode::Sub, &SqDist).unwrap().0);
        let scout = scouting_dtw(&query, &reference, &SqDist, None, None).unwrap().0;
        assert!(scout >= sub, "{},{}", sub, scout);
        if sub == 0 {
            assert_eq!(scout, 0);
        } else {
            err_permille += (scout - sub) * 1000 / sub;
        }
    }
    assert!(err_permille <= 2 * runs, "average error: {} permille", err_permille / runs);
}

#[test]
fn scouting_when_maxpack() {
    let reference = noise(500, 33);
    let query = noise(500, 34);
    let sub = dtw::dtw(&query, &reference, Mode::Sub, &SqDist).unwrap().0;
    let scout = scouting_dtw(&query, &reference, &SqDist, Some(1), Some(1)).unwrap().0;
    assert_eq!(fin(sub), scout, "{:?},{}", sub, scout);
}

#[test]
fn scouting_maxpack_manytimes() {
    // With the scout seeing the whole query, the summed relative error over
    // the runs stays below ten permille on average.
    let runs = 5u64;
    let mut err_permille: u64 = 0;
    for t in 0..runs {
        let mut query = curve(600);
        query[11] += 3;
        let mut reference = noise(500, 40 + t);
        reference.append(&mut curve(600));
        reference.append(&mut noise(900, 50 + t));
        let sub = fin(dtw::dtw(&query, &reference, Mode::Sub, &SqDist).unwrap().0);
        let scout = scouting_dtw(&query, &reference, &SqDist, Some(1), Some(1)).unwrap().0;
        assert!(scout >= sub, "{},{}", sub, scout);
        if sub == 0 {
            assert_eq!(scout, 0);
        } else {
            err_permille += (scout - sub) * 1000 / sub;
        }
    }
    assert!(err_permille <= 10 * runs, "average error: {} permille", err_permille / runs);
}

#[test]
fn scouting_no_candidates() {
    // A tight threshold abandons the scout sweep before any region exists.
    let query = vec![0; 10];
    let reference = vec![100; 50];
    let res = scouting_threshold_dtw(&query, &reference, &SqDist, Some(3), Some(1), 5);
    assert_eq!(res, Err(DtwError::NoCandidates));
}

#[test]
fn scouting_no_usable_candidate() {
    // The scout prefix matches, so regions exist, but the full query can
    // never stay below the threshold: every confirmation is abandoned.
    let query = vec![0, 0, 100];
    let reference = vec![0, 0, 0, 0];
    let res = scouting_threshold_dtw(&query, &reference, &SqDist, Some(2), Some(3), 50);
    assert_eq!(res, Err(DtwError::NoUsableCandidate));
}

#[test]
fn scouting_first_hit_region() {
    // The scout sees only the query's first half, which matches an early
    // decoy window exactly; the full query matches only a later window.  The
    // search confirms the decoy region first and returns its positive score
    // at once, even though a perfect match exists further on: the order
    // statistic cutoff keeps only the positions whose backward prefix score
    // is smallest.
    let prefix: Vec<i32> = (0..20).collect();
    let suffix = vec![100; 20];
    let mut query = prefix.clone();
    query.append(&mut suffix.clone());

    let mut reference = vec![7; 10];
    reference.append(&mut prefix.clone());
    reference.append(&mut vec![50; 20]);
    reference.append(&mut vec![7; 150]);
    let mut exact = prefix.clone();
    exact.append(&mut suffix.clone());
    reference.append(&mut exact);
    reference.append(&mut vec![7; 10]);

    let sub = dtw::dtw(&query, &reference, Mode::Sub, &SqDist).unwrap().0;
    assert_eq!(sub, Cost::Fin(0));
    let scout = scouting_dtw(&query, &reference, &SqDist, Some(1), Some(2)).unwrap().0;
    assert!(scout > 0, "{}", scout);
}

#[test]
fn window_never_beats_whole() {
    // Every window's early-abandoning score is at least the whole
    // reference's: an alignment confined to a window is also an alignment
    // over the whole.
    let query = vec![1, 2, 3];
    let reference = vec![9, 1, 2, 4, 7, 1, 3, 3];
    let whole = dtw::thresholddtw(&query, &reference, &SqDist, 100000).unwrap().0;
    for s in 0..reference.len() {
        for e in (s + 1)..=reference.len() {
            if let Ok((win, _, _)) = dtw::thresholddtw(&query, &reference[s..e], &SqDist, 100000) {
                assert!(win >= whole, "window {}..{} scored {} below {}", s, e, win, whole);
            }
        }
    }
}

#[test]
fn scouting_never_beats_whole() {
    // Whatever region the scouting search confirms, its score is bounded
    // below by the whole-reference subsequence score.
    let query = vec![2, 4, 4, 1];
    let reference = vec![7, 2, 4, 5, 1, 0, 2, 4, 4, 1, 9, 3];
    let whole = dtw::thresholddtw(&query, &reference, &SqDist, 100000).unwrap().0;
    let scouted = scouting_dtw(&query, &reference, &SqDist, Some(2), Some(2)).unwrap().0;
    assert!(scouted >= whole);
    assert_eq!(whole, 0);
    assert_eq!(scouted, 0);
}
