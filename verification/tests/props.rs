//! Concrete checks of the library's stated properties and error taxonomy.

use dtw::utils::{get_mode, Method, Prep};
use dtw::{
    needleman_dtw, thresholddtw, AbsDist, Cost, Dist, DtwError, HillDist, Mode, NormalizeType,
    SqDist,
};

#[test]
fn full_score_symmetric() {
    // The squared difference is symmetric, so swapping query and reference
    // leaves the full-mode score unchanged.
    let a = vec![3, 1, 4, 1, 5, 9, 2, 6];
    let b = vec![2, 7, 1, 8, 2, 8];
    let ab = dtw::dtw(&a, &b, Mode::Full, &SqDist).unwrap().0;
    let ba = dtw::dtw(&b, &a, Mode::Full, &SqDist).unwrap().0;
    assert_eq!(ab, ba);
}

#[test]
fn identity_alignment() {
    // A sequence with pairwise distinct samples aligns against itself for
    // nothing, along the strict diagonal.
    let s = vec![3, 1, 4, 7, 5];
    let (score, (p1, p2), start) = dtw::dtw(&s, &s, Mode::Full, &SqDist).unwrap();
    assert_eq!(score, Cost::Fin(0));
    assert_eq!(p1, vec![0, 1, 2, 3, 4]);
    assert_eq!(p2, vec![0, 1, 2, 3, 4]);
    assert_eq!(start, 0);
}

#[test]
fn scores_nonnegative() {
    // Costs are unsigned, so every returned score is at least zero.
    let a = vec![-5, 3, -2, 8];
    let b = vec![4, -1, 0];
    for mode in [Mode::Full, Mode::Sub, Mode::QuickSub] {
        let score = dtw::dtw(&a, &b, mode, &SqDist).unwrap().0;
        match score {
            Cost::Fin(v) => assert!(v >= 0),
            Cost::Inf => panic!("expected a finite score"),
        }
    }
}

#[test]
fn concrete_full_score() {
    // Two diagonal steps, each costing one.
    let query = vec![1, 1];
    let reference = vec![2, 2];
    let (score, _, start) = dtw::dtw(&query, &reference, Mode::Full, &SqDist).unwrap();
    assert_eq!(score, Cost::Fin(2));
    assert_eq!(start, 0);
}

#[test]
fn concrete_sub_offset() {
    // The best window of the reference starts at offset three.
    let reference = vec![1, 1, 4, 5, 1];
    let query = vec![6, 6];
    let (_, _, start) = dtw::dtw(&query, &reference, Mode::Sub, &SqDist).unwrap();
    assert_eq!(start, 3);
}

#[test]
fn concrete_band_alignment() {
    // An odd band of three on two identical three-sample sequences.
    let s = vec![1, 2, 3];
    let (score, (p1, p2), start) = dtw::dtw(&s, &s, Mode::SakoeChiba(3), &AbsDist).unwrap();
    assert_eq!(score, Cost::Fin(0));
    assert_eq!(p1, vec![0, 1, 2]);
    assert_eq!(p2, vec![0, 1, 2]);
    assert_eq!(start, 0);
}

#[test]
fn band_rejections() {
    let s = vec![1, 2, 3, 4, 5, 6, 7, 8, 9, 10];
    let t = vec![1, 2, 3, 4, 5, 6, 7, 8, 9];
    // Width one, even widths, widths beyond a sequence, unequal lengths.
    assert!(dtw::dtw(&s, &s, Mode::SakoeChiba(1), &SqDist).is_err());
    assert!(dtw::dtw(&s, &s, Mode::SakoeChiba(4), &SqDist).is_err());
    assert!(dtw::dtw(&s, &s, Mode::SakoeChiba(11), &SqDist).is_err());
    assert!(dtw::dtw(&s, &t, Mode::SakoeChiba(3), &SqDist).is_err());
    assert!(dtw::dtw(&s, &s, Mode::SakoeChiba(9), &SqDist).is_ok());
}

#[test]
fn empty_inputs_rejected() {
    let s = vec![1, 2, 3];
    let empty: Vec<i32> = Vec::new();
    assert_eq!(
        dtw::dtw(&empty, &s, Mode::Full, &SqDist),
        Err(DtwError::InvalidInput)
    );
    assert_eq!(
        dtw::dtw(&s, &empty, Mode::Sub, &SqDist),
        Err(DtwError::InvalidInput)
    );
    assert_eq!(
        dtw::dtw(&empty, &s, Mode::QuickSub, &SqDist),
        Err(DtwError::InvalidInput)
    );
}

#[test]
fn threshold_abandons_early() {
    // Every cell of the first query row exceeds the threshold, so the search
    // is abandoned at row one of two.
    let query = vec![0, 0];
    let reference = vec![10, 10, 10];
    let res = thresholddtw(&query, &reference, &SqDist, 5);
    assert_eq!(res, Err(DtwError::EarlyAbandoned(1, 2)));
}

#[test]
fn threshold_matches_sub_exactly() {
    // A generous threshold never abandons, and the rolled-table score equals
    // the exact subsequence score.
    let reference = vec![5, 3, 9, 14, 2, 2, 7, 1];
    let query = vec![9, 13, 2];
    let sub = dtw::dtw(&query, &reference, Mode::Sub, &SqDist).unwrap().0;
    let (thr, (p1, p2), start) = thresholddtw(&query, &reference, &SqDist, 100000).unwrap();
    assert_eq!(sub, Cost::Fin(thr));
    assert!(p1.is_empty() && p2.is_empty());
    assert_eq!(start, 0);
}

#[test]
fn needleman_gap_penalty() {
    // One query sample against one reference window: pure diagonal cost.
    let query = vec![4];
    let reference = vec![6, 5];
    let (score, (p1, p2), start) = needleman_dtw(&query, &reference, &SqDist, 3).unwrap();
    // The best window aligns the sample with the closer reference value.
    assert_eq!(score, Cost::Fin(1));
    assert!(p1.is_empty() && p2.is_empty());
    assert_eq!(start, 0);
}

#[test]
fn itakura_is_stub() {
    let s = vec![1, 2, 3];
    let (score, (p1, p2), start) = dtw::dtw(&s, &s, Mode::Itakura(3), &SqDist).unwrap();
    assert_eq!(score, Cost::Fin(0));
    assert!(p1.is_empty() && p2.is_empty());
    assert_eq!(start, 0);
    let t = vec![1, 2];
    assert!(dtw::dtw(&s, &t, Mode::Itakura(3), &SqDist).is_err());
}

#[test]
fn malformed_window_reported() {
    // A global coarse-to-fine alignment of an empty query has no bottom-right
    // cell to read: the window is malformed.
    let empty: Vec<i32> = Vec::new();
    let reference = vec![1, 2, 3];
    let res = dtw::fast_dtw(&empty, &reference, &SqDist, 2, false);
    assert_eq!(res, Err(DtwError::MalformedWindow));
}

#[test]
fn skipping_scan() {
    // The embedded exact window is found by the skipping banded scan.
    let mut reference: Vec<i32> = vec![9; 30];
    reference.append(&mut (0..10).collect());
    reference.append(&mut vec![9; 30]);
    let query: Vec<i32> = (0..10).collect();
    let res = dtw::utils::chiba_skipping_dtw(&query, &reference, Mode::SakoeChiba(3), &SqDist);
    assert_eq!(res, Some(Cost::Fin(0)));
    assert_eq!(
        dtw::utils::chiba_skipping_dtw(&query, &reference, Mode::Full, &SqDist),
        None
    );
}

#[test]
fn distance_formulas() {
    // Squared difference, absolute difference, and the fixed-point hill
    // metric on small samples.
    assert_eq!(SqDist.dist(3, -2), 25);
    assert_eq!(AbsDist.dist(3, -2), 5);
    assert_eq!(HillDist.dist(0, 0), 0);
    // d = 1: one unit scaled by d / (d + 1) = 1/2.
    assert_eq!(HillDist.dist(0, 1), 500000);
    // d = 4: 4/5 of a unit.
    assert_eq!(HillDist.dist(0, 2), 800000);
}

#[test]
fn mode_parsing() {
    assert!(matches!(get_mode("Sub"), Ok(Mode::Sub)));
    assert!(matches!(get_mode("Subsequence"), Ok(Mode::Sub)));
    assert!(matches!(get_mode("Chiba,31"), Ok(Mode::SakoeChiba(31))));
    assert!(get_mode("Chiba").is_err());
    assert!(get_mode("Chiba,x").is_err());
    assert!(matches!(get_mode("Scouting,5,7"), Ok(Mode::Scouting(5, 7))));
    assert!(get_mode("Scouting,5").is_err());
    assert!(matches!(get_mode("Fast,10"), Ok(Mode::Fast(10))));
    assert!(get_mode("Fast").is_err());
    assert!(get_mode("nonsense").is_err());
}

#[test]
fn selector_parsing() {
    assert_eq!(Prep::new("FLAT"), Some(Prep::Flat));
    assert_eq!(Prep::new("NORMAL"), Some(Prep::Normal));
    assert_eq!(Prep::new("flat"), None);
    assert_eq!(Prep::Flat.name(), "Flat");
    assert_eq!(Method::new("CHIBANORMAL"), Some(Method::ChibaNormal));
    assert_eq!(Method::new("CHIBAHILL"), Some(Method::ChibaHill));
    assert_eq!(Method::new("SUBNORMAL"), Some(Method::SubNormal));
    assert_eq!(Method::new("SUBHILL"), Some(Method::SubHill));
    assert_eq!(Method::new("OTHER"), None);
    assert_eq!(Method::SubHill.name(), "SubHill");
    let _ = NormalizeType::MaxMin;
}
