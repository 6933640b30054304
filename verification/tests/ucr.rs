//! The precomputed-envelope banded search.

use dtw::{Cost, DynamicTimeWarping, Mode, SqDist};

fn noise(len: usize, seed: u64) -> Vec<i32> {
    let mut state = seed.wrapping_mul(6364136223846793005).wrapping_add(1442695040888963407);
    let mut out = Vec::with_capacity(len);
    for _ in 0..len {
        state = state.wrapping_mul(6364136223846793005).wrapping_add(1442695040888963407);
        out.push(((state >> 33) % 64) as i32);
    }
    out
}

fn ramp(len: usize) -> Vec<i32> {
    (0..len).map(|i| i as i32).collect()
}

#[test]
fn test_ucr() {
    let mut reference = noise(1000, 91);
    reference.append(&mut ramp(200));
    reference.append(&mut noise(5000, 92));
    let bandwidth = 20;
    let _ = DynamicTimeWarping::new(reference.clone(), SqDist, bandwidth);
    assert!(true);
}

#[test]
fn mini_ucr() {
    // Two distinct sequences of the same length: with a band this wide the
    // banded search over the single window equals the unrestricted score.
    let reference = noise(100, 93);
    let bandwidth = 49;
    let searcher = DynamicTimeWarping::new(reference.clone(), SqDist, bandwidth);
    let query: Vec<i32> = reference.iter().map(|&v| v + 1).collect();
    let (tes, _) = searcher.dtw(&query);
    let (score, _, _) = dtw::dtw(&query, &reference, Mode::Full, &SqDist).unwrap();
    assert_eq!(score, tes, "{:?},{:?}", score, tes);
}

#[test]
fn sin_ucr() {
    let reference = ramp(100);
    let bandwidth = 9;
    let searcher = DynamicTimeWarping::new(reference.clone(), SqDist, bandwidth);
    let query = ramp(100);
    let (tes, _) = searcher.dtw(&query);
    let (score, _, _) = dtw::dtw(&query, &reference, Mode::Sub, &SqDist).unwrap();
    assert_eq!(score, tes, "{:?},{:?}", score, tes);
}

#[test]
fn chiba_ucr() {
    let reference = ramp(100);
    let bandwidth = 9;
    let searcher = DynamicTimeWarping::new(reference.clone(), SqDist, bandwidth);
    let query = ramp(100);
    let (tes, _) = searcher.dtw(&query);
    let (score, _, _) = dtw::dtw(&query, &reference, Mode::SakoeChiba(9), &SqDist).unwrap();
    assert_eq!(score, tes, "{:?},{:?}", score, tes);
}

#[test]
fn exec_ucr() {
    let mut reference = noise(500, 95);
    reference.append(&mut ramp(100));
    reference.append(&mut noise(2000, 96));
    let bandwidth = 20;
    let searcher = DynamicTimeWarping::new(reference.clone(), SqDist, bandwidth);
    let query = ramp(100);
    let (score, pos) = searcher.dtw(&query);
    let (tes, _, position) = dtw::dtw(&query, &reference, Mode::Sub, &SqDist).unwrap();
    assert_eq!(score, Cost::Fin(0), "{:?},{:?},{},{}", score, tes, pos, position);
    assert_eq!(tes, Cost::Fin(0));
    assert_eq!(pos, 500);
}

#[test]
fn ucr_least_window_first() {
    // The reference embeds a window ([0, 0, 10, 0] against query
    // [0, 2, 0, 0]) whose cheap row minimum plus a position-indexed
    // remainder overshoots its exact banded score, so a careless early
    // abandon would skip it.  The search must return the least banded
    // score over every window, at the first position attaining it.
    let reference = vec![5, 7, 5, 0, 0, 10, 0, 6, 5, 8, 0, 1, 0, 0, 9, 5];
    let bandwidth = 1;
    let searcher = DynamicTimeWarping::new(reference.clone(), SqDist, bandwidth);
    let query = vec![0, 2, 0, 0];
    let (score, pos) = searcher.dtw(&query);
    let zeros = vec![0u64; query.len()];
    let mut best = Cost::Inf;
    let mut best_pos = 0usize;
    for p in 0..=(reference.len() - query.len()) {
        let window = &reference[p..p + query.len()];
        let exact = searcher.chiba_dtw_with_lower_bound(&query, window, &zeros, Cost::Inf);
        if exact.lt(&best) {
            best = exact;
            best_pos = p;
        }
    }
    assert_eq!(score, best);
    assert_eq!(pos, best_pos);
}

#[test]
fn ucr_least_window_noise() {
    // Under heavy pruning on noisy data, the reported score must still be
    // the least exact banded score over every window, found first.
    let reference = noise(150, 97);
    let bandwidth = 3;
    let searcher = DynamicTimeWarping::new(reference.clone(), SqDist, bandwidth);
    let query = noise(9, 98);
    let (score, pos) = searcher.dtw(&query);
    let zeros = vec![0u64; query.len()];
    let mut best = Cost::Inf;
    let mut best_pos = 0usize;
    for p in 0..=(reference.len() - query.len()) {
        let window = &reference[p..p + query.len()];
        let exact = searcher.chiba_dtw_with_lower_bound(&query, window, &zeros, Cost::Inf);
        if exact.lt(&best) {
            best = exact;
            best_pos = p;
        }
    }
    assert_eq!(score, best);
    assert_eq!(pos, best_pos);
}

#[test]
fn zero_band_diagonal() {
    // A zero half-width leaves only the diagonal: the banded score of each
    // window is the pointwise sum, and the search still finds the least,
    // first.
    let reference = vec![3, 1, 4, 1, 5, 9, 2, 6];
    let searcher = DynamicTimeWarping::new(reference.clone(), SqDist, 0);
    let query = vec![1, 5, 9];
    let (score, pos) = searcher.dtw(&query);
    assert_eq!(score, Cost::Fin(0));
    assert_eq!(pos, 3);
}
