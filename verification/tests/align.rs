//! Full and subsequence alignment through the dispatcher and the
//! convenience functions.

use dtw::{normal_dtw, subdtw, subdtw_with_path, thresholddtw, Cost, Mode, NormalizeType, SqDist};

fn fin(score: Cost) -> u64 {
    match score {
        Cost::Fin(v) => v,
        Cost::Inf => panic!("expected a finite score"),
    }
}

#[test]
fn test_of_test() {
    assert!(true);
}

#[test]
fn test_dtw() {
    let x1 = vec![1, 1];
    let x2 = vec![2, 2];
    let res = normal_dtw(&x1, &x2);
    assert_eq!(res, Cost::Fin(2));
}

#[test]
fn test_dtw2() {
    let x1 = vec![1];
    let x2 = vec![1];
    assert_eq!(normal_dtw(&x1, &x2), Cost::Fin(0));
}

#[test]
fn test_dtw3() {
    let x = vec![1, 2, 3, 4, 5];
    let y = vec![2, 3, 4];
    let res = normal_dtw(&x, &y);
    assert_eq!(res, Cost::Fin(2));
}

#[test]
fn test_dtw4() {
    let x = vec![1, 1, 1, 2, 2, 2, 2];
    let y = vec![1, 1, 2, 2];
    let res = subdtw(&y, &x);
    assert_eq!(res, Cost::Fin(0));
}

#[test]
fn test_dtw5() {
    let x = vec![1, 1, 1, 1, 1];
    let y = vec![2, 0, 0, 1];
    let res = fin(subdtw(&x, &y));
    assert!(res <= 3, "{}", res);
}

#[test]
fn test_dtw6() {
    let x = vec![1, 1, 4, 5, 1];
    let y = vec![6, 6];
    let res = fin(subdtw(&y, &x));
    assert!(res <= 3, "{}", res);
    assert!(res > 0, "{}", res);
}

#[test]
fn test_dtw7() {
    let x = vec![1, 1, 4, 5, 1];
    let y = vec![6, 6];
    let (res, (ypath, xpath), start) = dtw::dtw(&y, &x, Mode::Sub, &SqDist).unwrap();
    println!("{},{:?}\n{:?}\n{:?}", start, res, xpath, ypath);
    assert!(start == 3, "{},{:?}\n{:?}\n{:?}", start, res, xpath, ypath);
}

#[test]
fn test_dtw8() {
    let _ = NormalizeType::Z;
    let x = vec![1, 1, 4, 5, 1];
    let y = vec![6, 6];
    let (res, (ypath, xpath)) = subdtw_with_path(&y, &x);
    assert_eq!(xpath.len(), ypath.len());
    println!("{:?}", res);
    let _ = NormalizeType::Z;
    let x = vec![1, 1, 3, 1, 1];
    let y = vec![2, 0, 3, 1];
    let (res, (ypath, xpath)) = subdtw_with_path(&y, &x);
    assert_eq!(xpath.len(), ypath.len());
    println!("{:?}", res);
    assert!(true);
}

/// Deterministic pseudo-noise in a small sample range.
fn noise(len: usize, seed: u64) -> Vec<i32> {
    let mut state = seed.wrapping_mul(6364136223846793005).wrapping_add(1442695040888963407);
    let mut out = Vec::with_capacity(len);
    for _ in 0..len {
        state = state.wrapping_mul(6364136223846793005).wrapping_add(1442695040888963407);
        out.push(((state >> 33) % 64) as i32);
    }
    out
}

/// A deterministic single-humped curve.
fn curve(len: usize) -> Vec<i32> {
    (0..len).map(|i| {
        let half = len / 2;
        let d = if i < half { i } else { len - 1 - i };
        (d * 60 / (half + 1)) as i32
    }).collect()
}

#[test]
fn quick() {
    let mut reference = noise(100, 7);
    reference.append(&mut curve(100));
    reference.append(&mut noise(2000, 11));
    for t in 0..10u64 {
        let mut query = curve(200);
        query[0] += t as i32;
        let (res, _, _) = dtw::dtw(&query, &reference, Mode::Sub, &SqDist).unwrap();
        let (res2, _, _) = dtw::dtw(&query, &reference, Mode::QuickSub, &SqDist).unwrap();
        assert_eq!(res, res2, "{:?},{:?}", res, res2);
    }
}

#[test]
fn threshold() {
    let reference = noise(1000, 3);
    for t in 0..10u64 {
        let query = noise(100, 100 + t);
        let score = dtw::dtw(&query, &reference, Mode::QuickSub, &SqDist).unwrap().0;
        let score2 = dtw::dtw(&query, &reference, Mode::Sub, &SqDist).unwrap().0;
        let thre = thresholddtw(&query, &reference, &SqDist, 100000).unwrap().0;
        assert_eq!(score, Cost::Fin(thre), "{:?},{},{:?}", score, thre, score2);
        assert_eq!(score2, Cost::Fin(thre));
    }
}

#[test]
fn threshold_small() {
    let reference = vec![1, 1, 1, 2, 2, 2, 2];
    let query = vec![1, 1, 2, 2];
    let score = dtw::dtw(&query, &reference, Mode::Sub, &SqDist).unwrap().0;
    let thre = thresholddtw(&query, &reference, &SqDist, 100000).unwrap().0;
    assert_eq!(score, Cost::Fin(thre), "{:?},{}", score, thre);
}
