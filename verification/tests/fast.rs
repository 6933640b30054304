//! The coarse-to-fine approximation.

use dtw::fastdtw::reduce_by_half;
use dtw::{fast_dtw, Cost, Mode, SqDist};

fn fin(score: Cost) -> u64 {
    match score {
        Cost::Fin(v) => v,
        Cost::Inf => panic!("expected a finite score"),
    }
}

fn ramp(len: usize) -> Vec<i32> {
    (0..len).map(|i| i as i32).collect()
}

fn noise(len: usize, seed: u64) -> Vec<i32> {
    let mut state = seed.wrapping_mul(6364136223846793005).wrapping_add(1442695040888963407);
    let mut out = Vec::with_capacity(len);
    for _ in 0..len {
        state = state.wrapping_mul(6364136223846793005).wrapping_add(1442695040888963407);
        out.push(((state >> 33) % 100) as i32);
    }
    out
}

#[test]
fn test_fastdtw_small() {
    let radius = 16;
    let num = 16;
    let x = ramp(num);
    let y = ramp(num);
    let (score, _, _) = fast_dtw(&x, &y, &SqDist, radius, false).unwrap();
    assert_eq!(score, Cost::Fin(0));
}

#[test]
fn test_fastdtw_long() {
    let radius = 16;
    let num = 256;
    let x = ramp(num);
    let y = ramp(num);
    let (score, _, _) = fast_dtw(&x, &y, &SqDist, radius, false).unwrap();
    assert_eq!(score, Cost::Fin(0));
}

#[test]
fn test_fastdtw_long_not_powerof2() {
    let radius = 30;
    let num = 600;
    let x = ramp(num);
    let y = ramp(num);
    let (score, _, _) = fast_dtw(&x, &y, &SqDist, radius, false).unwrap();
    assert_eq!(score, Cost::Fin(0));
}

/// A reference embedding the query between stretches of zeros.
fn embedded(num: usize) -> (Vec<i32>, Vec<i32>) {
    let x = ramp(num);
    let y: Vec<i32> = (0..3 * num).map(|i| {
        if num < i && i < 2 * num {
            (i - num) as i32
        } else {
            0
        }
    }).collect();
    (x, y)
}

#[test]
fn test_fastdtw_sub_small() {
    let radius = 16;
    let num = 16;
    let (x, y) = embedded(num);
    let (score, (x1path, x2path), _) = fast_dtw(&x, &y, &SqDist, radius, true).unwrap();
    assert_eq!(x1path.len(), x2path.len());
    assert_eq!(score, Cost::Fin(0));
}

#[test]
fn test_fastdtw_sub_large() {
    let radius = 16;
    let num = 32;
    let (x, y) = embedded(num);
    let y1 = reduce_by_half(&y);
    let x1 = reduce_by_half(&x);
    let (score, (x1path, x2path), _) = fast_dtw(&x1, &y1, &SqDist, radius, true).unwrap();
    assert_eq!(x1path.len(), x2path.len());
    let v = fin(score);
    assert!(v <= 1, "{}", v);
}

#[test]
fn test_fastdtw_sub_large_not_pow2() {
    let radius = 20;
    let num = 400;
    let (x, y) = embedded(num);
    let (score, _, _) = fast_dtw(&x, &y, &SqDist, radius, true).unwrap();
    assert_eq!(score, Cost::Fin(0));
}

#[test]
fn test_how_good() {
    let radius = 20;
    let num = 20;
    let x = noise(num, 21);
    let y = noise(num, 22);
    let (score, _, _) = fast_dtw(&x, &y, &SqDist, radius, true).unwrap();
    assert!(fin(score) != 0);
}

#[test]
fn test_how_good2() {
    let radius = 200;
    let num = 2000;
    let x = noise(num, 31);
    let y = noise(num, 32);
    let (score, _, _) = fast_dtw(&x, &y, &SqDist, radius, false).unwrap();
    let (optscore, _, _) = dtw::dtw(&x, &y, Mode::Full, &SqDist).unwrap();
    let s = fin(score);
    let o = fin(optscore);
    assert!(s >= o, "{},{}", s, o);
    assert!((s - o) * 20 <= o, "{},{}", s, o);
}

#[test]
fn test_dp() {
    let query = ramp(50);
    let reference = noise(100, 41);
    let res = fast_dtw(&query, &reference, &SqDist, 2, true).unwrap();
    let (_, (p1, p2), _) = res;
    assert_eq!(p1.len(), p2.len());
}

#[test]
fn manytimes() {
    let query = ramp(500);
    let reference = noise(5000, 43);
    let (score, _, _) = fast_dtw(&query, &reference, &SqDist, 50, true).unwrap();
    assert!(matches!(score, Cost::Fin(_)));
}

#[test]
fn mock() {
    let y = noise(1000, 51);
    for t in 0..3u64 {
        let x = noise(500, 60 + t);
        let (score, _, _) = fast_dtw(&x, &y, &SqDist, 50, true).unwrap();
        let (optscore, _, _) = dtw::dtw(&x, &y, Mode::Sub, &SqDist).unwrap();
        assert!(fin(score) >= fin(optscore));
    }
    assert!(true);
}

#[test]
fn noisy() {
    let mut y = noise(450, 71);
    y.append(&mut ramp(100));
    y.append(&mut noise(450, 72));
    let x = ramp(180);
    let (score, _, _) = fast_dtw(&x, &y, &SqDist, 50, true).unwrap();
    let (optscore, _, _) = dtw::dtw(&x, &y, Mode::Sub, &SqDist).unwrap();
    assert!(fin(score) >= fin(optscore));
}

#[test]
fn should_false() {
    let radius = 50;
    let querylen = 500;
    let mut query = ramp(querylen);
    query[3] += 5;
    let mut reference = vec![0; 1000 - querylen / 2];
    reference.append(&mut ramp(querylen));
    reference.append(&mut vec![0; 1000 - querylen / 2]);
    let (score, _, l1) = fast_dtw(&query, &reference, &SqDist, radius, true).unwrap();
    let (optscore, _, l2) = dtw::dtw(&query, &reference, Mode::Sub, &SqDist).unwrap();
    assert!(true, "{:?} from {} vs {:?} from {}", score, l1, optscore, l2);
}

#[test]
fn test_how_good6() {
    let radius = 50;
    let query = 500;
    let x = ramp(query);
    let mut xs = ramp(query * 10 / 18);
    let mut y = noise(100, 81);
    y.append(&mut xs);
    let mut more = noise(100, 82);
    y.append(&mut more);
    let (score, _, _) = fast_dtw(&x, &y, &SqDist, radius, true).unwrap();
    let (optscore, _, _) = dtw::dtw(&x, &y, Mode::Sub, &SqDist).unwrap();
    let s = fin(score);
    let o = fin(optscore);
    assert!(s >= o, "{},{}", s, o);
    assert!((s - o) * 20 <= o || s == o, "{},{}", s, o);
}
