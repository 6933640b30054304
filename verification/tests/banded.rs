//! The banded engine on whole sequences.

use dtw::dtw_chiba::dtw_chiba;
use dtw::{AbsDist, Cost};

#[test]
fn phony_test() {
    let x1 = vec![1, 2, 3];
    let x2 = vec![1, 2, 3];
    let band = 3;
    let (score, (xpath, ypath), start) = dtw_chiba(&x1, &x2, &AbsDist, band).unwrap();
    assert_eq!(score, Cost::Fin(0));
    assert_eq!(xpath, vec![0, 1, 2]);
    assert_eq!(ypath, vec![0, 1, 2]);
    assert_eq!(start, 0);
}

#[test]
fn too_large_band() {
    let mut x1: Vec<i32> = (0..10).collect();
    x1.push(0);
    x1.push(0);
    let mut x2: Vec<i32> = vec![0];
    x2.append(&mut (0..10).collect());
    x2.push(0);
    let band = 21;
    assert!(dtw_chiba(&x1, &x2, &AbsDist, band).is_err());
}

#[test]
fn flat_test() {
    let x1 = vec![0; 20];
    let x2 = vec![0; 20];
    let band = 11;
    let (score, _, _) = dtw_chiba(&x1, &x2, &AbsDist, band).unwrap();
    assert_eq!(score, Cost::Fin(0));
}

#[test]
fn spike_test() {
    let mut x1 = vec![10; 10];
    x1.push(1000);
    x1.append(&mut vec![10; 10]);
    let mut x2 = vec![10; 7];
    x2.push(1000);
    x2.append(&mut vec![10; 13]);
    let band = 15;
    let (score, _, _) = dtw_chiba(&x1, &x2, &AbsDist, band).unwrap();
    assert_eq!(score, Cost::Fin(0));
}

#[test]
fn short_band() {
    let mut x1: Vec<i32> = (0..10).collect();
    x1.push(0);
    x1.push(0);
    let mut x2: Vec<i32> = vec![0];
    x2.append(&mut (0..10).collect());
    x2.push(0);
    let band = 5;
    let (score, _, start) = dtw_chiba(&x1, &x2, &AbsDist, band).unwrap();
    assert_eq!(score, Cost::Fin(0));
    assert_eq!(start, 0);
}

#[test]
fn band_test() {
    let mut x1: Vec<i32> = (0..1000).collect();
    x1.append(&mut vec![0; 10]);
    let mut x2: Vec<i32> = vec![0; 9];
    x2.append(&mut (0..1000).collect());
    x2.push(0);
    let band = 21;
    let (score, _, start) = dtw_chiba(&x1, &x2, &AbsDist, band).unwrap();
    assert_eq!(score, Cost::Fin(0));
    assert_eq!(start, 0);
}

#[test]
fn skipping_scan_long_query() {
    // A query longer than the reference fits no window: the skipping scan
    // evaluates nothing and reports an infinite best.
    let query = vec![1, 2, 3, 4, 5];
    let reference = vec![1, 2, 3];
    let res = dtw::utils::chiba_skipping_dtw(&query, &reference, dtw::Mode::SakoeChiba(3), &dtw::SqDist);
    assert_eq!(res, Some(Cost::Inf));
}
