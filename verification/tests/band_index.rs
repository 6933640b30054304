//! Band index mapping and band validation.

use dtw::dtw_chiba::{detect_err_about_band, dp_to_matrix_idx, dp_valid_idx, matrix_to_dp_idx};

#[test]
fn dp_to_matrix_test() {
    assert_eq!(dp_to_matrix_idx(4, 3), (1, 1));
    assert_eq!(dp_to_matrix_idx(10, 3), (3, 3));
    assert_eq!(dp_to_matrix_idx(22, 3), (7, 7));
    assert_eq!(dp_to_matrix_idx(22, 5), (4, 4));
    assert_eq!(dp_to_matrix_idx(26, 5), (5, 4));
    assert_eq!(dp_to_matrix_idx(4, 5), (0, 2));
}

#[test]
fn matrix_to_dp_test() {
    assert_eq!(matrix_to_dp_idx(0, 0, 3), 1);
    assert_eq!(matrix_to_dp_idx(7, 7, 3), 22);
    assert_eq!(matrix_to_dp_idx(4, 3, 3), 12);
    assert_eq!(matrix_to_dp_idx(5, 5, 5), 27);
    assert_eq!(matrix_to_dp_idx(3, 5, 5), 19);
    assert_eq!(matrix_to_dp_idx(1, 3, 5), 9);
}

#[test]
fn inversivity() {
    let band = 11;
    let n = 20;
    for i in 0..n {
        for j in 0..n {
            if j < i + band / 2 && i < j + band / 2 {
                let dp = matrix_to_dp_idx(i, j, band);
                let (ni, nj) = dp_to_matrix_idx(dp, band);
                assert_eq!((i, j), (ni, nj));
            }
        }
    }
}

#[test]
fn inversivity2() {
    let band = 21;
    let n = 30;
    for dp in 0..band * n {
        if dp_valid_idx(dp, band, n) {
            let (i, j) = dp_to_matrix_idx(dp, band);
            let m = matrix_to_dp_idx(i, j, band);
            assert!(dp == m, "{} -> ({},{}) -> {}", dp, i, j, m);
        }
    }
}

#[test]
fn err_detect1() {
    let x1len = 10;
    let x2len = 10;
    let band = 3;
    assert!(detect_err_about_band(x1len, x2len, band).is_ok());
}

#[test]
fn err_detect2() {
    let x1len = 10;
    let x2len = 10;
    let band = 1;
    assert!(detect_err_about_band(x1len, x2len, band).is_err());
}

#[test]
fn err_detect3() {
    let x1len = 10;
    let x2len = 10;
    let band = 4;
    assert!(detect_err_about_band(x1len, x2len, band).is_err());
}

#[test]
fn err_detect4() {
    let x1len = 10;
    let x2len = 10;
    let band = 11;
    assert!(detect_err_about_band(x1len, x2len, band).is_err());
}

#[test]
fn err_detect5() {
    let x1len = 201;
    let x2len = 200;
    let band = 100;
    assert!(detect_err_about_band(x1len, x2len, band).is_err());
}
