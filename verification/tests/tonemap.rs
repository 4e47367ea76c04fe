use clifford::{compress_cell, rank_normalize, tone_map, Histogram};

#[test]
fn compress_known_values() {
    // floor(log_{3/2} v): 1.5^1 = 1.5, 1.5^2 = 2.25, 1.5^6 = 11.39...,
    // 1.5^7 = 17.085..., 1.5^11 = 86.49..., 1.5^12 = 129.74...
    assert_eq!(compress_cell(0), 0);
    assert_eq!(compress_cell(1), 0);
    assert_eq!(compress_cell(2), 1);
    assert_eq!(compress_cell(3), 2);
    assert_eq!(compress_cell(11), 5);
    assert_eq!(compress_cell(12), 6);
    assert_eq!(compress_cell(17), 6);
    assert_eq!(compress_cell(18), 7);
    assert_eq!(compress_cell(100), 11);
    assert_eq!(compress_cell(u64::MAX), 109);
}

#[test]
fn rank_normalize_assigns_dense_ascending_ranks() {
    let c: Vec<u64> = vec![5, 1, 5, 9];
    let (ranks, distinct) = rank_normalize(&c);
    assert_eq!(ranks, vec![1, 0, 1, 2]);
    assert_eq!(distinct, 3);
}

#[test]
fn rank_normalize_is_idempotent() {
    let c: Vec<u64> = vec![7, 0, 42, 7, 3];
    let (once, d1) = rank_normalize(&c);
    let (twice, d2) = rank_normalize(&once);
    assert_eq!(once, twice);
    assert_eq!(d1, d2);
}

#[test]
fn tone_map_two_levels_is_black_and_white() {
    let h = Histogram { counts: vec![0, 100], width: 2, height: 1 };
    let img = tone_map(&h);
    assert_eq!(img, vec![65535, 0]);
}

#[test]
fn tone_map_rounds_the_middle_rank() {
    let h = Histogram { counts: vec![0, 2, 100], width: 3, height: 1 };
    // Ranks 0, 1, 2 of 3 distinct values; round(1 * 65535 / 2) = 32768.
    let img = tone_map(&h);
    assert_eq!(img, vec![65535, 65535 - 32768, 0]);
}

#[test]
fn tone_map_all_zero_histogram_is_all_white() {
    let h = Histogram { counts: vec![0; 9], width: 3, height: 3 };
    let img = tone_map(&h);
    assert_eq!(img, vec![65535; 9]);
}
