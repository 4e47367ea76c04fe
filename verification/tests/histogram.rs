use clifford::{accumulate_chunks, accumulate_scaled, merge};

#[test]
fn accumulate_counts_hits_and_drops_outsiders() {
    let pairs: Vec<(i32, i32)> = vec![(0, 0), (1, 1), (0, 0), (5, 5), (-1, 0), (0, 2)];
    let h = accumulate_scaled(&pairs, 2, 2);
    // Row-major 2x2: cell (col 0, row 0) hit twice, (col 1, row 1) once;
    // (5,5), (-1,0) and (0,2) fall outside the window and are dropped.
    assert_eq!(h.counts, vec![2, 0, 0, 1]);
    let total: u64 = h.counts.iter().sum();
    assert_eq!(total, 3);
}

#[test]
fn merge_adds_cells_elementwise() {
    let a = accumulate_scaled(&vec![(0, 0), (1, 0)], 2, 1);
    let b = accumulate_scaled(&vec![(0, 0), (0, 0)], 2, 1);
    let m = merge(&a, &b);
    assert_eq!(m.counts, vec![3, 1]);
}

#[test]
fn partitioned_accumulation_matches_sequential() {
    let all: Vec<(i32, i32)> = vec![
        (0, 0),
        (1, 2),
        (2, 1),
        (1, 2),
        (0, 0),
        (2, 2),
        (7, 0),
        (1, 1),
    ];
    let whole = accumulate_scaled(&all, 3, 3);
    // Any chunk boundaries must give the same histogram.
    let chunks: Vec<Vec<(i32, i32)>> = vec![
        vec![(0, 0), (1, 2), (2, 1)],
        vec![],
        vec![(1, 2), (0, 0)],
        vec![(2, 2), (7, 0), (1, 1)],
    ];
    let parts = accumulate_chunks(&chunks, 3, 3);
    assert_eq!(whole.counts, parts.counts);

    let other: Vec<Vec<(i32, i32)>> = vec![
        vec![(0, 0)],
        vec![(1, 2), (2, 1), (1, 2), (0, 0), (2, 2)],
        vec![(7, 0), (1, 1)],
    ];
    let parts2 = accumulate_chunks(&other, 3, 3);
    assert_eq!(whole.counts, parts2.counts);
}
