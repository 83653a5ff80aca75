use rimage::engine::BlockNms;
use rimage::engine::FrameStats;
use rimage::scan::BlockInfo;

fn grid(height: usize, width: usize, fill: u16, spikes: &[(usize, usize, u16)]) -> Vec<u16> {
    let mut g = vec![fill; height * width];
    for &(x, y, v) in spikes {
        g[y * width + x] = v;
    }
    g
}

fn psr(info: &BlockInfo, st: &FrameStats) -> f64 {
    let mean = st.sum as f64 / st.count as f64;
    let variance = st.sq as f64 / st.count as f64 - mean * mean;
    let std = variance.sqrt().max(0.00001);
    (info.max as f64 - mean) / std
}

fn assert_pairwise_separation(peaks: &[BlockInfo], square: usize, dist: usize) {
    for i in 0..peaks.len() {
        for j in (i + 1)..peaks.len() {
            let dx = (peaks[i].x / square) as i64 - (peaks[j].x / square) as i64;
            let dy = (peaks[i].y / square) as i64 - (peaks[j].y / square) as i64;
            let cheb = dx.abs().max(dy.abs());
            assert!(cheb > dist as i64, "peaks {} and {} too close", i, j);
        }
    }
}

#[test]
fn single_spike_exact_position() {
    let mut nms = BlockNms::new(1, 4, 16, 16);
    let g = grid(16, 16, 10, &[(5, 6, 500)]);
    let (peaks, _st) = nms.run(&g, 1, 3);
    assert!(peaks.len() >= 1);
    assert_eq!(peaks[0].max, 500);
    assert_eq!(peaks[0].x, 5);
    assert_eq!(peaks[0].y, 6);
    // dist 1 suppresses the whole 2x2 valid region around the spike's block
    assert_eq!(peaks.len(), 1);
}

#[test]
fn ties_follow_block_index_order() {
    let mut nms = BlockNms::new(1, 4, 16, 16);
    let g = grid(16, 16, 10, &[(5, 6, 500)]);
    let (peaks, _st) = nms.run(&g, 0, 4);
    // the spike first, then the equal-valued blocks by ascending block index,
    // each recording the first (row-major) position of its maximum
    assert_eq!(peaks.len(), 4);
    assert_eq!((peaks[0].max, peaks[0].x, peaks[0].y), (500, 5, 6));
    assert_eq!((peaks[1].max, peaks[1].x, peaks[1].y), (10, 8, 4));
    assert_eq!((peaks[2].max, peaks[2].x, peaks[2].y), (10, 4, 8));
    assert_eq!((peaks[3].max, peaks[3].x, peaks[3].y), (10, 8, 8));
}

#[test]
fn output_never_exceeds_total() {
    let mut nms = BlockNms::new(0, 4, 16, 16);
    let g = grid(16, 16, 3, &[(1, 1, 90), (9, 9, 80), (13, 2, 70)]);
    for total in 0..6 {
        let (peaks, _st) = nms.run(&g, 0, total);
        assert!(peaks.len() <= total);
    }
}

#[test]
fn accepted_peaks_are_separated() {
    let mut nms = BlockNms::new(0, 4, 16, 16);
    let g = grid(16, 16, 3, &[(1, 1, 90), (9, 9, 80), (13, 2, 70), (2, 13, 60)]);
    for dist in 0..4 {
        let (peaks, _st) = nms.run(&g, dist, 16);
        assert_pairwise_separation(&peaks, 4, dist);
    }
}

#[test]
fn border_blocks_are_never_candidates() {
    let mut nms = BlockNms::new(1, 4, 12, 12);
    // a large spike in a border block must be ignored; only the single
    // interior block can produce a peak
    let g = grid(12, 12, 0, &[(0, 0, 999), (11, 11, 999), (5, 5, 5)]);
    let (peaks, _st) = nms.run(&g, 0, 10);
    assert_eq!(peaks.len(), 1);
    assert_eq!((peaks[0].max, peaks[0].x, peaks[0].y), (5, 5, 5));
    for p in &peaks {
        assert!(p.x / 4 >= 1 && p.x / 4 < 2);
        assert!(p.y / 4 >= 1 && p.y / 4 < 2);
    }
}

#[test]
fn zero_max_blocks_are_skipped() {
    let mut nms = BlockNms::new(0, 4, 8, 8);
    let g = grid(8, 8, 0, &[(6, 2, 40)]);
    let (peaks, _st) = nms.run(&g, 0, 10);
    // three blocks are all zero and produce no peaks at all
    assert_eq!(peaks.len(), 1);
    assert_eq!((peaks[0].max, peaks[0].x, peaks[0].y), (40, 6, 2));
}

#[test]
fn equal_spikes_at_dist_plus_one_both_accepted() {
    let mut nms = BlockNms::new(0, 4, 4, 24);
    // blocks 0 and 3 along one row: Chebyshev separation 3
    let g = grid(4, 24, 0, &[(1, 2, 100), (13, 1, 100)]);
    let (peaks, _st) = nms.run(&g, 2, 10);
    assert_eq!(peaks.len(), 2);
    assert_eq!((peaks[0].max, peaks[0].x, peaks[0].y), (100, 1, 2));
    assert_eq!((peaks[1].max, peaks[1].x, peaks[1].y), (100, 13, 1));
}

#[test]
fn equal_spikes_within_dist_only_first_accepted() {
    let mut nms = BlockNms::new(0, 4, 4, 24);
    let g = grid(4, 24, 0, &[(1, 2, 100), (13, 1, 100)]);
    let (peaks, _st) = nms.run(&g, 3, 10);
    assert_eq!(peaks.len(), 1);
    assert_eq!((peaks[0].max, peaks[0].x, peaks[0].y), (100, 1, 2));
}

#[test]
fn total_zero_twice_returns_empty() {
    let mut nms = BlockNms::new(0, 4, 8, 8);
    let g = grid(8, 8, 9, &[(2, 2, 50)]);
    let (first, _) = nms.run(&g, 1, 0);
    let (second, _) = nms.run(&g, 1, 0);
    assert!(first.is_empty());
    assert!(second.is_empty());
}

#[test]
fn rerun_is_identical() {
    let mut nms = BlockNms::new(0, 4, 16, 16);
    let g = grid(16, 16, 2, &[(1, 1, 90), (9, 9, 90), (13, 2, 70)]);
    let (first, st1) = nms.run(&g, 1, 3);
    let (second, st2) = nms.run(&g, 1, 3);
    assert_eq!(first, second);
    assert_eq!(st1.sum, st2.sum);
    assert_eq!(st1.sq, st2.sq);
    assert_eq!(st1.count, st2.count);
}

#[test]
fn uniform_grid_has_zero_psr() {
    let mut nms = BlockNms::new(0, 4, 8, 8);
    let g = grid(8, 8, 7, &[]);
    let (peaks, st) = nms.run(&g, 0, 4);
    assert_eq!(st.count, 4);
    assert_eq!(st.sum, 28);
    assert_eq!(st.sq, 196);
    assert_eq!(peaks.len(), 4);
    for p in &peaks {
        assert_eq!(p.max, 7);
        assert_eq!(p.max as u128 * st.count as u128, st.sum);
        assert_eq!(psr(p, &st), 0.0);
    }
}

#[test]
fn statistics_are_exact() {
    let mut nms = BlockNms::new(0, 4, 4, 8);
    let g = grid(4, 8, 0, &[(1, 1, 3), (6, 2, 5)]);
    let (peaks, st) = nms.run(&g, 0, 10);
    assert_eq!(st.count, 2);
    assert_eq!(st.sum, 8);
    assert_eq!(st.sq, 34);
    assert_eq!(peaks.len(), 2);
    // descending by max value
    assert_eq!((peaks[0].max, peaks[0].x, peaks[0].y), (5, 6, 2));
    assert_eq!((peaks[1].max, peaks[1].x, peaks[1].y), (3, 1, 1));
    let p0 = psr(&peaks[0], &st);
    let p1 = psr(&peaks[1], &st);
    assert!(p0 > 0.0 && p1 < 0.0);
    assert!((p0 + p1).abs() < 1e-9);
}

#[test]
fn empty_valid_region_yields_empty_output() {
    let mut nms = BlockNms::new(5, 4, 8, 8);
    let g = grid(8, 8, 100, &[]);
    let (first, st) = nms.run(&g, 0, 10);
    let (second, _) = nms.run(&g, 0, 10);
    assert!(first.is_empty());
    assert!(second.is_empty());
    assert_eq!(st.count, 0);
    assert_eq!(st.sum, 0);
}

#[test]
fn first_occurrence_of_equal_maxima_wins() {
    let mut nms = BlockNms::new(0, 4, 4, 4);
    let g = grid(4, 4, 1, &[(2, 1, 9), (1, 2, 9)]);
    let (peaks, _st) = nms.run(&g, 0, 1);
    assert_eq!(peaks.len(), 1);
    // (2, 1) comes before (1, 2) in row-major order
    assert_eq!((peaks[0].max, peaks[0].x, peaks[0].y), (9, 2, 1));
}

#[test]
fn clipped_edge_blocks_are_scanned() {
    let mut nms = BlockNms::new(0, 4, 4, 10);
    // the last block column covers only pixels 8 and 9
    let g = grid(4, 10, 0, &[(9, 3, 50)]);
    let (peaks, _st) = nms.run(&g, 0, 10);
    assert_eq!(peaks.len(), 1);
    assert_eq!((peaks[0].max, peaks[0].x, peaks[0].y), (50, 9, 3));
}

#[test]
fn highest_peak_comes_first() {
    let mut nms = BlockNms::new(0, 4, 16, 16);
    let g = grid(16, 16, 0, &[(1, 1, 30), (9, 9, 90), (13, 2, 60)]);
    let (peaks, _st) = nms.run(&g, 0, 10);
    assert_eq!(peaks.len(), 3);
    assert_eq!(peaks[0].max, 90);
    assert_eq!(peaks[1].max, 60);
    assert_eq!(peaks[2].max, 30);
}

#[test]
fn coordinate_only_variant_matches_full_records() {
    let mut a = BlockNms::new(0, 4, 16, 16);
    let mut b = BlockNms::new(0, 4, 16, 16);
    let g = grid(16, 16, 2, &[(1, 1, 90), (9, 9, 80), (13, 2, 70)]);
    let (peaks, _st) = a.run(&g, 1, 3);
    let coords = b.run_coords(&g, 1, 3);
    assert_eq!(coords.len(), peaks.len());
    for (c, p) in coords.iter().zip(peaks.iter()) {
        assert_eq!(*c, (p.x, p.y));
    }
}
