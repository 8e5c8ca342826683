use pixel_sequence::matrix::{build_matrix, frame_tokens, quantize_channel};

#[test]
fn quantize_depth_8_is_identity() {
    for c in [0u8, 1, 63, 64, 127, 128, 254, 255] {
        assert_eq!(quantize_channel(c, 8), u32::from(c));
    }
}

#[test]
fn quantize_depth_1_splits_at_128() {
    assert_eq!(quantize_channel(0, 1), 0);
    assert_eq!(quantize_channel(127, 1), 0);
    assert_eq!(quantize_channel(128, 1), 1);
    assert_eq!(quantize_channel(255, 1), 1);
}

#[test]
fn quantize_is_monotone_and_bucketed() {
    for depth in 1..=8u32 {
        let mut prev = 0u32;
        for c in 0..=255u8 {
            let q = quantize_channel(c, depth);
            assert!(q >= prev, "quantization must never decrease");
            assert!(q < 1 << depth, "bucket out of range");
            prev = q;
        }
        assert_eq!(prev, (1 << depth) - 1, "top bucket must be reached");
    }
}

#[test]
fn frame_tokens_single_pixel() {
    let tokens = frame_tokens(&vec![64, 64, 64], 8);
    assert_eq!(tokens, vec![String::from("&'T7")]);
}

#[test]
fn frame_tokens_row_major_order() {
    // Two pixels; each token encodes that pixel's packed color.
    let tokens = frame_tokens(&vec![0, 0, 0, 64, 64, 64], 8);
    assert_eq!(tokens, vec![String::from("!"), String::from("&'T7")]);
}

#[test]
fn tokens_at_full_depth_are_injective_samples() {
    // At bit depth 8 distinct colors must receive distinct tokens.
    let a = frame_tokens(&vec![0, 0, 0], 8);
    let b = frame_tokens(&vec![1, 0, 0], 8);
    let c = frame_tokens(&vec![0, 1, 0], 8);
    let d = frame_tokens(&vec![0, 0, 1], 8);
    assert_ne!(a[0], b[0]);
    assert_ne!(a[0], c[0]);
    assert_ne!(a[0], d[0]);
    assert_ne!(b[0], c[0]);
    assert_ne!(b[0], d[0]);
    assert_ne!(c[0], d[0]);
    let e = frame_tokens(&vec![1, 2, 3], 8);
    let f = frame_tokens(&vec![3, 2, 1], 8);
    assert_ne!(e[0], f[0]);
}

#[test]
fn matrix_merges_equal_consecutive_colors() {
    let frames = vec![vec![64, 64, 64], vec![64, 64, 64], vec![64, 64, 64]];
    let matrix = build_matrix(&frames, (1, 1), 8);
    assert_eq!(matrix.len(), 1);
    assert_eq!(matrix[0].len(), 1);
    assert_eq!(matrix[0][0].color, "&'T7");
    assert_eq!(matrix[0][0].duration, 3);
}

#[test]
fn matrix_alternating_colors_three_events() {
    let frames = vec![vec![0, 0, 0], vec![255, 255, 255], vec![0, 0, 0]];
    let matrix = build_matrix(&frames, (1, 1), 1);
    assert_eq!(matrix.len(), 1);
    let row = &matrix[0];
    assert_eq!(row.len(), 3);
    assert_eq!((row[0].color.as_str(), row[0].duration), ("!", 1));
    assert_eq!((row[1].color.as_str(), row[1].duration), ("(", 1));
    assert_eq!((row[2].color.as_str(), row[2].duration), ("!", 1));
}

#[test]
fn matrix_timeline_invariant_holds() {
    // Mixed runs: durations must sum to the frame count and no two
    // adjacent events may share a color.
    let frames = vec![
        vec![10, 10, 10],
        vec![10, 10, 10],
        vec![200, 200, 200],
        vec![200, 200, 200],
        vec![10, 10, 10],
    ];
    for depth in 1..=8u32 {
        let matrix = build_matrix(&frames, (1, 1), depth);
        let row = &matrix[0];
        let total: u32 = row.iter().map(|e| u32::from(e.duration)).sum();
        assert_eq!(total, 5);
        for w in row.windows(2) {
            assert_ne!(w[0].color, w[1].color);
        }
        for e in row {
            assert!(e.duration >= 1);
        }
    }
}

#[test]
fn matrix_positions_are_independent() {
    // A 2x1 image whose left pixel changes and right pixel stays.
    let frames = vec![vec![0, 0, 0, 9, 9, 9], vec![255, 255, 255, 9, 9, 9]];
    let matrix = build_matrix(&frames, (2, 1), 8);
    assert_eq!(matrix.len(), 2);
    assert_eq!(matrix[0].len(), 2);
    assert_eq!(matrix[1].len(), 1);
    assert_eq!(matrix[1][0].duration, 2);
}
