use pixel_sequence::errors::SequenceError;
use pixel_sequence::pipeline::{get_frames, min_delay, scale_dimensions, strip_alpha};
use pixel_sequence::raster::{ColorLayout, RasterizationData};

#[test]
fn scale_100x50_to_width_40_gives_40x20() {
    assert_eq!(scale_dimensions((100, 50), 40), Ok((40, 20)));
}

#[test]
fn scale_rounds_to_nearest() {
    // 1 * 2 / 3 = 0.67 rounds to 1.
    assert_eq!(scale_dimensions((3, 1), 2), Ok((2, 1)));
    // 1 * 10 / 100 = 0.1 rounds to 0: degenerate, rejected.
    assert_eq!(scale_dimensions((100, 1), 10), Err(SequenceError::InvalidTargetSize));
}

#[test]
fn scale_rejects_empty_source() {
    assert_eq!(scale_dimensions((0, 50), 40), Err(SequenceError::InvalidTargetSize));
    assert_eq!(scale_dimensions((100, 0), 40), Err(SequenceError::InvalidTargetSize));
}

#[test]
fn strip_alpha_drops_every_fourth_byte() {
    let stripped = strip_alpha(vec![1, 2, 3, 4, 5, 6, 7, 8], ColorLayout::Rgba8);
    assert_eq!(stripped, vec![1, 2, 3, 5, 6, 7]);
}

#[test]
fn strip_alpha_passes_other_layouts_through() {
    let buf = vec![1, 2, 3, 4, 5, 6];
    assert_eq!(strip_alpha(buf.clone(), ColorLayout::Rgb8), buf);
    assert_eq!(strip_alpha(buf.clone(), ColorLayout::Other), buf);
}

#[test]
fn min_delay_is_minimum() {
    let frames: Vec<(Vec<u8>, u16)> = vec![(vec![], 30), (vec![], 5), (vec![], 10)];
    assert_eq!(min_delay(&frames), Ok(5));
}

#[test]
fn min_delay_rejects_empty_input() {
    let frames: Vec<(Vec<u8>, u16)> = vec![];
    assert_eq!(min_delay(&frames), Err(SequenceError::EmptyInput));
}

#[test]
fn get_frames_scales_and_resamples() {
    let data = RasterizationData {
        dimensions: (100, 50),
        frames: vec![(vec![77u8; 100 * 50 * 3], 42)],
        color_type: ColorLayout::Rgb8,
    };
    let (frames, step, dims) = get_frames(data, 40).unwrap();
    assert_eq!(dims, (40, 20));
    assert_eq!(step, 42);
    assert_eq!(frames.len(), 1);
    assert_eq!(frames[0].len(), 40 * 20 * 3);
}

#[test]
fn get_frames_strips_alpha_before_checking_size() {
    let data = RasterizationData {
        dimensions: (2, 1),
        frames: vec![(vec![1, 2, 3, 255, 4, 5, 6, 255], 7)],
        color_type: ColorLayout::Rgba8,
    };
    let (frames, _, dims) = get_frames(data, 2).unwrap();
    assert_eq!(dims, (2, 1));
    assert_eq!(frames[0], vec![1, 2, 3, 4, 5, 6]);
}

#[test]
fn get_frames_rejects_mismatched_buffer() {
    let data = RasterizationData {
        dimensions: (2, 2),
        frames: vec![(vec![0u8; 5], 7)],
        color_type: ColorLayout::Rgb8,
    };
    assert_eq!(get_frames(data, 2), Err(SequenceError::FrameSizeMismatch));
}

#[test]
fn get_frames_rejects_empty_frame_list() {
    let data = RasterizationData {
        dimensions: (2, 2),
        frames: vec![],
        color_type: ColorLayout::Rgb8,
    };
    assert_eq!(get_frames(data, 2), Err(SequenceError::EmptyInput));
}

#[test]
fn get_frames_rejects_oversized_image() {
    let data = RasterizationData {
        dimensions: (u32::MAX, u32::MAX),
        frames: vec![(vec![], 7)],
        color_type: ColorLayout::Rgb8,
    };
    assert_eq!(get_frames(data, 16), Err(SequenceError::ImageTooLarge));
}
