use pixel_sequence::base_converter::create_base_encoder;
use pixel_sequence::errors::SequenceError;
use pixel_sequence::image_formats::SupportedImageFormats;
use pixel_sequence::sequence::{sequence_from_frames, stringify_matrix, Sequence};
use pixel_sequence::matrix::build_matrix;

#[test]
fn scenario_solid_color_three_frames() {
    // 1x1, three frames of (64,64,64), bit depth 8: one row, one event of
    // duration 3.
    let frames = vec![vec![64u8, 64, 64], vec![64, 64, 64], vec![64, 64, 64]];
    let seq = sequence_from_frames(frames, (1, 1), 100, 8);
    assert_eq!(seq.length, 3);
    assert_eq!(seq.step_length, 100);
    assert_eq!(seq.duration, 300);
    assert_eq!(seq.width, 1);
    assert_eq!(seq.height, 1);
    assert_eq!(seq.num_chunks, 1);
    assert_eq!(seq.max_chunk_size, 3);
    assert_eq!(seq.bit_depth, 8);
    assert_eq!(seq.matrices, vec![String::from("[[[\"&'T7\",3]]]")]);
}

#[test]
fn scenario_alternating_colors_bit_depth_1() {
    // 1x1 alternating black/white/black at bit depth 1: three events of
    // duration 1 (buckets 0 and 7 packed, encoded over the alphabet).
    let frames = vec![vec![0u8, 0, 0], vec![255, 255, 255], vec![0, 0, 0]];
    let seq = sequence_from_frames(frames, (1, 1), 10, 1);
    assert_eq!(seq.length, 3);
    assert_eq!(seq.matrices, vec![String::from("[[[\"!\",1],[\"(\",1],[\"!\",1]]]")]);
}

#[test]
fn serialized_grammar_multiple_rows() {
    // Two pixel positions produce a comma-separated outer list.
    let frames = vec![vec![0u8, 0, 0, 64, 64, 64]];
    let matrix = build_matrix(&frames, (2, 1), 8);
    let s = stringify_matrix(&matrix);
    assert_eq!(s, "[[[\"!\",1]],[[\"&'T7\",1]]]");
}

#[test]
fn serialized_grammar_empty_matrix() {
    let matrix = Vec::new();
    assert_eq!(stringify_matrix(&matrix), "[]");
}

#[test]
fn format_tag_parsing_is_exact() {
    assert_eq!(SupportedImageFormats::from(String::from("png")), Some(SupportedImageFormats::PNG));
    assert_eq!(
        SupportedImageFormats::from(String::from("jpeg")),
        Some(SupportedImageFormats::JPEG)
    );
    assert_eq!(SupportedImageFormats::from(String::from("gif")), Some(SupportedImageFormats::GIF));
    assert_eq!(SupportedImageFormats::from(String::from("bmp")), None);
    assert_eq!(SupportedImageFormats::from(String::from("PNG")), None);
    assert_eq!(SupportedImageFormats::from(String::from("jpg")), None);
}

#[test]
fn validation_precedes_decoding() {
    // Garbage bytes: with an invalid bit depth or width the validation
    // error must surface, not a decode error.
    let garbage = vec![1u8, 2, 3];
    assert!(matches!(
        Sequence::new(&garbage, SupportedImageFormats::PNG, 0, 10),
        Err(SequenceError::InvalidBitDepth)
    ));
    assert!(matches!(
        Sequence::new(&garbage, SupportedImageFormats::PNG, 9, 10),
        Err(SequenceError::InvalidBitDepth)
    ));
    assert!(matches!(
        Sequence::new(&garbage, SupportedImageFormats::GIF, 8, 0),
        Err(SequenceError::InvalidMaxWidth)
    ));
}

#[test]
fn undecodable_bytes_give_decode_error() {
    let garbage = vec![1u8, 2, 3, 4, 5];
    assert!(matches!(
        Sequence::new(&garbage, SupportedImageFormats::PNG, 8, 10),
        Err(SequenceError::DecodeFailed)
    ));
    assert!(matches!(
        Sequence::new(&garbage, SupportedImageFormats::GIF, 8, 10),
        Err(SequenceError::DecodeFailed)
    ));
    assert!(matches!(
        Sequence::new(&garbage, SupportedImageFormats::JPEG, 8, 10),
        Err(SequenceError::DecodeFailed)
    ));
}

fn gif_bytes(colors: &[[u8; 3]], delay_ms: u32) -> Vec<u8> {
    let mut bytes: Vec<u8> = Vec::new();
    {
        let mut encoder = image::codecs::gif::GifEncoder::new(&mut bytes);
        let mut frames = Vec::new();
        for c in colors {
            let img = image::RgbaImage::from_pixel(1, 1, image::Rgba([c[0], c[1], c[2], 255]));
            frames.push(image::Frame::from_parts(
                img,
                0,
                0,
                image::Delay::from_numer_denom_ms(delay_ms, 1),
            ));
        }
        encoder.encode_frames(frames).unwrap();
    }
    bytes
}

#[test]
fn end_to_end_gif_solid_three_frames() {
    let bytes = gif_bytes(&[[64, 64, 64], [64, 64, 64], [64, 64, 64]], 100);
    let seq = Sequence::new(&bytes, SupportedImageFormats::GIF, 8, 1).unwrap();
    assert_eq!(seq.length, 3);
    assert_eq!(seq.step_length, 100);
    assert_eq!(seq.duration, 300);
    assert_eq!((seq.width, seq.height), (1, 1));
    assert_eq!(seq.num_chunks, 1);
    assert_eq!(seq.max_chunk_size, 3);
    assert_eq!(seq.matrices, vec![String::from("[[[\"&'T7\",3]]]")]);
}

#[test]
fn end_to_end_gif_alternating_bit_depth_1() {
    let bytes = gif_bytes(&[[0, 0, 0], [255, 255, 255], [0, 0, 0]], 50);
    let seq = Sequence::new(&bytes, SupportedImageFormats::GIF, 1, 1).unwrap();
    assert_eq!(seq.length, 3);
    assert_eq!(seq.step_length, 50);
    assert_eq!(seq.bit_depth, 1);
    assert_eq!(seq.matrices, vec![String::from("[[[\"!\",1],[\"(\",1],[\"!\",1]]]")]);
}

#[test]
fn end_to_end_png_still_image() {
    let img = image::RgbImage::from_pixel(2, 2, image::Rgb([10, 20, 30]));
    let mut bytes = std::io::Cursor::new(Vec::new());
    img.write_to(&mut bytes, image::ImageOutputFormat::Png).unwrap();
    let seq = Sequence::new(bytes.get_ref(), SupportedImageFormats::PNG, 8, 1).unwrap();
    assert_eq!(seq.length, 1);
    assert_eq!(seq.step_length, 1000);
    assert_eq!(seq.duration, 1000);
    assert_eq!((seq.width, seq.height), (1, 1));
    // Nearest-neighbor downsampling of a solid image keeps the color.
    let token = create_base_encoder().encode(10 + (20 << 8) + (30 << 16));
    assert_eq!(seq.matrices, vec![format!("[[[\"{}\",1]]]", token)]);
}

#[test]
fn end_to_end_jpeg_still_image() {
    let img = image::RgbImage::from_pixel(8, 8, image::Rgb([128, 128, 128]));
    let mut bytes = std::io::Cursor::new(Vec::new());
    img.write_to(&mut bytes, image::ImageOutputFormat::Jpeg(95)).unwrap();
    let seq = Sequence::new(bytes.get_ref(), SupportedImageFormats::JPEG, 8, 4).unwrap();
    assert_eq!(seq.length, 1);
    assert_eq!(seq.step_length, 1000);
    assert_eq!((seq.width, seq.height), (4, 4));
    assert_eq!(seq.num_chunks, 1);
    assert_eq!(seq.matrices.len(), 1);
}
