use vstd::prelude::*;
use crate::errors::SequenceError;
use crate::image_formats::SupportedImageFormats;
use image::AnimationDecoder;
use image::ImageDecoder;

verus! {

/// A (width, height) pair.
pub type Dimensions = (u32, u32);

/// The channel layout of a decoded frame buffer, as far as the pipeline
/// reads it: 8-bit RGB, 8-bit RGBA (alpha to be stripped), or anything
/// else, which passes through unchanged.
#[derive(Clone, Copy, Debug, PartialEq, Eq, Structural)]
pub enum ColorLayout {
    Rgb8,
    Rgba8,
    Other,
}

/// What raster ingest hands the pipeline: nominal dimensions, one flat
/// channel-interleaved buffer plus display delay per frame, and the
/// buffers' channel layout.
pub struct RasterizationData {
    pub dimensions: Dimensions,
    pub frames: Vec<(Vec<u8>, u16)>,
    pub color_type: ColorLayout,
}

/// The delay of every frame.
pub open spec fn delays_of(frames: Seq<(Vec<u8>, u16)>) -> Seq<u16> {
    frames.map_values(|f: (Vec<u8>, u16)| f.1)
}

/// The pixel buffer of every frame.
pub open spec fn buffers_of(frames: Seq<(Vec<u8>, u16)>) -> Seq<Seq<u8>> {
    frames.map_values(|f: (Vec<u8>, u16)| f.0@)
}

/// Every frame buffer has the byte count its layout and the nominal
/// dimensions demand (nothing is said of layouts the pipeline does not
/// read).
pub open spec fn raster_sized(d: RasterizationData) -> bool {
    &&& d.color_type == ColorLayout::Rgb8 ==> forall|i: int|
        0 <= i < d.frames@.len() ==> (#[trigger] d.frames@[i]).0@.len() == d.dimensions.0
            * d.dimensions.1 * 3
    &&& d.color_type == ColorLayout::Rgba8 ==> forall|i: int|
        0 <= i < d.frames@.len() ==> (#[trigger] d.frames@[i]).0@.len() == d.dimensions.0
            * d.dimensions.1 * 4
}

/// Each raw frame's buffer as a byte sequence, beside its delay ratio.
pub open spec fn raw_frames_view(v: Seq<(Vec<u8>, u32, u32)>) -> Seq<(Seq<u8>, u32, u32)> {
    v.map_values(|f: (Vec<u8>, u32, u32)| (f.0@, f.1, f.2))
}

/// Each frame's buffer as a byte sequence, beside its delay.
pub open spec fn frame_pairs_view(v: Seq<(Vec<u8>, u16)>) -> Seq<(Seq<u8>, u16)> {
    v.map_values(|f: (Vec<u8>, u16)| (f.0@, f.1))
}

/// What the image crate's GIF decode yields for a byte stream it accepts:
/// the canvas dimensions and every composited RGBA8 frame with its delay
/// as a millisecond ratio; nothing for a stream it rejects. The decode is
/// a function of the bytes alone.
pub uninterp spec fn gif_decoded(buffer: Seq<u8>) -> Option<(u32, u32, Seq<(Seq<u8>, u32, u32)>)>;

/// What the image crate's PNG decode yields for a byte stream it accepts:
/// dimensions, channel layout and the raw interleaved bytes; nothing for a
/// stream it rejects. The decode is a function of the bytes alone.
pub uninterp spec fn png_decoded(buffer: Seq<u8>) -> Option<(u32, u32, ColorLayout, Seq<u8>)>;

/// What the image crate's JPEG decode yields, exactly as the PNG name.
pub uninterp spec fn jpeg_decoded(buffer: Seq<u8>) -> Option<(u32, u32, ColorLayout, Seq<u8>)>;

#[verifier::external_type_specification]
#[verifier::external_body]
pub struct ExImageError(image::error::ImageError);

/// Relies on image::codecs::gif::GifDecoder and AnimationDecoder::into_frames:
/// decodes an in-memory GIF into frames, each a full-canvas RGBA8 buffer
/// (the iterator composites every frame onto the logical screen) together
/// with its display delay as a millisecond ratio. The decode depends on
/// the bytes alone, so its outcome carries the GIF decode's name.
#[verifier::external_body]
fn decode_gif_raw(buffer: &[u8]) -> (r: Result<
    (u32, u32, Vec<(Vec<u8>, u32, u32)>),
    image::error::ImageError,
>)
    ensures
        r is Ok <==> gif_decoded(buffer@) is Some,
        r matches Ok(d) ==> gif_decoded(buffer@) == Some((d.0, d.1, raw_frames_view(d.2@))),
        r matches Ok(d) ==> forall|i: int|
            0 <= i < d.2@.len() ==> (#[trigger] d.2@[i]).0@.len() == d.0 * d.1 * 4,
{
    let decoder = image::codecs::gif::GifDecoder::new(std::io::Cursor::new(buffer))?;
    let (width, height) = decoder.dimensions();
    let mut frames: Vec<(Vec<u8>, u32, u32)> = Vec::new();
    for frame in decoder.into_frames() {
        let frame = frame?;
        let (numer, denom) = frame.delay().numer_denom_ms();
        frames.push((frame.into_buffer().into_raw(), numer, denom));
    }
    Ok((width, height, frames))
}

/// Relies on image::load_from_memory_with_format and DynamicImage::into_bytes:
/// decodes one PNG; the returned buffer holds the image's raw interleaved
/// channels, 3 bytes per pixel when the reported layout is RGB8 and 4 when
/// it is RGBA8. The decode depends on the bytes alone, so its outcome
/// carries the PNG decode's name.
#[verifier::external_body]
fn decode_png_raw(buffer: &[u8]) -> (r: Result<
    (u32, u32, ColorLayout, Vec<u8>),
    image::error::ImageError,
>)
    ensures
        r is Ok <==> png_decoded(buffer@) is Some,
        r matches Ok(d) ==> png_decoded(buffer@) == Some((d.0, d.1, d.2, d.3@)),
        r matches Ok(d) ==> (d.2 == ColorLayout::Rgb8 ==> d.3@.len() == d.0 * d.1 * 3) && (d.2
            == ColorLayout::Rgba8 ==> d.3@.len() == d.0 * d.1 * 4),
{
    let img = image::load_from_memory_with_format(buffer, image::ImageFormat::Png)?;
    let (w, h) = image::GenericImageView::dimensions(&img);
    let layout = match img.color() {
        image::ColorType::Rgb8 => ColorLayout::Rgb8,
        image::ColorType::Rgba8 => ColorLayout::Rgba8,
        _ => ColorLayout::Other,
    };
    Ok((w, h, layout, img.into_bytes()))
}

/// Relies on image::load_from_memory_with_format and DynamicImage::into_bytes:
/// decodes one JPEG, exactly as the PNG wrapper does.
#[verifier::external_body]
fn decode_jpeg_raw(buffer: &[u8]) -> (r: Result<
    (u32, u32, ColorLayout, Vec<u8>),
    image::error::ImageError,
>)
    ensures
        r is Ok <==> jpeg_decoded(buffer@) is Some,
        r matches Ok(d) ==> jpeg_decoded(buffer@) == Some((d.0, d.1, d.2, d.3@)),
        r matches Ok(d) ==> (d.2 == ColorLayout::Rgb8 ==> d.3@.len() == d.0 * d.1 * 3) && (d.2
            == ColorLayout::Rgba8 ==> d.3@.len() == d.0 * d.1 * 4),
{
    let img = image::load_from_memory_with_format(buffer, image::ImageFormat::Jpeg)?;
    let (w, h) = image::GenericImageView::dimensions(&img);
    let layout = match img.color() {
        image::ColorType::Rgb8 => ColorLayout::Rgb8,
        image::ColorType::Rgba8 => ColorLayout::Rgba8,
        _ => ColorLayout::Other,
    };
    Ok((w, h, layout, img.into_bytes()))
}

/// The clamped integer form of a millisecond delay ratio: the quotient,
/// saturated at the range of the delay type; a zero denominator falls back
/// to the numerator.
pub open spec fn delay_spec(numer: u32, denom: u32) -> u16 {
    let ms: int = if denom == 0 {
        numer as int
    } else {
        numer as int / denom as int
    };
    if ms > u16::MAX as int {
        u16::MAX
    } else {
        ms as u16
    }
}

fn normalize_delay(numer: u32, denom: u32) -> (r: u16)
    ensures
        r == delay_spec(numer, denom),
{
    let ms: u32 = if denom == 0 {
        numer
    } else {
        numer / denom
    };
    if ms > 0xffff {
        0xffffu16
    } else {
        ms as u16
    }
}

/// The fixed delay assigned to a still image's single frame.
pub open spec fn still_delay() -> u16 {
    1000u16
}

/// The raster data an upload denotes under its declared format, built
/// from the named decoder results: dimensions, layout, and every frame's
/// buffer with its normalized delay. GIF delays are the millisecond ratio
/// clamped to the delay type; still formats carry the fixed still-image
/// delay. Nothing when the decoder rejects the bytes.
pub open spec fn decoded_raster(buffer: Seq<u8>, mimetype: SupportedImageFormats) -> Option<
    (Dimensions, ColorLayout, Seq<(Seq<u8>, u16)>),
> {
    match mimetype {
        SupportedImageFormats::GIF => match gif_decoded(buffer) {
            Some(g) => Some(
                (
                    (g.0, g.1),
                    ColorLayout::Rgba8,
                    g.2.map_values(|f: (Seq<u8>, u32, u32)| (f.0, delay_spec(f.1, f.2))),
                ),
            ),
            None => None,
        },
        SupportedImageFormats::PNG => match png_decoded(buffer) {
            Some(p) => Some(((p.0, p.1), p.2, seq![(p.3, still_delay())])),
            None => None,
        },
        SupportedImageFormats::JPEG => match jpeg_decoded(buffer) {
            Some(p) => Some(((p.0, p.1), p.2, seq![(p.3, still_delay())])),
            None => None,
        },
    }
}

/// Decodes the upload according to its declared format into the raster
/// data the pipeline consumes: exactly the raster the named decoder
/// results denote. A GIF yields its full-canvas RGBA8 frames with their
/// own delays; a still format yields one frame with the fixed still-image
/// delay. A decode failure surfaces as a decode error, and only then.
pub fn get_r_data(buffer: &[u8], mimetype: SupportedImageFormats) -> (r: Result<
    RasterizationData,
    SequenceError,
>)
    ensures
        r is Ok <==> decoded_raster(buffer@, mimetype) is Some,
        r matches Ok(d) ==> ({
            let m = decoded_raster(buffer@, mimetype).unwrap();
            &&& d.dimensions == m.0
            &&& d.color_type == m.1
            &&& frame_pairs_view(d.frames@) == m.2
        }),
        r matches Err(e) ==> e == SequenceError::DecodeFailed,
        r matches Ok(d) ==> raster_sized(d),
{
    match mimetype {
        SupportedImageFormats::GIF => {
            let raw = match decode_gif_raw(buffer) {
                Ok(raw) => raw,
                Err(_) => {
                    return Err(SequenceError::DecodeFailed);
                },
            };
            let (width, height, mut raw_frames) = raw;
            let mut frames: Vec<(Vec<u8>, u16)> = Vec::new();
            let ghost original = raw_frames@;
            while raw_frames.len() > 0
                invariant
                    frames@.len() + raw_frames@.len() == original.len(),
                    forall|i: int|
                        0 <= i < original.len() ==> (#[trigger] original[i]).0@.len() == width
                            * height * 4,
                    forall|i: int|
                        0 <= i < raw_frames@.len() ==> raw_frames@[i]
                            == original[frames@.len() + i],
                    forall|i: int|
                        0 <= i < frames@.len() ==> (#[trigger] frames@[i]).0@.len() == width
                            * height * 4,
                    forall|i: int|
                        0 <= i < frames@.len() ==> (#[trigger] frames@[i]).0@ == original[i].0@,
                    forall|i: int|
                        0 <= i < frames@.len() ==> (#[trigger] frames@[i]).1 == delay_spec(
                            original[i].1,
                            original[i].2,
                        ),
                decreases raw_frames@.len(),
            {
                let (buf, numer, denom) = raw_frames.remove(0);
                let delay = normalize_delay(numer, denom);
                frames.push((buf, delay));
            }
            proof {
                let m = decoded_raster(buffer@, mimetype).unwrap();
                assert forall|i: int| 0 <= i < original.len() implies m.2[i] == (
                original[i].0@,
                delay_spec(original[i].1, original[i].2),
                ) by {
                    assert(raw_frames_view(original)[i] == (
                        original[i].0@,
                        original[i].1,
                        original[i].2,
                    ));
                }
                assert(frame_pairs_view(frames@) =~= m.2);
            }
            Ok(RasterizationData {
                dimensions: (width, height),
                frames,
                color_type: ColorLayout::Rgba8,
            })
        },
        SupportedImageFormats::PNG => {
            match decode_png_raw(buffer) {
                Err(_) => Err(SequenceError::DecodeFailed),
                Ok((width, height, layout, buf)) => {
                    let mut frames: Vec<(Vec<u8>, u16)> = Vec::new();
                    frames.push((buf, 1000));
                    proof {
                        let m = decoded_raster(buffer@, mimetype).unwrap();
                        assert(frame_pairs_view(frames@) =~= m.2);
                    }
                    Ok(RasterizationData {
                        dimensions: (width, height),
                        frames,
                        color_type: layout,
                    })
                },
            }
        },
        SupportedImageFormats::JPEG => {
            match decode_jpeg_raw(buffer) {
                Err(_) => Err(SequenceError::DecodeFailed),
                Ok((width, height, layout, buf)) => {
                    let mut frames: Vec<(Vec<u8>, u16)> = Vec::new();
                    frames.push((buf, 1000));
                    proof {
                        let m = decoded_raster(buffer@, mimetype).unwrap();
                        assert(frame_pairs_view(frames@) =~= m.2);
                    }
                    Ok(RasterizationData {
                        dimensions: (width, height),
                        frames,
                        color_type: layout,
                    })
                },
            }
        },
    }
}

} // verus!
