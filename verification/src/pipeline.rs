use vstd::prelude::*;
use vstd::arithmetic::div_mod::lemma_fundamental_div_mod;
use vstd::arithmetic::mul::lemma_mul_upper_bound;
use crate::errors::SequenceError;
use crate::matrix::frames_view;
use crate::raster::{buffers_of, delays_of, ColorLayout, Dimensions, RasterizationData};
use rayon::iter::IntoParallelIterator;
use rayon::iter::ParallelIterator;

verus! {

/// The scaled target height: `source_height * target_width / source_width`,
/// rounded to the nearest integer (halves round up).
pub open spec fn scaled_height_spec(src: Dimensions, target_width: u32) -> int {
    ((src.1 * target_width) + (src.0 / 2)) / (src.0 as int)
}

/// The target dimensions are acceptable: a positive source, and a rounded
/// height that is itself positive and representable.
pub open spec fn scale_ok(src: Dimensions, target_width: u32) -> bool {
    &&& src.0 >= 1
    &&& src.1 >= 1
    &&& 1 <= scaled_height_spec(src, target_width) <= u32::MAX
}

/// Computes the target dimensions for a requested width: the width is
/// taken as given and the height preserves the aspect ratio, rounded.
/// Degenerate outcomes — an empty source, or a height that rounds to zero
/// or overflows the dimension type — are rejected.
pub fn scale_dimensions(dimensions: Dimensions, width: u32) -> (r: Result<
    Dimensions,
    SequenceError,
>)
    requires
        width >= 1,
    ensures
        r is Ok <==> scale_ok(dimensions, width),
        r matches Ok(d) ==> d.0 == width && d.1 == scaled_height_spec(dimensions, width),
        r is Err ==> r == Err::<Dimensions, SequenceError>(SequenceError::InvalidTargetSize),
{
    if dimensions.0 == 0 || dimensions.1 == 0 {
        return Err(SequenceError::InvalidTargetSize);
    }
    let sw = dimensions.0 as u64;
    let sh = dimensions.1 as u64;
    let tw = width as u64;
    proof {
        lemma_mul_upper_bound(sh as int, u32::MAX as int, tw as int, u32::MAX as int);
    }
    let num = sh * tw + sw / 2;
    let h = num / sw;
    if h == 0 || h > 0xffff_ffffu64 {
        return Err(SequenceError::InvalidTargetSize);
    }
    Ok((width, h as u32))
}

/// The 3-channel contents of a 4-channel buffer: every fourth byte
/// dropped, the rest in order.
pub open spec fn strip_spec(s: Seq<u8>) -> Seq<u8> {
    Seq::new((s.len() - s.len() / 4) as nat, |j: int| s[j + j / 3])
}

/// The bytes a frame buffer contributes after alpha stripping.
pub open spec fn stripped_frame(s: Seq<u8>, layout: ColorLayout) -> Seq<u8> {
    if layout == ColorLayout::Rgba8 {
        strip_spec(s)
    } else {
        s
    }
}

/// Every kept index stays inside the buffer.
proof fn lemma_strip_index(j: int, len: int)
    requires
        0 <= j < len - len / 4,
    ensures
        0 <= j + j / 3 < len,
{
    lemma_fundamental_div_mod(j, 3);
    lemma_fundamental_div_mod(len, 4);
    let a = j / 3;
    let b = j % 3;
    let q = len / 4;
    let rr = len % 4;
    assert(j == 3 * a + b);
    assert(len == 4 * q + rr);
    assert(0 <= b < 3);
    assert(0 <= rr < 4);
    assert(a >= 0) by {
        vstd::arithmetic::div_mod::lemma_div_pos_is_pos(j, 3);
    }
    assert(q >= 0) by {
        vstd::arithmetic::div_mod::lemma_div_pos_is_pos(len, 4);
    }
    // From 3a + b < 3q + rr and rr <= 3: a <= q; then 4a + b < 4q + rr.
    assert(3 * a + b < 3 * q + rr);
    assert(a <= q);
}

/// Drops the alpha channel of an 8-bit RGBA buffer — every fourth byte —
/// before the buffer is reinterpreted as 3-channel. Any other layout
/// passes through unchanged.
pub fn strip_alpha(frame: Vec<u8>, layout: ColorLayout) -> (r: Vec<u8>)
    ensures
        r@ == stripped_frame(frame@, layout),
{
    match layout {
        ColorLayout::Rgba8 => {
            let len = frame.len();
            let out_len = len - len / 4;
            let mut out: Vec<u8> = Vec::new();
            let mut j: usize = 0;
            while j < out_len
                invariant
                    len == frame@.len(),
                    len <= usize::MAX,
                    out_len == len - len / 4,
                    j <= out_len,
                    out@.len() == j,
                    forall|k: int| 0 <= k < j ==> out@[k] == frame@[k + k / 3],
                decreases out_len - j,
            {
                proof {
                    lemma_strip_index(j as int, len as int);
                }
                out.push(frame[j + j / 3]);
                j = j + 1;
            }
            proof {
                assert(out@ =~= strip_spec(frame@));
            }
            out
        },
        _ => frame,
    }
}

/// The running minimum of the delays, folded from the all-ones sentinel
/// exactly as the exported step length is computed.
pub open spec fn min_delay_spec(delays: Seq<u16>) -> u16
    decreases delays.len(),
{
    if delays.len() == 0 {
        u16::MAX
    } else {
        let m = min_delay_spec(delays.drop_last());
        if delays.last() < m {
            delays.last()
        } else {
            m
        }
    }
}

/// The folded minimum of a non-empty delay list is one of the delays and
/// no delay lies below it.
pub proof fn lemma_min_delay(delays: Seq<u16>)
    requires
        delays.len() >= 1,
    ensures
        delays.contains(min_delay_spec(delays)),
        forall|i: int| 0 <= i < delays.len() ==> min_delay_spec(delays) <= #[trigger] delays[i],
    decreases delays.len(),
{
    if delays.len() == 1 {
        assert(delays[0] == delays.last());
        assert(delays.contains(delays[0]));
    } else {
        lemma_min_delay(delays.drop_last());
        let m = min_delay_spec(delays.drop_last());
        if delays.last() < m {
            assert(delays.contains(delays.last()));
        } else {
            let i = choose|i: int| 0 <= i < delays.drop_last().len() && delays.drop_last()[i] == m;
            assert(delays[i] == m);
            assert(delays.contains(m));
        }
        assert forall|i: int| 0 <= i < delays.len() implies min_delay_spec(delays)
            <= #[trigger] delays[i] by {
            if i < delays.len() - 1 {
                assert(delays.drop_last()[i] == delays[i]);
            }
        }
    }
}

/// Computes the step length: the minimum display delay across all frames.
/// An empty frame list is rejected instead of letting the fold's sentinel
/// leak through.
pub fn min_delay(frames: &Vec<(Vec<u8>, u16)>) -> (r: Result<u16, SequenceError>)
    ensures
        r is Ok <==> frames@.len() >= 1,
        r matches Ok(m) ==> m == min_delay_spec(delays_of(frames@)),
        r matches Ok(m) ==> delays_of(frames@).contains(m),
        r matches Ok(m) ==> forall|i: int|
            0 <= i < frames@.len() ==> m <= (#[trigger] frames@[i]).1,
        r is Err ==> r == Err::<u16, SequenceError>(SequenceError::EmptyInput),
{
    if frames.len() == 0 {
        return Err(SequenceError::EmptyInput);
    }
    proof {
        lemma_min_delay(delays_of(frames@));
        assert forall|i: int| 0 <= i < frames@.len() implies min_delay_spec(delays_of(frames@))
            <= (#[trigger] frames@[i]).1 by {
            assert(delays_of(frames@)[i] == frames@[i].1);
        }
    }
    let mut m: u16 = 0xffff;
    let mut i: usize = 0;
    while i < frames.len()
        invariant
            i <= frames@.len(),
            m == min_delay_spec(delays_of(frames@).take(i as int)),
        decreases frames@.len() - i,
    {
        let d = frames[i].1;
        proof {
            let ds = delays_of(frames@);
            assert(ds.take(i as int + 1).drop_last() =~= ds.take(i as int));
            assert(ds.take(i as int + 1).last() == ds[i as int]);
            assert(ds[i as int] == frames@[i as int].1);
        }
        if d < m {
            m = d;
        }
        i = i + 1;
    }
    proof {
        assert(delays_of(frames@).take(frames@.len() as int) =~= delays_of(frames@));
    }
    Ok(m)
}

/// What the resampler returns for a frame: a function of the buffer and
/// the two dimension pairs alone.
pub uninterp spec fn resample_of(frame: Seq<u8>, src: Dimensions, dst: Dimensions) -> Seq<u8>;

/// The intermediate buffer a genuine resample allocates — source width by
/// target height, four channels — fits the machine's address space.
pub open spec fn resample_fits(src: Dimensions, dst: Dimensions) -> bool {
    src.0 * dst.1 * 4 <= usize::MAX
}

/// Relies on image::imageops::resize with the nearest-neighbor filter: the
/// result is an RGB buffer of exactly the target dimensions, a function of
/// the arguments alone (resampling to the source's own dimensions copies
/// the buffer unchanged). Which pixel values a genuine resample produces
/// is a quality matter the contracts do not fix. The resampler's
/// intermediate source-width-by-target-height buffer must fit the address
/// space, or its element count check panics.
#[verifier::external_body]
fn resize_rgb_frame(frame: Vec<u8>, src: Dimensions, dst: Dimensions) -> (r: Vec<u8>)
    requires
        frame@.len() == src.0 * src.1 * 3,
        1 <= src.0,
        1 <= src.1,
        1 <= dst.0,
        1 <= dst.1,
        dst.0 * dst.1 * 3 <= usize::MAX,
        resample_fits(src, dst),
    ensures
        r@ == resample_of(frame@, src, dst),
        r@.len() == dst.0 * dst.1 * 3,
        src == dst ==> r@ == frame@,
{
    let buf = image::RgbImage::from_raw(src.0, src.1, frame).unwrap();
    let out = image::imageops::resize(&buf, dst.0, dst.1, image::imageops::FilterType::Nearest);
    out.into_raw()
}

/// One frame's processing: the alpha channel is stripped, the buffer is
/// checked against the declared dimensions, and the frame is resampled to
/// the target dimensions.
pub fn process_frame(frame: Vec<u8>, layout: ColorLayout, src: Dimensions, dst: Dimensions) -> (r:
    Result<Vec<u8>, SequenceError>)
    requires
        1 <= src.0,
        1 <= src.1,
        1 <= dst.0,
        1 <= dst.1,
        src.0 * src.1 * 3 <= usize::MAX,
        dst.0 * dst.1 * 3 <= usize::MAX,
        resample_fits(src, dst),
    ensures
        r is Ok <==> stripped_frame(frame@, layout).len() == src.0 * src.1 * 3,
        r matches Ok(out) ==> out@.len() == dst.0 * dst.1 * 3,
        r matches Ok(out) ==> out@ == resample_of(stripped_frame(frame@, layout), src, dst),
        src == dst ==> (r matches Ok(out) ==> out@ == stripped_frame(frame@, layout)),
        r is Err ==> r == Err::<Vec<u8>, SequenceError>(SequenceError::FrameSizeMismatch),
{
    let stripped = strip_alpha(frame, layout);
    let expected = (src.0 as usize) * (src.1 as usize) * 3;
    if stripped.len() != expected {
        return Err(SequenceError::FrameSizeMismatch);
    }
    Ok(resize_rgb_frame(stripped, src, dst))
}

/// Every frame stripped and resampled, in the original order.
pub open spec fn processed_frames(
    buffers: Seq<Seq<u8>>,
    layout: ColorLayout,
    src: Dimensions,
    dst: Dimensions,
) -> Seq<Seq<u8>> {
    Seq::new(buffers.len(), |i: int| resample_of(stripped_frame(buffers[i], layout), src, dst))
}

/// Every frame buffer, once stripped, matches the declared dimensions.
pub open spec fn frames_processable(
    buffers: Seq<Seq<u8>>,
    layout: ColorLayout,
    src: Dimensions,
) -> bool {
    forall|i: int|
        0 <= i < buffers.len() ==> stripped_frame(#[trigger] buffers[i], layout).len() == src.0
            * src.1 * 3
}

/// Relies on rayon's into_par_iter/map/collect: an indexed parallel map
/// collects its results in the input order, so the outcome is exactly that
/// of the sequential map of `process_frame` over the frames.
#[verifier::external_body]
fn par_process_frames(
    frames: Vec<Vec<u8>>,
    layout: ColorLayout,
    src: Dimensions,
    dst: Dimensions,
) -> (r: Result<Vec<Vec<u8>>, SequenceError>)
    requires
        1 <= src.0,
        1 <= src.1,
        1 <= dst.0,
        1 <= dst.1,
        src.0 * src.1 * 3 <= usize::MAX,
        dst.0 * dst.1 * 3 <= usize::MAX,
        resample_fits(src, dst),
    ensures
        r is Ok <==> frames_processable(frames_view(frames@), layout, src),
        r matches Ok(out) ==> out@.len() == frames@.len() && (forall|i: int|
            0 <= i < out@.len() ==> (#[trigger] out@[i])@.len() == dst.0 * dst.1 * 3),
        r matches Ok(out) ==> frames_view(out@) == processed_frames(
            frames_view(frames@),
            layout,
            src,
            dst,
        ),
        r matches Ok(out) ==> (src == dst ==> forall|i: int|
            0 <= i < out@.len() ==> (#[trigger] out@[i])@ == stripped_frame(frames@[i]@, layout)),
        r matches Err(e) ==> e == SequenceError::FrameSizeMismatch,
{
    frames.into_par_iter().map(|f| process_frame(f, layout, src, dst)).collect()
}

/// Whether a pixel-count product fits the machine's address space.
pub open spec fn area_fits(d: Dimensions) -> bool {
    d.0 * d.1 * 3 <= usize::MAX
}

/// The frame pipeline: computes the target dimensions from the requested
/// width, the step length as the minimum frame delay, and every frame
/// stripped of alpha and resampled to the target dimensions, in the
/// original frame order.
pub fn get_frames(data: RasterizationData, max_width: u32) -> (r: Result<
    (Vec<Vec<u8>>, u16, Dimensions),
    SequenceError,
>)
    requires
        max_width >= 1,
    ensures
        r == Err::<(Vec<Vec<u8>>, u16, Dimensions), SequenceError>(SequenceError::EmptyInput)
            <==> data.frames@.len() == 0,
        data.frames@.len() >= 1 ==> (r == Err::<(Vec<Vec<u8>>, u16, Dimensions), SequenceError>(
            SequenceError::InvalidTargetSize,
        ) <==> !scale_ok(data.dimensions, max_width)),
        r matches Ok(t) ==> area_fits(t.2) && area_fits(data.dimensions) && resample_fits(
            data.dimensions,
            t.2,
        ),
        r matches Err(e) ==> (e == SequenceError::EmptyInput || e == SequenceError::InvalidTargetSize
            || e == SequenceError::ImageTooLarge || e == SequenceError::FrameSizeMismatch),
        r == Err::<(Vec<Vec<u8>>, u16, Dimensions), SequenceError>(SequenceError::ImageTooLarge)
            ==> !(area_fits(data.dimensions) && area_fits(
            (max_width, scaled_height_spec(data.dimensions, max_width) as u32),
        ) && resample_fits(
            data.dimensions,
            (max_width, scaled_height_spec(data.dimensions, max_width) as u32),
        )),
        r == Err::<(Vec<Vec<u8>>, u16, Dimensions), SequenceError>(SequenceError::FrameSizeMismatch)
            ==> !frames_processable(buffers_of(data.frames@), data.color_type, data.dimensions),
        r matches Ok(t) ==> {
            &&& data.frames@.len() >= 1
            &&& scale_ok(data.dimensions, max_width)
            &&& frames_processable(buffers_of(data.frames@), data.color_type, data.dimensions)
            &&& t.2 == (max_width, scaled_height_spec(data.dimensions, max_width) as u32)
            &&& t.1 == min_delay_spec(delays_of(data.frames@))
            &&& t.0@.len() == data.frames@.len()
            &&& forall|i: int|
                0 <= i < t.0@.len() ==> (#[trigger] t.0@[i])@.len() == t.2.0 * t.2.1 * 3
            &&& frames_view(t.0@) == processed_frames(
                buffers_of(data.frames@),
                data.color_type,
                data.dimensions,
                t.2,
            )
        },
        (data.frames@.len() >= 1 && scale_ok(data.dimensions, max_width) && area_fits(
            data.dimensions,
        ) && area_fits((max_width, scaled_height_spec(data.dimensions, max_width) as u32))
            && resample_fits(
            data.dimensions,
            (max_width, scaled_height_spec(data.dimensions, max_width) as u32),
        ) && frames_processable(buffers_of(data.frames@), data.color_type, data.dimensions))
            ==> r is Ok,
        data.dimensions == (max_width, scaled_height_spec(data.dimensions, max_width) as u32) ==> (
        r matches Ok(t) ==> forall|i: int|
            0 <= i < t.0@.len() ==> (#[trigger] t.0@[i])@ == stripped_frame(
                buffers_of(data.frames@)[i],
                data.color_type,
            )),
{
    let dimensions = data.dimensions;
    let color_type = data.color_type;
    let mut frames = data.frames;
    let step = match min_delay(&frames) {
        Ok(step) => step,
        Err(e) => {
            return Err(e);
        },
    };
    let scaled = match scale_dimensions(dimensions, max_width) {
        Ok(scaled) => scaled,
        Err(e) => {
            return Err(e);
        },
    };
    proof {
        lemma_mul_upper_bound(
            dimensions.0 as int,
            u32::MAX as int,
            dimensions.1 as int,
            u32::MAX as int,
        );
        lemma_mul_upper_bound(scaled.0 as int, u32::MAX as int, scaled.1 as int, u32::MAX as int);
        lemma_mul_upper_bound(
            dimensions.0 as int,
            u32::MAX as int,
            scaled.1 as int,
            u32::MAX as int,
        );
        lemma_fundamental_div_mod(usize::MAX as int, 3);
        lemma_fundamental_div_mod(usize::MAX as int, 4);
    }
    let px_src = (dimensions.0 as u64) * (dimensions.1 as u64);
    let px_dst = (scaled.0 as u64) * (scaled.1 as u64);
    let px_cross = (dimensions.0 as u64) * (scaled.1 as u64);
    if px_src > (usize::MAX as u64) / 3 || px_dst > (usize::MAX as u64) / 3 || px_cross > (
    usize::MAX as u64) / 4 {
        return Err(SequenceError::ImageTooLarge);
    }
    let mut bufs: Vec<Vec<u8>> = Vec::new();
    let ghost original = frames@;
    while frames.len() > 0
        invariant
            bufs@.len() + frames@.len() == original.len(),
            forall|i: int| 0 <= i < frames@.len() ==> frames@[i] == original[bufs@.len() + i],
            forall|i: int| 0 <= i < bufs@.len() ==> (#[trigger] bufs@[i])@ == original[i].0@,
        decreases frames@.len(),
    {
        let (buf, _delay) = frames.remove(0);
        bufs.push(buf);
    }
    proof {
        assert(frames_view(bufs@) =~= buffers_of(original));
    }
    match par_process_frames(bufs, color_type, dimensions, scaled) {
        Ok(out) => Ok((out, step, scaled)),
        Err(e) => Err(e),
    }
}

} // verus!
