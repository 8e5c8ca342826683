use vstd::prelude::*;
use vstd::arithmetic::mul::lemma_mul_upper_bound;
use vstd::string::StrSliceExecFns;
use vstd::string::StringExecFns;
use crate::base_converter::{token_of, BaseConverter};
use crate::errors::SequenceError;
use crate::image_formats::SupportedImageFormats;
use crate::matrix::{
    build_matrix, duration_sum, event_model, frames_view, lemma_timeline_invariant,
    pixel_token_timeline, rle, Matrix, PixelEvent,
};
use crate::pipeline::{
    area_fits, frames_processable, get_frames, min_delay_spec, processed_frames, resample_fits,
    scale_ok, scaled_height_spec,
};
use crate::raster::{
    buffers_of, decoded_raster, delays_of, frame_pairs_view, get_r_data, ColorLayout, Dimensions,
};
use rayon::iter::IntoParallelRefIterator;
use rayon::iter::ParallelIterator;

verus! {

/// The exported result: the serialized matrix chunks and their metadata.
/// Exactly one chunk is emitted today; the chunk bookkeeping fields stay
/// for schema compatibility.
pub struct Sequence {
    pub step_length: u16,
    pub length: usize,
    pub duration: usize,
    pub width: u32,
    pub height: u32,
    pub matrices: Vec<String>,
    pub num_chunks: usize,
    pub max_chunk_size: usize,
    pub bit_depth: u32,
}

/// The alphabet that prints durations: ordinary decimal digits.
pub open spec fn decimal_alphabet() -> Seq<char> {
    "0123456789"@
}

/// One serialized event: the color token double-quoted and the duration a
/// bare decimal integer, both bracketed.
pub open spec fn event_str(e: (Seq<char>, int)) -> Seq<char> {
    "[\""@ + e.0 + "\","@ + token_of(decimal_alphabet(), e.1 as nat) + "]"@
}

/// The comma-joined serialization of a timeline's events.
pub open spec fn events_inner(events: Seq<(Seq<char>, int)>) -> Seq<char>
    decreases events.len(),
{
    if events.len() == 0 {
        Seq::empty()
    } else if events.len() == 1 {
        event_str(events[0])
    } else {
        events_inner(events.drop_last()) + ","@ + event_str(events.last())
    }
}

/// One serialized timeline: its events, bracketed.
pub open spec fn row_str(events: Seq<(Seq<char>, int)>) -> Seq<char> {
    "["@ + events_inner(events) + "]"@
}

/// A timeline row as its mathematical model.
pub open spec fn row_model(row: Vec<PixelEvent>) -> Seq<(Seq<char>, int)> {
    row@.map_values(|e: PixelEvent| event_model(e))
}

/// The matrix as its mathematical model.
pub open spec fn matrix_model_of(m: Seq<Vec<PixelEvent>>) -> Seq<Seq<(Seq<char>, int)>> {
    m.map_values(|row: Vec<PixelEvent>| row_model(row))
}

/// The comma-joined serialization of all rows.
pub open spec fn rows_inner(rows: Seq<Seq<(Seq<char>, int)>>) -> Seq<char>
    decreases rows.len(),
{
    if rows.len() == 0 {
        Seq::empty()
    } else if rows.len() == 1 {
        row_str(rows[0])
    } else {
        rows_inner(rows.drop_last()) + ","@ + row_str(rows.last())
    }
}

/// The whole serialized matrix: the pixel-major outer list, bracketed.
pub open spec fn matrix_str(rows: Seq<Seq<(Seq<char>, int)>>) -> Seq<char> {
    "["@ + rows_inner(rows) + "]"@
}

/// The matrix a frame list denotes: one run-length timeline per pixel
/// position.
pub open spec fn sequence_matrix_model(
    frames: Seq<Seq<u8>>,
    dims: Dimensions,
    bit_depth: u32,
) -> Seq<Seq<(Seq<char>, int)>> {
    Seq::new((dims.0 * dims.1) as nat, |p: int| rle(pixel_token_timeline(frames, p, bit_depth)))
}

/// The target dimensions a request resolves to: the requested width and
/// the rounded, aspect-preserving height.
pub open spec fn target_dims_of(src: Dimensions, max_width: u32) -> Dimensions {
    (max_width, scaled_height_spec(src, max_width) as u32)
}

/// The buffers of decoded frames.
pub open spec fn raster_buffers(frames: Seq<(Seq<u8>, u16)>) -> Seq<Seq<u8>> {
    frames.map_values(|f: (Seq<u8>, u16)| f.0)
}

/// The delays of decoded frames.
pub open spec fn raster_delays(frames: Seq<(Seq<u8>, u16)>) -> Seq<u16> {
    frames.map_values(|f: (Seq<u8>, u16)| f.1)
}

/// Every condition under which the pipeline owes a sequence for decoded
/// raster data: at least one frame and no more than a run length can
/// count, acceptable target dimensions, pixel products inside the address
/// space, and every frame buffer matching the declared dimensions.
pub open spec fn raster_viable(
    m: (Dimensions, ColorLayout, Seq<(Seq<u8>, u16)>),
    max_width: u32,
) -> bool {
    &&& 1 <= m.2.len() <= u16::MAX
    &&& scale_ok(m.0, max_width)
    &&& area_fits(m.0)
    &&& area_fits(target_dims_of(m.0, max_width))
    &&& resample_fits(m.0, target_dims_of(m.0, max_width))
    &&& frames_processable(raster_buffers(m.2), m.1, m.0)
}

/// Law: every timeline the sequence serializes obeys the compression
/// invariant — no two adjacent events share a color, every duration is at
/// least one, and the durations sum to the frame count.
pub proof fn lemma_sequence_timeline_invariant(
    frames: Seq<Seq<u8>>,
    dims: Dimensions,
    bit_depth: u32,
    p: int,
)
    requires
        0 <= p < sequence_matrix_model(frames, dims, bit_depth).len(),
    ensures
        ({
            let row = sequence_matrix_model(frames, dims, bit_depth)[p];
            &&& forall|i: int| 0 <= i < row.len() - 1 ==> (#[trigger] row[i]).0 != row[i + 1].0
            &&& forall|i: int| 0 <= i < row.len() ==> (#[trigger] row[i]).1 >= 1
            &&& duration_sum(row) == frames.len()
        }),
{
    lemma_timeline_invariant(pixel_token_timeline(frames, p, bit_depth));
}

/// Serializes one pixel's timeline.
pub fn stringify_row(row: &Vec<PixelEvent>) -> (r: String)
    ensures
        r@ == row_str(row_model(*row)),
{
    proof {
        reveal_strlit("0123456789");
    }
    let dec = BaseConverter::new(String::from_str("0123456789"));
    let mut s = String::from_str("[");
    let mut j: usize = 0;
    while j < row.len()
        invariant
            dec.wf(),
            dec@ == decimal_alphabet(),
            dec@.len() == 10,
            j <= row@.len(),
            s@ == "["@ + events_inner(row_model(*row).take(j as int)),
        decreases row@.len() - j,
    {
        let ghost m = row_model(*row);
        proof {
            assert(m.take(j as int + 1).drop_last() =~= m.take(j as int));
            assert(m.take(j as int + 1).last() == m[j as int]);
            assert(m[j as int] == event_model(row@[j as int]));
        }
        if j != 0 {
            s.append(",");
        }
        s.append("[\"");
        s.append(row[j].color.as_str());
        s.append("\",");
        let d = dec.encode(row[j].duration as usize);
        s.append(d.as_str());
        s.append("]");
        proof {
            assert(s@ =~= "["@ + events_inner(m.take(j as int + 1)));
        }
        j = j + 1;
    }
    s.append("]");
    proof {
        assert(row_model(*row).take(row@.len() as int) =~= row_model(*row));
        assert(s@ =~= row_str(row_model(*row)));
    }
    s
}

/// Relies on rayon's par_iter/map/collect keeping the input order: each
/// row is serialized independently and the results are collected in row
/// order.
#[verifier::external_body]
fn par_stringify_rows(matrix: &Matrix) -> (r: Vec<String>)
    ensures
        r@.len() == matrix@.len(),
        forall|i: int| 0 <= i < r@.len() ==> (#[trigger] r@[i])@ == row_str(row_model(matrix@[i])),
{
    matrix.par_iter().map(stringify_row).collect()
}

/// Serializes the whole matrix into the single compact textual chunk.
pub fn stringify_matrix(matrix: &Matrix) -> (r: String)
    ensures
        r@ == matrix_str(matrix_model_of(matrix@)),
{
    let rows = par_stringify_rows(matrix);
    let mut s = String::from_str("[");
    let mut i: usize = 0;
    while i < rows.len()
        invariant
            rows@.len() == matrix@.len(),
            forall|k: int|
                0 <= k < rows@.len() ==> (#[trigger] rows@[k])@ == row_str(row_model(matrix@[k])),
            i <= rows@.len(),
            s@ == "["@ + rows_inner(matrix_model_of(matrix@).take(i as int)),
        decreases rows@.len() - i,
    {
        let ghost mm = matrix_model_of(matrix@);
        proof {
            assert(mm.take(i as int + 1).drop_last() =~= mm.take(i as int));
            assert(mm.take(i as int + 1).last() == mm[i as int]);
            assert(mm[i as int] == row_model(matrix@[i as int]));
        }
        if i != 0 {
            s.append(",");
        }
        s.append(rows[i].as_str());
        proof {
            assert(s@ =~= "["@ + rows_inner(mm.take(i as int + 1)));
        }
        i = i + 1;
    }
    s.append("]");
    proof {
        let mm = matrix_model_of(matrix@);
        assert(mm.take(matrix@.len() as int) =~= mm);
        assert(s@ =~= matrix_str(mm));
    }
    s
}

/// Assembles the exported value from already-scaled 3-channel frames:
/// builds every pixel's run-length timeline, serializes the matrix into
/// its single chunk, and wraps it with the metadata.
pub fn sequence_from_frames(
    frames: Vec<Vec<u8>>,
    dims: Dimensions,
    step_length: u16,
    bit_depth: u32,
) -> (r: Sequence)
    requires
        1 <= bit_depth <= 8,
        dims.0 * dims.1 * 3 <= usize::MAX,
        forall|i: int|
            0 <= i < frames@.len() ==> (#[trigger] frames@[i])@.len() == dims.0 * dims.1 * 3,
        frames@.len() <= u16::MAX,
    ensures
        r.length == frames@.len(),
        r.step_length == step_length,
        r.duration == step_length * frames@.len(),
        r.width == dims.0,
        r.height == dims.1,
        r.num_chunks == 1,
        r.max_chunk_size == frames@.len(),
        r.bit_depth == bit_depth,
        r.matrices@.len() == 1,
        r.matrices@[0]@ == matrix_str(sequence_matrix_model(frames_view(frames@), dims, bit_depth)),
{
    let length = frames.len();
    let matrix = build_matrix(&frames, dims, bit_depth);
    let stringified = stringify_matrix(&matrix);
    proof {
        assert(matrix_model_of(matrix@) =~~= sequence_matrix_model(
            frames_view(frames@),
            dims,
            bit_depth,
        ));
        lemma_mul_upper_bound(
            step_length as int,
            u16::MAX as int,
            length as int,
            u16::MAX as int,
        );
    }
    let mut matrices: Vec<String> = Vec::new();
    matrices.push(stringified);
    let duration = (step_length as usize) * length;
    Sequence {
        length,
        step_length,
        duration,
        width: dims.0,
        height: dims.1,
        matrices,
        num_chunks: 1,
        max_chunk_size: length,
        bit_depth,
    }
}

impl Sequence {
    /// The whole pipeline: validates the request, decodes the upload,
    /// scales and strips the frames, and assembles the exported value. A
    /// bit depth outside `1..=8` and a zero target width are rejected
    /// before any decoding is attempted; for a valid request the result is
    /// a sequence exactly when the upload decodes and the decoded raster
    /// is viable, and its every field follows from the named decode.
    pub fn new(buffer: &[u8], mimetype: SupportedImageFormats, bit_depth: u32, max_width: u32) -> (r:
        Result<Sequence, SequenceError>)
        ensures
            (bit_depth < 1 || bit_depth > 8) <==> r == Err::<Sequence, SequenceError>(
                SequenceError::InvalidBitDepth,
            ),
            (1 <= bit_depth <= 8 && max_width == 0) <==> r == Err::<Sequence, SequenceError>(
                SequenceError::InvalidMaxWidth,
            ),
            1 <= bit_depth <= 8 && max_width >= 1 ==> (r == Err::<Sequence, SequenceError>(
                SequenceError::DecodeFailed,
            ) <==> decoded_raster(buffer@, mimetype) is None),
            1 <= bit_depth <= 8 && max_width >= 1 ==> (decoded_raster(buffer@, mimetype)
                matches Some(m) ==> {
                &&& (r is Ok <==> raster_viable(m, max_width))
                &&& (r matches Ok(s) ==> ({
                    let dims = target_dims_of(m.0, max_width);
                    &&& s.length == m.2.len()
                    &&& s.step_length == min_delay_spec(raster_delays(m.2))
                    &&& s.duration == s.step_length * s.length
                    &&& s.width == dims.0
                    &&& s.height == dims.1
                    &&& s.num_chunks == 1
                    &&& s.max_chunk_size == s.length
                    &&& s.bit_depth == bit_depth
                    &&& s.matrices@.len() == 1
                    &&& s.matrices@[0]@ == matrix_str(
                        sequence_matrix_model(
                            processed_frames(raster_buffers(m.2), m.1, m.0, dims),
                            dims,
                            bit_depth,
                        ),
                    )
                }))
            }),
            r matches Err(e) ==> (e == SequenceError::InvalidBitDepth || e
                == SequenceError::InvalidMaxWidth || e == SequenceError::DecodeFailed || e
                == SequenceError::EmptyInput || e == SequenceError::InvalidTargetSize || e
                == SequenceError::ImageTooLarge || e == SequenceError::FrameSizeMismatch || e
                == SequenceError::TooManyFrames),
            r matches Ok(s) ==> {
                &&& s.num_chunks == 1
                &&& s.bit_depth == bit_depth
                &&& s.width == max_width
                &&& s.length >= 1
                &&& s.max_chunk_size == s.length
                &&& s.duration == s.step_length * s.length
                &&& s.matrices@.len() == 1
            },
    {
        if bit_depth < 1 || bit_depth > 8 {
            return Err(SequenceError::InvalidBitDepth);
        }
        if max_width == 0 {
            return Err(SequenceError::InvalidMaxWidth);
        }
        let data = match get_r_data(buffer, mimetype) {
            Ok(data) => data,
            Err(e) => {
                return Err(e);
            },
        };
        let ghost m = decoded_raster(buffer@, mimetype).unwrap();
        proof {
            assert forall|i: int| 0 <= i < m.2.len() implies raster_buffers(m.2)[i] == buffers_of(
                data.frames@,
            )[i] && raster_delays(m.2)[i] == delays_of(data.frames@)[i] by {
                assert(frame_pairs_view(data.frames@)[i] == (
                    data.frames@[i].0@,
                    data.frames@[i].1,
                ));
            }
            assert(raster_buffers(m.2) =~= buffers_of(data.frames@));
            assert(raster_delays(m.2) =~= delays_of(data.frames@));
        }
        let ghost data0 = data;
        let (frames, min_d, scaled) = match get_frames(data, max_width) {
            Ok(t) => t,
            Err(e) => {
                return Err(e);
            },
        };
        if frames.len() > 0xffff {
            return Err(SequenceError::TooManyFrames);
        }
        proof {
            assert(scaled == target_dims_of(m.0, max_width));
            assert(frames_view(frames@) == processed_frames(
                raster_buffers(m.2),
                m.1,
                m.0,
                scaled,
            ));
        }
        Ok(sequence_from_frames(frames, scaled, min_d, bit_depth))
    }
}

} // verus!
