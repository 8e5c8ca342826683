use vstd::prelude::*;
use vstd::arithmetic::power2::{lemma2_to64, pow2};
use vstd::arithmetic::div_mod::{
    lemma_div_by_multiple, lemma_div_is_ordered, lemma_fundamental_div_mod,
    lemma_mod_multiples_basic,
};
use vstd::bits::lemma_u32_shl_is_mul;
use crate::base_converter::{
    create_base_encoder, default_alphabet, lemma_base_round_trip, lemma_default_alphabet_distinct,
    token_of,
};
use crate::bitfield::{field_mask_val, packed_val, shift_of, valid_shape, BitField};

verus! {

/// One run in a per-pixel timeline: a color token and how many consecutive
/// frames it lasted. Adjacent events of one timeline never share a color.
#[derive(Clone, Debug)]
pub struct PixelEvent {
    pub color: String,
    pub duration: u16,
}

/// A timeline per spatial pixel position, row-major.
pub type Matrix = Vec<Vec<PixelEvent>>;

/// An event as its mathematical model: the token's characters and the run
/// length.
pub open spec fn event_model(e: PixelEvent) -> (Seq<char>, int) {
    (e.color@, e.duration as int)
}

/// The per-frame buffers as sequences of bytes.
pub open spec fn frames_view(v: Seq<Vec<u8>>) -> Seq<Seq<u8>> {
    v.map_values(|fr: Vec<u8>| fr@)
}

/// The quantization divisor for a bit depth: two to the (8 - depth).
pub open spec fn loss_of(bit_depth: u32) -> u32 {
    1u32 << ((8 - bit_depth) as u32)
}

/// A channel value quantized to `bit_depth` bits: integer division by the
/// loss divisor.
pub open spec fn quantize_spec(c: u8, bit_depth: u32) -> u32 {
    (c as u32) / loss_of(bit_depth)
}

/// The width list used for colors: three fields of `bit_depth` bits, red at
/// the origin.
pub open spec fn rgb_shape(bit_depth: u32) -> Seq<u32> {
    seq![bit_depth, bit_depth, bit_depth]
}

/// The packed integer of a quantized color triple.
pub open spec fn packed_color(r: u8, g: u8, b: u8, bit_depth: u32) -> int {
    packed_val(
        rgb_shape(bit_depth),
        seq![
            quantize_spec(r, bit_depth),
            quantize_spec(g, bit_depth),
            quantize_spec(b, bit_depth),
        ],
        3,
    )
}

/// The color token: the packed quantized color, encoded over the default
/// alphabet.
pub open spec fn color_token(r: u8, g: u8, b: u8, bit_depth: u32) -> Seq<char> {
    token_of(default_alphabet(), packed_color(r, g, b, bit_depth) as nat)
}

/// The token of pixel position `p` inside one flat 3-channel frame buffer.
pub open spec fn frame_token_at(frame: Seq<u8>, p: int, bit_depth: u32) -> Seq<char> {
    color_token(frame[3 * p], frame[3 * p + 1], frame[3 * p + 2], bit_depth)
}

/// The temporal token sequence one pixel position sees across the frames.
pub open spec fn pixel_token_timeline(frames: Seq<Seq<u8>>, p: int, bit_depth: u32) -> Seq<
    Seq<char>,
> {
    Seq::new(frames.len(), |f: int| frame_token_at(frames[f], p, bit_depth))
}

/// Maximal run-length compression, folded in temporal order: a token equal
/// to the last event's color extends that event, any other token opens a
/// new event of duration one.
pub open spec fn rle(tokens: Seq<Seq<char>>) -> Seq<(Seq<char>, int)>
    decreases tokens.len(),
{
    if tokens.len() == 0 {
        seq![]
    } else {
        let prev = rle(tokens.drop_last());
        let t = tokens.last();
        if prev.len() > 0 && prev.last().0 == t {
            prev.drop_last().push((t, prev.last().1 + 1))
        } else {
            prev.push((t, 1))
        }
    }
}

/// The total duration of a timeline.
pub open spec fn duration_sum(events: Seq<(Seq<char>, int)>) -> int
    decreases events.len(),
{
    if events.len() == 0 {
        0
    } else {
        duration_sum(events.drop_last()) + events.last().1
    }
}

/// Law: in a run-length-compressed timeline no two adjacent events share a
/// color, every duration is at least one, and the durations sum to the
/// number of frames folded in.
pub proof fn lemma_timeline_invariant(tokens: Seq<Seq<char>>)
    ensures
        forall|i: int|
            0 <= i < rle(tokens).len() - 1 ==> (#[trigger] rle(tokens)[i]).0 != rle(tokens)[i
                + 1].0,
        forall|i: int| 0 <= i < rle(tokens).len() ==> (#[trigger] rle(tokens)[i]).1 >= 1,
        duration_sum(rle(tokens)) == tokens.len(),
    decreases tokens.len(),
{
    if tokens.len() > 0 {
        lemma_timeline_invariant(tokens.drop_last());
        let prev = rle(tokens.drop_last());
        let t = tokens.last();
        let cur = rle(tokens);
        if prev.len() > 0 && prev.last().0 == t {
            assert(prev =~= prev.drop_last().push(prev.last()));
            assert(cur.drop_last() =~= prev.drop_last());
            assert(cur.last() == (t, prev.last().1 + 1));
            assert(duration_sum(prev) == duration_sum(prev.drop_last()) + prev.last().1);
            assert(duration_sum(cur) == duration_sum(cur.drop_last()) + cur.last().1);
        } else {
            assert(cur.drop_last() =~= prev);
            assert(cur.last() == (t, 1int));
            assert(duration_sum(cur) == duration_sum(prev) + 1);
        }
    }
}

/// The loss divisor is the power of two the glossary names, between 1 and
/// 128 for the accepted depths.
pub proof fn lemma_loss_pow2(bit_depth: u32)
    requires
        1 <= bit_depth <= 8,
    ensures
        loss_of(bit_depth) == pow2((8 - bit_depth) as nat),
        1 <= loss_of(bit_depth) <= 128,
{
    lemma2_to64();
    lemma_u32_shl_is_mul(1u32, (8 - bit_depth) as u32);
}

/// Law: at the full bit depth of 8, quantization is the identity.
pub proof fn lemma_quantize_identity(c: u8)
    ensures
        quantize_spec(c, 8) == c,
{
    lemma_loss_pow2(8);
    lemma2_to64();
    assert(c as u32 / 1u32 == c as u32);
}

/// Law: quantization is monotone — a brighter channel never lands in a
/// lower bucket.
pub proof fn lemma_quantize_monotone(a: u8, b: u8, bit_depth: u32)
    requires
        1 <= bit_depth <= 8,
        a <= b,
    ensures
        quantize_spec(a, bit_depth) <= quantize_spec(b, bit_depth),
{
    lemma_loss_pow2(bit_depth);
    lemma_div_is_ordered(a as int, b as int, loss_of(bit_depth) as int);
}

/// Law: quantization maps every channel value into one of the
/// `2^bit_depth` buckets.
pub proof fn lemma_quantize_buckets(bit_depth: u32)
    requires
        1 <= bit_depth <= 8,
    ensures
        forall|c: u8| #[trigger] quantize_spec(c, bit_depth) < pow2(bit_depth as nat),
{
    lemma_loss_pow2(bit_depth);
    lemma2_to64();
    let loss = loss_of(bit_depth) as int;
    let buckets = pow2(bit_depth as nat) as int;
    assert(loss * buckets == 256) by {
        vstd::arithmetic::power2::lemma_pow2_adds((8 - bit_depth) as nat, bit_depth as nat);
    }
    assert forall|c: u8| #[trigger] quantize_spec(c, bit_depth) < pow2(bit_depth as nat) by {
        vstd::arithmetic::div_mod::lemma_multiply_divide_lt(c as int, loss, buckets);
    }
}

/// Law: the mapping onto buckets is onto — every bucket below
/// `2^bit_depth` is hit by some channel value, so the 256 levels collapse
/// many-to-one onto exactly `2^bit_depth` buckets.
pub proof fn lemma_quantize_surjective(bit_depth: u32, q: int)
    requires
        1 <= bit_depth <= 8,
        0 <= q < pow2(bit_depth as nat),
    ensures
        exists|c: u8| #[trigger] quantize_spec(c, bit_depth) == q,
{
    lemma_loss_pow2(bit_depth);
    lemma2_to64();
    let loss = loss_of(bit_depth) as int;
    let buckets = pow2(bit_depth as nat) as int;
    assert(loss * buckets == 256) by {
        vstd::arithmetic::power2::lemma_pow2_adds((8 - bit_depth) as nat, bit_depth as nat);
    }
    vstd::arithmetic::mul::lemma_mul_inequality(q + 1, buckets, loss);
    vstd::arithmetic::mul::lemma_mul_is_distributive_add_other_way(loss, q, 1);
    let c = (q * loss) as u8;
    assert(q * loss + loss <= buckets * loss);
    assert(0 <= q * loss <= 255) by {
        vstd::arithmetic::mul::lemma_mul_nonnegative(q, loss);
    }
    lemma_div_by_multiple(q, loss);
    assert(quantize_spec(c, bit_depth) == q);
}

/// At the full bit depth the packed color is plain base-256 positional
/// arithmetic over the unquantized channels: red, then green scaled by
/// 256, then blue scaled by 65536.
pub proof fn lemma_packed_color_full_depth(r: u8, g: u8, b: u8)
    ensures
        packed_color(r, g, b, 8) == r + 256 * (g as int) + 65536 * (b as int),
{
    lemma_quantize_identity(r);
    lemma_quantize_identity(g);
    lemma_quantize_identity(b);
    lemma2_to64();
    let s = rgb_shape(8);
    assert(shift_of(s, 0) == 0);
    assert(shift_of(s, 1) == 8);
    assert(shift_of(s, 2) == 16);
    let vals = seq![quantize_spec(r, 8), quantize_spec(g, 8), quantize_spec(b, 8)];
    let xr = r as u32;
    let xg = g as u32;
    let xb = b as u32;
    assert(s[0] == 8u32 && s[1] == 8u32 && s[2] == 8u32);
    assert(vals[0] == xr && vals[1] == xg && vals[2] == xb);
    assert(packed_val(s, vals, 0) == 0);
    assert(xr & field_mask_val(8) == xr) by (bit_vector)
        requires
            xr < 256u32,
    ;
    assert(xg & field_mask_val(8) == xg) by (bit_vector)
        requires
            xg < 256u32,
    ;
    assert(xb & field_mask_val(8) == xb) by (bit_vector)
        requires
            xb < 256u32,
    ;
    assert(packed_val(s, vals, 1) == xr * pow2(0));
    assert(packed_val(s, vals, 2) == packed_val(s, vals, 1) + xg * pow2(8));
    assert(packed_val(s, vals, 3) == packed_val(s, vals, 2) + xb * pow2(16));
}

/// Law: at the full bit depth the color-to-token map is injective —
/// distinct colors always receive distinct tokens.
pub proof fn lemma_full_depth_token_injective(c1: (u8, u8, u8), c2: (u8, u8, u8))
    requires
        color_token(c1.0, c1.1, c1.2, 8) == color_token(c2.0, c2.1, c2.2, 8),
    ensures
        c1 == c2,
{
    lemma_packed_color_full_depth(c1.0, c1.1, c1.2);
    lemma_packed_color_full_depth(c2.0, c2.1, c2.2);
    lemma_default_alphabet_distinct();
    let p1 = packed_color(c1.0, c1.1, c1.2, 8);
    let p2 = packed_color(c2.0, c2.1, c2.2, 8);
    lemma_base_round_trip(default_alphabet(), p1 as nat);
    lemma_base_round_trip(default_alphabet(), p2 as nat);
    assert(p1 == p2);
    // base-256 digits of equal values agree place by place
    vstd::arithmetic::div_mod::lemma_fundamental_div_mod_converse(
        p1,
        256,
        c1.1 + 256 * (c1.2 as int),
        c1.0 as int,
    );
    vstd::arithmetic::div_mod::lemma_fundamental_div_mod_converse(
        p2,
        256,
        c2.1 + 256 * (c2.2 as int),
        c2.0 as int,
    );
    assert(c1.0 == c2.0);
    let q = c1.1 + 256 * (c1.2 as int);
    vstd::arithmetic::div_mod::lemma_fundamental_div_mod_converse(q, 256, c1.2 as int, c1.1 as int);
    vstd::arithmetic::div_mod::lemma_fundamental_div_mod_converse(q, 256, c2.2 as int, c2.1 as int);
}

/// Builds the three-field packer used for colors at a bit depth.
pub fn create_bitfield_encoder(bit_depth: u32) -> (r: BitField)
    requires
        1 <= bit_depth <= 8,
    ensures
        r.wf(),
        r@ == rgb_shape(bit_depth),
{
    let shape: Vec<u32> = vec![bit_depth, bit_depth, bit_depth];
    proof {
        assert(shape@ =~= rgb_shape(bit_depth));
        let s = rgb_shape(bit_depth);
        assert(shift_of(s, 0) == 0);
        assert(shift_of(s, 1) == bit_depth);
        assert(shift_of(s, 2) == 2 * bit_depth);
        assert(shift_of(s, 3) == 3 * bit_depth);
        assert(valid_shape(s));
    }
    BitField::new(shape)
}

/// Quantizes one channel: 256 levels collapse into `2^bit_depth` buckets by
/// integer division with the loss divisor.
pub fn quantize_channel(value: u8, bit_depth: u32) -> (r: u32)
    requires
        1 <= bit_depth <= 8,
    ensures
        r == quantize_spec(value, bit_depth),
{
    proof {
        lemma_loss_pow2(bit_depth);
    }
    let loss = 1u32 << (8 - bit_depth);
    (value as u32) / loss
}

/// Computes the color token of every pixel of one flat 3-channel frame, in
/// row-major order.
pub fn frame_tokens(frame: &Vec<u8>, bit_depth: u32) -> (r: Vec<String>)
    requires
        1 <= bit_depth <= 8,
        frame@.len() % 3 == 0,
    ensures
        r@.len() == frame@.len() / 3,
        forall|p: int|
            0 <= p < r@.len() ==> (#[trigger] r@[p])@ == frame_token_at(frame@, p, bit_depth),
{
    let bitfield = create_bitfield_encoder(bit_depth);
    let encoder = create_base_encoder();
    let n = frame.len() / 3;
    proof {
        lemma_fundamental_div_mod(frame@.len() as int, 3);
    }
    let mut out: Vec<String> = Vec::new();
    let mut p: usize = 0;
    while p < n
        invariant
            1 <= bit_depth <= 8,
            bitfield.wf(),
            bitfield@ == rgb_shape(bit_depth),
            encoder.wf(),
            encoder@ == default_alphabet(),
            encoder@.len() == 94,
            n == frame@.len() / 3,
            frame@.len() == 3 * n,
            frame@.len() <= usize::MAX,
            p <= n,
            out@.len() == p,
            forall|q: int|
                0 <= q < p ==> (#[trigger] out@[q])@ == frame_token_at(frame@, q, bit_depth),
        decreases n - p,
    {
        let red = quantize_channel(frame[3 * p], bit_depth);
        let green = quantize_channel(frame[3 * p + 1], bit_depth);
        let blue = quantize_channel(frame[3 * p + 2], bit_depth);
        let data: Vec<u32> = vec![red, green, blue];
        proof {
            assert(data@ =~= seq![
                quantize_spec(frame@[3 * p], bit_depth),
                quantize_spec(frame@[3 * p + 1], bit_depth),
                quantize_spec(frame@[3 * p + 2], bit_depth),
            ]);
        }
        let packed: u32 = match bitfield.encode(&data) {
            Ok(v) => v,
            Err(_) => {
                proof {
                    assert(false);
                }
                0
            },
        };
        let token = encoder.encode(packed as usize);
        proof {
            assert(token@ == frame_token_at(frame@, p as int, bit_depth));
        }
        out.push(token);
        p = p + 1;
    }
    out
}

/// Builds the matrix of per-pixel timelines: for every pixel position the
/// frames' tokens are folded, in temporal order, into maximal runs.
pub fn build_matrix(pixel_frames: &Vec<Vec<u8>>, dimensions: (u32, u32), bit_depth: u32) -> (r:
    Matrix)
    requires
        1 <= bit_depth <= 8,
        dimensions.0 * dimensions.1 * 3 <= usize::MAX,
        forall|f: int|
            0 <= f < pixel_frames@.len() ==> (#[trigger] pixel_frames@[f])@.len()
                == dimensions.0 * dimensions.1 * 3,
        pixel_frames@.len() <= u16::MAX,
    ensures
        r@.len() == dimensions.0 * dimensions.1,
        forall|p: int|
            0 <= p < r@.len() ==> (#[trigger] r@[p])@.map_values(
                |e: PixelEvent| event_model(e),
            ) == rle(pixel_token_timeline(frames_view(pixel_frames@), p, bit_depth)),
{
    let ghost fv = frames_view(pixel_frames@);
    let num_frames = pixel_frames.len();
    let num_pixels: usize = (dimensions.0 as usize) * (dimensions.1 as usize);

    // Per-frame token computation: independent for every frame and pixel.
    let mut tokens: Vec<Vec<String>> = Vec::new();
    let mut f: usize = 0;
    while f < num_frames
        invariant
            1 <= bit_depth <= 8,
            fv == frames_view(pixel_frames@),
            num_frames == pixel_frames@.len(),
            num_pixels == dimensions.0 * dimensions.1,
            dimensions.0 * dimensions.1 * 3 <= usize::MAX,
            forall|g: int|
                0 <= g < pixel_frames@.len() ==> (#[trigger] pixel_frames@[g])@.len()
                    == dimensions.0 * dimensions.1 * 3,
            f <= num_frames,
            tokens@.len() == f,
            forall|g: int| 0 <= g < f ==> (#[trigger] tokens@[g])@.len() == num_pixels,
            forall|g: int, p: int|
                0 <= g < f && 0 <= p < num_pixels ==> (#[trigger] tokens@[g]@[p])@
                    == frame_token_at(fv[g], p, bit_depth),
        decreases num_frames - f,
    {
        let frame = &pixel_frames[f];
        proof {
            lemma_mod_multiples_basic(num_pixels as int, 3);
            assert(frame@.len() == num_pixels * 3);
            assert((num_pixels * 3) as int % 3 == 0);
            lemma_div_by_multiple(num_pixels as int, 3);
            assert(fv[f as int] == frame@);
        }
        let ft = frame_tokens(frame, bit_depth);
        tokens.push(ft);
        f = f + 1;
    }

    // Streaming run-length fold, independently per pixel position.
    let mut matrix: Matrix = Vec::new();
    let mut p: usize = 0;
    while p < num_pixels
        invariant
            fv == frames_view(pixel_frames@),
            num_frames == pixel_frames@.len(),
            num_frames <= u16::MAX,
            num_pixels == dimensions.0 * dimensions.1,
            tokens@.len() == num_frames,
            forall|g: int| 0 <= g < num_frames ==> (#[trigger] tokens@[g])@.len() == num_pixels,
            forall|g: int, q: int|
                0 <= g < num_frames && 0 <= q < num_pixels ==> (#[trigger] tokens@[g]@[q])@
                    == frame_token_at(fv[g], q, bit_depth),
            p <= num_pixels,
            matrix@.len() == p,
            forall|q: int|
                0 <= q < p ==> (#[trigger] matrix@[q])@.map_values(|e: PixelEvent| event_model(e))
                    == rle(pixel_token_timeline(fv, q, bit_depth)),
        decreases num_pixels - p,
    {
        let ghost timeline = pixel_token_timeline(fv, p as int, bit_depth);
        let mut row: Vec<PixelEvent> = Vec::new();
        if num_frames > 0 {
            let mut cur_color: String = tokens[0][p].clone();
            let mut cur_dur: u16 = 1;
            let mut g: usize = 1;
            proof {
                assert(timeline.len() == num_frames as int);
                assert(timeline.take(1).len() == 1);
                assert(timeline.take(1).drop_last() =~= Seq::<Seq<char>>::empty());
                assert(rle(Seq::<Seq<char>>::empty()) == Seq::<(Seq<char>, int)>::empty());
                assert(timeline.take(1).last() == timeline[0]);
                assert(rle(timeline.take(1)) =~= seq![(timeline[0], 1int)]);
                assert(row@.map_values(|e: PixelEvent| event_model(e)).push(
                    (cur_color@, cur_dur as int),
                ) =~= rle(timeline.take(1)));
            }
            while g < num_frames
                invariant
                    fv == frames_view(pixel_frames@),
                    num_frames == pixel_frames@.len(),
                    num_frames <= u16::MAX,
                    num_pixels == dimensions.0 * dimensions.1,
                    tokens@.len() == num_frames,
                    forall|h: int|
                        0 <= h < num_frames ==> (#[trigger] tokens@[h])@.len() == num_pixels,
                    forall|h: int, q: int|
                        0 <= h < num_frames && 0 <= q < num_pixels ==> (
                        #[trigger] tokens@[h]@[q])@ == frame_token_at(fv[h], q, bit_depth),
                    p < num_pixels,
                    timeline == pixel_token_timeline(fv, p as int, bit_depth),
                    1 <= g <= num_frames,
                    1 <= cur_dur <= g,
                    row@.map_values(|e: PixelEvent| event_model(e)).push(
                        (cur_color@, cur_dur as int),
                    ) == rle(timeline.take(g as int)),
                decreases num_frames - g,
            {
                let ghost pre = timeline.take(g as int);
                let ghost ext = timeline.take(g as int + 1);
                proof {
                    assert(ext.drop_last() =~= pre);
                    assert(ext.last() == timeline[g as int]);
                }
                let t = &tokens[g][p];
                if *t == cur_color {
                    proof {
                        let rm = row@.map_values(|e: PixelEvent| event_model(e));
                        let prevr = rle(pre);
                        assert(prevr.last() == (cur_color@, cur_dur as int));
                        assert(prevr.drop_last() =~= rm);
                        assert(rle(ext) =~= rm.push((cur_color@, cur_dur as int + 1)));
                    }
                    cur_dur = cur_dur + 1;
                } else {
                    proof {
                        let rm = row@.map_values(|e: PixelEvent| event_model(e));
                        let prevr = rle(pre);
                        assert(prevr.last().0 != timeline[g as int]);
                        assert(rle(ext) =~= prevr.push((timeline[g as int], 1int)));
                        let rm2 = row@.push(
                            PixelEvent { color: cur_color, duration: cur_dur },
                        ).map_values(|e: PixelEvent| event_model(e));
                        assert(rm2 =~= rm.push((cur_color@, cur_dur as int)));
                    }
                    let finished = PixelEvent { color: cur_color, duration: cur_dur };
                    row.push(finished);
                    cur_color = t.clone();
                    cur_dur = 1;
                }
                g = g + 1;
            }
            proof {
                assert(timeline.take(num_frames as int) =~= timeline);
                let rm2 = row@.push(PixelEvent { color: cur_color, duration: cur_dur }).map_values(
                    |e: PixelEvent| event_model(e),
                );
                assert(rm2 =~= row@.map_values(|e: PixelEvent| event_model(e)).push(
                    (cur_color@, cur_dur as int),
                ));
            }
            let last = PixelEvent { color: cur_color, duration: cur_dur };
            row.push(last);
        } else {
            proof {
                assert(rle(timeline) =~= Seq::<(Seq<char>, int)>::empty());
                assert(row@.map_values(|e: PixelEvent| event_model(e)) =~= rle(timeline));
            }
        }
        matrix.push(row);
        p = p + 1;
    }
    matrix
}

} // verus!
