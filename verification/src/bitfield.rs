use vstd::prelude::*;
use vstd::arithmetic::power2::{
    lemma2_to64, lemma_pow2_adds, lemma_pow2_pos, lemma_pow2_strictly_increases, pow2,
};
use vstd::arithmetic::mul::lemma_mul_inequality;
use vstd::bits::{lemma_u32_low_bits_mask_is_mod, lemma_u32_shl_is_mul, low_bits_mask};
use crate::errors::SequenceError;

verus! {

/// One field's derived constants: `max` is the all-ones value of the field,
/// `shift` its position inside the packed integer, and `mask == max << shift`.
struct BitFieldMask {
    mask: u32,
    shift: u32,
    max: u32,
}

/// Packs an ordered tuple of fixed-width unsigned values into one `u32` and
/// unpacks it back. The field widths are given at construction; each must be
/// positive and together they must not exceed the 32 bits of the backing
/// integer.
pub struct BitField {
    widths: Vec<u32>,
    masks: Vec<BitFieldMask>,
}

/// The position of field `i`: the sum of the widths of the fields before it.
pub open spec fn shift_of(widths: Seq<u32>, i: int) -> int
    decreases i,
{
    if i <= 0 {
        0
    } else {
        shift_of(widths, i - 1) + widths[i - 1]
    }
}

/// A width list this codec accepts: positive widths summing to at most 32.
pub open spec fn valid_shape(widths: Seq<u32>) -> bool {
    &&& forall|i: int| 0 <= i < widths.len() ==> 1 <= #[trigger] widths[i]
    &&& shift_of(widths, widths.len() as int) <= 32
}

/// The mask with the low `w` bits set.
pub open spec fn field_mask_val(w: u32) -> u32 {
    if w >= 32 {
        0xffff_ffffu32
    } else {
        ((1u32 << w) - 1) as u32
    }
}

/// Field extraction: the bits of `packed` in `[shift, shift + width)`,
/// moved down to the origin.
pub open spec fn field_of(packed: u32, shift: u32, width: u32) -> u32 {
    (packed >> shift) & field_mask_val(width)
}

/// What decoding yields: every field extracted from the packed integer.
pub open spec fn decode_spec(widths: Seq<u32>, packed: u32) -> Seq<u32> {
    Seq::new(widths.len(), |i: int| field_of(packed, shift_of(widths, i) as u32, widths[i]))
}

/// The packed integer as arithmetic: the sum, over the first `i` fields, of
/// the value truncated to its width and scaled by two to the field's shift.
pub open spec fn packed_val(widths: Seq<u32>, vals: Seq<u32>, i: int) -> int
    decreases i,
{
    if i <= 0 {
        0
    } else {
        packed_val(widths, vals, i - 1) + (vals[i - 1] & field_mask_val(
            widths[i - 1],
        )) * pow2(shift_of(widths, i - 1) as nat)
    }
}

/// Shifts accumulate: positions never decrease along the field list.
pub proof fn lemma_shift_monotone(widths: Seq<u32>, i: int, j: int)
    requires
        0 <= i <= j <= widths.len(),
    ensures
        shift_of(widths, i) <= shift_of(widths, j),
    decreases j - i,
{
    if i < j {
        lemma_shift_monotone(widths, i, j - 1);
    }
}

proof fn lemma_encode_step(acc: u32, v: u32, s: u32, w: u32, mask: u32)
    by (bit_vector)
    requires
        1 <= w,
        s + w <= 32,
        s < 32,
        mask == (field_mask_val(w) << s),
        acc < (1u32 << s),
    ensures
        ({
            let x = mask & (v << s);
            &&& (acc | x) == acc + x
            &&& x == ((v & field_mask_val(w)) << s)
            &&& ((acc | x) >> s) & field_mask_val(w) == v & field_mask_val(w)
            &&& (s + w < 32 ==> (acc | x) < (1u32 << ((s + w) as u32)))
        }),
{
}

proof fn lemma_step_preserves_field(acc: u32, v: u32, s: u32, w: u32, mask: u32, s2: u32, w2: u32)
    by (bit_vector)
    requires
        1 <= w,
        s + w <= 32,
        s < 32,
        mask == (field_mask_val(w) << s),
        s2 + w2 <= s,
    ensures
        ({
            let x = mask & (v << s);
            ((acc | x) >> s2) & field_mask_val(w2) == (acc >> s2) & field_mask_val(w2)
        }),
{
}

proof fn lemma_mask_shift_swap(p: u32, s: u32, w: u32, mask: u32)
    by (bit_vector)
    requires
        1 <= w,
        s + w <= 32,
        s < 32,
        mask == (field_mask_val(w) << s),
    ensures
        (p & mask) >> s == (p >> s) & field_mask_val(w),
{
}

proof fn lemma_le_mask_identity(v: u32, w: u32)
    by (bit_vector)
    requires
        v <= field_mask_val(w),
    ensures
        v & field_mask_val(w) == v,
{
}

/// The whole reasoning for one iteration of the packing loop: the new field
/// is written, the fields already written keep their values, the accumulator
/// stays below the next field's position, and its arithmetic value grows by
/// the new contribution.
proof fn lemma_encode_loop_step(widths: Seq<u32>, data: Seq<u32>, acc: u32, i: int, m_mask: u32)
    requires
        valid_shape(widths),
        data.len() == widths.len(),
        0 <= i < widths.len(),
        m_mask == (field_mask_val(widths[i]) << (shift_of(widths, i) as u32)),
        shift_of(widths, i) < 32 ==> acc < (1u32 << (shift_of(widths, i) as u32)),
        forall|j: int|
            0 <= j < i ==> field_of(acc, shift_of(widths, j) as u32, #[trigger] widths[j])
                == data[j] & field_mask_val(widths[j]),
        acc == packed_val(widths, data, i),
    ensures
        0 <= shift_of(widths, i) < 32,
        ({
            let acc2 = acc | (m_mask & (data[i] << (shift_of(widths, i) as u32)));
            &&& (shift_of(widths, i + 1) < 32 ==> acc2 < (1u32 << (shift_of(
                widths,
                i + 1,
            ) as u32)))
            &&& forall|j: int|
                0 <= j < i + 1 ==> field_of(acc2, shift_of(widths, j) as u32, #[trigger] widths[j])
                    == data[j] & field_mask_val(widths[j])
            &&& acc2 == packed_val(widths, data, i + 1)
        }),
{
    let s_int = shift_of(widths, i);
    let w = widths[i];
    let v = data[i];
    lemma_shift_monotone(widths, 0, i);
    lemma_shift_monotone(widths, i + 1, widths.len() as int);
    assert(shift_of(widths, i + 1) == s_int + w);
    assert(1 <= w);
    assert(s_int + w <= 32);
    let s = s_int as u32;
    lemma_encode_step(acc, v, s, w, m_mask);
    let x = m_mask & (v << s);
    let acc2 = acc | x;
    assert forall|j: int|
        0 <= j < i implies field_of(acc2, shift_of(widths, j) as u32, #[trigger] widths[j])
        == data[j] & field_mask_val(widths[j]) by {
        lemma_shift_monotone(widths, 0, j);
        lemma_shift_monotone(widths, j + 1, i);
        assert(shift_of(widths, j + 1) == shift_of(widths, j) + widths[j]);
        lemma_step_preserves_field(acc, v, s, w, m_mask, shift_of(widths, j) as u32, widths[j]);
    }
    assert(field_of(acc2, s, w) == v & field_mask_val(w));
    // the arithmetic value of the new contribution
    let m = field_mask_val(w);
    lemma_mask_val_pow2(w);
    assert((v & m) <= m) by (bit_vector);
    lemma_pow2_pos(s as nat);
    lemma_pow2_adds(w as nat, s as nat);
    if s_int + w < 32 {
        lemma_pow2_strictly_increases((s_int + w) as nat, 32);
    }
    lemma2_to64();
    vstd::arithmetic::mul::lemma_mul_is_distributive_sub(
        pow2(s as nat) as int,
        pow2(w as nat) as int,
        1,
    );
    vstd::arithmetic::mul::lemma_mul_is_commutative(m as int, pow2(s as nat) as int);
    assert((m as int) * (pow2(s as nat) as int) <= u32::MAX);
    lemma_mul_inequality((v & m) as int, m as int, pow2(s as nat) as int);
    lemma_u32_shl_is_mul((v & m), s);
    assert(x == (v & m) * pow2(s as nat));
    assert(acc2 == acc + x);
    assert(packed_val(widths, data, i + 1) == packed_val(widths, data, i) + (v & m) * pow2(
        s as nat,
    ));
}

/// The all-ones field value is one less than two to the width.
pub proof fn lemma_mask_val_pow2(w: u32)
    requires
        1 <= w <= 32,
    ensures
        field_mask_val(w) as int == pow2(w as nat) - 1,
{
    if w < 32 {
        vstd::bits::lemma_u32_pow2_no_overflow(w as nat);
        lemma_u32_shl_is_mul(1u32, w);
    } else {
        lemma2_to64();
    }
}

impl View for BitField {
    type V = Seq<u32>;

    closed spec fn view(&self) -> Seq<u32> {
        self.widths@
    }
}

impl BitField {
    /// Internal consistency: the stored masks are exactly the constants the
    /// width list derives.
    pub closed spec fn wf(self) -> bool {
        &&& valid_shape(self.widths@)
        &&& self.masks@.len() == self.widths@.len()
        &&& forall|i: int|
            0 <= i < self.masks@.len() ==> (#[trigger] self.masks@[i]).shift == shift_of(
                self.widths@,
                i,
            ) as u32
        &&& forall|i: int|
            0 <= i < self.masks@.len() ==> (#[trigger] self.masks@[i]).max == field_mask_val(
                self.widths@[i],
            )
        &&& forall|i: int|
            0 <= i < self.masks@.len() ==> (#[trigger] self.masks@[i]).mask == (
            self.masks@[i].max << self.masks@[i].shift)
    }

    /// Builds the codec from an ordered width list, deriving each field's
    /// shift, all-ones value and positioned mask.
    pub fn new(shape: Vec<u32>) -> (r: BitField)
        requires
            valid_shape(shape@),
        ensures
            r.wf(),
            r@ == shape@,
    {
        let mut masks: Vec<BitFieldMask> = Vec::new();
        let mut shift: u32 = 0;
        let mut i: usize = 0;
        while i < shape.len()
            invariant
                valid_shape(shape@),
                i <= shape@.len(),
                masks@.len() == i,
                shift == shift_of(shape@, i as int),
                forall|j: int|
                    0 <= j < i ==> (#[trigger] masks@[j]).shift == shift_of(shape@, j) as u32,
                forall|j: int|
                    0 <= j < i ==> (#[trigger] masks@[j]).max == field_mask_val(shape@[j]),
                forall|j: int|
                    0 <= j < i ==> (#[trigger] masks@[j]).mask == (masks@[j].max << masks@[j].shift),
            decreases shape@.len() - i,
        {
            let w = shape[i];
            proof {
                lemma_shift_monotone(shape@, i as int + 1, shape@.len() as int);
                assert(w < 32 ==> (1u32 << w) >= 1) by (bit_vector);
            }
            let max: u32 = if w >= 32 {
                0xffff_ffffu32
            } else {
                (1u32 << w) - 1
            };
            let mask: u32 = max << shift;
            masks.push(BitFieldMask { mask, shift, max });
            shift = shift + w;
            i = i + 1;
        }
        BitField { widths: shape, masks }
    }

    /// Packs the values into one integer, field by field. A value wider than
    /// its field loses its high bits to the mask; the caller must pre-clamp
    /// where that matters. The only checked failure is an arity mismatch.
    pub fn encode(&self, data: &Vec<u32>) -> (r: Result<u32, SequenceError>)
        requires
            self.wf(),
        ensures
            r is Err <==> data@.len() != self@.len(),
            r is Err ==> r == Err::<u32, SequenceError>(SequenceError::WrongArity),
            r matches Ok(p) ==> {
                &&& decode_spec(self@, p) == Seq::new(
                    self@.len(),
                    |i: int| data@[i] & field_mask_val(self@[i]),
                )
                &&& p == packed_val(self@, data@, self@.len() as int)
            },
    {
        if data.len() != self.masks.len() {
            return Err(SequenceError::WrongArity);
        }
        let ghost widths = self.widths@;
        let mut acc: u32 = 0;
        let mut i: usize = 0;
        proof {
            assert(shift_of(widths, 0) == 0);
            assert(0u32 < (1u32 << 0u32)) by (bit_vector);
        }
        while i < self.masks.len()
            invariant
                self.wf(),
                widths == self.widths@,
                data@.len() == widths.len(),
                i <= widths.len(),
                shift_of(widths, i as int) < 32 ==> acc < (1u32 << (shift_of(
                    widths,
                    i as int,
                ) as u32)),
                forall|j: int|
                    0 <= j < i ==> field_of(
                        acc,
                        shift_of(widths, j) as u32,
                        #[trigger] widths[j],
                    ) == data@[j] & field_mask_val(widths[j]),
                acc == packed_val(widths, data@, i as int),
            decreases widths.len() - i,
        {
            let m_mask = self.masks[i].mask;
            let m_shift = self.masks[i].shift;
            let val = data[i];
            proof {
                lemma_encode_loop_step(widths, data@, acc, i as int, m_mask);
            }
            acc = acc | (m_mask & (val << m_shift));
            i = i + 1;
        }
        proof {
            assert(decode_spec(widths, acc) =~= Seq::new(
                widths.len(),
                |j: int| data@[j] & field_mask_val(widths[j]),
            ));
        }
        Ok(acc)
    }

    /// Unpacks every field of the packed integer. Pure and total for a
    /// well-formed codec.
    pub fn decode(&self, bit_field: u32) -> (r: Vec<u32>)
        requires
            self.wf(),
        ensures
            r@ == decode_spec(self@, bit_field),
    {
        let mut out: Vec<u32> = Vec::new();
        let mut i: usize = 0;
        while i < self.masks.len()
            invariant
                self.wf(),
                i <= self.widths@.len(),
                out@.len() == i,
                forall|j: int|
                    0 <= j < i ==> out@[j] == field_of(
                        bit_field,
                        shift_of(self.widths@, j) as u32,
                        #[trigger] self.widths@[j],
                    ),
            decreases self.widths@.len() - i,
        {
            let m_mask = self.masks[i].mask;
            let m_shift = self.masks[i].shift;
            proof {
                let widths = self.widths@;
                lemma_shift_monotone(widths, 0, i as int);
                lemma_shift_monotone(widths, i as int + 1, widths.len() as int);
                assert(shift_of(widths, i as int + 1) == shift_of(widths, i as int) + widths[
                    i as int
                ]);
                assert(1 <= widths[i as int]);
                lemma_mask_shift_swap(bit_field, m_shift, widths[i as int], m_mask);
            }
            out.push((bit_field & m_mask) >> m_shift);
            i = i + 1;
        }
        proof {
            assert(out@ =~= decode_spec(self@, bit_field));
        }
        out
    }
}

/// Law: decoding an encoded tuple restores every value that lay within its
/// field's range. The third premise is exactly what `encode` ensures of its
/// result.
pub proof fn lemma_bitfield_round_trip(widths: Seq<u32>, vals: Seq<u32>, packed: u32)
    requires
        valid_shape(widths),
        vals.len() == widths.len(),
        decode_spec(widths, packed) == Seq::new(
            widths.len(),
            |i: int| vals[i] & field_mask_val(widths[i]),
        ),
        forall|i: int| 0 <= i < vals.len() ==> #[trigger] vals[i] <= field_mask_val(widths[i]),
    ensures
        decode_spec(widths, packed) == vals,
{
    assert forall|i: int| 0 <= i < vals.len() implies #[trigger] (vals[i] & field_mask_val(
        widths[i],
    )) == vals[i] by {
        lemma_le_mask_identity(vals[i], widths[i]);
    }
    assert(decode_spec(widths, packed) =~= vals);
}

/// Law: a value wider than its field comes back as `value mod 2^width` from
/// an encode/decode round trip — defined truncation, never a crash. The
/// third premise is exactly what `encode` ensures of its result.
pub proof fn lemma_bitfield_truncation(widths: Seq<u32>, vals: Seq<u32>, packed: u32, i: int)
    requires
        valid_shape(widths),
        vals.len() == widths.len(),
        decode_spec(widths, packed) == Seq::new(
            widths.len(),
            |j: int| vals[j] & field_mask_val(widths[j]),
        ),
        0 <= i < widths.len(),
    ensures
        decode_spec(widths, packed)[i] as int == vals[i] as int % (pow2(widths[i] as nat) as int),
{
    let w = widths[i];
    let v = vals[i];
    assert(decode_spec(widths, packed)[i] == Seq::new(
        widths.len(),
        |j: int| vals[j] & field_mask_val(widths[j]),
    )[i]);
    assert(decode_spec(widths, packed)[i] == v & field_mask_val(w));
    assert(1 <= w);
    lemma_shift_monotone(widths, 0, i);
    lemma_shift_monotone(widths, i + 1, widths.len() as int);
    assert(shift_of(widths, i + 1) == shift_of(widths, i) + w);
    assert(w <= 32);
    if w < 32 {
        lemma_pow2_pos(w as nat);
        vstd::bits::lemma_u32_pow2_no_overflow(w as nat);
        lemma_mask_val_pow2(w);
        assert(field_mask_val(w) == low_bits_mask(w as nat) as u32);
        lemma_u32_low_bits_mask_is_mod(v, w as nat);
        assert(v & field_mask_val(w) == v % (pow2(w as nat) as u32));
        assert(pow2(w as nat) as u32 == pow2(w as nat));
    } else {
        assert(v & field_mask_val(w) == v) by (bit_vector)
            requires
                w >= 32,
        ;
        lemma2_to64();
        vstd::arithmetic::div_mod::lemma_small_mod(v as nat, pow2(32));
    }
}

} // verus!
