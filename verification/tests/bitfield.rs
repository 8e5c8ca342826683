use pixel_sequence::bitfield::BitField;
use pixel_sequence::errors::SequenceError;

#[test]
fn bitfield_round_trip_three_fields() {
    let bf = BitField::new(vec![3, 3, 3]);
    let values = vec![5u32, 2, 7];
    let packed = bf.encode(&values).unwrap();
    assert_eq!(bf.decode(packed), values);
}

#[test]
fn bitfield_packs_low_field_first() {
    let bf = BitField::new(vec![8, 8, 8]);
    let packed = bf.encode(&vec![64, 64, 64]).unwrap();
    assert_eq!(packed, 64 | (64 << 8) | (64 << 16));
    assert_eq!(packed, 4210752);
    assert_eq!(bf.decode(packed), vec![64, 64, 64]);
}

#[test]
fn bitfield_round_trip_full_width_field() {
    let bf = BitField::new(vec![32]);
    let packed = bf.encode(&vec![0xdead_beef]).unwrap();
    assert_eq!(bf.decode(packed), vec![0xdead_beef]);
}

#[test]
fn bitfield_round_trip_mixed_widths() {
    let bf = BitField::new(vec![1, 5, 10, 16]);
    let values = vec![1u32, 19, 1000, 65535];
    let packed = bf.encode(&values).unwrap();
    assert_eq!(bf.decode(packed), values);
}

#[test]
fn bitfield_overflow_truncates_modulo_width() {
    let bf = BitField::new(vec![2]);
    let packed = bf.encode(&vec![5]).unwrap();
    assert_eq!(bf.decode(packed), vec![5 % 4]);

    let bf = BitField::new(vec![4, 4]);
    let packed = bf.encode(&vec![20, 300]).unwrap();
    assert_eq!(bf.decode(packed), vec![20 % 16, 300 % 16]);
}

#[test]
fn bitfield_overflow_does_not_leak_into_neighbor() {
    // A value wider than its field must not disturb the field above it.
    let bf = BitField::new(vec![2, 2]);
    let packed = bf.encode(&vec![7, 1]).unwrap();
    assert_eq!(bf.decode(packed), vec![3, 1]);
}

#[test]
fn bitfield_wrong_arity_is_a_checked_error() {
    let bf = BitField::new(vec![3, 3, 3]);
    assert_eq!(bf.encode(&vec![1, 2]), Err(SequenceError::WrongArity));
    assert_eq!(bf.encode(&vec![1, 2, 3, 4]), Err(SequenceError::WrongArity));
}
