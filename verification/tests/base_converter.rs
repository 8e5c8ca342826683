use pixel_sequence::base_converter::{create_base_encoder, BaseConverter};
use pixel_sequence::errors::SequenceError;

#[test]
fn base_encode_zero_is_single_first_symbol() {
    let enc = create_base_encoder();
    assert_eq!(enc.encode(0), "!");
}

#[test]
fn base_round_trip_boundary_values() {
    let enc = create_base_encoder();
    for n in [0usize, 1, 93, 94, 95, 94 * 94 - 1, 94 * 94, 4210752, usize::from(u16::MAX)] {
        let s = enc.encode(n);
        assert_eq!(enc.decode(s).unwrap(), n);
    }
}

#[test]
fn base_encode_known_value() {
    // 4210752 = 5*94^3 + 6*94^2 + 51*94 + 22, so the digits map to the
    // alphabet symbols at those indices ('!' + 5, + 6, + 51, + 22).
    let enc = create_base_encoder();
    assert_eq!(enc.encode(4210752), "&'T7");
    assert_eq!(enc.decode(String::from("&'T7")).unwrap(), 4210752);
}

#[test]
fn base_second_symbol_is_double_quote() {
    // The default alphabet is the printable ASCII range from '!' to '~'
    // inclusive, so index 1 is the double quote.
    let enc = create_base_encoder();
    assert_eq!(enc.encode(1), "\"");
    assert_eq!(enc.decode(String::from("\"")).unwrap(), 1);
}

#[test]
fn base_string_round_trip() {
    // Any symbol string without a redundant leading zero symbol survives
    // decode-then-encode unchanged.
    let enc = create_base_encoder();
    for s in ["&'T7", "~", "!", "zz", "\"#$"] {
        let v = enc.decode(String::from(s)).unwrap();
        assert_eq!(enc.encode(v), s);
    }
}

#[test]
fn base_decode_rejects_symbol_outside_alphabet() {
    let enc = create_base_encoder();
    assert_eq!(enc.decode(String::from(" ")), Err(SequenceError::InvalidSymbol));
    assert_eq!(enc.decode(String::from("ab cd")), Err(SequenceError::InvalidSymbol));
    assert_eq!(enc.decode(String::from("ok\u{1F600}")), Err(SequenceError::InvalidSymbol));
}

#[test]
fn base_custom_binary_alphabet() {
    let enc = BaseConverter::new(String::from("01"));
    assert_eq!(enc.encode(6), "110");
    assert_eq!(enc.decode(String::from("110")).unwrap(), 6);
    assert_eq!(enc.encode(0), "0");
}
