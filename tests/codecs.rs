use tds::collation::{
    decode_text, encode_text, encoding_for, Collation, TextEncoding, TextError, CODEPAGE_ASCII,
    CODEPAGE_LATIN1,
};
use tds::numeric::{width, Numeric, NumericError};
use tds::time::{time_width, Date, Time, TimeError};

fn num(precision: u8, scale: u8, positive: bool, magnitude: u128) -> Numeric {
    Numeric { precision, scale, positive, magnitude }
}

#[test]
fn numeric_scenario_precision_ten() {
    let n = num(10, 2, true, 123456);
    let bytes = n.encode().unwrap();
    assert_eq!(bytes.len(), 9);
    assert_eq!(bytes, vec![1, 0x40, 0xE2, 0x01, 0, 0, 0, 0, 0]);
    let back = Numeric::decode(&bytes, 10, 2).unwrap();
    assert_eq!(back, n);
    assert_eq!(back.integer_part(), 1234);
    assert_eq!(back.fractional_part(), 56);
}

#[test]
fn numeric_round_trips() {
    let cases = [
        num(1, 0, true, 0),
        num(9, 3, false, 999_999_999),
        num(19, 19, true, u64::MAX as u128),
        num(28, 0, false, (1u128 << 96) - 1),
        num(38, 10, true, u128::MAX),
    ];
    for n in cases {
        let bytes = n.encode().unwrap();
        assert_eq!(bytes.len(), 1 + width(n.precision));
        assert_eq!(Numeric::decode(&bytes, n.precision, n.scale).unwrap(), n);
    }
}

#[test]
fn numeric_negative_sign_byte() {
    let bytes = num(5, 0, false, 1).encode().unwrap();
    assert_eq!(bytes, vec![0, 1, 0, 0, 0]);
}

#[test]
fn numeric_widths() {
    assert_eq!([width(1), width(9), width(10), width(19), width(20), width(28), width(29), width(38)], [4, 4, 8, 8, 12, 12, 16, 16]);
}

#[test]
fn numeric_protocol_violations() {
    assert_eq!(num(0, 0, true, 1).encode().unwrap_err(), NumericError::ProtocolViolation);
    assert_eq!(num(39, 0, true, 1).encode().unwrap_err(), NumericError::ProtocolViolation);
    assert_eq!(num(5, 6, true, 1).encode().unwrap_err(), NumericError::ProtocolViolation);
    assert_eq!(Numeric::decode(&vec![1, 0, 0, 0, 0], 0, 0).unwrap_err(), NumericError::ProtocolViolation);
    assert_eq!(Numeric::decode(&vec![1, 0, 0, 0], 5, 0).unwrap_err(), NumericError::ProtocolViolation);
    assert_eq!(Numeric::decode(&vec![2, 0, 0, 0, 0], 5, 0).unwrap_err(), NumericError::ProtocolViolation);
}

#[test]
fn numeric_overflow() {
    assert_eq!(num(9, 0, true, 1u128 << 32).encode().unwrap_err(), NumericError::Overflow);
    assert_eq!(num(19, 0, true, 1u128 << 64).encode().unwrap_err(), NumericError::Overflow);
    assert_eq!(num(28, 0, true, 1u128 << 96).encode().unwrap_err(), NumericError::Overflow);
}

#[test]
fn time_round_trips_every_scale() {
    for scale in 0u8..=7 {
        let w = time_width(scale);
        for increments in [0u64, 1, (1u64 << (8 * w)) - 1] {
            let t = Time { increments, scale };
            let bytes = t.encode().unwrap();
            assert_eq!(bytes.len(), w);
            assert_eq!(Time::decode(&bytes, scale).unwrap(), t);
        }
    }
}

#[test]
fn time_widths() {
    let widths: Vec<usize> = (0u8..=7).map(time_width).collect();
    assert_eq!(widths, vec![3, 3, 3, 4, 4, 5, 5, 5]);
}

#[test]
fn time_errors() {
    assert_eq!(Time { increments: 0, scale: 8 }.encode().unwrap_err(), TimeError::ProtocolViolation);
    assert_eq!(Time { increments: 1 << 24, scale: 0 }.encode().unwrap_err(), TimeError::Overflow);
    assert_eq!(Time::decode(&vec![0, 0, 0, 0], 0).unwrap_err(), TimeError::ProtocolViolation);
    assert_eq!(Time::decode(&vec![0, 0, 0], 9).unwrap_err(), TimeError::ProtocolViolation);
}

#[test]
fn time_from_nanos() {
    assert_eq!(Time::from_nanos(1_500_000_000, 1).unwrap(), Time { increments: 15, scale: 1 });
    assert_eq!(Time::from_nanos(123_456_700, 7).unwrap(), Time { increments: 1_234_567, scale: 7 });
    assert_eq!(Time::from_nanos(5, 0).unwrap_err(), TimeError::Truncation);
    assert_eq!(Time::from_nanos(150, 7).unwrap_err(), TimeError::Truncation);
    assert_eq!(Time::from_nanos(0, 8).unwrap_err(), TimeError::ProtocolViolation);
}

#[test]
fn date_codec() {
    let d = Date { days: 737_000 };
    let bytes = d.encode().unwrap();
    assert_eq!(bytes, vec![0xE8, 0x3E, 0x0B]);
    assert_eq!(Date::decode(&bytes).unwrap(), d);
    assert_eq!(Date { days: 1 << 24 }.encode().unwrap_err(), TimeError::Overflow);
    assert_eq!(Date::decode(&vec![0, 0]).unwrap_err(), TimeError::ProtocolViolation);
}

#[test]
fn single_byte_and_wide_decode() {
    let latin = encoding_for(Some(Collation { codepage: CODEPAGE_LATIN1, sort_flags: 0 })).unwrap();
    assert_eq!(latin, TextEncoding::Latin1);
    assert_eq!(decode_text(&vec![0x41], latin).unwrap(), "A");
    let wide = encoding_for(None).unwrap();
    assert_eq!(wide, TextEncoding::Utf16Le);
    assert_eq!(decode_text(&vec![0x41, 0x00], wide).unwrap(), "A");
}

#[test]
fn encoding_selection() {
    assert_eq!(encoding_for(Some(Collation { codepage: CODEPAGE_ASCII, sort_flags: 1 })).unwrap(), TextEncoding::Ascii);
    assert_eq!(encoding_for(Some(Collation { codepage: 1252, sort_flags: 0 })).unwrap_err(), TextError::UnknownCodepage);
}

#[test]
fn latin1_high_bytes() {
    assert_eq!(decode_text(&vec![0x63, 0x61, 0x66, 0xE9], TextEncoding::Latin1).unwrap(), "café");
    assert_eq!(encode_text("café", TextEncoding::Latin1).unwrap(), vec![0x63, 0x61, 0x66, 0xE9]);
}

#[test]
fn ascii_rejects_high_bytes() {
    assert_eq!(decode_text(&vec![0x41, 0x80], TextEncoding::Ascii).unwrap_err(), TextError::Malformed);
    assert_eq!(encode_text("é", TextEncoding::Ascii).unwrap_err(), TextError::Unrepresentable);
    assert_eq!(encode_text("€", TextEncoding::Latin1).unwrap_err(), TextError::Unrepresentable);
    assert_eq!(encode_text("Az", TextEncoding::Ascii).unwrap(), vec![0x41, 0x7A]);
}

#[test]
fn utf16_surrogate_pairs() {
    let bytes = encode_text("a😀", TextEncoding::Utf16Le).unwrap();
    assert_eq!(bytes, vec![0x61, 0x00, 0x3D, 0xD8, 0x00, 0xDE]);
    assert_eq!(decode_text(&bytes, TextEncoding::Utf16Le).unwrap(), "a😀");
    assert_eq!(encode_text("€", TextEncoding::Utf16Le).unwrap(), vec![0xAC, 0x20]);
}

#[test]
fn utf16_malformed() {
    assert_eq!(decode_text(&vec![0x41], TextEncoding::Utf16Le).unwrap_err(), TextError::Malformed);
    assert_eq!(decode_text(&vec![0x3D, 0xD8], TextEncoding::Utf16Le).unwrap_err(), TextError::Malformed);
    assert_eq!(decode_text(&vec![0x00, 0xDE, 0x41, 0x00], TextEncoding::Utf16Le).unwrap_err(), TextError::Malformed);
    assert_eq!(decode_text(&vec![0x3D, 0xD8, 0x41, 0x00], TextEncoding::Utf16Le).unwrap_err(), TextError::Malformed);
    assert_eq!(decode_text(&vec![], TextEncoding::Utf16Le).unwrap(), "");
}
