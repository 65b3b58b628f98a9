use base32768::bits_to_bits::resize_bytes_ex;
use base32768::bits_to_bits::ResizedByte;
use base32768::calculate_encoded_length;
use base32768::decode;
use base32768::encode;
use base32768::errors::Base32768Error;
use base32768::errors::ErrorKind;

#[test]
fn resize_odd_bytes_correctly() {
    let bytes = resize_bytes_ex(&[4u16, 244u16, 13u16, 12u16, 92u16], 8, 15, 8);
    let correct_bytes = vec![
        ResizedByte { bytes: 634, bits: 15 },
        ResizedByte { bytes: 835, bits: 15 },
        ResizedByte { bytes: 92, bits: 10 },
    ];

    assert_eq!(bytes.len(), correct_bytes.len());

    for b in 0..bytes.len() {
        assert_eq!(bytes[b].bytes, correct_bytes[b].bytes);
        assert_eq!(bytes[b].bits, correct_bytes[b].bits);
    }
}

#[test]
fn resize_even_bytes_correctly() {
    let bytes = resize_bytes_ex(
        &[242u16, 67u16, 167u16, 208u16, 253u16, 91u16, 156u16, 21u16],
        8,
        15,
        8,
    );
    let correct_bytes = vec![
        ResizedByte { bytes: 31009, bits: 15 },
        ResizedByte { bytes: 27124, bits: 15 },
        ResizedByte { bytes: 8107, bits: 15 },
        ResizedByte { bytes: 14785, bits: 15 },
        ResizedByte { bytes: 5, bits: 4 },
    ];

    assert_eq!(bytes.len(), correct_bytes.len());

    for b in 0..bytes.len() {
        assert_eq!(bytes[b].bytes, correct_bytes[b].bytes);
        assert_eq!(bytes[b].bits, correct_bytes[b].bits);
    }
}

#[test]
fn test_encode_hello() {
    let res = encode(&[72u8, 101u8, 108u8, 108u8, 111u8]);
    assert_eq!(res.unwrap(), "䩲腻㐿");
}

#[test]
fn test_decode_hello() {
    let hello = [72u8, 101u8, 108u8, 108u8, 111u8];
    let mut decoded = Vec::<u8>::new();
    decode("䩲腻㐿", &mut decoded).unwrap();

    assert_eq!(decoded.as_slice(), hello);
}

#[test]
fn resize_empty_input() {
    let groups = resize_bytes_ex(&[], 8, 15, 8);
    assert_eq!(groups.len(), 0);
}

#[test]
fn resize_back_to_bytes() {
    // The three 15-bit values of the "Hello" text, resliced back into
    // bytes: five full bytes and a five-bit remainder of padding.
    let groups = resize_bytes_ex(&[9266u16, 23323u16, 3583u16], 15, 8, 15);
    let expected = vec![
        ResizedByte { bytes: 72, bits: 8 },
        ResizedByte { bytes: 101, bits: 8 },
        ResizedByte { bytes: 108, bits: 8 },
        ResizedByte { bytes: 108, bits: 8 },
        ResizedByte { bytes: 111, bits: 8 },
        ResizedByte { bytes: 31, bits: 5 },
    ];
    assert_eq!(groups.len(), expected.len());
    for i in 0..groups.len() {
        assert_eq!(groups[i].bytes, expected[i].bytes);
        assert_eq!(groups[i].bits, expected[i].bits);
    }
}

#[test]
fn encode_empty_is_empty_text() {
    assert_eq!(encode(&[]).unwrap(), "");
}

#[test]
fn decode_empty_is_empty_bytes() {
    let mut decoded = Vec::<u8>::new();
    decode("", &mut decoded).unwrap();
    assert_eq!(decoded.len(), 0);
}

#[test]
fn encode_is_deterministic() {
    let data = [1u8, 2u8, 3u8, 4u8, 5u8, 6u8, 7u8];
    assert_eq!(encode(&data).unwrap(), encode(&data).unwrap());
}

#[test]
fn decode_is_deterministic() {
    let text = encode(&[10u8, 20u8, 30u8]).unwrap();
    let mut first = Vec::<u8>::new();
    let mut second = Vec::<u8>::new();
    decode(&text, &mut first).unwrap();
    decode(&text, &mut second).unwrap();
    assert_eq!(first, second);
}

#[test]
fn round_trip_various_lengths() {
    for len in 0..48usize {
        let data: Vec<u8> = (0..len).map(|i| (i * 37 + 11) as u8).collect();
        let text = encode(&data).unwrap();
        let mut decoded = Vec::<u8>::new();
        decode(&text, &mut decoded).unwrap();
        assert_eq!(decoded, data);
    }
}

#[test]
fn round_trip_all_ones_uses_padding_tier() {
    // Sixteen set bits become one full group and a single leftover bit,
    // which is padded up to seven bits and encoded from tier 1.
    let data = [255u8, 255u8];
    let text = encode(&data).unwrap();
    assert_eq!(text, "\u{A65F}\u{01FF}");
    let mut decoded = Vec::<u8>::new();
    decode(&text, &mut decoded).unwrap();
    assert_eq!(decoded.as_slice(), data);
}

#[test]
fn decode_appends_to_existing_buffer() {
    let mut decoded = vec![9u8];
    decode("䩲腻㐿", &mut decoded).unwrap();
    assert_eq!(decoded, vec![9u8, 72u8, 101u8, 108u8, 108u8, 111u8]);
}

#[test]
fn decode_rejects_misplaced_padding() {
    // A tier-1 (padding) character anywhere before the final position
    // must be rejected, and the buffer must stay untouched.
    let mut decoded = vec![7u8];
    let err = decode("\u{01FF}䩲", &mut decoded).unwrap_err();
    assert_eq!(err.kind, ErrorKind::MisplacedPadding);
    assert_eq!(decoded, vec![7u8]);
}

#[test]
fn decode_accepts_trailing_padding_character() {
    let mut decoded = Vec::<u8>::new();
    decode("\u{A65F}\u{01FF}", &mut decoded).unwrap();
    assert_eq!(decoded, vec![255u8, 255u8]);
}

#[test]
fn decode_rejects_unknown_character() {
    let mut decoded = Vec::<u8>::new();
    let err = decode("A", &mut decoded).unwrap_err();
    assert_eq!(err.kind, ErrorKind::InvalidCharacter);
    assert!(decoded.is_empty());
}

#[test]
fn decode_rejects_wide_character() {
    let mut decoded = Vec::<u8>::new();
    let err = decode("\u{1F600}", &mut decoded).unwrap_err();
    assert_eq!(err.kind, ErrorKind::InvalidCharacterWidth);
    assert!(decoded.is_empty());
}

#[test]
fn decode_reports_first_error() {
    // The unknown character stands before the misplaced padding, so its
    // error wins.
    let mut decoded = Vec::<u8>::new();
    let err = decode("A\u{01FF}䩲", &mut decoded).unwrap_err();
    assert_eq!(err.kind, ErrorKind::InvalidCharacter);
}

#[test]
fn encoded_length_formula() {
    assert_eq!(calculate_encoded_length(0), Some(0));
    assert_eq!(calculate_encoded_length(1), Some(1));
    assert_eq!(calculate_encoded_length(2), Some(2));
    assert_eq!(calculate_encoded_length(5), Some(3));
    assert_eq!(calculate_encoded_length(8), Some(5));
    assert_eq!(calculate_encoded_length(15), Some(8));
    assert_eq!(calculate_encoded_length(usize::MAX), None);
}

#[test]
fn encoded_length_matches_encode() {
    for len in 0..40usize {
        let data: Vec<u8> = (0..len).map(|i| i as u8).collect();
        let text = encode(&data).unwrap();
        assert_eq!(Some(text.chars().count()), calculate_encoded_length(len));
    }
}

#[test]
fn error_new_keeps_message() {
    let e = Base32768Error::new(String::from("boom"));
    assert_eq!(e.kind, ErrorKind::General);
    assert_eq!(e.message(), "boom");
}

#[test]
fn tiers_cover_disjoint_codepoints() {
    let tables = base32768::tables::LookupTables::new();
    let r0 = &tables.repertoires[0];
    let r1 = &tables.repertoires[1];
    for cp in 0..0x10000usize {
        let in0 = r0.reverse[cp] != base32768::tables::NO_VALUE;
        let in1 = r1.reverse[cp] != base32768::tables::NO_VALUE;
        assert!(!(in0 && in1));
    }
}

#[test]
fn forward_and_reverse_are_inverses() {
    let tables = base32768::tables::LookupTables::new();
    for r in &tables.repertoires {
        for v in 0..r.forward.len() {
            let cp = r.forward[v];
            assert_eq!(r.reverse[cp as usize] as usize, v);
        }
    }
}
