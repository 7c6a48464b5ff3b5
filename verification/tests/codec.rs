use lsm_tree::codec::{decode, encode, DecodeError, EncodedEntry, ValueHandle};

#[test]
fn round_trip_inline() {
    let bytes = encode(&EncodedEntry::Inline(b"hello".to_vec()));
    match decode(&bytes).unwrap() {
        EncodedEntry::Inline(b) => assert_eq!(b, b"hello".to_vec()),
        EncodedEntry::Indirect(_) => panic!("expected an inline entry"),
    }
}

#[test]
fn round_trip_inline_empty() {
    let bytes = encode(&EncodedEntry::Inline(Vec::new()));
    match decode(&bytes).unwrap() {
        EncodedEntry::Inline(b) => assert!(b.is_empty()),
        EncodedEntry::Indirect(_) => panic!("expected an inline entry"),
    }
}

#[test]
fn round_trip_indirect() {
    let h = ValueHandle { segment_id: 12345, offset: 987654321 };
    let bytes = encode(&EncodedEntry::Indirect(h));
    match decode(&bytes).unwrap() {
        EncodedEntry::Indirect(g) => assert_eq!(g, h),
        EncodedEntry::Inline(_) => panic!("expected an indirect entry"),
    }
}

#[test]
fn wire_format_inline() {
    let bytes = encode(&EncodedEntry::Inline(vec![0xAB, 0xCD]));
    assert_eq!(bytes, vec![0u8, 0, 0, 0, 0, 0, 0, 0, 2, 0xAB, 0xCD]);
}

#[test]
fn wire_format_indirect_offset_first() {
    let bytes = encode(&EncodedEntry::Indirect(ValueHandle { segment_id: 5, offset: 7 }));
    let mut expected = vec![1u8];
    expected.extend_from_slice(&[0, 0, 0, 0, 0, 0, 0, 7]);
    expected.extend_from_slice(&[0, 0, 0, 0, 0, 0, 0, 5]);
    assert_eq!(bytes, expected);
}

#[test]
fn wire_format_big_endian_length() {
    let bytes = encode(&EncodedEntry::Inline(vec![0u8; 256]));
    assert_eq!(&bytes[..9], &[0u8, 0, 0, 0, 0, 0, 0, 1, 0]);
    assert_eq!(bytes.len(), 9 + 256);
}

#[test]
fn decode_empty_buffer_is_short_read() {
    assert_eq!(decode(&Vec::new()).unwrap_err(), DecodeError::ShortRead);
}

#[test]
fn decode_unknown_tag_is_data_error() {
    assert_eq!(decode(&vec![2u8]).unwrap_err(), DecodeError::UnknownTag(2));
    assert_eq!(
        decode(&vec![255u8, 0, 0, 0, 0, 0, 0, 0, 0]).unwrap_err(),
        DecodeError::UnknownTag(255)
    );
}

#[test]
fn decode_truncated_length_is_short_read() {
    assert_eq!(
        decode(&vec![0u8, 0, 0, 0, 0, 0, 0, 0]).unwrap_err(),
        DecodeError::ShortRead
    );
}

#[test]
fn decode_truncated_body_is_short_read() {
    assert_eq!(
        decode(&vec![0u8, 0, 0, 0, 0, 0, 0, 0, 5, 1, 2]).unwrap_err(),
        DecodeError::ShortRead
    );
}

#[test]
fn decode_truncated_handle_is_short_read() {
    assert_eq!(
        decode(&vec![1u8, 0, 0, 0, 0, 0, 0, 0, 1]).unwrap_err(),
        DecodeError::ShortRead
    );
}
