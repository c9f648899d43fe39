use rfr::wire::{
    decode_bool, decode_fixed8, decode_i64, decode_string, decode_u128, decode_u64, encode_bytes,
    encode_fixed8, encode_i128, encode_i64, encode_str, encode_u128, encode_u64, DecodeFailure,
};

#[test]
fn varint_layout_matches_the_serialization_framework() {
    for value in [0_u64, 1, 127, 128, 300, 16_383, 16_384, u64::MAX] {
        let mut mine = Vec::new();
        encode_u64(&mut mine, value);
        let reference = postcard::to_allocvec(&value).unwrap();
        assert_eq!(mine, reference, "varint encoding differs for {value}");
    }
}

#[test]
fn varint_round_trip() {
    for value in [0_u64, 1, 127, 128, 300, 16_383, 16_384, u64::MAX] {
        let mut bytes = Vec::new();
        encode_u64(&mut bytes, value);
        let (decoded, next) = decode_u64(&bytes, 0).unwrap();
        assert_eq!(decoded, value);
        assert_eq!(next, bytes.len());
    }
}

#[test]
fn truncated_varint_is_incomplete() {
    let mut bytes = Vec::new();
    encode_u64(&mut bytes, 123_456_789);
    bytes.pop();
    assert_eq!(decode_u64(&bytes, 0).unwrap_err(), DecodeFailure::Incomplete);
}

#[test]
fn oversized_varint_is_malformed() {
    // eleven continuation bytes never fit a 64-bit value
    let bytes = vec![0x80_u8; 10].into_iter().chain([0x01]).collect::<Vec<u8>>();
    assert_eq!(decode_u64(&bytes, 0).unwrap_err(), DecodeFailure::Malformed);
}

#[test]
fn string_layout_matches_the_serialization_framework() {
    for value in ["", "hi there", "snowman \u{2603} and more"] {
        let mut mine = Vec::new();
        encode_str(&mut mine, value);
        let reference = postcard::to_allocvec(value).unwrap();
        assert_eq!(mine, reference, "string encoding differs for {value:?}");
    }
}

#[test]
fn string_round_trip() {
    let mut bytes = Vec::new();
    encode_str(&mut bytes, "hi there");
    let (decoded, next) = decode_string(&bytes, 0).unwrap();
    assert_eq!(decoded, "hi there");
    assert_eq!(next, bytes.len());
}

#[test]
fn invalid_utf8_is_malformed() {
    let mut bytes = Vec::new();
    encode_bytes(&mut bytes, &vec![0xff, 0xfe]);
    assert_eq!(
        decode_string(&bytes, 0).unwrap_err(),
        DecodeFailure::Malformed
    );
}

#[test]
fn signed_layout_matches_the_serialization_framework() {
    for value in [0_i64, -1, 1, 63, -64, 64, i64::MIN, i64::MAX] {
        let mut mine = Vec::new();
        encode_i64(&mut mine, value);
        let reference = postcard::to_allocvec(&value).unwrap();
        assert_eq!(mine, reference, "zigzag encoding differs for {value}");
    }
}

#[test]
fn signed_round_trip() {
    for value in [0_i64, -1, 1, i64::MIN, i64::MAX] {
        let mut bytes = Vec::new();
        encode_i64(&mut bytes, value);
        let (decoded, next) = decode_i64(&bytes, 0).unwrap();
        assert_eq!(decoded, value);
        assert_eq!(next, bytes.len());
    }
}

#[test]
fn wide_layout_matches_the_serialization_framework() {
    for value in [0_u128, 127, 128, u64::MAX as u128 + 1, u128::MAX] {
        let mut mine = Vec::new();
        encode_u128(&mut mine, value);
        let reference = postcard::to_allocvec(&value).unwrap();
        assert_eq!(mine, reference, "wide varint encoding differs for {value}");
    }

    let mut mine = Vec::new();
    encode_i128(&mut mine, i128::MIN);
    let reference = postcard::to_allocvec(&i128::MIN).unwrap();
    assert_eq!(mine, reference);
}

#[test]
fn wide_round_trip() {
    let mut bytes = Vec::new();
    encode_u128(&mut bytes, u128::MAX);
    let (decoded, next) = decode_u128(&bytes, 0).unwrap();
    assert_eq!(decoded, u128::MAX);
    assert_eq!(next, bytes.len());
}

#[test]
fn float_bits_layout_matches_the_serialization_framework() {
    for value in [0.0_f64, 1.5, -2.25, f64::MAX] {
        let mut mine = Vec::new();
        encode_fixed8(&mut mine, value.to_bits());
        let reference = postcard::to_allocvec(&value).unwrap();
        assert_eq!(mine, reference, "float encoding differs for {value}");
    }
}

#[test]
fn float_bits_round_trip() {
    let bits = 1.5_f64.to_bits();
    let mut bytes = Vec::new();
    encode_fixed8(&mut bytes, bits);
    let (decoded, next) = decode_fixed8(&bytes, 0).unwrap();
    assert_eq!(decoded, bits);
    assert_eq!(next, 8);
    assert_eq!(f64::from_bits(decoded), 1.5);
}

#[test]
fn bool_round_trip() {
    let mut bytes = Vec::new();
    rfr::codec::encode_bool_byte(&mut bytes, true);
    rfr::codec::encode_bool_byte(&mut bytes, false);
    let (first, p1) = decode_bool(&bytes, 0).unwrap();
    let (second, p2) = decode_bool(&bytes, p1).unwrap();
    assert!(first);
    assert!(!second);
    assert_eq!(p2, 2);
    assert_eq!(
        decode_bool(&vec![9_u8], 0).unwrap_err(),
        DecodeFailure::Malformed
    );
}

#[test]
fn seq_chunk_header_layout_matches_the_serialization_framework() {
    let header = rfr::chunked::SeqChunkHeader {
        seq_id: rfr::chunked::SeqId::from(7_u64),
        earliest_timestamp: rfr::chunked::ChunkTimestamp { micros: 123_456 },
        latest_timestamp: rfr::chunked::ChunkTimestamp { micros: 16_500_000 },
    };
    let mut mine = Vec::new();
    rfr::chunked::sequence::encode_seq_chunk_header(&mut mine, &header);
    let reference = postcard::to_allocvec(&(7_u64, 123_456_u64, 16_500_000_u64)).unwrap();
    assert_eq!(mine, reference, "sequence chunk header encoding differs");
}
