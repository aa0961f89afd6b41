use byteorder::{LittleEndian, WriteBytesExt};
use dbkv::codec::{decode_record, encode_record, HEADER_LEN};
use dbkv::StoreError;

#[test]
fn round_trip_plain() {
    let cases: Vec<(&[u8], &[u8])> = vec![
        (b"a", b"1"),
        (b"key", b"value"),
        (b"", b"only-value"),
        (b"only-key", b""),
        (b"", b""),
        (&[0u8, 255u8, 7u8], &[1u8, 2u8, 3u8, 0u8, 254u8]),
    ];
    for (key, value) in cases {
        let rec = encode_record(key, value);
        assert_eq!(rec.len(), HEADER_LEN + key.len() + value.len());
        let (kv, next) = decode_record(&rec, 0).expect("fresh record must decode");
        assert_eq!(kv.key, key);
        assert_eq!(kv.value, value);
        assert_eq!(next, rec.len());
    }
}

#[test]
fn checksum_known_value() {
    // CRC-32/IEEE of "123456789" is the classic check value 0xCBF43926.
    let rec = encode_record(b"1234", b"56789");
    assert_eq!(&rec[0..4], &0xCBF43926u32.to_le_bytes());
}

#[test]
fn checksum_matches_crc_crate() {
    let rec = encode_record(b"hello ", b"world");
    let expected = crc::crc32::checksum_ieee(b"hello world");
    assert_eq!(&rec[0..4], &expected.to_le_bytes());
}

#[test]
fn header_layout_little_endian() {
    let rec = encode_record(b"1234", b"56789");
    let mut hdr: Vec<u8> = Vec::new();
    hdr.write_u32::<LittleEndian>(0xCBF43926).unwrap();
    hdr.write_u32::<LittleEndian>(4).unwrap();
    hdr.write_u32::<LittleEndian>(5).unwrap();
    assert_eq!(&rec[0..HEADER_LEN], &hdr[..]);
    assert_eq!(&rec[HEADER_LEN..], b"123456789");
}

#[test]
fn flipping_any_payload_bit_is_corruption() {
    let rec = encode_record(b"key", b"value");
    for i in HEADER_LEN..rec.len() {
        for bit in 0..8 {
            let mut bad = rec.clone();
            bad[i] ^= 1 << bit;
            match decode_record(&bad, 0) {
                Err(StoreError::CorruptRecord) => {}
                other => panic!("payload flip at byte {i} bit {bit} gave {other:?}"),
            }
        }
    }
}

#[test]
fn flipping_a_checksum_bit_is_corruption() {
    let rec = encode_record(b"key", b"value");
    for i in 0..4 {
        for bit in 0..8 {
            let mut bad = rec.clone();
            bad[i] ^= 1 << bit;
            assert_eq!(decode_record(&bad, 0).unwrap_err(), StoreError::CorruptRecord);
        }
    }
}

#[test]
fn truncated_record_is_clean_end() {
    let rec = encode_record(b"key", b"value");
    for cut in 0..rec.len() {
        let short = rec[..cut].to_vec();
        assert_eq!(decode_record(&short, 0).unwrap_err(), StoreError::TruncatedTail);
    }
}

#[test]
fn decode_past_end_is_truncated_tail() {
    let rec = encode_record(b"k", b"v");
    assert_eq!(decode_record(&rec, rec.len()).unwrap_err(), StoreError::TruncatedTail);
    assert_eq!(decode_record(&rec, rec.len() + 100).unwrap_err(), StoreError::TruncatedTail);
    let empty: Vec<u8> = Vec::new();
    assert_eq!(decode_record(&empty, 0).unwrap_err(), StoreError::TruncatedTail);
}
