use dingostore::codec::{copy_bytes, push_frame};
use dingostore::{decode_all, decode_one, encode, Record, StoreError};

#[test]
fn encode_frames_key_length_value() {
    let bytes = encode(0x0102030405060708, b"ab");
    assert_eq!(bytes, vec![1, 2, 3, 4, 5, 6, 7, 8, 0, 0, 0, 2, b'a', b'b']);
}

#[test]
fn encode_is_big_endian_for_small_and_large_keys() {
    assert_eq!(encode(1, b""), vec![0, 0, 0, 0, 0, 0, 0, 1, 0, 0, 0, 0]);
    assert_eq!(
        encode(u64::MAX, b"x"),
        vec![255, 255, 255, 255, 255, 255, 255, 255, 0, 0, 0, 1, b'x']
    );
    assert_eq!(&encode(256, b"")[..8], &[0, 0, 0, 0, 0, 0, 1, 0]);
}

#[test]
fn encode_length_prefix_counts_the_value() {
    let value = vec![7u8; 300];
    let bytes = encode(5, &value);
    assert_eq!(bytes.len(), 12 + 300);
    assert_eq!(&bytes[8..12], &[0, 0, 1, 44]);
    assert_eq!(&bytes[12..], &value[..]);
}

#[test]
fn encode_agrees_with_std_big_endian() {
    let key = 0xDEAD_BEEF_0BAD_F00Du64;
    let value = b"payload";
    let mut expected = Vec::new();
    expected.extend_from_slice(&key.to_be_bytes());
    expected.extend_from_slice(&(value.len() as u32).to_be_bytes());
    expected.extend_from_slice(value);
    assert_eq!(encode(key, value), expected);
}

#[test]
fn push_frame_appends_behind_what_is_there() {
    let mut out = vec![9u8];
    push_frame(&mut out, 2, b"z");
    assert_eq!(out, vec![9, 0, 0, 0, 0, 0, 0, 0, 2, 0, 0, 0, 1, b'z']);
}

#[test]
fn copy_bytes_gives_an_equal_vector() {
    assert_eq!(copy_bytes(b"abc"), b"abc".to_vec());
    assert_eq!(copy_bytes(b""), Vec::<u8>::new());
}

#[test]
fn decode_one_reads_a_frame_and_says_where_the_next_starts() {
    let mut bytes = encode(7, b"seven");
    bytes.extend(encode(9, b"nine"));
    let (rec, next) = decode_one(&bytes, 0).unwrap().unwrap();
    assert_eq!(rec, Record { key: 7, value: b"seven".to_vec() });
    assert_eq!(next, 17);
    let (rec, next) = decode_one(&bytes, next).unwrap().unwrap();
    assert_eq!(rec, Record { key: 9, value: b"nine".to_vec() });
    assert_eq!(next, bytes.len());
}

#[test]
fn decode_one_at_the_end_is_end_of_segment() {
    let bytes = encode(7, b"seven");
    assert_eq!(decode_one(&bytes, bytes.len()), Ok(None));
    assert_eq!(decode_one(&[], 0), Ok(None));
    assert_eq!(decode_one(&bytes, bytes.len() + 5), Ok(None));
}

#[test]
fn decode_one_in_the_middle_of_a_header_is_corrupt() {
    let bytes = encode(7, b"seven");
    assert_eq!(decode_one(&bytes[..5], 0), Err(StoreError::CorruptSegment));
    assert_eq!(decode_one(&bytes[..11], 0), Err(StoreError::CorruptSegment));
}

#[test]
fn decode_one_with_a_length_beyond_the_end_is_corrupt() {
    let bytes = encode(7, b"seven");
    assert_eq!(decode_one(&bytes[..16], 0), Err(StoreError::CorruptSegment));
    let huge = vec![0, 0, 0, 0, 0, 0, 0, 1, 255, 255, 255, 255, 1, 2, 3];
    assert_eq!(decode_one(&huge, 0), Err(StoreError::CorruptSegment));
}

#[test]
fn decode_all_reads_back_what_encode_wrote() {
    let mut bytes = encode(7, b"seven");
    bytes.extend(encode(9, b""));
    let recs = decode_all(&bytes).unwrap();
    assert_eq!(
        recs,
        vec![Record { key: 7, value: b"seven".to_vec() }, Record { key: 9, value: vec![] }]
    );
}

#[test]
fn decode_all_of_nothing_is_no_record() {
    assert_eq!(decode_all(&[]), Ok(vec![]));
}

#[test]
fn decode_all_rejects_a_cut_frame() {
    let mut bytes = encode(7, b"seven");
    bytes.pop();
    assert_eq!(decode_all(&bytes), Err(StoreError::CorruptSegment));
}

#[test]
fn decode_all_rejects_trailing_bytes() {
    let mut bytes = encode(7, b"seven");
    bytes.extend_from_slice(&[1, 2, 3]);
    assert_eq!(decode_all(&bytes), Err(StoreError::CorruptSegment));
}

#[test]
fn decode_all_keeps_file_order_even_if_keys_fall() {
    let mut bytes = encode(9, b"b");
    bytes.extend(encode(3, b"a"));
    let recs = decode_all(&bytes).unwrap();
    assert_eq!(recs[0].key, 9);
    assert_eq!(recs[1].key, 3);
}
