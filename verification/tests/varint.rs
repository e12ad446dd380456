use pocketwiki_core::varint::{
    decode_postings, decode_varint, encode_postings, encode_varint, CodecError,
};

#[test]
fn test_varint_roundtrip() {
    let test_values = vec![0, 1, 127, 128, 16383, 16384, u32::MAX];
    for &value in &test_values {
        let buf = encode_varint(value);
        let decoded = decode_varint(&buf).unwrap();
        assert_eq!(decoded, value);
    }
}

#[test]
fn test_postings_compression() {
    let doc_ids = vec![1, 5, 10, 100, 1000, 10000];
    let compressed = encode_postings(&doc_ids);
    let decompressed = decode_postings(&compressed).unwrap();
    assert_eq!(decompressed, doc_ids);

    // Check compression ratio
    let uncompressed_size = doc_ids.len() * 4; // u32 = 4 bytes
    assert!(compressed.len() < uncompressed_size);
}

#[test]
fn test_empty_postings() {
    let doc_ids: Vec<u32> = vec![];
    let compressed = encode_postings(&doc_ids);
    let decompressed = decode_postings(&compressed).unwrap();
    assert_eq!(decompressed, doc_ids);
}

#[test]
fn test_varint_lengths() {
    assert_eq!(encode_varint(0), vec![0x00]);
    assert_eq!(encode_varint(127), vec![0x7f]);
    assert_eq!(encode_varint(128), vec![0x80, 0x01]);
    assert_eq!(encode_varint(300), vec![0xac, 0x02]);
    assert_eq!(encode_varint(u32::MAX).len(), 5);
}

#[test]
fn test_varint_overlong_rejected() {
    // five continuation bytes: a sixth byte would be needed
    let overlong = vec![0x80u8, 0x80, 0x80, 0x80, 0x80, 0x01];
    assert_eq!(decode_varint(&overlong), Err(CodecError::CorruptData));
}

#[test]
fn test_varint_truncated_rejected() {
    // the buffer ends while the continuation bit is still set
    let truncated = vec![0x80u8];
    assert_eq!(decode_varint(&truncated), Err(CodecError::CorruptData));
    assert!(decode_varint(&[]).is_err());
}

#[test]
fn test_postings_corruption_reported() {
    // a valid id followed by a truncated varint
    let bytes = vec![0x05u8, 0x80];
    assert_eq!(decode_postings(&bytes), Err(CodecError::CorruptData));
}

#[test]
fn test_postings_deltas() {
    // gaps of one byte each: three ids encode into three bytes
    let doc_ids = vec![10, 20, 30];
    let compressed = encode_postings(&doc_ids);
    assert_eq!(compressed, vec![10, 10, 10]);
}
