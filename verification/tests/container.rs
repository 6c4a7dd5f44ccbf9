use nnvis::container::{decode_nnvis, encode_nnvis, HEADER_LEN, MAGIC, VERSION};

#[test]
fn decode_rejects_bad_magic() {
    let bad = b"BAD!0000";
    assert!(decode_nnvis(bad).is_err());
}

#[test]
fn decode_rejects_short_input() {
    assert!(decode_nnvis(b"NNV").is_err());
}

#[test]
fn encode_writes_magic_and_version() {
    let out = encode_nnvis(&[7, 8, 9]);
    assert_eq!(out, vec![b'N', b'N', b'V', b'S', 1, 0, 7, 8, 9]);
    assert_eq!(&out[0..4], &MAGIC[..]);
    assert_eq!(out.len(), HEADER_LEN + 3);
    assert_eq!(VERSION, 1);
}

#[test]
fn decode_returns_encoded_payload() {
    let payload = vec![1u8, 2, 3, 4, 5];
    let out = encode_nnvis(&payload);
    assert_eq!(decode_nnvis(&out), Ok(&payload[..]));
    let empty = encode_nnvis(&[]);
    assert_eq!(decode_nnvis(&empty), Ok(&[][..]));
}

#[test]
fn decode_then_encode_gives_input_back() {
    let data = b"NNVS\x01\x00payload";
    let payload = decode_nnvis(data).unwrap();
    assert_eq!(payload, b"payload");
    assert_eq!(encode_nnvis(payload), data.to_vec());
}

#[test]
fn decode_error_messages() {
    assert_eq!(decode_nnvis(b"NNVS\x01"), Err("file too short to contain .nnvis header"));
    assert_eq!(decode_nnvis(b"NNVX\x01\x00"), Err("invalid magic bytes — not a .nnvis file"));
    assert_eq!(decode_nnvis(b"NNVS\x02\x00"), Err("unsupported .nnvis version"));
    assert_eq!(decode_nnvis(b"NNVS\x01\x01"), Err("unsupported .nnvis version"));
}
