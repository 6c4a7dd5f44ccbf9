use nnvis::json::{JsonNumber, JsonValue};
use nnvis::safetensors::{header_len, tensors_from_header};

fn st(x: &str) -> JsonValue {
    JsonValue::Str(x.to_string())
}

fn inum(v: i64) -> JsonValue {
    JsonValue::Number(JsonNumber { as_u64: u64::try_from(v).ok(), as_i64: Some(v) })
}

fn obj(members: Vec<(&str, JsonValue)>) -> JsonValue {
    JsonValue::Object(members.into_iter().map(|(k, v)| (k.to_string(), v)).collect())
}

#[test]
fn header_length_is_little_endian() {
    assert_eq!(header_len(&[1, 0, 0, 0, 0, 0, 0, 0]), Some(1));
    assert_eq!(header_len(&[0x34, 0x12, 0, 0, 0, 0, 0, 0, 0xff]), Some(0x1234));
    assert_eq!(header_len(&[0xff; 8]), Some(u64::MAX));
    assert_eq!(header_len(&[1, 2, 3, 4, 5, 6, 7, 8]), Some(u64::from_le_bytes([1, 2, 3, 4, 5, 6, 7, 8])));
    assert_eq!(header_len(&[1, 2, 3]), None);
}

#[test]
fn tensors_sorted_without_metadata() {
    let header = obj(vec![
        ("__metadata__", obj(vec![("format", st("pt"))])),
        ("z.weight", obj(vec![("dtype", st("F16")), ("shape", JsonValue::Array(vec![inum(251000), inum(768)]))])),
        ("a.bias", obj(vec![("dtype", st("F32")), ("shape", JsonValue::Array(vec![inum(768)]))])),
        ("m", obj(vec![("shape", JsonValue::Array(vec![inum(2), st("x"), inum(-3)]))])),
        ("n", inum(5)),
    ]);
    let ts = tensors_from_header(&header).unwrap();
    let names: Vec<&str> = ts.iter().map(|t| t.name.as_str()).collect();
    assert_eq!(names, vec!["a.bias", "m", "n", "z.weight"]);
    assert_eq!(ts[3].dtype, "F16");
    assert_eq!(ts[3].shape, vec![251000, 768]);
    assert_eq!(ts[1].dtype, "unknown");
    assert_eq!(ts[1].shape, vec![2, -3]);
    assert_eq!(ts[2].dtype, "unknown");
    assert!(ts[2].shape.is_empty());
    assert!(ts.iter().all(|t| t.name != "__metadata__"));
}

#[test]
fn later_member_replaces_earlier() {
    let header = obj(vec![("t", obj(vec![("dtype", st("F16"))])), ("t", obj(vec![("dtype", st("BF16"))]))]);
    let ts = tensors_from_header(&header).unwrap();
    assert_eq!(ts.len(), 1);
    assert_eq!(ts[0].dtype, "BF16");
}

#[test]
fn header_must_be_an_object() {
    assert!(tensors_from_header(&JsonValue::Array(vec![])).is_none());
    assert!(tensors_from_header(&JsonValue::Null).is_none());
    assert!(tensors_from_header(&obj(vec![])).unwrap().is_empty());
}
