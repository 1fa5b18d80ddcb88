use kvstore::codec::CodecKind;
use kvstore::kvmap::ValueMap;
use kvstore::value::{value_eq, Value};

fn sample_map() -> ValueMap {
    let mut m = ValueMap::new();
    m.insert("name".to_string(), Value::Str("store".to_string()));
    m.insert("count".to_string(), Value::Int(-42));
    m.insert("big".to_string(), Value::Int(i64::MAX));
    m.insert("small".to_string(), Value::Int(i64::MIN));
    m.insert("on".to_string(), Value::Bool(true));
    m.insert("off".to_string(), Value::Bool(false));
    m.insert("nothing".to_string(), Value::Null);
    m.insert(
        "list".to_string(),
        Value::Arr(vec![
            Value::Int(1),
            Value::Str("two\nlines \"quoted\" \\slash".to_string()),
            Value::Arr(vec![]),
            Value::Obj(vec![("inner".to_string(), Value::Bool(true))]),
        ]),
    );
    m.insert(
        "rec".to_string(),
        Value::Obj(vec![
            ("a".to_string(), Value::Null),
            ("b".to_string(), Value::Str("smile \u{1F600} acc\u{e9}nt".to_string())),
        ]),
    );
    m
}

fn maps_equal(a: &ValueMap, b: &ValueMap) -> bool {
    if a.len() != b.len() {
        return false;
    }
    for (k, v) in a.entries() {
        match b.get(&k) {
            Some(w) => {
                if !value_eq(&v, w) {
                    return false;
                }
            }
            None => return false,
        }
    }
    true
}

#[test]
fn text_round_trip() {
    let m = sample_map();
    let bytes = m.encode(CodecKind::Text);
    let back = ValueMap::decode(CodecKind::Text, &bytes).expect("decodes");
    assert!(maps_equal(&m, &back));
}

#[test]
fn framed_round_trip() {
    let m = sample_map();
    let bytes = m.encode(CodecKind::Framed);
    let back = ValueMap::decode(CodecKind::Framed, &bytes).expect("decodes");
    assert!(maps_equal(&m, &back));
}

#[test]
fn empty_map_round_trip() {
    let m = ValueMap::new();
    let bytes = m.encode(CodecKind::Text);
    assert_eq!(bytes, b"{}".to_vec());
    let back = ValueMap::decode(CodecKind::Text, &bytes).expect("decodes");
    assert_eq!(back.len(), 0);
}

#[test]
fn text_encoding_is_printable() {
    let m = sample_map();
    let bytes = m.encode(CodecKind::Text);
    for b in bytes {
        assert!((0x20..0x7f).contains(&b), "byte {b} is not printable seven-bit text");
    }
}

#[test]
fn exact_text_bytes_of_one_entry() {
    let mut m = ValueMap::new();
    m.insert("k".to_string(), Value::Int(255));
    let bytes = m.encode(CodecKind::Text);
    assert_eq!(bytes, b"{\"k\":i00000000000000ff}".to_vec());
}

#[test]
fn exact_text_bytes_of_escapes() {
    let mut m = ValueMap::new();
    m.insert("n".to_string(), Value::Str("a\nb".to_string()));
    let bytes = m.encode(CodecKind::Text);
    assert_eq!(bytes, b"{\"n\":\"a\\0000000ab\"}".to_vec());
}

#[test]
fn malformed_bytes_are_rejected() {
    for bad in [
        b"".to_vec(),
        b"{".to_vec(),
        b"{}x".to_vec(),
        b"[]".to_vec(),
        b"{\"k\":tru}".to_vec(),
        b"{\"k\":i00zz}".to_vec(),
        b"{\"k\":\"unterminated}".to_vec(),
        b"{\"k\":null,}".to_vec(),
        vec![0xff, 0xfe],
    ] {
        assert!(ValueMap::decode(CodecKind::Text, &bad).is_none(), "accepted {bad:?}");
    }
}

#[test]
fn framed_rejects_wrong_length_prefix() {
    let m = sample_map();
    let mut bytes = m.encode(CodecKind::Framed);
    bytes[0] = bytes[0].wrapping_add(1);
    assert!(ValueMap::decode(CodecKind::Framed, &bytes).is_none());
    let short = b"\x01\x00".to_vec();
    assert!(ValueMap::decode(CodecKind::Framed, &short).is_none());
}

#[test]
fn codecs_do_not_read_each_other() {
    let m = sample_map();
    let text = m.encode(CodecKind::Text);
    assert!(ValueMap::decode(CodecKind::Framed, &text).is_none());
}

#[test]
fn framed_prefix_matches_bincode_string_encoding() {
    // The frame is the historical format: the length-prefixed encoding
    // bincode gives a string, wrapped around the structured text.
    let m = sample_map();
    let text = m.encode(CodecKind::Text);
    let framed = m.encode(CodecKind::Framed);
    let as_string = String::from_utf8(text).expect("text bytes are printable");
    let via_bincode = bincode::serialize(&as_string).expect("bincode encodes strings");
    assert_eq!(framed, via_bincode);
}

#[test]
fn value_eq_is_structural() {
    let a = Value::Obj(vec![("x".to_string(), Value::Arr(vec![Value::Int(1)]))]);
    let b = Value::Obj(vec![("x".to_string(), Value::Arr(vec![Value::Int(1)]))]);
    let c = Value::Obj(vec![("x".to_string(), Value::Arr(vec![Value::Int(2)]))]);
    assert!(value_eq(&a, &b));
    assert!(!value_eq(&a, &c));
    assert!(!value_eq(&a, &Value::Null));
}

#[test]
fn deep_clone_copies_everything() {
    let a = sample_map();
    let b = a.deep_clone();
    assert!(maps_equal(&a, &b));
}

#[test]
fn empty_key_and_empty_string_round_trip() {
    let mut m = ValueMap::new();
    m.insert(String::new(), Value::Str(String::new()));
    let bytes = m.encode(CodecKind::Text);
    assert_eq!(bytes, b"{\"\":\"\"}".to_vec());
    let back = ValueMap::decode(CodecKind::Text, &bytes).expect("decodes");
    assert_eq!(back.len(), 1);
    assert!(value_eq(back.get("").unwrap(), &Value::Str(String::new())));
}
