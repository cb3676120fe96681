use choreful::codec::{decode_key, decode_value_bytes, encode_key, encode_value_bytes};

#[test]
fn key_is_the_namespace_prefix_plus_the_path() {
    assert_eq!(encode_key("/a/b"), "task./a/b".to_string());
    assert_eq!(encode_key("/"), "task./".to_string());
}

#[test]
fn key_round_trips_through_decode() {
    let k = encode_key("/a/b/c");
    assert_eq!(decode_key(k.as_str()), Some("/a/b/c".to_string()));
}

#[test]
fn foreign_keys_do_not_decode() {
    assert_eq!(decode_key("other./a"), None);
    assert_eq!(decode_key("task.relative"), None);
    assert_eq!(decode_key("task."), None);
    assert_eq!(decode_key(""), None);
}

#[test]
fn value_round_trips_through_decode() {
    let content: Vec<u8> = vec![0, 1, 2, 254, 255];
    let bytes = encode_value_bytes(true, &"sh".to_string(), &content);
    let (inherit, ext, c) = decode_value_bytes(&bytes).unwrap();
    assert!(inherit);
    assert_eq!(ext, "sh");
    assert_eq!(c, content);
}

#[test]
fn value_round_trips_with_empty_fields() {
    let bytes = encode_value_bytes(false, &String::new(), &Vec::new());
    let (inherit, ext, c) = decode_value_bytes(&bytes).unwrap();
    assert!(!inherit);
    assert_eq!(ext, "");
    assert!(c.is_empty());
}

#[test]
fn value_round_trips_with_wide_characters() {
    let ext = "sh\u{00e9}\u{4e2d}\u{1f600}".to_string();
    let bytes = encode_value_bytes(true, &ext, &vec![9u8]);
    let (_, e, c) = decode_value_bytes(&bytes).unwrap();
    assert_eq!(e, ext);
    assert_eq!(c, vec![9u8]);
}

#[test]
fn records_without_an_extension_field_still_decode() {
    // the older record form: tag zero, the inherit byte, then raw content
    let bytes: Vec<u8> = vec![0, 1, 10, 20, 30];
    let (inherit, ext, c) = decode_value_bytes(&bytes).unwrap();
    assert!(inherit);
    assert_eq!(ext, "");
    assert_eq!(c, vec![10, 20, 30]);
}

#[test]
fn broken_values_do_not_decode() {
    assert!(decode_value_bytes(&Vec::new()).is_none());
    assert!(decode_value_bytes(&vec![1u8]).is_none());
    // a bad inherit byte
    assert!(decode_value_bytes(&vec![1u8, 7u8, 0, 0, 0, 0, 0, 0, 0, 0]).is_none());
    // an unknown form tag
    assert!(decode_value_bytes(&vec![9u8, 1u8, 0, 0, 0, 0, 0, 0, 0, 0]).is_none());
    // a truncated character count
    assert!(decode_value_bytes(&vec![1u8, 0u8, 5]).is_none());
    // a character count larger than the record
    assert!(decode_value_bytes(&vec![1u8, 0u8, 9, 0, 0, 0, 0, 0, 0, 0]).is_none());
    // a group that is no scalar value (a surrogate)
    let mut bad: Vec<u8> = vec![1u8, 0u8, 1, 0, 0, 0, 0, 0, 0, 0];
    bad.extend_from_slice(&[0x00, 0xD8, 0x00, 0x00]);
    assert!(decode_value_bytes(&bad).is_none());
}
