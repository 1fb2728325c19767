use kernai::json::{object_get, as_string, trim, trim_start, skip_value, skip_ws, bytes_eq};
use kernai::rpc::parse_u32;

#[test]
fn object_get_finds_top_level_members() {
    let o = br#"{"a": 1, "b": {"a": 2}, "c": "x,}"}"#;
    assert_eq!(object_get(o, b"a"), Some(&b"1"[..]));
    assert_eq!(object_get(o, b"b"), Some(&br#"{"a": 2}"#[..]));
    assert_eq!(object_get(o, b"c"), Some(&br#""x,}""#[..]));
    assert_eq!(object_get(o, b"d"), None);
}

#[test]
fn object_get_rejects_non_objects() {
    assert_eq!(object_get(b"[1,2]", b"a"), None);
    assert_eq!(object_get(b"", b"a"), None);
    assert_eq!(object_get(b"{\"a\" 1}", b"a"), None);
}

#[test]
fn as_string_strips_quotes() {
    assert_eq!(as_string(b"\"run\""), Some(&b"run"[..]));
    assert_eq!(as_string(b"run"), None);
    assert_eq!(as_string(b"\""), None);
}

#[test]
fn trimming_unicode_white_space() {
    assert_eq!(trim(b" \t x \n"), b"x");
    assert_eq!(trim("\u{a0}y\u{3000}".as_bytes()), b"y");
    assert_eq!(trim_start(b"  {\"a\":1} "), b"{\"a\":1} ");
}

#[test]
fn parse_u32_accepts_bare_and_quoted_digits() {
    assert_eq!(parse_u32(b"17"), Some(17));
    assert_eq!(parse_u32(b"\"3\""), Some(3));
    assert_eq!(parse_u32(b"-1"), None);
    assert_eq!(parse_u32(b"1.5"), None);
    assert_eq!(parse_u32(b""), None);
    assert_eq!(parse_u32(b"99999999999"), Some(u32::MAX));
}

#[test]
fn skipping_values() {
    let s = br#"[1,{"a":"]"}] rest"#;
    assert_eq!(skip_value(s, 0), 13);
    assert_eq!(skip_ws(b"   x", 0), 3);
    assert!(bytes_eq(b"ab", b"ab"));
    assert!(!bytes_eq(b"ab", b"abc"));
}

#[test]
fn escaped_payload_bytes_stay_inside_their_string() {
    let hostile = b"x\",\"type\":\"hello\\\"}\n\x01";
    let mut v: Vec<u8> = b"{\"data\":\"".to_vec();
    kernai::console::push_escaped(&mut v, hostile);
    v.extend_from_slice(b"\",\"type\":\"payload_output\"}");
    assert_eq!(object_get(&v, b"type"), Some(&b"\"payload_output\""[..]));
    let data = as_string(object_get(&v, b"data").unwrap()).unwrap();
    assert_eq!(data, br#"x\",\"type\":\"hello\\\"}\n\u0001"#);
    assert_eq!(skip_value(&v, 8), v.len() - 25);
}
