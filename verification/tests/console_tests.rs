use kernai::console::{FrameBuf, CAPACITY, emit_json, push_escaped, push_dec, push_hex, push_i64};

fn frames(wire: &[u8]) -> Vec<String> {
    let mut out = Vec::new();
    let mut i = 0;
    while i + 6 <= wire.len() {
        assert_eq!(wire[i], 0xAA);
        assert_eq!(wire[i + 1], 0x99);
        let n = u32::from_le_bytes([wire[i + 2], wire[i + 3], wire[i + 4], wire[i + 5]]) as usize;
        out.push(String::from_utf8(wire[i + 6..i + 6 + n].to_vec()).unwrap());
        i += 6 + n;
    }
    assert_eq!(i, wire.len());
    out
}

#[test]
fn frame_is_magic_length_payload() {
    let mut f = FrameBuf::new();
    assert!(f.write_str("{\"a\":1}").is_ok());
    let mut wire = Vec::new();
    f.emit(&mut wire);
    assert_eq!(&wire[..6], &[0xAA, 0x99, 7, 0, 0, 0]);
    assert_eq!(&wire[6..], b"{\"a\":1}");
}

#[test]
fn overflow_poisons_and_emits_nothing() {
    let mut f = FrameBuf::new();
    let big = vec![b'x'; CAPACITY];
    assert!(f.write_bytes(&big).is_ok());
    assert!(f.write_str("y").is_err());
    assert!(f.overflowed());
    // Later writes that would fit do not un-poison the frame.
    let mut wire = Vec::new();
    f.emit(&mut wire);
    assert!(wire.is_empty());
}

#[test]
fn a_write_that_does_not_fit_appends_nothing() {
    let mut f = FrameBuf::new();
    f.write_str("abc").unwrap();
    let big = vec![b'z'; CAPACITY];
    assert!(f.write_bytes(&big).is_err());
    assert_eq!(f.as_bytes(), b"abc");
}

#[test]
fn capacity_is_two_kib() {
    assert_eq!(CAPACITY, 2048);
}

#[test]
fn json_escape_of_control_and_quote_bytes() {
    let mut v = Vec::new();
    push_escaped(&mut v, b"a\"b\\c\nd\re\tf\x01g");
    assert_eq!(v, b"a\\\"b\\\\c\\nd\\re\\tf\\u0001g".to_vec());
}

#[test]
fn write_json_escaped_str() {
    let mut f = FrameBuf::new();
    f.write_json_escaped("say \"hi\"\n").unwrap();
    assert_eq!(f.as_bytes(), b"say \\\"hi\\\"\\n");
}

#[test]
fn number_rendering() {
    let mut v = Vec::new();
    push_dec(&mut v, 0);
    v.push(b' ');
    push_dec(&mut v, 18446744073709551615);
    v.push(b' ');
    push_hex(&mut v, 0xdead_beef);
    v.push(b' ');
    push_i64(&mut v, -32601);
    v.push(b' ');
    push_i64(&mut v, i64::MIN);
    assert_eq!(String::from_utf8(v).unwrap(), "0 18446744073709551615 deadbeef -32601 -9223372036854775808");
}

#[test]
fn frame_buf_number_writers() {
    let mut f = FrameBuf::new();
    f.write_u64(42).unwrap();
    f.write_str(",").unwrap();
    f.write_hex(255).unwrap();
    f.write_str(",").unwrap();
    f.write_i64(-7).unwrap();
    f.write_str(",").unwrap();
    f.write_bool(true).unwrap();
    assert_eq!(f.as_bytes(), b"42,ff,-7,true");
}

#[test]
fn emit_json_frames_whole_or_nothing() {
    let mut wire = Vec::new();
    emit_json(&mut wire, b"{}");
    emit_json(&mut wire, &vec![b'a'; CAPACITY + 1]);
    assert_eq!(frames(&wire), vec!["{}".to_string()]);
}

#[test]
fn write_frame_appends_another_frame() {
    let mut a = FrameBuf::new();
    a.write_str("x=").unwrap();
    let mut b = FrameBuf::new();
    b.write_str("1").unwrap();
    a.write_frame(&b).unwrap();
    assert_eq!(a.as_bytes(), b"x=1");
}
