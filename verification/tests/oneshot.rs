use pane_encoding::{decode_bytes_to_string, PaneEncoding};

#[test]
fn decode_bytes_utf8_passthrough() {
    // Valid UTF-8 bytes should pass through regardless of encoding setting
    let utf8 = "hello世界".as_bytes();
    let result = decode_bytes_to_string(PaneEncoding::Gbk, utf8);
    assert_eq!(result, Some("hello世界".to_string()));
}

#[test]
fn decode_bytes_gbk_fallback() {
    // GBK bytes that are not valid UTF-8 should be decoded using GBK
    let gbk_bytes: &[u8] = &[0xc4, 0xe3, 0xba, 0xc3]; // "你好" in GBK
    let result = decode_bytes_to_string(PaneEncoding::Gbk, gbk_bytes);
    assert_eq!(result, Some("你好".to_string()));
}

#[test]
fn decode_bytes_gb18030_fallback() {
    // GB18030 bytes
    let gb18030_bytes: &[u8] = &[0xc4, 0xe3, 0xba, 0xc3]; // "你好" in GB18030
    let result = decode_bytes_to_string(PaneEncoding::Gb18030, gb18030_bytes);
    assert_eq!(result, Some("你好".to_string()));
}

#[test]
fn decode_bytes_utf8_encoding_returns_none_for_invalid() {
    // With no legacy encoding to fall back on there is still a result:
    // each sequence that is not UTF-8 becomes a replacement character.
    let invalid: &[u8] = &[0xc4, 0xe3, 0xba, 0xc3]; // GBK bytes, not valid UTF-8
    let result = decode_bytes_to_string(PaneEncoding::Utf8, invalid);
    assert_eq!(result, Some("\u{fffd}\u{fffd}\u{fffd}".to_string()));
}

#[test]
fn decode_bytes_gbk_path_with_slashes() {
    // A GBK-encoded path like /home/用户/文档
    // "用户" in GBK: [0xd3, 0xc3, 0xbb, 0xa7]
    // "文档" in GBK: [0xce, 0xc4, 0xb5, 0xb5]
    let mut path = b"/home/".to_vec();
    path.extend_from_slice(&[0xd3, 0xc3, 0xbb, 0xa7]); // 用户
    path.push(b'/');
    path.extend_from_slice(&[0xce, 0xc4, 0xb5, 0xb5]); // 文档
    let result = decode_bytes_to_string(PaneEncoding::Gbk, &path);
    assert_eq!(result, Some("/home/用户/文档".to_string()));
}

#[test]
fn decode_once_keeps_valid_utf8_with_no_legacy_encoding() {
    let result = decode_bytes_to_string(PaneEncoding::Utf8, "hello世界".as_bytes());
    assert_eq!(result, Some("hello世界".to_string()));
}

#[test]
fn decode_once_of_nothing_is_the_empty_string() {
    for encoding in [
        PaneEncoding::Utf8,
        PaneEncoding::Gbk,
        PaneEncoding::Gb18030,
        PaneEncoding::Big5,
        PaneEncoding::EucKr,
        PaneEncoding::ShiftJis,
    ] {
        assert_eq!(decode_bytes_to_string(encoding, &[]), Some(String::new()));
    }
}

#[test]
fn decode_once_replaces_what_the_encoding_lacks() {
    // 0xff begins nothing in GBK; the bytes around it still decode.
    let result = decode_bytes_to_string(PaneEncoding::Gbk, &[0xc4, 0xe3, 0xff, 0xba, 0xc3]);
    assert_eq!(result, Some("你\u{fffd}好".to_string()));
}

#[test]
fn decode_once_does_not_look_for_control_sequences() {
    // The bytes of a control sequence are ASCII, hence valid UTF-8.
    let result = decode_bytes_to_string(PaneEncoding::Gbk, b"\x1b[0m");
    assert_eq!(result, Some("\u{1b}[0m".to_string()));
    // Inside legacy text they are decoded along with it.
    let result = decode_bytes_to_string(PaneEncoding::Gbk, &[0xc4, 0xe3, 0x1b, b'[', b'm']);
    assert_eq!(result, Some("你\u{1b}[m".to_string()));
}

#[test]
fn decode_once_truncated_utf8_with_no_legacy_encoding() {
    // "你" without its last byte
    let result = decode_bytes_to_string(PaneEncoding::Utf8, &[b'a', 0xe4, 0xbd]);
    assert_eq!(result, Some("a\u{fffd}".to_string()));
}

#[test]
fn decode_once_in_every_legacy_encoding() {
    // "日本" in Shift-JIS, "한" in EUC-KR, "中" in Big5
    assert_eq!(
        decode_bytes_to_string(PaneEncoding::ShiftJis, &[0x93, 0xfa, 0x96, 0x7b]),
        Some("日本".to_string())
    );
    assert_eq!(
        decode_bytes_to_string(PaneEncoding::EucKr, &[0xc7, 0xd1]),
        Some("한".to_string())
    );
    assert_eq!(
        decode_bytes_to_string(PaneEncoding::Big5, &[0xa4, 0xa4]),
        Some("中".to_string())
    );
}

#[test]
fn decode_once_takes_a_byte_order_mark_for_bytes() {
    // EF BB BF opens UTF-8 text elsewhere; here EF BB is one GBK character
    // and the bytes behind it are GBK too.
    let first = decode_bytes_to_string(PaneEncoding::Gbk, &[0xef, 0xbb]).unwrap();
    assert_eq!(first.chars().count(), 1);
    assert_ne!(first, "\u{fffd}");
    let result = decode_bytes_to_string(PaneEncoding::Gbk, &[0xef, 0xbb, 0xbf, 0xff]).unwrap();
    assert!(result.starts_with(&first));
    assert_ne!(result, "\u{fffd}");
    // FF FE opens UTF-16 text elsewhere; here 'A' and NUL are not one unit.
    let result = decode_bytes_to_string(PaneEncoding::Gbk, &[0xff, 0xfe, b'A', 0x00]).unwrap();
    assert_ne!(result, "A");
    assert!(result.starts_with('\u{fffd}'));
    assert!(result.ends_with('\0'));
}
