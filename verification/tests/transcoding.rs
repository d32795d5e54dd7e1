use pane_encoding::{PaneEncoding, PaneInputEncoder, PaneOutputDecoder};

#[test]
fn utf8_passthrough() {
    let mut enc = PaneInputEncoder::default();
    let data = "hello world".as_bytes();
    assert_eq!(enc.encode(PaneEncoding::Utf8, data), data.to_vec());

    let mut dec = PaneOutputDecoder::default();
    assert_eq!(dec.decode(PaneEncoding::Utf8, data), data.to_vec());
}

#[test]
fn gbk_encode_chinese() {
    let mut enc = PaneInputEncoder::default();
    let input = "你好".as_bytes();
    let result = enc.encode(PaneEncoding::Gbk, input);
    // "你好" in GBK is [0xc4, 0xe3, 0xba, 0xc3]
    assert_eq!(result, vec![0xc4, 0xe3, 0xba, 0xc3]);
}

#[test]
fn gbk_decode_chinese() {
    let mut dec = PaneOutputDecoder::default();
    let gbk_bytes: &[u8] = &[0xc4, 0xe3, 0xba, 0xc3]; // "你好" in GBK
    let result = dec.decode(PaneEncoding::Gbk, gbk_bytes);
    assert_eq!(result, "你好".as_bytes().to_vec());
}

#[test]
fn esc_sequence_passthrough_on_encode() {
    let mut enc = PaneInputEncoder::default();
    // CSI sequence: ESC [ 1 ; 2 H (cursor position)
    let data = b"\x1b[1;2H";
    let result = enc.encode(PaneEncoding::Gbk, data);
    assert_eq!(result, data.to_vec());
}

#[test]
fn esc_sequence_passthrough_on_decode() {
    let mut dec = PaneOutputDecoder::default();
    // CSI sequence: ESC [ 1 ; 2 H (cursor position)
    let data = b"\x1b[1;2H";
    let result = dec.decode(PaneEncoding::Gbk, data);
    assert_eq!(result, data.to_vec());
}

#[test]
fn mixed_text_and_esc_on_decode() {
    let mut dec = PaneOutputDecoder::default();
    // GBK "你" + CSI sequence + GBK "好"
    let mut data: Vec<u8> = vec![0xc4, 0xe3]; // "你" in GBK
    data.extend_from_slice(b"\x1b[0m"); // SGR reset
    data.extend_from_slice(&[0xba, 0xc3]); // "好" in GBK
    let result = dec.decode(PaneEncoding::Gbk, &data);
    let mut expected = "你".as_bytes().to_vec();
    expected.extend_from_slice(b"\x1b[0m");
    expected.extend_from_slice("好".as_bytes());
    assert_eq!(result, expected);
}

#[test]
fn split_multibyte_decode() {
    let mut dec = PaneOutputDecoder::default();
    // "你" in GBK is [0xc4, 0xe3] - split across two decode calls
    let part1 = vec![0xc4]; // first byte only
    let result1 = dec.decode(PaneEncoding::Gbk, &part1);
    assert!(result1.is_empty(), "incomplete char should be buffered");

    let part2 = vec![0xe3]; // second byte
    let result2 = dec.decode(PaneEncoding::Gbk, &part2);
    assert_eq!(result2, "你".as_bytes().to_vec());
}

#[test]
fn unencodable_char_replaced_with_question_mark() {
    let mut enc = PaneInputEncoder::default();
    // Emoji 🚀 (U+1F680) is not in GBK
    let input = "🚀".as_bytes();
    let result = enc.encode(PaneEncoding::Gbk, input);
    assert!(!result.is_empty());
}

#[test]
fn osc_sequence_passthrough() {
    let mut dec = PaneOutputDecoder::default();
    // OSC: ESC ] 0 ; title BEL
    let data = b"\x1b]0;my title\x07";
    let result = dec.decode(PaneEncoding::Gbk, data);
    assert_eq!(result, data.to_vec());
}

#[test]
fn dcs_sequence_passthrough() {
    let mut dec = PaneOutputDecoder::default();
    // DCS: ESC P ... ST (ESC \)
    let data = b"\x1bPsome data\x1b\\";
    let result = dec.decode(PaneEncoding::Gbk, data);
    assert_eq!(result, data.to_vec());
}

#[test]
fn encoding_switch_resets_state() {
    let mut dec = PaneOutputDecoder::default();
    // Start with GBK, incomplete byte
    let part1 = vec![0xc4]; // first byte of "你" in GBK
    let _result1 = dec.decode(PaneEncoding::Gbk, &part1);

    // Switch to UTF-8 - should reset state
    let utf8_data = "hello".as_bytes();
    let result2 = dec.decode(PaneEncoding::Utf8, utf8_data);
    assert_eq!(result2, utf8_data.to_vec());
}

#[test]
fn gb18030_encode_decode() {
    let mut enc = PaneInputEncoder::default();
    let mut dec = PaneOutputDecoder::default();
    let input = "你好世界".as_bytes();
    let encoded = enc.encode(PaneEncoding::Gb18030, input);
    let decoded = dec.decode(PaneEncoding::Gb18030, &encoded);
    assert_eq!(decoded, input.to_vec());
}
