use pane_encoding::{decode_bytes_to_string, PaneEncoding, PaneInputEncoder, PaneOutputDecoder};

const LEGACY: [PaneEncoding; 5] = [
    PaneEncoding::Gbk,
    PaneEncoding::Gb18030,
    PaneEncoding::Big5,
    PaneEncoding::EucKr,
    PaneEncoding::ShiftJis,
];

const SEQUENCES: [&[u8]; 8] = [
    b"\x1b[1;2H",
    b"\x1b[0m",
    b"\x9b31m",
    b"\x1b]0;my title\x07",
    b"\x1b]0;my title\x1b\\",
    b"\x1bPsome data\x1b\\",
    b"\x1bM",
    b"\x1b(B",
];

#[test]
fn every_family_passes_through_in_every_encoding() {
    for encoding in LEGACY {
        for sequence in SEQUENCES {
            let mut enc = PaneInputEncoder::default();
            let mut dec = PaneOutputDecoder::default();
            assert_eq!(enc.encode(encoding, sequence), sequence.to_vec());
            assert_eq!(dec.decode(encoding, sequence), sequence.to_vec());
        }
    }
}

#[test]
fn sequence_between_characters_on_decode() {
    // "你" + ESC[0m + "好" in GBK
    let mut dec = PaneOutputDecoder::default();
    let result =
        dec.decode(PaneEncoding::Gbk, &[0xc4, 0xe3, 0x1b, 0x5b, 0x30, 0x6d, 0xba, 0xc3]);
    let mut expected = "你".as_bytes().to_vec();
    expected.extend_from_slice(&[0x1b, 0x5b, 0x30, 0x6d]);
    expected.extend_from_slice("好".as_bytes());
    assert_eq!(result, expected);
}

#[test]
fn sequence_between_characters_on_encode() {
    let mut enc = PaneInputEncoder::default();
    let mut data = "你".as_bytes().to_vec();
    data.extend_from_slice(b"\x1b[0m");
    data.extend_from_slice("好".as_bytes());
    let result = enc.encode(PaneEncoding::Gbk, &data);
    assert_eq!(result, vec![0xc4, 0xe3, 0x1b, 0x5b, 0x30, 0x6d, 0xba, 0xc3]);
}

#[test]
fn bytes_inside_a_sequence_are_not_text() {
    // The OSC body holds GBK bytes; they are not decoded.
    let mut dec = PaneOutputDecoder::default();
    let data: &[u8] = &[0x1b, b']', b'0', b';', 0xc4, 0xe3, 0x07];
    assert_eq!(dec.decode(PaneEncoding::Gbk, data), data.to_vec());
    // The OSC body holds UTF-8; it is not encoded.
    let mut enc = PaneInputEncoder::default();
    let mut data = b"\x1b]0;".to_vec();
    data.extend_from_slice("你好".as_bytes());
    data.push(0x07);
    assert_eq!(enc.encode(PaneEncoding::Gbk, &data), data);
}

#[test]
fn sequence_split_at_every_byte_comes_out_whole() {
    for encoding in LEGACY {
        for sequence in SEQUENCES {
            for cut in 1..sequence.len() {
                let mut dec = PaneOutputDecoder::default();
                assert!(dec.decode(encoding, &sequence[..cut]).is_empty());
                assert_eq!(dec.decode(encoding, &sequence[cut..]), sequence.to_vec());
                let mut enc = PaneInputEncoder::default();
                assert!(enc.encode(encoding, &sequence[..cut]).is_empty());
                assert_eq!(enc.encode(encoding, &sequence[cut..]), sequence.to_vec());
            }
        }
    }
}

#[test]
fn unterminated_sequence_is_held_until_it_ends() {
    let mut dec = PaneOutputDecoder::default();
    assert!(dec.decode(PaneEncoding::Gbk, b"\x1b]0;a very long").is_empty());
    assert!(dec.decode(PaneEncoding::Gbk, b" title that goes on").is_empty());
    assert!(dec.decode(PaneEncoding::Gbk, &[0xc4]).is_empty());
    assert_eq!(
        dec.decode(PaneEncoding::Gbk, b"\x07ok"),
        b"\x1b]0;a very long title that goes on\xc4\x07ok".to_vec()
    );
}

#[test]
fn character_split_around_a_sequence_is_still_completed() {
    // first byte of "你", a whole control sequence, then the second byte
    let mut dec = PaneOutputDecoder::default();
    assert!(dec.decode(PaneEncoding::Gbk, &[0xc4]).is_empty());
    assert_eq!(dec.decode(PaneEncoding::Gbk, b"\x1b[0m"), b"\x1b[0m".to_vec());
    assert_eq!(dec.decode(PaneEncoding::Gbk, &[0xe3]), "你".as_bytes().to_vec());
}

#[test]
fn esc_inside_osc_that_is_not_a_terminator_stays_in_the_body() {
    let mut dec = PaneOutputDecoder::default();
    let data = b"\x1b]0;a\x1bb\x07";
    assert_eq!(dec.decode(PaneEncoding::Gbk, data), data.to_vec());
}

#[test]
fn single_byte_csi_begins_a_sequence_in_plain_text() {
    // 0x9b and everything up to the final byte is control sequence, not text
    let mut dec = PaneOutputDecoder::default();
    let data: &[u8] = &[b'a', 0x9b, 0xc4, 0xe3, b'm', b'b'];
    assert_eq!(dec.decode(PaneEncoding::Gbk, data), data.to_vec());
}

#[test]
fn escape_ends_on_a_byte_from_at_sign_to_tilde_only() {
    // '7' is below the range: the escape is still open after it
    let mut dec = PaneOutputDecoder::default();
    assert!(dec.decode(PaneEncoding::Gbk, b"\x1b7").is_empty());
    assert_eq!(dec.decode(PaneEncoding::Gbk, b"c"), b"\x1b7c".to_vec());
}

#[test]
fn two_sequences_back_to_back() {
    let mut enc = PaneInputEncoder::default();
    let data = b"\x1b[1m\x1b[31mred\x1b[0m";
    assert_eq!(enc.encode(PaneEncoding::Big5, data), data.to_vec());
}

#[test]
fn switch_of_encoding_drops_an_unfinished_sequence() {
    let mut dec = PaneOutputDecoder::default();
    assert!(dec.decode(PaneEncoding::Gbk, b"\x1b[1").is_empty());
    // under the new encoding the filter starts in plain text
    assert_eq!(dec.decode(PaneEncoding::Gb18030, b"m"), b"m".to_vec());
}

#[test]
fn switch_between_legacy_encodings_drops_an_unfinished_character() {
    let mut dec = PaneOutputDecoder::default();
    assert!(dec.decode(PaneEncoding::Gbk, &[0xc4]).is_empty());
    // "한" in EUC-KR; the stale 0xc4 is not put before it
    assert_eq!(dec.decode(PaneEncoding::EucKr, &[0xc7, 0xd1]), "한".as_bytes().to_vec());

    let mut enc = PaneInputEncoder::default();
    assert!(enc.encode(PaneEncoding::Gbk, &[0xe4, 0xbd]).is_empty());
    assert_eq!(enc.encode(PaneEncoding::Utf8, &[0xa0]), vec![0xa0]);
    assert_eq!(enc.encode(PaneEncoding::Gbk, "你".as_bytes()), vec![0xc4, 0xe3]);
}

#[test]
fn same_encoding_again_keeps_what_was_held() {
    let mut dec = PaneOutputDecoder::default();
    assert!(dec.decode(PaneEncoding::Gbk, &[0xc4]).is_empty());
    assert!(dec.decode(PaneEncoding::Gbk, &[]).is_empty());
    assert_eq!(dec.decode(PaneEncoding::Gbk, &[0xe3]), "你".as_bytes().to_vec());
}

#[test]
fn introducer_byte_inside_a_character_begins_a_sequence() {
    // U+4EDB is E4 BB 9B in UTF-8. Its last byte is the single-byte CSI
    // introducer: the two bytes before it are cut off as an unfinished
    // scalar, and a sequence runs up to the final byte 'm'.
    let mut enc = PaneInputEncoder::default();
    let mut data = "\u{4edb}".as_bytes().to_vec();
    data.extend_from_slice(b"ma");
    assert_eq!(enc.encode(PaneEncoding::Gbk, &data), vec![0x9b, b'm', b'?', b'a']);

    // The same on the way in: 81 9B is one GBK character when taken whole.
    let whole = decode_bytes_to_string(PaneEncoding::Gbk, &[0x81, 0x9b]).unwrap();
    assert_eq!(whole.chars().count(), 1);
    assert!(!whole.contains('\u{fffd}'));
    let mut dec = PaneOutputDecoder::default();
    assert_eq!(dec.decode(PaneEncoding::Gbk, &[0x81, 0x9b, b'm']), vec![0x9b, b'm']);
}
