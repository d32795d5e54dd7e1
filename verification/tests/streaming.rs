use pane_encoding::{
    max_chunk_len, PaneEncoding, PaneInputEncoder, PaneOutputDecoder, MAX_TRAILING_ENCODED_BYTES,
};

const LEGACY: [PaneEncoding; 5] = [
    PaneEncoding::Gbk,
    PaneEncoding::Gb18030,
    PaneEncoding::Big5,
    PaneEncoding::EucKr,
    PaneEncoding::ShiftJis,
];

fn encode_all(encoding: PaneEncoding, chunks: &[&[u8]]) -> Vec<u8> {
    let mut enc = PaneInputEncoder::default();
    let mut out = Vec::new();
    for chunk in chunks {
        out.extend(enc.encode(encoding, chunk));
    }
    out
}

fn decode_all(encoding: PaneEncoding, chunks: &[&[u8]]) -> Vec<u8> {
    let mut dec = PaneOutputDecoder::default();
    let mut out = Vec::new();
    for chunk in chunks {
        out.extend(dec.decode(encoding, chunk));
    }
    out
}

#[test]
fn passthrough_keeps_any_bytes() {
    let data: Vec<u8> = (0u8..=255).collect();
    let mut enc = PaneInputEncoder::default();
    let mut dec = PaneOutputDecoder::default();
    assert_eq!(enc.encode(PaneEncoding::Utf8, &data), data);
    assert_eq!(dec.decode(PaneEncoding::Utf8, &data), data);
    // a lone ESC or half a character is not held back either
    assert_eq!(enc.encode(PaneEncoding::Utf8, &[0x1b]), vec![0x1b]);
    assert_eq!(dec.decode(PaneEncoding::Utf8, &[0xe4, 0xbd]), vec![0xe4, 0xbd]);
}

#[test]
fn empty_chunk_gives_empty_output() {
    for encoding in LEGACY {
        let mut enc = PaneInputEncoder::default();
        let mut dec = PaneOutputDecoder::default();
        assert!(enc.encode(encoding, &[]).is_empty());
        assert!(dec.decode(encoding, &[]).is_empty());
    }
    assert!(PaneInputEncoder::default().encode(PaneEncoding::Utf8, &[]).is_empty());
}

#[test]
fn gbk_scenario_both_ways() {
    assert_eq!(
        encode_all(PaneEncoding::Gbk, &["你好".as_bytes()]),
        vec![0xc4, 0xe3, 0xba, 0xc3]
    );
    assert_eq!(
        decode_all(PaneEncoding::Gbk, &[&[0xc4, 0xe3, 0xba, 0xc3]]),
        "你好".as_bytes().to_vec()
    );
}

#[test]
fn ascii_is_the_same_in_every_encoding() {
    for encoding in LEGACY {
        assert_eq!(encode_all(encoding, &[b"ls -la\r\n"]), b"ls -la\r\n".to_vec());
        assert_eq!(decode_all(encoding, &[b"ls -la\r\n"]), b"ls -la\r\n".to_vec());
    }
}

#[test]
fn round_trip_in_every_encoding_at_every_split() {
    let cases: [(PaneEncoding, &str); 5] = [
        (PaneEncoding::Gbk, "你好, world 世界"),
        (PaneEncoding::Gb18030, "你好世界 abc"),
        (PaneEncoding::Big5, "中文測試 ok"),
        (PaneEncoding::EucKr, "안녕하세요 hi"),
        (PaneEncoding::ShiftJis, "こんにちは日本"),
    ];
    for (encoding, text) in cases {
        let bytes = text.as_bytes();
        let whole = encode_all(encoding, &[bytes]);
        assert_ne!(whole, bytes.to_vec());
        for cut in 0..=bytes.len() {
            let sent = encode_all(encoding, &[&bytes[..cut], &bytes[cut..]]);
            assert_eq!(sent, whole, "{:?} sent in two at {}", encoding, cut);
        }
        for cut in 0..=whole.len() {
            let back = decode_all(encoding, &[&whole[..cut], &whole[cut..]]);
            assert_eq!(back, bytes.to_vec(), "{:?} received in two at {}", encoding, cut);
        }
    }
}

#[test]
fn round_trip_byte_by_byte() {
    let text = "αβγ 你好世界 plain";
    let bytes = text.as_bytes();
    let singles: Vec<&[u8]> = bytes.chunks(1).collect();
    let sent = encode_all(PaneEncoding::Gb18030, &singles);
    assert_eq!(sent, encode_all(PaneEncoding::Gb18030, &[bytes]));
    let wire: Vec<&[u8]> = sent.chunks(1).collect();
    assert_eq!(decode_all(PaneEncoding::Gb18030, &wire), bytes.to_vec());
}

#[test]
fn gb18030_four_byte_character_split_at_every_byte() {
    // U+00DE is four bytes in GB18030: 81 30 89 37
    let wire: [u8; 4] = [0x81, 0x30, 0x89, 0x37];
    assert_eq!(encode_all(PaneEncoding::Gb18030, &["Þ".as_bytes()]), wire.to_vec());
    let mut dec = PaneOutputDecoder::default();
    assert!(dec.decode(PaneEncoding::Gb18030, &wire[..1]).is_empty());
    assert!(dec.decode(PaneEncoding::Gb18030, &wire[1..2]).is_empty());
    assert!(dec.decode(PaneEncoding::Gb18030, &wire[2..3]).is_empty());
    assert_eq!(dec.decode(PaneEncoding::Gb18030, &wire[3..]), "Þ".as_bytes().to_vec());
}

#[test]
fn split_scalar_on_encode() {
    // "你" is E4 BD A0 in UTF-8 and C4 E3 in GBK
    let mut enc = PaneInputEncoder::default();
    assert!(enc.encode(PaneEncoding::Gbk, &[0xe4]).is_empty());
    assert!(enc.encode(PaneEncoding::Gbk, &[0xbd]).is_empty());
    assert_eq!(enc.encode(PaneEncoding::Gbk, &[0xa0]), vec![0xc4, 0xe3]);
    // nothing is left over
    assert_eq!(enc.encode(PaneEncoding::Gbk, b"a"), b"a".to_vec());
}

#[test]
fn split_four_byte_scalar_on_encode() {
    // U+20000 is F0 A0 80 80 in UTF-8 and 95 32 82 36 in GB18030
    let utf8 = "\u{20000}".as_bytes();
    for cut in 1..utf8.len() {
        let mut enc = PaneInputEncoder::default();
        assert!(enc.encode(PaneEncoding::Gb18030, &utf8[..cut]).is_empty());
        assert_eq!(
            enc.encode(PaneEncoding::Gb18030, &utf8[cut..]),
            vec![0x95, 0x32, 0x82, 0x36]
        );
    }
}

#[test]
fn text_before_an_unfinished_scalar_is_sent_at_once() {
    let mut enc = PaneInputEncoder::default();
    assert_eq!(enc.encode(PaneEncoding::Gbk, &[b'a', 0xe4, 0xbd]), b"a".to_vec());
    assert_eq!(enc.encode(PaneEncoding::Gbk, &[0xa0, b'b']), vec![0xc4, 0xe3, b'b']);
}

#[test]
fn invalid_utf8_becomes_one_question_mark() {
    // 0xff is never UTF-8
    assert_eq!(encode_all(PaneEncoding::Gbk, &[&[b'A', 0xff, b'B']]), b"A?B".to_vec());
    // each invalid byte is replaced on its own
    assert_eq!(encode_all(PaneEncoding::Gbk, &[&[0xff, 0xfe]]), b"??".to_vec());
    // a lead byte followed by text: the lead byte is replaced, the text stays
    assert_eq!(encode_all(PaneEncoding::Gbk, &[&[0xe4, b'A']]), b"?A".to_vec());
    // the same when the text arrives in the next chunk
    assert_eq!(encode_all(PaneEncoding::Gbk, &[&[0xe4], &[b'A']]), b"?A".to_vec());
    // valid text around the invalid byte is still encoded
    let mut data = "你".as_bytes().to_vec();
    data.push(0x80);
    data.extend_from_slice("好".as_bytes());
    assert_eq!(
        encode_all(PaneEncoding::Gbk, &[&data]),
        vec![0xc4, 0xe3, b'?', 0xba, 0xc3]
    );
}

#[test]
fn unencodable_scalar_becomes_one_question_mark() {
    // U+1F680 is not in GBK
    assert_eq!(encode_all(PaneEncoding::Gbk, &["🚀".as_bytes()]), vec![0x3f]);
    // and the text behind it is encoded as usual
    assert_eq!(encode_all(PaneEncoding::Gbk, &["🚀你".as_bytes()]), vec![0x3f, 0xc4, 0xe3]);
    assert_eq!(encode_all(PaneEncoding::Gbk, &["a🚀b".as_bytes()]), b"a?b".to_vec());
    // one question mark for each scalar
    assert_eq!(encode_all(PaneEncoding::Gbk, &["🚀🚀".as_bytes()]), b"??".to_vec());
    // in every encoding that lacks it
    assert_eq!(encode_all(PaneEncoding::Big5, &["🚀".as_bytes()]), vec![0x3f]);
    assert_eq!(encode_all(PaneEncoding::EucKr, &["🚀".as_bytes()]), vec![0x3f]);
    assert_eq!(encode_all(PaneEncoding::ShiftJis, &["🚀".as_bytes()]), vec![0x3f]);
    // GB18030 covers all of Unicode
    assert_eq!(
        encode_all(PaneEncoding::Gb18030, &["🚀".as_bytes()]),
        vec![0x95, 0x30, 0x8b, 0x34]
    );
}

#[test]
fn unencodable_scalar_split_across_calls() {
    let utf8 = "🚀".as_bytes();
    for cut in 1..utf8.len() {
        let mut enc = PaneInputEncoder::default();
        assert!(enc.encode(PaneEncoding::Gbk, &utf8[..cut]).is_empty());
        assert_eq!(enc.encode(PaneEncoding::Gbk, &utf8[cut..]), vec![0x3f]);
    }
}

#[test]
fn a_real_question_mark_stays() {
    assert_eq!(encode_all(PaneEncoding::Gbk, &[b"what?"]), b"what?".to_vec());
    assert_eq!(decode_all(PaneEncoding::Gbk, &[b"what?"]), b"what?".to_vec());
}

#[test]
fn an_ampersand_reference_in_the_text_is_text() {
    assert_eq!(encode_all(PaneEncoding::Gbk, &[b"&#128640;"]), b"&#128640;".to_vec());
}

#[test]
fn undecodable_bytes_wait_then_fall_back() {
    let mut dec = PaneOutputDecoder::default();
    // up to four bytes that do not decode are kept: they may be a character yet
    assert!(dec.decode(PaneEncoding::Gbk, &[0xff, 0xff]).is_empty());
    assert!(dec.decode(PaneEncoding::Gbk, &[0xff, 0xff]).is_empty());
    // with a fifth byte nothing decodes cleanly and all of it is decoded lossily
    assert_eq!(
        dec.decode(PaneEncoding::Gbk, b"B"),
        "\u{fffd}\u{fffd}\u{fffd}\u{fffd}B".as_bytes().to_vec()
    );
    // and nothing is left behind
    assert_eq!(dec.decode(PaneEncoding::Gbk, b"C"), b"C".to_vec());
}

#[test]
fn clean_prefix_is_searched_over_the_last_bytes_only() {
    // five bytes: prefixes of 5 down to 1 are tried, and "A" decodes
    let mut dec = PaneOutputDecoder::default();
    assert_eq!(dec.decode(PaneEncoding::Gbk, &[b'A', 0xff, 0xff, 0xff, 0xff]), b"A".to_vec());
    // six bytes: prefixes of 6 down to 2 are tried, none decodes, all is decoded lossily
    let mut dec = PaneOutputDecoder::default();
    assert_eq!(
        dec.decode(PaneEncoding::Gbk, &[b'A', 0xff, 0xff, 0xff, 0xff, 0xff]),
        "A\u{fffd}\u{fffd}\u{fffd}\u{fffd}\u{fffd}".as_bytes().to_vec()
    );
    assert_eq!(MAX_TRAILING_ENCODED_BYTES, 4);
}

#[test]
fn longest_clean_prefix_wins() {
    // "你好" and the first byte of a third character
    let mut dec = PaneOutputDecoder::default();
    assert_eq!(
        dec.decode(PaneEncoding::Gbk, &[0xc4, 0xe3, 0xba, 0xc3, 0xca]),
        "你好".as_bytes().to_vec()
    );
    assert_eq!(dec.decode(PaneEncoding::Gbk, &[0xc0]), "世".as_bytes().to_vec());
}

#[test]
fn chunk_limit_is_a_sixteenth_of_the_address_space() {
    assert_eq!(max_chunk_len(), usize::MAX / 16 - 4);
}

#[test]
fn encoder_chunks_of_any_bytes_at_every_split() {
    // bytes of every kind: text, invalid sequences, control sequences
    let mut samples: Vec<Vec<u8>> = vec![
        b"plain".to_vec(),
        vec![0xe4, 0xbd, 0xa0, 0xff, 0xe5, 0xa5, 0xbd],
        vec![b'a', 0xf0, 0x9f, 0x9a, b'b', 0xc3],
        vec![0xe4, 0xbd, 0x1b, b'[', b'1', b'm', 0xa0, 0xe5],
        vec![0x1b, b']', b'0', b';', 0xe4, 0x07, 0xf0, 0x9f, 0x9a, 0x80, 0x9b, b'3', b'1'],
        vec![0xc0, 0x80, 0xed, 0xa0, 0x80, 0xf4, 0x90, 0x80, 0x80],
    ];
    let mut seed: u32 = 12345;
    for _ in 0..200 {
        let mut bytes = Vec::new();
        for _ in 0..12 {
            seed = seed.wrapping_mul(1664525).wrapping_add(1013904223);
            let pick = (seed >> 24) as u8;
            // lean towards the bytes that matter
            bytes.push(match pick % 8 {
                0 => 0x1b,
                1 => 0xe4,
                2 => 0xbd,
                3 => 0xf0,
                4 => b'm',
                _ => pick,
            });
        }
        samples.push(bytes);
    }
    for encoding in LEGACY {
        for bytes in &samples {
            let mut whole = PaneInputEncoder::default();
            let mut all = whole.encode(encoding, bytes);
            all.extend(whole.encode(encoding, &[]));
            for cut in 0..=bytes.len() {
                let mut enc = PaneInputEncoder::default();
                let mut out = enc.encode(encoding, &bytes[..cut]);
                out.extend(enc.encode(encoding, &bytes[cut..]));
                assert_eq!(out, all, "{:?} {:x?} cut at {}", encoding, bytes, cut);
                // and the two encoders go on alike
                assert_eq!(
                    enc.encode(encoding, b"\x1b[0m!"),
                    whole_after(encoding, bytes),
                    "{:?} {:x?} cut at {}",
                    encoding,
                    bytes,
                    cut
                );
            }
        }
    }
}

fn whole_after(encoding: PaneEncoding, bytes: &[u8]) -> Vec<u8> {
    let mut enc = PaneInputEncoder::default();
    enc.encode(encoding, bytes);
    enc.encode(encoding, b"\x1b[0m!")
}
