//! The outside text codecs, and what this crate takes on trust about them.
//!
//! Nothing in this file is proved. Each function below makes one call into
//! `encoding_rs` or into the standard library, and its contract records what
//! that call is documented to do. Where the result is a matter of conversion
//! tables, the contract gives it a name instead of a definition: the name
//! says only that equal arguments give equal results.

use crate::encoding::PaneEncoding;
use vstd::prelude::*;
use vstd::utf8::{decode_utf8, encode_utf8, valid_utf8};

verus! {

/// The longest input the decoders are handed in one call. They size their
/// output buffer as a small multiple of the input length and give up if
/// that product does not fit in a `usize`.
pub const MAX_CODEC_INPUT: usize = usize::MAX / 16;

/// The bytes `Encoding::encode` produces for the one scalar `c` in
/// `encoding`, or `None` where it reports that the encoding lacks `c`.
pub uninterp spec fn scalar_encoding(encoding: PaneEncoding, c: char) -> Option<Seq<u8>>;

/// The text `Encoding::decode_without_bom_handling_and_without_replacement`
/// produces for `bytes`, or `None` where it finds a malformed or unfinished
/// sequence.
pub uninterp spec fn strict_decoding(encoding: PaneEncoding, bytes: Seq<u8>) -> Option<
    Seq<char>,
>;

/// The text `Encoding::decode_without_bom_handling` produces for `bytes`:
/// every malformed sequence becomes U+FFFD, and a byte order mark is bytes
/// like any other.
pub uninterp spec fn lossy_decoding(encoding: PaneEncoding, bytes: Seq<u8>) -> Seq<char>;

/// The text `String::from_utf8_lossy` produces for `bytes`.
pub uninterp spec fn utf8_lossy_text(bytes: Seq<u8>) -> Seq<char>;

/// Why a byte string is not UTF-8, as `str::from_utf8` reports it.
#[derive(Debug, Copy, Clone, PartialEq, Eq, Structural)]
pub struct Utf8Defect {
    /// The length of the longest prefix that is valid UTF-8.
    pub valid_up_to: usize,
    /// The length of the invalid sequence that follows the valid prefix, or
    /// `None` where the input ends inside a sequence that may yet be
    /// completed.
    pub error_len: Option<usize>,
}

/// The length of the longest prefix of `bytes`, no longer than `limit`, that
/// is valid UTF-8.
pub open spec fn longest_valid(bytes: Seq<u8>, limit: nat) -> nat
    decreases limit,
{
    if limit == 0 {
        0
    } else if limit <= bytes.len() && valid_utf8(bytes.subrange(0, limit as int)) {
        limit
    } else {
        longest_valid(bytes, (limit - 1) as nat)
    }
}

/// The length of the longest prefix of `bytes` that is valid UTF-8.
pub open spec fn valid_prefix_len(bytes: Seq<u8>) -> nat {
    longest_valid(bytes, bytes.len())
}

/// True when `tail` is the beginning, and not the whole, of the UTF-8
/// encoding of some scalar value.
pub open spec fn unfinished_scalar(tail: Seq<u8>) -> bool {
    exists|c: char| is_cut_short(tail, c)
}

/// True when `tail` is a proper, non-empty prefix of the encoding of `c`.
pub open spec fn is_cut_short(tail: Seq<u8>, c: char) -> bool {
    let whole = encode_utf8(seq![c]);
    0 < tail.len() < whole.len() && whole.subrange(0, tail.len() as int) == tail
}

/// The length of the invalid sequence at the head of `tail`: as many bytes,
/// up to three, as still begin some scalar, and one byte where not even the
/// first does.
pub open spec fn invalid_len(tail: Seq<u8>) -> nat {
    if tail.len() >= 3 && unfinished_scalar(tail.take(3)) {
        3
    } else if tail.len() >= 2 && unfinished_scalar(tail.take(2)) {
        2
    } else {
        1
    }
}

/// What `Utf8Error::error_len` reports of invalid `bytes`: `None` where
/// what follows the valid prefix is an unfinished scalar, so that more
/// input may yet complete it, and otherwise the length of the invalid
/// sequence there.
pub open spec fn error_len_of(bytes: Seq<u8>) -> Option<usize> {
    let tail = bytes.skip(valid_prefix_len(bytes) as int);
    if unfinished_scalar(tail) {
        None
    } else {
        Some(invalid_len(tail) as usize)
    }
}

/// What `str::from_utf8` reports of a rejection of `bytes`.
pub open spec fn describes(defect: Utf8Defect, bytes: Seq<u8>) -> bool {
    &&& defect.valid_up_to == valid_prefix_len(bytes)
    &&& defect.error_len == error_len_of(bytes)
}

/// `str::from_utf8`, with the two readings of its error. It accepts exactly
/// the valid UTF-8 byte strings and hands back the same bytes as text. A
/// rejection names the longest valid prefix. Its `error_len` is `None`
/// where the input stops inside a scalar and in no other case; otherwise it
/// counts the bytes behind the valid prefix that still begin a scalar, the
/// maximal subpart that one replacement stands for, and is one where the
/// first byte begins none.
#[verifier::external_body]
pub(crate) fn check_utf8(bytes: &[u8]) -> (r: Result<&str, Utf8Defect>)
    ensures
        r is Ok <==> valid_utf8(bytes@),
        r matches Ok(text) ==> text@ == decode_utf8(bytes@),
        r matches Err(defect) ==> describes(defect, bytes@),
{
    match core::str::from_utf8(bytes) {
        Ok(text) => Ok(text),
        Err(e) => Err(Utf8Defect { valid_up_to: e.valid_up_to(), error_len: e.error_len() }),
    }
}

/// `String::from_utf8_lossy`: the result depends on the bytes alone.
#[verifier::external_body]
pub(crate) fn utf8_lossy(bytes: &[u8]) -> (text: String)
    ensures
        text@ == utf8_lossy_text(bytes@),
{
    String::from_utf8_lossy(bytes).into_owned()
}

/// `encoding_rs::Encoding::encode` on the codec that `encoding` names, for a
/// text of one scalar: the bytes depend on the encoding and the scalar
/// alone, and there are none where the call reports an unmappable
/// character. An ASCII scalar is its own encoding in every codec here.
#[verifier::external_body]
pub(crate) fn codec_encode_scalar(encoding: PaneEncoding, scalar: &str) -> (r: Option<Vec<u8>>)
    requires
        scalar@.len() == 1,
    ensures
        r is Some <==> scalar_encoding(encoding, scalar@[0]) is Some,
        r matches Some(b) ==> Some(b@) == scalar_encoding(encoding, scalar@[0]),
        (scalar@[0] as u32) < 0x80 ==> r is Some && r->0@ == seq![scalar@[0] as u8],
{
    let codec = match encoding {
        PaneEncoding::Utf8 => encoding_rs::UTF_8,
        PaneEncoding::Gbk => encoding_rs::GBK,
        PaneEncoding::Gb18030 => encoding_rs::GB18030,
        PaneEncoding::Big5 => encoding_rs::BIG5,
        PaneEncoding::EucKr => encoding_rs::EUC_KR,
        PaneEncoding::ShiftJis => encoding_rs::SHIFT_JIS,
    };
    let (bytes, _, unmappable) = codec.encode(scalar);
    if unmappable {
        None
    } else {
        Some(bytes.into_owned())
    }
}

/// `encoding_rs::Encoding::decode_without_bom_handling_and_without_replacement`
/// on the codec that `encoding` names: the result depends on the encoding
/// and the bytes alone, and is `None` where the codec meets a malformed
/// sequence.
#[verifier::external_body]
pub(crate) fn codec_decode_strict(encoding: PaneEncoding, bytes: &[u8]) -> (text: Option<String>)
    requires
        bytes.len() <= MAX_CODEC_INPUT,
    ensures
        text is Some <==> strict_decoding(encoding, bytes@) is Some,
        text matches Some(t) ==> Some(t@) == strict_decoding(encoding, bytes@),
{
    let codec = match encoding {
        PaneEncoding::Utf8 => encoding_rs::UTF_8,
        PaneEncoding::Gbk => encoding_rs::GBK,
        PaneEncoding::Gb18030 => encoding_rs::GB18030,
        PaneEncoding::Big5 => encoding_rs::BIG5,
        PaneEncoding::EucKr => encoding_rs::EUC_KR,
        PaneEncoding::ShiftJis => encoding_rs::SHIFT_JIS,
    };
    match codec.decode_without_bom_handling_and_without_replacement(bytes) {
        Some(text) => Some(text.into_owned()),
        None => None,
    }
}

/// `encoding_rs::Encoding::decode_without_bom_handling` on the codec that
/// `encoding` names: the result depends on the encoding and the bytes alone.
#[verifier::external_body]
pub(crate) fn codec_decode(encoding: PaneEncoding, bytes: &[u8]) -> (text: String)
    requires
        bytes.len() <= MAX_CODEC_INPUT,
    ensures
        text@ == lossy_decoding(encoding, bytes@),
{
    let codec = match encoding {
        PaneEncoding::Utf8 => encoding_rs::UTF_8,
        PaneEncoding::Gbk => encoding_rs::GBK,
        PaneEncoding::Gb18030 => encoding_rs::GB18030,
        PaneEncoding::Big5 => encoding_rs::BIG5,
        PaneEncoding::EucKr => encoding_rs::EUC_KR,
        PaneEncoding::ShiftJis => encoding_rs::SHIFT_JIS,
    };
    codec.decode_without_bom_handling(bytes).0.into_owned()
}

} // verus!
