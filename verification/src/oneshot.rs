//! One-shot decoding of a buffer that is already complete, such as a path.

use crate::codec::{
    check_utf8, codec_decode, lossy_decoding, utf8_lossy, utf8_lossy_text, MAX_CODEC_INPUT,
};
use crate::encoding::PaneEncoding;
use vstd::prelude::*;
use vstd::utf8::{decode_utf8, valid_utf8};

verus! {

/// The text that a complete buffer stands for.
///
/// Valid UTF-8 is taken as it is, whatever the encoding. Anything else is
/// decoded in the encoding, or as UTF-8 where there is no legacy encoding,
/// with a replacement character for each sequence that does not decode.
pub open spec fn decoded_once(encoding: PaneEncoding, raw: Seq<u8>) -> Seq<char> {
    if valid_utf8(raw) {
        decode_utf8(raw)
    } else if encoding.legacy() {
        lossy_decoding(encoding, raw)
    } else {
        utf8_lossy_text(raw)
    }
}

/// Decodes a complete buffer into a string. There is always a result.
pub fn decode_bytes_to_string(encoding: PaneEncoding, raw: &[u8]) -> (text: Option<String>)
    requires
        encoding.legacy() && !valid_utf8(raw@) ==> raw.len() <= MAX_CODEC_INPUT,
    ensures
        text is Some,
        text->0@ == decoded_once(encoding, raw@),
{
    if let Ok(text) = check_utf8(raw) {
        return Some(text.to_owned());
    }
    if encoding.is_legacy() {
        Some(codec_decode(encoding, raw))
    } else {
        Some(utf8_lossy(raw))
    }
}

} // verus!
