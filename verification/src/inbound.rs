//! Text runs on their way in: legacy bytes from the far end, turned into
//! UTF-8 for display.
//!
//! A legacy encoding does not mark where a character starts, so a chunk may
//! end inside one. The run is decoded up to the longest prefix that the
//! codec accepts without complaint; the few bytes behind it wait for the
//! next run.

use crate::bytes::{append, slice_between};
use crate::codec::{
    codec_decode, codec_decode_strict, lossy_decoding, strict_decoding, MAX_CODEC_INPUT,
};
use crate::encoding::{PaneEncoding, MAX_TRAILING_ENCODED_BYTES};
use crate::outbound::RunResult;
use vstd::prelude::*;
use vstd::utf8::encode_utf8;

verus! {

/// The shortest prefix of a run of `len` bytes that is tried: short enough
/// to leave one whole character behind it, and never empty.
pub open spec fn search_floor(len: nat) -> nat {
    if len > MAX_TRAILING_ENCODED_BYTES + 1 {
        (len - MAX_TRAILING_ENCODED_BYTES) as nat
    } else {
        1
    }
}

/// The length of the longest prefix of `bytes` that decodes cleanly, among
/// the lengths from `floor` to `top`.
pub open spec fn clean_split(encoding: PaneEncoding, bytes: Seq<u8>, floor: nat, top: nat) -> Option<
    nat,
>
    decreases top,
{
    if top == 0 || top < floor {
        None
    } else if top <= bytes.len() && strict_decoding(encoding, bytes.subrange(0, top as int))
        is Some {
        Some(top)
    } else {
        clean_split(encoding, bytes, floor, (top - 1) as nat)
    }
}

/// What an inbound text run comes to.
///
/// The longest cleanly decoding prefix within reach is emitted as UTF-8 and
/// the bytes behind it are carried. Where no prefix decodes, a run short
/// enough to be one unfinished character is carried whole, and a longer one
/// is decoded with replacement characters, so that nothing waits for ever.
pub open spec fn decode_run(encoding: PaneEncoding, bytes: Seq<u8>) -> RunResult {
    if !encoding.legacy() {
        RunResult { output: bytes, carry: Seq::empty() }
    } else {
        match clean_split(encoding, bytes, search_floor(bytes.len()), bytes.len()) {
            Some(split) => RunResult {
                output: encode_utf8(strict_decoding(encoding, bytes.subrange(0, split as int))->0),
                carry: bytes.skip(split as int),
            },
            None => if bytes.len() <= MAX_TRAILING_ENCODED_BYTES {
                RunResult { output: Seq::empty(), carry: bytes }
            } else {
                RunResult {
                    output: encode_utf8(lossy_decoding(encoding, bytes)),
                    carry: Seq::empty(),
                }
            },
        }
    }
}

/// A split that was found is within the bounds of the search and decodes
/// cleanly, and no longer prefix within the bounds does.
pub proof fn lemma_clean_split(encoding: PaneEncoding, bytes: Seq<u8>, floor: nat, top: nat)
    requires
        1 <= floor,
        top <= bytes.len(),
    ensures
        clean_split(encoding, bytes, floor, top) matches Some(split) ==> {
            &&& floor <= split <= top
            &&& strict_decoding(encoding, bytes.subrange(0, split as int)) is Some
            &&& forall|longer: int|
                split < longer <= top ==> strict_decoding(
                    encoding,
                    #[trigger] bytes.subrange(0, longer),
                ) is None
        },
        clean_split(encoding, bytes, floor, top) is None ==> forall|any: int|
            floor <= any <= top ==> strict_decoding(encoding, #[trigger] bytes.subrange(0, any))
                is None,
    decreases top,
{
    if top == 0 || top < floor {
    } else if strict_decoding(encoding, bytes.subrange(0, top as int)) is Some {
    } else {
        lemma_clean_split(encoding, bytes, floor, (top - 1) as nat);
    }
}

/// An inbound run never leaves more bytes behind than one character can
/// take, whatever the codec makes of them.
pub proof fn lemma_carry_bounded(encoding: PaneEncoding, bytes: Seq<u8>)
    ensures
        decode_run(encoding, bytes).carry.len() <= MAX_TRAILING_ENCODED_BYTES,
{
    lemma_clean_split(encoding, bytes, search_floor(bytes.len()), bytes.len());
}

/// Emits the text of a cleanly decoded prefix of `buf` and carries the bytes
/// from `split` on.
pub fn accept_prefix(
    text: &str,
    buf: &[u8],
    split: usize,
    pending: &mut Vec<u8>,
    output: &mut Vec<u8>,
)
    requires
        split <= buf.len(),
        old(pending)@.len() == 0,
    ensures
        final(output)@ == old(output)@ + encode_utf8(text@),
        final(pending)@ == buf@.skip(split as int),
{
    append(output, text.as_bytes());
    if split < buf.len() {
        append(pending, slice_between(buf, split, buf.len()));
    }
}

/// Decodes one text run. The bytes carried from the run before come first;
/// what this run leaves undecoded is carried in turn.
pub fn decode_text(
    encoding: PaneEncoding,
    pending: &mut Vec<u8>,
    input: &[u8],
    output: &mut Vec<u8>,
)
    requires
        old(pending).len() + input.len() <= MAX_CODEC_INPUT,
    ensures
        final(pending)@ == decode_run(encoding, old(pending)@ + input@).carry,
        final(output)@ == old(output)@ + decode_run(encoding, old(pending)@ + input@).output,
        final(pending).len() <= MAX_TRAILING_ENCODED_BYTES,
{
    let mut buf: Vec<u8> = Vec::new();
    append(&mut buf, pending.as_slice());
    append(&mut buf, input);
    pending.clear();
    if !encoding.is_legacy() {
        append(output, buf.as_slice());
        return ;
    }
    let len = buf.len();
    let min_prefix: usize = if len > MAX_TRAILING_ENCODED_BYTES + 1 {
        len - MAX_TRAILING_ENCODED_BYTES
    } else {
        1
    };
    let mut split: usize = len;
    while split >= min_prefix
        invariant
            encoding.legacy(),
            buf@ == old(pending)@ + input@,
            len == buf.len(),
            len <= MAX_CODEC_INPUT,
            split <= len,
            min_prefix == search_floor(len as nat),
            pending@.len() == 0,
            output@ == old(output)@,
            clean_split(encoding, buf@, min_prefix as nat, len as nat) == clean_split(
                encoding,
                buf@,
                min_prefix as nat,
                split as nat,
            ),
        decreases split,
    {
        let prefix = slice_between(buf.as_slice(), 0, split);
        if let Some(text) = codec_decode_strict(encoding, prefix) {
            accept_prefix(text.as_str(), buf.as_slice(), split, pending, output);
            return ;
        }
        split = split - 1;
    }
    if len <= MAX_TRAILING_ENCODED_BYTES {
        append(pending, buf.as_slice());
        return ;
    }
    let decoded = codec_decode(encoding, buf.as_slice());
    append(output, decoded.as_str().as_bytes());
}

} // verus!
