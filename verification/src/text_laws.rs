//! What holds of text: a character cut in two by a chunk boundary is put
//! together again, text the codec can represent comes back as it was sent,
//! and an invalid sequence costs one replacement byte.
//!
//! The codecs appear here through the names given to their results, so each
//! statement holds for every codec.

use crate::codec::{
    error_len_of, is_cut_short, longest_valid, scalar_encoding, strict_decoding,
    unfinished_scalar, valid_prefix_len,
};
use crate::encoding::{PaneEncoding, MAX_TRAILING_ENCODED_BYTES};
use crate::escape::{is_control_sequence, is_introducer, EscapeState};
use crate::filter::{adopt, begin, scan_bytes, text_run, transcoded, Direction, Scan, Stream};
use crate::laws::{lemma_control_sequence_opaque, lemma_empty_chunk};
use crate::inbound::{clean_split, decode_run, search_floor};
use crate::outbound::{
    encode_run, encoded_head, encoded_scalar, encoded_text, legacy_text, lemma_invalid_len_fits,
    REPLACEMENT_BYTE,
};
use vstd::prelude::*;
use vstd::utf8::{
    encode_utf8, encode_utf8_decode_utf8, encode_utf8_first_scalar, encode_utf8_valid_utf8,
    is_ascii_chars, is_ascii_chars_encode_utf8, pop_first_scalar, valid_utf8,
};

verus! {

/// True when no byte of `bytes` leaves plain text.
pub open spec fn plain(bytes: Seq<u8>) -> bool {
    forall|i: int| 0 <= i < bytes.len() ==> !is_introducer(#[trigger] bytes[i])
}

/// True when a filter, taken up under `encoding`, stands in plain text and
/// carries nothing.
pub open spec fn at_rest(stream: Stream, encoding: PaneEncoding) -> bool {
    &&& adopt(stream, encoding).state == EscapeState::Ground
    &&& adopt(stream, encoding).escape.len() == 0
    &&& adopt(stream, encoding).pending.len() == 0
}

/// True when `text` survives the codec: encoded and strictly decoded again
/// it is itself, and only an empty text has an empty encoding.
pub open spec fn representable(encoding: PaneEncoding, text: Seq<char>) -> bool {
    &&& strict_decoding(encoding, encoded_text(encoding, text)) == Some(text)
    &&& encoded_text(encoding, text).len() == 0 ==> text.len() == 0
}

/// Bytes that hold no introducer all join the text run.
pub proof fn lemma_plain_text_scanned(
    direction: Direction,
    encoding: PaneEncoding,
    start: Scan,
    data: Seq<u8>,
)
    requires
        start.state == EscapeState::Ground,
        plain(data),
    ensures
        scan_bytes(direction, encoding, start, data) == (Scan {
            run: start.run + data,
            ..start
        }),
    decreases data.len(),
{
    if data.len() > 0 {
        let front = data.drop_last();
        assert(plain(front));
        lemma_plain_text_scanned(direction, encoding, start, front);
        assert((start.run + front).push(data.last()) =~= start.run + data);
    }
}

/// A call on plain text, made at rest, converts the chunk as one text run.
pub proof fn lemma_plain_chunk(
    direction: Direction,
    encoding: PaneEncoding,
    pre: Stream,
    data: Seq<u8>,
)
    requires
        encoding.legacy(),
        adopt(pre, encoding).state == EscapeState::Ground,
        plain(data),
        data.len() > 0,
    ensures
        ({
            let run = text_run(
                direction,
                encoding,
                adopt(pre, encoding).pending + data,
            );
            let done = transcoded(direction, pre, encoding, data);
            &&& done.output == run.output
            &&& done.stream == Stream { pending: run.carry, ..adopt(pre, encoding) }
        }),
{
    let start = begin(adopt(pre, encoding));
    lemma_plain_text_scanned(direction, encoding, start, data);
}

/// The two bytes of a two-byte character, fed to a decoder at rest in two
/// calls: the first call emits nothing and keeps the byte, the second emits
/// the character and keeps nothing. A two-byte character is a pair of bytes
/// that decodes cleanly and whose first byte alone does not. The law leaves
/// out the characters that hold an introducer, which the recognizer takes
/// for the start of a control sequence.
pub proof fn lemma_split_character_decodes(
    pre: Stream,
    encoding: PaneEncoding,
    lead: u8,
    trail: u8,
)
    requires
        encoding.legacy(),
        at_rest(pre, encoding),
        !is_introducer(lead),
        !is_introducer(trail),
        strict_decoding(encoding, seq![lead]) is None,
        strict_decoding(encoding, seq![lead, trail]) is Some,
    ensures
        ({
            let one = transcoded(Direction::Inbound, pre, encoding, seq![lead]);
            let two = transcoded(Direction::Inbound, one.stream, encoding, seq![trail]);
            &&& one.output == Seq::<u8>::empty()
            &&& one.stream.pending == seq![lead]
            &&& two.output == encode_utf8(strict_decoding(encoding, seq![lead, trail])->0)
            &&& at_rest(two.stream, encoding)
        }),
{
    let first = seq![lead];
    let both = seq![lead, trail];
    lemma_plain_chunk(Direction::Inbound, encoding, pre, first);
    assert(first.subrange(0, 1) =~= first);
    assert(clean_split(encoding, first, 1, 1) is None) by {
        assert(clean_split(encoding, first, 1, 0) is None);
    }
    let one = transcoded(Direction::Inbound, pre, encoding, first);
    lemma_plain_chunk(Direction::Inbound, encoding, one.stream, seq![trail]);
    assert(first + seq![trail] =~= both);
    assert(both.subrange(0, 2) =~= both);
}

/// No proper prefix of the encoding of one scalar is valid UTF-8.
proof fn lemma_cut_scalar_invalid(c: char, len: int)
    requires
        0 < len < encode_utf8(seq![c]).len(),
    ensures
        !valid_utf8(encode_utf8(seq![c]).take(len)),
{
    encode_utf8_first_scalar(seq![c]);
    assert(seq![c].drop_first() =~= Seq::<char>::empty());
    assert(encode_utf8(Seq::<char>::empty()) =~= Seq::<u8>::empty());
}

/// The encoding of two texts in a row is the two encodings in a row.
pub proof fn lemma_encode_concat(first: Seq<char>, second: Seq<char>)
    ensures
        encode_utf8(first + second) == encode_utf8(first) + encode_utf8(second),
    decreases first.len(),
{
    if first.len() == 0 {
        assert(first + second =~= second);
        assert(encode_utf8(first) + encode_utf8(second) =~= encode_utf8(second));
    } else {
        assert((first + second).drop_first() =~= first.drop_first() + second);
        lemma_encode_concat(first.drop_first(), second);
        assert(encode_utf8(first + second) =~= encode_utf8(first) + encode_utf8(second));
    }
}

/// What follows valid UTF-8 in valid UTF-8 is valid UTF-8.
pub proof fn lemma_valid_suffix(first: Seq<u8>, second: Seq<u8>)
    requires
        valid_utf8(first),
        valid_utf8(first + second),
    ensures
        valid_utf8(second),
    decreases first.len(),
{
    if first.len() == 0 {
        assert(first + second =~= second);
    } else {
        assert(pop_first_scalar(first + second) =~= pop_first_scalar(first) + second);
        lemma_valid_suffix(pop_first_scalar(first), second);
    }
}

/// A valid prefix with no valid prefix beyond it is the longest.
pub proof fn lemma_longest_valid_is(bytes: Seq<u8>, valid: nat, limit: nat)
    requires
        valid <= limit <= bytes.len(),
        valid_utf8(bytes.subrange(0, valid as int)),
        forall|longer: int|
            valid < longer <= limit ==> !valid_utf8(#[trigger] bytes.subrange(0, longer)),
    ensures
        longest_valid(bytes, limit) == valid,
    decreases limit,
{
    if limit > valid {
        lemma_longest_valid_is(bytes, valid, (limit - 1) as nat);
    }
}

/// A text cut inside its character number `whole`, `extra` bytes into it:
/// what comes before the cut is valid up to the end of the character
/// before, and ends in an unfinished scalar.
proof fn lemma_cut_text(text: Seq<char>, whole: int, extra: int)
    requires
        0 <= whole < text.len(),
        0 < extra < encode_utf8(seq![text[whole]]).len(),
    ensures
        ({
            let bytes = encode_utf8(text);
            let done = encode_utf8(text.take(whole)).len();
            let head = bytes.take(done + extra);
            &&& done + extra < bytes.len()
            &&& !valid_utf8(head)
            &&& valid_prefix_len(head) == done
            &&& unfinished_scalar(head.skip(done as int))
            &&& head.subrange(0, done as int) == encode_utf8(text.take(whole))
            &&& bytes.skip(done as int) == encode_utf8(text.skip(whole))
        }),
{
    let bytes = encode_utf8(text);
    let before = encode_utf8(text.take(whole));
    let scalar = encode_utf8(seq![text[whole]]);
    let after = encode_utf8(text.skip(whole + 1));
    let done = before.len();
    let head = bytes.take(done + extra);
    assert(text =~= text.take(whole) + text.skip(whole));
    assert(text.skip(whole) =~= seq![text[whole]] + text.skip(whole + 1));
    lemma_encode_concat(text.take(whole), text.skip(whole));
    lemma_encode_concat(seq![text[whole]], text.skip(whole + 1));
    assert(bytes =~= before + scalar + after);
    assert(bytes.skip(done as int) =~= scalar + after);
    assert(head.subrange(0, done as int) =~= before);
    encode_utf8_valid_utf8(text.take(whole));
    assert forall|longer: int| done < longer <= head.len() implies !valid_utf8(
        #[trigger] head.subrange(0, longer),
    ) by {
        let part = scalar.take(longer - done);
        assert(head.subrange(0, longer) =~= before + part);
        lemma_cut_scalar_invalid(text[whole], longer - done);
        if valid_utf8(before + part) {
            lemma_valid_suffix(before, part);
        }
    }
    lemma_longest_valid_is(head, done, head.len());
    assert(head.subrange(0, head.len() as int) =~= head);
    assert(is_cut_short(head.skip(done as int), text[whole])) by {
        assert(head.skip(done as int) =~= scalar.take(extra));
    }
}

/// A run that is the encoding of a text is encoded whole.
proof fn lemma_whole_run(encoding: PaneEncoding, text: Seq<char>)
    requires
        encoding.legacy(),
    ensures
        encode_run(encoding, encode_utf8(text)).carry == Seq::<u8>::empty(),
        encode_run(encoding, encode_utf8(text)).output == encoded_text(encoding, text),
        text.len() > 0 <==> encode_utf8(text).len() > 0,
{
    encode_utf8_valid_utf8(text);
    encode_utf8_decode_utf8(text);
    if text.len() > 0 {
        encode_utf8_first_scalar(text);
    }
}

/// A run cut short inside a character: the characters before it are
/// encoded, and the bytes of the cut character are carried.
proof fn lemma_cut_run(encoding: PaneEncoding, text: Seq<char>, whole: int, extra: int)
    requires
        encoding.legacy(),
        0 <= whole < text.len(),
        0 < extra < encode_utf8(seq![text[whole]]).len(),
    ensures
        ({
            let bytes = encode_utf8(text);
            let done = encode_utf8(text.take(whole)).len();
            let run = encode_run(encoding, bytes.take(done + extra));
            &&& run.carry == bytes.subrange(done as int, done + extra)
            &&& run.output == encoded_text(encoding, text.take(whole))
        }),
{
    let bytes = encode_utf8(text);
    let done = encode_utf8(text.take(whole)).len();
    let head = bytes.take(done + extra);
    lemma_cut_text(text, whole, extra);
    lemma_whole_run(encoding, text.take(whole));
    encode_utf8_decode_utf8(text.take(whole));
    assert(error_len_of(head) is None);
    assert(head.skip(done as int) =~= bytes.subrange(done as int, done + extra));
}

/// A text cut in two anywhere, even inside a character, and fed to an
/// encoder at rest in two calls: the first call encodes the characters that
/// are whole before the cut and keeps the `extra` bytes of the one the cut
/// goes through, the second call encodes that character and the rest. No
/// character is lost or torn: the two calls emit what one call on the whole
/// text emits. The cut falls `extra` bytes into the
/// character number `whole`, or behind the last character. The law leaves
/// out the texts whose UTF-8 bytes hold an introducer.
pub proof fn lemma_cut_text_encodes(
    pre: Stream,
    encoding: PaneEncoding,
    text: Seq<char>,
    whole: int,
    extra: int,
)
    requires
        encoding.legacy(),
        at_rest(pre, encoding),
        plain(encode_utf8(text)),
        0 <= whole <= text.len(),
        0 <= extra,
        whole < text.len() ==> extra < encode_utf8(seq![text[whole]]).len(),
        whole == text.len() ==> extra == 0,
    ensures
        ({
            let bytes = encode_utf8(text);
            let done = encode_utf8(text.take(whole)).len();
            let cut = done + extra;
            let one = transcoded(Direction::Outbound, pre, encoding, bytes.take(cut));
            let two = transcoded(Direction::Outbound, one.stream, encoding, bytes.skip(cut));
            &&& cut <= bytes.len()
            &&& one.output == encoded_text(encoding, text.take(whole))
            &&& one.stream.pending == bytes.subrange(done as int, cut)
            &&& two.output == encoded_text(encoding, text.skip(whole))
            &&& one.output + two.output == encoded_text(encoding, text)
            &&& at_rest(two.stream, encoding)
        }),
{
    lemma_encoded_concat(encoding, text.take(whole), text.skip(whole));
    let bytes = encode_utf8(text);
    let done = encode_utf8(text.take(whole)).len();
    let cut = done + extra;
    assert(text =~= text.take(whole) + text.skip(whole));
    lemma_encode_concat(text.take(whole), text.skip(whole));
    assert(bytes.skip(done as int) =~= encode_utf8(text.skip(whole)));
    assert(bytes.take(done as int) =~= encode_utf8(text.take(whole)));
    lemma_whole_run(encoding, text.take(whole));
    lemma_whole_run(encoding, text.skip(whole));
    if extra > 0 {
        lemma_cut_text(text, whole, extra);
        lemma_cut_run(encoding, text, whole, extra);
    } else {
        assert(bytes.subrange(done as int, cut) =~= Seq::<u8>::empty());
    }
    let head = bytes.take(cut);
    let tail = bytes.skip(cut);
    let first = encode_run(encoding, head);
    assert(first.carry == bytes.subrange(done as int, cut));
    assert(first.output == encoded_text(encoding, text.take(whole)));
    lemma_first_call(pre, encoding, head);
    let one = transcoded(Direction::Outbound, pre, encoding, head);
    assert(first.carry + tail =~= bytes.skip(done as int));
    lemma_second_call(one.stream, encoding, tail);
}

/// A call on plain text, made by an encoder at rest, converts the chunk as
/// one text run, and all that is kept is what the run leaves.
pub proof fn lemma_first_call(pre: Stream, encoding: PaneEncoding, data: Seq<u8>)
    requires
        encoding.legacy(),
        at_rest(pre, encoding),
        plain(data),
    ensures
        ({
            let done = transcoded(Direction::Outbound, pre, encoding, data);
            let run = encode_run(encoding, data);
            &&& done.output == run.output
            &&& done.stream == Stream { pending: run.carry, ..adopt(pre, encoding) }
            &&& done.stream.encoding == Some(encoding)
        }),
{
    lemma_empty_chunk(Direction::Outbound, encoding, pre);
    if data.len() > 0 {
        lemma_plain_chunk(Direction::Outbound, encoding, pre, data);
        assert(adopt(pre, encoding).pending + data =~= data);
    } else {
        assert(data =~= Seq::<u8>::empty());
        assert(adopt(pre, encoding).pending =~= Seq::<u8>::empty());
    }
}

/// A call on plain text that completes a valid run leaves the encoder at
/// rest.
proof fn lemma_second_call(pre: Stream, encoding: PaneEncoding, data: Seq<u8>)
    requires
        encoding.legacy(),
        pre.encoding == Some(encoding),
        pre.state == EscapeState::Ground,
        pre.escape.len() == 0,
        plain(data),
        encode_run(encoding, pre.pending + data).carry.len() == 0,
        pre.pending.len() > 0 ==> data.len() > 0,
    ensures
        ({
            let done = transcoded(Direction::Outbound, pre, encoding, data);
            &&& done.output == encode_run(encoding, pre.pending + data).output
            &&& at_rest(done.stream, encoding)
        }),
{
    lemma_empty_chunk(Direction::Outbound, encoding, pre);
    if data.len() > 0 {
        lemma_plain_chunk(Direction::Outbound, encoding, pre, data);
    } else {
        assert(data =~= Seq::<u8>::empty());
        assert(pre.pending + data =~= Seq::<u8>::empty());
    }
}

/// The bytes of one scalar, fed to an encoder at rest in two calls: the
/// first call emits nothing and keeps its bytes, the second emits the
/// encoded character and keeps nothing. The law leaves out the scalars
/// whose UTF-8 bytes hold an introducer, which the recognizer takes for the
/// start of a control sequence.
pub proof fn lemma_split_scalar_encodes(pre: Stream, encoding: PaneEncoding, c: char, cut: int)
    requires
        encoding.legacy(),
        at_rest(pre, encoding),
        0 < cut < encode_utf8(seq![c]).len(),
        plain(encode_utf8(seq![c])),
    ensures
        ({
            let bytes = encode_utf8(seq![c]);
            let one = transcoded(Direction::Outbound, pre, encoding, bytes.take(cut));
            let two = transcoded(Direction::Outbound, one.stream, encoding, bytes.skip(cut));
            &&& one.output == Seq::<u8>::empty()
            &&& one.stream.pending == bytes.take(cut)
            &&& two.output == encoded_scalar(encoding, c)
            &&& at_rest(two.stream, encoding)
        }),
{
    let text = seq![c];
    assert(text.take(0) =~= Seq::<char>::empty());
    assert(text.skip(0) =~= text);
    assert(encode_utf8(Seq::<char>::empty()) =~= Seq::<u8>::empty());
    lemma_cut_text_encodes(pre, encoding, text, 0, cut);
    assert(encode_utf8(text).subrange(0, cut) =~= encode_utf8(text).take(cut));
}

/// A decoder at rest that receives the encoding of a representable text
/// emits the text and is at rest again.
proof fn lemma_received(receiver: Stream, encoding: PaneEncoding, text: Seq<char>)
    requires
        encoding.legacy(),
        at_rest(receiver, encoding),
        representable(encoding, text),
        plain(encoded_text(encoding, text)),
    ensures
        ({
            let back = transcoded(Direction::Inbound, receiver, encoding, encoded_text(encoding, text));
            &&& back.output == encode_utf8(text)
            &&& at_rest(back.stream, encoding)
        }),
{
    lemma_clean_received(receiver, encoding, encoded_text(encoding, text));
    if text.len() == 0 {
        assert(encode_utf8(text) =~= Seq::<u8>::empty());
    }
}

/// Text that the codec can represent, and that holds no introducer on
/// either side, comes back as it was sent: encoded by an encoder at rest
/// and decoded by a decoder at rest, chunk for chunk, it is the text again.
/// Both are at rest afterwards, so the same holds of the next chunk.
pub proof fn lemma_round_trip(
    sender: Stream,
    receiver: Stream,
    encoding: PaneEncoding,
    text: Seq<char>,
)
    requires
        encoding.legacy(),
        at_rest(sender, encoding),
        at_rest(receiver, encoding),
        representable(encoding, text),
        plain(encode_utf8(text)),
        plain(encoded_text(encoding, text)),
    ensures
        ({
            let sent = transcoded(Direction::Outbound, sender, encoding, encode_utf8(text));
            let back = transcoded(Direction::Inbound, receiver, encoding, sent.output);
            &&& sent.output == encoded_text(encoding, text)
            &&& back.output == encode_utf8(text)
            &&& at_rest(sent.stream, encoding)
            &&& at_rest(back.stream, encoding)
        }),
{
    lemma_whole_run(encoding, text);
    lemma_first_call(sender, encoding, encode_utf8(text));
    lemma_received(receiver, encoding, text);
}

/// The same when the sender's chunk boundary falls anywhere in the text,
/// even inside a character: the text sent in two calls, and each output
/// received as it was emitted, comes back whole. The cut falls `extra`
/// bytes into the character number `whole`, or behind the last character.
pub proof fn lemma_round_trip_cut(
    sender: Stream,
    receiver: Stream,
    encoding: PaneEncoding,
    text: Seq<char>,
    whole: int,
    extra: int,
)
    requires
        encoding.legacy(),
        at_rest(sender, encoding),
        at_rest(receiver, encoding),
        plain(encode_utf8(text)),
        0 <= whole <= text.len(),
        0 <= extra,
        whole < text.len() ==> extra < encode_utf8(seq![text[whole]]).len(),
        whole == text.len() ==> extra == 0,
        representable(encoding, text.take(whole)),
        representable(encoding, text.skip(whole)),
        plain(encoded_text(encoding, text.take(whole))),
        plain(encoded_text(encoding, text.skip(whole))),
    ensures
        ({
            let bytes = encode_utf8(text);
            let cut = encode_utf8(text.take(whole)).len() + extra;
            let first = transcoded(Direction::Outbound, sender, encoding, bytes.take(cut));
            let second = transcoded(Direction::Outbound, first.stream, encoding, bytes.skip(cut));
            let one = transcoded(Direction::Inbound, receiver, encoding, first.output);
            let two = transcoded(Direction::Inbound, one.stream, encoding, second.output);
            &&& one.output + two.output == bytes
            &&& at_rest(second.stream, encoding)
            &&& at_rest(two.stream, encoding)
        }),
{
    let bytes = encode_utf8(text);
    let cut = encode_utf8(text.take(whole)).len() + extra;
    lemma_cut_text_encodes(sender, encoding, text, whole, extra);
    lemma_received(receiver, encoding, text.take(whole));
    let first = transcoded(Direction::Outbound, sender, encoding, bytes.take(cut));
    let one = transcoded(Direction::Inbound, receiver, encoding, first.output);
    lemma_received(one.stream, encoding, text.skip(whole));
    assert(text =~= text.take(whole) + text.skip(whole));
    lemma_encode_concat(text.take(whole), text.skip(whole));
}

/// An invalid sequence in an outbound run becomes one replacement byte, and
/// the run goes on behind it: what precedes the sequence is encoded, and
/// what follows it is treated as a run of its own.
pub proof fn lemma_invalid_sequence_replaced(encoding: PaneEncoding, bytes: Seq<u8>, len: usize)
    requires
        !valid_utf8(bytes),
        error_len_of(bytes) == Some(len),
    ensures
        encode_run(encoding, bytes).output == encoded_head(encoding, bytes) + seq![
            REPLACEMENT_BYTE,
        ] + encode_run(encoding, bytes.skip(valid_prefix_len(bytes) + len)).output,
        encode_run(encoding, bytes).carry == encode_run(
            encoding,
            bytes.skip(valid_prefix_len(bytes) + len),
        ).carry,
{
    lemma_invalid_len_fits(bytes);
    let behind = encode_run(encoding, bytes.skip(valid_prefix_len(bytes) + len)).output;
    assert(encoded_head(encoding, bytes).push(REPLACEMENT_BYTE) + behind =~= encoded_head(
        encoding,
        bytes,
    ) + seq![REPLACEMENT_BYTE] + behind);
}

/// The legacy encoding of two texts in a row is the two encodings in a row.
proof fn lemma_legacy_concat(encoding: PaneEncoding, first: Seq<char>, second: Seq<char>)
    ensures
        legacy_text(encoding, first + second) == legacy_text(encoding, first) + legacy_text(
            encoding,
            second,
        ),
    decreases second.len(),
{
    if second.len() == 0 {
        assert(first + second =~= first);
        assert(legacy_text(encoding, first) + legacy_text(encoding, second) =~= legacy_text(
            encoding,
            first,
        ));
    } else {
        assert((first + second).drop_last() =~= first + second.drop_last());
        assert((first + second).last() == second.last());
        lemma_legacy_concat(encoding, first, second.drop_last());
        assert(legacy_text(encoding, first + second) =~= legacy_text(encoding, first)
            + legacy_text(encoding, second));
    }
}

/// The encoding of two texts in a row is the two encodings in a row, in
/// every encoding.
pub proof fn lemma_encoded_concat(encoding: PaneEncoding, first: Seq<char>, second: Seq<char>)
    ensures
        encoded_text(encoding, first + second) == encoded_text(encoding, first) + encoded_text(
            encoding,
            second,
        ),
{
    lemma_encode_concat(first, second);
    lemma_legacy_concat(encoding, first, second);
}

/// The encoding of a text of one scalar is the encoding of the scalar.
pub proof fn lemma_encoded_one(encoding: PaneEncoding, c: char)
    requires
        encoding.legacy(),
    ensures
        encoded_text(encoding, seq![c]) == encoded_scalar(encoding, c),
{
    assert(seq![c].drop_last() =~= Seq::<char>::empty());
    assert(seq![c].last() == c);
    assert(legacy_text(encoding, Seq::<char>::empty()) =~= Seq::<u8>::empty());
    assert(legacy_text(encoding, seq![c]) =~= encoded_scalar(encoding, c));
}

/// ASCII text is the same bytes in every encoding.
pub proof fn lemma_ascii_unchanged(encoding: PaneEncoding, text: Seq<char>)
    requires
        is_ascii_chars(text),
    ensures
        encoded_text(encoding, text) == encode_utf8(text),
    decreases text.len(),
{
    if encoding.legacy() && text.len() > 0 {
        let front = text.drop_last();
        assert(is_ascii_chars(front));
        lemma_ascii_unchanged(encoding, front);
        assert(text =~= front + seq![text.last()]);
        lemma_encode_concat(front, seq![text.last()]);
        assert(is_ascii_chars(seq![text.last()]));
        is_ascii_chars_encode_utf8(seq![text.last()]);
        assert(encode_utf8(seq![text.last()]) =~= seq![text.last() as u8]);
    }
}

/// A scalar that the encoding lacks becomes one replacement byte.
pub proof fn lemma_unencodable_replaced(encoding: PaneEncoding, c: char)
    requires
        encoding.legacy(),
        (c as u32) >= 0x80,
        scalar_encoding(encoding, c) is None,
    ensures
        encoded_scalar(encoding, c) == seq![REPLACEMENT_BYTE],
        encode_run(encoding, encode_utf8(seq![c])).output == seq![REPLACEMENT_BYTE],
        encode_run(encoding, encode_utf8(seq![c])).carry == Seq::<u8>::empty(),
{
    lemma_whole_run(encoding, seq![c]);
    lemma_encoded_one(encoding, c);
}

/// A scalar that the encoding lacks becomes one replacement byte in its
/// place, and the text around it is encoded as if the scalar were not
/// there.
pub proof fn lemma_unencodable_in_place(
    pre: Stream,
    encoding: PaneEncoding,
    before: Seq<char>,
    c: char,
    after: Seq<char>,
)
    requires
        encoding.legacy(),
        at_rest(pre, encoding),
        (c as u32) >= 0x80,
        scalar_encoding(encoding, c) is None,
        plain(encode_utf8(before + seq![c] + after)),
    ensures
        ({
            let sent = transcoded(
                Direction::Outbound,
                pre,
                encoding,
                encode_utf8(before + seq![c] + after),
            );
            &&& sent.output == encoded_text(encoding, before) + seq![REPLACEMENT_BYTE]
                + encoded_text(encoding, after)
            &&& at_rest(sent.stream, encoding)
        }),
{
    let text = before + seq![c] + after;
    lemma_whole_run(encoding, text);
    lemma_first_call(pre, encoding, encode_utf8(text));
    lemma_encoded_concat(encoding, before + seq![c], after);
    lemma_encoded_concat(encoding, before, seq![c]);
    lemma_encoded_one(encoding, c);
}

/// What a decoder at rest emits for bytes that decode cleanly as a whole.
pub open spec fn clean_text(encoding: PaneEncoding, bytes: Seq<u8>) -> Seq<u8> {
    if bytes.len() == 0 {
        Seq::empty()
    } else {
        encode_utf8(strict_decoding(encoding, bytes)->0)
    }
}

/// A decoder at rest that receives bytes that decode cleanly as a whole
/// emits their text and is at rest again.
pub proof fn lemma_clean_received(receiver: Stream, encoding: PaneEncoding, bytes: Seq<u8>)
    requires
        encoding.legacy(),
        at_rest(receiver, encoding),
        plain(bytes),
        bytes.len() > 0 ==> strict_decoding(encoding, bytes) is Some,
    ensures
        ({
            let back = transcoded(Direction::Inbound, receiver, encoding, bytes);
            &&& back.output == clean_text(encoding, bytes)
            &&& at_rest(back.stream, encoding)
        }),
{
    lemma_empty_chunk(Direction::Inbound, encoding, receiver);
    if bytes.len() > 0 {
        lemma_plain_chunk(Direction::Inbound, encoding, receiver, bytes);
        assert(adopt(receiver, encoding).pending + bytes =~= bytes);
        assert(bytes.subrange(0, bytes.len() as int) =~= bytes);
        assert(clean_split(encoding, bytes, search_floor(bytes.len()), bytes.len()) == Some(
            bytes.len(),
        ));
        assert(bytes.skip(bytes.len() as int) =~= Seq::<u8>::empty());
    } else {
        assert(bytes =~= Seq::<u8>::empty());
    }
}

/// A control sequence between two texts, on the way out: the call emits the
/// encoding of the first text, the sequence byte for byte, and the encoding
/// of the second text. The law leaves out the texts whose UTF-8 bytes hold
/// an introducer.
pub proof fn lemma_sequence_between_texts_encodes(
    pre: Stream,
    encoding: PaneEncoding,
    before: Seq<char>,
    sequence: Seq<u8>,
    after: Seq<char>,
)
    requires
        encoding.legacy(),
        at_rest(pre, encoding),
        plain(encode_utf8(before)),
        plain(encode_utf8(after)),
        is_control_sequence(sequence),
    ensures
        ({
            let sent = transcoded(
                Direction::Outbound,
                pre,
                encoding,
                encode_utf8(before) + sequence + encode_utf8(after),
            );
            &&& sent.output == encoded_text(encoding, before) + sequence + encoded_text(
                encoding,
                after,
            )
            &&& at_rest(sent.stream, encoding)
        }),
{
    let first = encode_utf8(before);
    let second = encode_utf8(after);
    let start = adopt(pre, encoding);
    lemma_plain_text_scanned(Direction::Outbound, encoding, begin(start), first);
    lemma_control_sequence_opaque(Direction::Outbound, encoding, start, first, sequence, second);
    lemma_whole_run(encoding, before);
    lemma_whole_run(encoding, after);
    lemma_first_call(start, encoding, first);
    let head = transcoded(Direction::Outbound, start, encoding, first);
    lemma_first_call(head.stream, encoding, second);
}

/// A control sequence between two stretches of legacy text, on the way in:
/// where each stretch decodes cleanly, the call emits the text of the
/// first, the sequence byte for byte, and the text of the second. The law
/// leaves out the stretches that hold an introducer.
pub proof fn lemma_sequence_between_texts_decodes(
    pre: Stream,
    encoding: PaneEncoding,
    before: Seq<u8>,
    sequence: Seq<u8>,
    after: Seq<u8>,
)
    requires
        encoding.legacy(),
        at_rest(pre, encoding),
        plain(before),
        plain(after),
        before.len() > 0 ==> strict_decoding(encoding, before) is Some,
        after.len() > 0 ==> strict_decoding(encoding, after) is Some,
        is_control_sequence(sequence),
    ensures
        ({
            let back = transcoded(Direction::Inbound, pre, encoding, before + sequence + after);
            &&& back.output == clean_text(encoding, before) + sequence + clean_text(
                encoding,
                after,
            )
            &&& at_rest(back.stream, encoding)
        }),
{
    let start = adopt(pre, encoding);
    lemma_plain_text_scanned(Direction::Inbound, encoding, begin(start), before);
    lemma_control_sequence_opaque(Direction::Inbound, encoding, start, before, sequence, after);
    lemma_clean_received(start, encoding, before);
    let head = transcoded(Direction::Inbound, start, encoding, before);
    lemma_clean_received(head.stream, encoding, after);
}

/// Where no prefix longer than `clean` decodes, the search finds `clean`,
/// if it decodes and is within reach, and nothing otherwise.
proof fn lemma_clean_split_is(
    encoding: PaneEncoding,
    bytes: Seq<u8>,
    floor: nat,
    top: nat,
    clean: nat,
)
    requires
        1 <= floor,
        clean <= top <= bytes.len(),
        forall|longer: int|
            clean < longer <= top ==> strict_decoding(
                encoding,
                #[trigger] bytes.subrange(0, longer),
            ) is None,
        clean >= floor ==> strict_decoding(encoding, bytes.subrange(0, clean as int)) is Some,
    ensures
        clean_split(encoding, bytes, floor, top) == if clean >= floor {
            Some(clean)
        } else {
            None
        },
    decreases top,
{
    if top > clean && top >= floor {
        lemma_clean_split_is(encoding, bytes, floor, (top - 1) as nat, clean);
    }
}

/// Legacy bytes cut in two anywhere, even inside a character, and fed to a
/// decoder at rest in two calls. Let the bytes decode cleanly up to
/// `clean`, at most one character's length before the cut and with no
/// clean prefix between there and the cut, and let the bytes from `clean`
/// on decode cleanly. Then the first call emits the text up to `clean` and
/// keeps the bytes up to the cut, and the second call emits the rest. The
/// law leaves out the bytes that hold an introducer.
pub proof fn lemma_cut_wire_decodes(
    pre: Stream,
    encoding: PaneEncoding,
    wire: Seq<u8>,
    clean: int,
    cut: int,
)
    requires
        encoding.legacy(),
        at_rest(pre, encoding),
        plain(wire),
        0 <= clean <= cut <= wire.len(),
        cut - clean <= MAX_TRAILING_ENCODED_BYTES,
        clean < cut ==> cut < wire.len(),
        clean > 0 ==> strict_decoding(encoding, wire.take(clean)) is Some,
        forall|longer: int|
            clean < longer <= cut ==> strict_decoding(encoding, #[trigger] wire.take(longer))
                is None,
        clean < wire.len() ==> strict_decoding(encoding, wire.skip(clean)) is Some,
    ensures
        ({
            let one = transcoded(Direction::Inbound, pre, encoding, wire.take(cut));
            let two = transcoded(Direction::Inbound, one.stream, encoding, wire.skip(cut));
            &&& one.output == clean_text(encoding, wire.take(clean))
            &&& one.stream.pending == wire.subrange(clean, cut)
            &&& two.output == clean_text(encoding, wire.skip(clean))
            &&& at_rest(two.stream, encoding)
        }),
{
    let head = wire.take(cut);
    let tail = wire.skip(cut);
    assert(plain(head));
    assert(plain(tail));
    lemma_empty_chunk(Direction::Inbound, encoding, pre);
    if cut > 0 {
        lemma_plain_chunk(Direction::Inbound, encoding, pre, head);
        assert(adopt(pre, encoding).pending + head =~= head);
        assert forall|longer: int| clean < longer <= cut implies strict_decoding(
            encoding,
            #[trigger] head.subrange(0, longer),
        ) is None by {
            assert(head.subrange(0, longer) =~= wire.take(longer));
        }
        assert(head.subrange(0, clean) =~= wire.take(clean));
        lemma_clean_split_is(
            encoding,
            head,
            search_floor(head.len()),
            head.len(),
            clean as nat,
        );
        assert(head.skip(clean) =~= wire.subrange(clean, cut));
        if clean == 0 {
            assert(wire.take(clean) =~= Seq::<u8>::empty());
        }
    } else {
        assert(head =~= Seq::<u8>::empty());
        assert(wire.take(clean) =~= Seq::<u8>::empty());
        assert(wire.subrange(clean, cut) =~= Seq::<u8>::empty());
    }
    let one = transcoded(Direction::Inbound, pre, encoding, head);
    let rest = wire.skip(clean);
    lemma_empty_chunk(Direction::Inbound, encoding, one.stream);
    if tail.len() > 0 {
        lemma_plain_chunk(Direction::Inbound, encoding, one.stream, tail);
        assert(one.stream.pending + tail =~= rest);
        assert(rest.subrange(0, rest.len() as int) =~= rest);
        lemma_clean_split_is(
            encoding,
            rest,
            search_floor(rest.len()),
            rest.len(),
            rest.len(),
        );
        assert(rest.skip(rest.len() as int) =~= Seq::<u8>::empty());
    } else {
        assert(tail =~= Seq::<u8>::empty());
        assert(rest =~= Seq::<u8>::empty());
    }
}

/// What one call of a decoder in plain text does with a chunk of plain
/// text. Let `clean` be the length of the longest prefix that decodes
/// cleanly, of the bytes it held and the chunk together, and let it lie at
/// most one character's length before their end. Then the call emits the
/// text of that prefix and keeps the bytes behind it. It is the step from
/// which the behaviour over any series of chunks follows.
pub proof fn lemma_inbound_call(pre: Stream, encoding: PaneEncoding, data: Seq<u8>, clean: int)
    requires
        encoding.legacy(),
        adopt(pre, encoding).state == EscapeState::Ground,
        plain(data),
        data.len() > 0,
        0 <= clean <= adopt(pre, encoding).pending.len() + data.len(),
        adopt(pre, encoding).pending.len() + data.len() - clean <= MAX_TRAILING_ENCODED_BYTES,
        clean > 0 ==> strict_decoding(
            encoding,
            (adopt(pre, encoding).pending + data).take(clean),
        ) is Some,
        forall|longer: int|
            clean < longer <= adopt(pre, encoding).pending.len() + data.len()
                ==> strict_decoding(
                encoding,
                #[trigger] (adopt(pre, encoding).pending + data).take(longer),
            ) is None,
    ensures
        ({
            let held = adopt(pre, encoding).pending + data;
            let done = transcoded(Direction::Inbound, pre, encoding, data);
            &&& done.output == clean_text(encoding, held.take(clean))
            &&& done.stream == Stream { pending: held.skip(clean), ..adopt(pre, encoding) }
        }),
{
    let held = adopt(pre, encoding).pending + data;
    lemma_plain_chunk(Direction::Inbound, encoding, pre, data);
    assert forall|longer: int| clean < longer <= held.len() implies strict_decoding(
        encoding,
        #[trigger] held.subrange(0, longer),
    ) is None by {
        assert(held.subrange(0, longer) =~= held.take(longer));
    }
    assert(held.subrange(0, clean) =~= held.take(clean));
    lemma_clean_split_is(encoding, held, search_floor(held.len()), held.len(), clean as nat);
    if clean == 0 {
        assert(held.take(clean) =~= Seq::<u8>::empty());
        assert(held.skip(clean) =~= held);
    }
}

} // verus!
