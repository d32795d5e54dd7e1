//! Chunk boundaries on the way out change nothing: however the operator's
//! bytes are cut into chunks, the encoder emits, in total, what it emits
//! for the bytes in one piece, and keeps what it would have kept.

use crate::codec::{
    error_len_of, invalid_len, is_cut_short, strict_decoding, unfinished_scalar,
    valid_prefix_len,
};
use crate::encoding::PaneEncoding;
use crate::escape::EscapeState;
use crate::filter::{
    adopt, begin, flush, scan_bytes, step, transcoded, Direction, Scan, Stream, Transcoded,
};
use crate::laws::lemma_scan_concat;
use crate::outbound::{
    encode_run, encoded_head, encoded_text, lemma_encode_one, lemma_longest_valid, RunResult,
    REPLACEMENT_BYTE,
};
use crate::laws::lemma_empty_chunk;
use crate::text_laws::{
    at_rest, clean_text, lemma_encode_concat, lemma_encoded_concat, lemma_inbound_call,
    lemma_longest_valid_is, lemma_round_trip, lemma_valid_suffix, plain, representable,
};
use vstd::prelude::*;
use vstd::utf8::{
    decode_first_scalar, decode_utf8, decode_utf8_encode_utf8, decode_utf8_first_scalar,
    encode_utf8, encode_utf8_decode_utf8, encode_utf8_valid_utf8, length_of_first_scalar,
    take_first_scalar, valid_utf8, valid_utf8_concat,
};

verus! {

/// The beginning of the beginning of a scalar is the beginning of that
/// scalar.
proof fn lemma_cut_shorter(tail: Seq<u8>, c: char, len: int)
    requires
        is_cut_short(tail, c),
        0 < len <= tail.len(),
    ensures
        is_cut_short(tail.take(len), c),
{
    let whole = encode_utf8(seq![c]);
    assert(whole.subrange(0, len) =~= tail.take(len));
}

/// Valid UTF-8 that is not empty begins with the whole encoding of one
/// scalar.
proof fn lemma_first_scalar(bytes: Seq<u8>) -> (c: char)
    requires
        valid_utf8(bytes),
        bytes.len() > 0,
    ensures
        encode_utf8(seq![c]).len() <= bytes.len(),
        bytes.subrange(0, encode_utf8(seq![c]).len() as int) == encode_utf8(seq![c]),
{
    let c = decode_first_scalar(bytes) as char;
    decode_utf8_first_scalar(bytes);
    lemma_encode_one(c);
    assert(take_first_scalar(bytes) == bytes.subrange(0, length_of_first_scalar(bytes)));
    c
}

/// Bytes that begin with neither a whole scalar nor the beginning of one
/// stay so whatever follows them: no prefix of the longer run is valid, the
/// longer run is no unfinished scalar, and the invalid sequence at its head
/// is as long as before.
proof fn lemma_defect_stays(tail: Seq<u8>, more: Seq<u8>)
    requires
        tail.len() > 0,
        valid_prefix_len(tail) == 0,
        !unfinished_scalar(tail),
    ensures
        !valid_utf8(tail + more),
        valid_prefix_len(tail + more) == 0,
        !unfinished_scalar(tail + more),
        invalid_len(tail + more) == invalid_len(tail),
{
    let longer = tail + more;
    lemma_longest_valid(tail, tail.len());
    assert forall|len: int| 0 < len <= longer.len() implies !valid_utf8(
        #[trigger] longer.subrange(0, len),
    ) by {
        let part = longer.subrange(0, len);
        if valid_utf8(part) {
            let c = lemma_first_scalar(part);
            let width = encode_utf8(seq![c]).len() as int;
            encode_utf8_valid_utf8(seq![c]);
            if width <= tail.len() {
                assert(tail.subrange(0, width) =~= part.subrange(0, width));
            } else {
                assert(encode_utf8(seq![c]).subrange(0, tail.len() as int) =~= tail);
                assert(is_cut_short(tail, c));
            }
        }
    }
    assert(longer.subrange(0, 0) =~= Seq::<u8>::empty());
    lemma_longest_valid_is(longer, 0, longer.len());
    assert(longer.subrange(0, longer.len() as int) =~= longer);
    if unfinished_scalar(longer) {
        let c = choose|c: char| is_cut_short(longer, c);
        lemma_cut_shorter(longer, c, tail.len() as int);
        assert(longer.take(tail.len() as int) =~= tail);
    }
    assert forall|len: int| 2 <= len <= 3 && longer.len() >= len implies (unfinished_scalar(
        #[trigger] longer.take(len),
    ) <==> tail.len() >= len && unfinished_scalar(tail.take(len))) by {
        if tail.len() >= len {
            assert(longer.take(len) =~= tail.take(len));
        } else if unfinished_scalar(longer.take(len)) {
            let c = choose|c: char| is_cut_short(longer.take(len), c);
            lemma_cut_shorter(longer.take(len), c, tail.len() as int);
            assert(longer.take(len).take(tail.len() as int) =~= tail);
        }
    }
}

/// The text of valid UTF-8 followed by valid UTF-8 is the two texts in a
/// row.
proof fn lemma_decode_concat(first: Seq<u8>, second: Seq<u8>)
    requires
        valid_utf8(first),
        valid_utf8(second),
    ensures
        valid_utf8(first + second),
        decode_utf8(first + second) == decode_utf8(first) + decode_utf8(second),
{
    valid_utf8_concat(first, second);
    decode_utf8_encode_utf8(first);
    decode_utf8_encode_utf8(second);
    lemma_encode_concat(decode_utf8(first), decode_utf8(second));
    encode_utf8_decode_utf8(decode_utf8(first) + decode_utf8(second));
}

/// The encoding of the text of nothing is nothing.
proof fn lemma_encoded_nothing(encoding: PaneEncoding)
    ensures
        encoded_text(encoding, decode_utf8(Seq::<u8>::empty())) == Seq::<u8>::empty(),
        valid_utf8(Seq::<u8>::empty()),
{
    assert(decode_utf8(Seq::<u8>::empty()) =~= Seq::<char>::empty());
    assert(encode_utf8(Seq::<char>::empty()) =~= Seq::<u8>::empty());
}

/// Where valid UTF-8 stands before a run, the longest valid prefix of the
/// whole reaches as far into the run as the run's own.
proof fn lemma_valid_prefix_after(first: Seq<u8>, run: Seq<u8>)
    requires
        valid_utf8(first),
    ensures
        valid_prefix_len(first + run) == first.len() + valid_prefix_len(run),
        valid_prefix_len(run) <= run.len(),
        valid_utf8(run.subrange(0, valid_prefix_len(run) as int)),
{
    let whole = first + run;
    let reach = valid_prefix_len(run) as int;
    lemma_longest_valid(run, run.len());
    assert(whole.subrange(0, first.len() + reach) =~= first + run.subrange(0, reach));
    valid_utf8_concat(first, run.subrange(0, reach));
    assert forall|longer: int| first.len() + reach < longer <= whole.len() implies !valid_utf8(
        #[trigger] whole.subrange(0, longer),
    ) by {
        let part = run.subrange(0, longer - first.len());
        assert(whole.subrange(0, longer) =~= first + part);
        if valid_utf8(first + part) {
            lemma_valid_suffix(first, part);
        }
    }
    lemma_longest_valid_is(whole, (first.len() + reach) as nat, whole.len());
}

/// Valid UTF-8 before a run is encoded, and the run comes to what it comes
/// to alone.
proof fn lemma_valid_then_run(encoding: PaneEncoding, first: Seq<u8>, run: Seq<u8>)
    requires
        valid_utf8(first),
    ensures
        encode_run(encoding, first + run).output == encoded_text(encoding, decode_utf8(first))
            + encode_run(encoding, run).output,
        encode_run(encoding, first + run).carry == encode_run(encoding, run).carry,
{
    let whole = first + run;
    let text = encoded_text(encoding, decode_utf8(first));
    lemma_encoded_nothing(encoding);
    if first.len() == 0 {
        assert(first =~= Seq::<u8>::empty());
        assert(whole =~= run);
        assert(text + encode_run(encoding, run).output =~= encode_run(encoding, run).output);
    } else if run.len() == 0 {
        assert(whole =~= first);
        assert(text + encode_run(encoding, run).output =~= text);
    } else if valid_utf8(run) {
        lemma_decode_concat(first, run);
        lemma_encoded_concat(encoding, decode_utf8(first), decode_utf8(run));
    } else {
        if valid_utf8(whole) {
            lemma_valid_suffix(first, run);
        }
        lemma_valid_prefix_after(first, run);
        let reach = valid_prefix_len(run) as int;
        let head = run.subrange(0, reach);
        assert(whole.subrange(0, first.len() + reach) =~= first + head);
        lemma_decode_concat(first, head);
        lemma_encoded_concat(encoding, decode_utf8(first), decode_utf8(head));
        assert(head.len() == 0 ==> head =~= Seq::<u8>::empty());
        assert(encoded_head(encoding, whole) =~= text + encoded_head(encoding, run));
        assert(whole.skip(first.len() + reach) =~= run.skip(reach));
        assert(error_len_of(whole) == error_len_of(run));
        match error_len_of(run) {
            None => {},
            Some(n) => {
                assert(run.subrange(0, run.len() as int) =~= run);
                assert(reach < run.len());
                assert(1 <= n <= run.skip(reach).len());
                assert(whole.skip(first.len() + reach + n) =~= run.skip(reach + n));
                let behind = encode_run(encoding, run.skip(reach + n)).output;
                assert((text + encoded_head(encoding, run)).push(REPLACEMENT_BYTE) + behind
                    =~= text + (encoded_head(encoding, run).push(REPLACEMENT_BYTE) + behind));
                assert((text + encoded_head(encoding, run)).push(REPLACEMENT_BYTE) =~= text
                    + encoded_head(encoding, run).push(REPLACEMENT_BYTE));
            },
        }
    }
}

/// A run that begins with an invalid sequence comes to one replacement
/// byte and what the bytes behind the sequence come to, whatever follows
/// the run.
proof fn lemma_defect_then_more(encoding: PaneEncoding, tail: Seq<u8>, more: Seq<u8>)
    requires
        tail.len() > 0,
        valid_prefix_len(tail) == 0,
        !unfinished_scalar(tail),
    ensures
        ({
            let len = invalid_len(tail) as int;
            let behind = encode_run(encoding, tail.skip(len) + more);
            &&& 1 <= len <= tail.len()
            &&& encode_run(encoding, tail + more).output == seq![REPLACEMENT_BYTE]
                + behind.output
            &&& encode_run(encoding, tail + more).carry == behind.carry
        }),
{
    let longer = tail + more;
    let len = invalid_len(tail) as int;
    lemma_defect_stays(tail, more);
    assert(longer.skip(0) =~= longer);
    assert(error_len_of(longer) == Some(len as usize));
    assert(encoded_head(encoding, longer) =~= Seq::<u8>::empty());
    assert(longer.skip(len) =~= tail.skip(len) + more);
    let behind = encode_run(encoding, tail.skip(len) + more);
    assert(Seq::<u8>::empty().push(REPLACEMENT_BYTE) + behind.output =~= seq![REPLACEMENT_BYTE]
        + behind.output);
}

/// A run that is an unfinished scalar comes to nothing, and all of it is
/// carried.
proof fn lemma_unfinished_run(encoding: PaneEncoding, tail: Seq<u8>)
    requires
        tail.len() > 0,
        valid_prefix_len(tail) == 0,
        unfinished_scalar(tail),
    ensures
        encode_run(encoding, tail).output == Seq::<u8>::empty(),
        encode_run(encoding, tail).carry == tail,
{
    lemma_longest_valid(tail, tail.len());
    assert(tail.subrange(0, tail.len() as int) =~= tail);
    assert(tail.skip(0) =~= tail);
}

/// The same as [`lemma_run_in_two`], of a first part no prefix of which is
/// valid.
proof fn lemma_tail_in_two(encoding: PaneEncoding, tail: Seq<u8>, second: Seq<u8>)
    requires
        tail.len() > 0,
        valid_prefix_len(tail) == 0,
    ensures
        ({
            let one = encode_run(encoding, tail);
            let two = encode_run(encoding, one.carry + second);
            &&& encode_run(encoding, tail + second).output == one.output + two.output
            &&& encode_run(encoding, tail + second).carry == two.carry
        }),
    decreases tail.len(), 0nat,
{
    let one = encode_run(encoding, tail);
    let two = encode_run(encoding, one.carry + second);
    if unfinished_scalar(tail) {
        lemma_unfinished_run(encoding, tail);
        assert(one.output + two.output =~= two.output);
    } else {
        let len = invalid_len(tail) as int;
        let behind = tail.skip(len);
        lemma_defect_then_more(encoding, tail, second);
        lemma_defect_then_more(encoding, tail, Seq::<u8>::empty());
        assert(tail + Seq::<u8>::empty() =~= tail);
        assert(behind + Seq::<u8>::empty() =~= behind);
        lemma_run_in_two(encoding, behind, second);
        let rest = encode_run(encoding, behind);
        assert(one.output == seq![REPLACEMENT_BYTE] + rest.output);
        assert(one.carry == rest.carry);
        assert(seq![REPLACEMENT_BYTE] + (rest.output + two.output) =~= one.output + two.output);
    }
}

/// A run may be encoded in two parts: what the first part comes to, and
/// then what the bytes it leaves behind and the second part come to
/// together, is what the whole run comes to.
pub proof fn lemma_run_in_two(encoding: PaneEncoding, first: Seq<u8>, second: Seq<u8>)
    ensures
        ({
            let one = encode_run(encoding, first);
            let two = encode_run(encoding, one.carry + second);
            &&& encode_run(encoding, first + second).output == one.output + two.output
            &&& encode_run(encoding, first + second).carry == two.carry
        }),
    decreases first.len(), 1nat,
{
    let one = encode_run(encoding, first);
    let two = encode_run(encoding, one.carry + second);
    let whole = first + second;
    if first.len() == 0 {
        assert(whole =~= second);
        assert(one.carry + second =~= second);
        assert(one.output + two.output =~= two.output);
    } else if valid_utf8(first) {
        lemma_valid_then_run(encoding, first, second);
        assert(one.carry + second =~= second);
    } else {
        let reach = valid_prefix_len(first) as int;
        lemma_longest_valid(first, first.len());
        assert(first.subrange(0, first.len() as int) =~= first);
        let head = first.subrange(0, reach);
        let tail = first.skip(reach);
        let text = encoded_text(encoding, decode_utf8(head));
        assert(first =~= head + tail);
        assert(whole =~= head + (tail + second));
        lemma_valid_then_run(encoding, head, tail + second);
        lemma_valid_then_run(encoding, head, tail);
        lemma_valid_prefix_after(head, tail);
        lemma_tail_in_two(encoding, tail, second);
        let part = encode_run(encoding, tail);
        assert(one.carry == part.carry);
        assert(one.output == text + part.output);
        assert(text + (part.output + two.output) =~= one.output + two.output);
    }
}

/// Two scans of the same bytes that have come to the same point, one of
/// them having emitted `base` before it began.
pub open spec fn in_step(whole: Scan, part: Scan, base: Seq<u8>) -> bool {
    &&& whole.state == part.state
    &&& whole.escape == part.escape
    &&& whole.pending == part.pending
    &&& whole.run == part.run
    &&& whole.output == base + part.output
}

/// Two scans of the same text, one of which converted the run `early` at a
/// chunk boundary, with `held` carried into it, and one of which has it
/// still before it.
pub open spec fn behind(
    encoding: PaneEncoding,
    whole: Scan,
    part: Scan,
    base: Seq<u8>,
    held: Seq<u8>,
    early: Seq<u8>,
) -> bool {
    let converted = encode_run(encoding, held + early);
    &&& whole.state == EscapeState::Ground
    &&& part.state == EscapeState::Ground
    &&& whole.escape == part.escape
    &&& whole.pending == held
    &&& whole.run == early + part.run
    &&& early.len() > 0
    &&& part.pending == converted.carry
    &&& base + part.output == whole.output + converted.output
}

/// Either of the two.
pub open spec fn alike(
    encoding: PaneEncoding,
    whole: Scan,
    part: Scan,
    base: Seq<u8>,
    held: Seq<u8>,
    early: Seq<u8>,
) -> bool {
    in_step(whole, part, base) || behind(encoding, whole, part, base, held, early)
}

/// Converting the open run brings the two scans in step.
proof fn lemma_flush_alike(
    encoding: PaneEncoding,
    whole: Scan,
    part: Scan,
    base: Seq<u8>,
    held: Seq<u8>,
    early: Seq<u8>,
)
    requires
        alike(encoding, whole, part, base, held, early),
    ensures
        in_step(
            flush(Direction::Outbound, encoding, whole),
            flush(Direction::Outbound, encoding, part),
            base,
        ),
{
    let done = flush(Direction::Outbound, encoding, whole);
    let done_part = flush(Direction::Outbound, encoding, part);
    if in_step(whole, part, base) {
        assert(done.output =~= base + done_part.output);
    } else {
        let converted = encode_run(encoding, held + early);
        if part.run.len() == 0 {
            assert(early + part.run =~= early);
            assert(done.output =~= base + done_part.output);
            assert(done.run =~= done_part.run);
        } else {
            lemma_run_in_two(encoding, held + early, part.run);
            assert(held + (early + part.run) =~= (held + early) + part.run);
            let rest = encode_run(encoding, converted.carry + part.run);
            assert(done.output == whole.output + (converted.output + rest.output));
            assert(done_part.output == part.output + rest.output);
            assert(whole.output + (converted.output + rest.output) =~= (whole.output
                + converted.output) + rest.output);
            assert(base + (part.output + rest.output) =~= (base + part.output) + rest.output);
        }
    }
}

/// One more byte keeps the two scans alike.
proof fn lemma_step_alike(
    encoding: PaneEncoding,
    whole: Scan,
    part: Scan,
    base: Seq<u8>,
    held: Seq<u8>,
    early: Seq<u8>,
    byte: u8,
)
    requires
        alike(encoding, whole, part, base, held, early),
    ensures
        alike(
            encoding,
            step(Direction::Outbound, encoding, whole, byte),
            step(Direction::Outbound, encoding, part, byte),
            base,
            held,
            early,
        ),
{
    let next = step(Direction::Outbound, encoding, whole, byte);
    let next_part = step(Direction::Outbound, encoding, part, byte);
    lemma_flush_alike(encoding, whole, part, base, held, early);
    if in_step(whole, part, base) {
        assert(next.output =~= base + next_part.output);
        assert(in_step(next, next_part, base));
    } else if next.state == EscapeState::Ground {
        assert(next.run =~= early + next_part.run);
        assert(behind(encoding, next, next_part, base, held, early));
    } else {
        assert(in_step(next, next_part, base));
    }
}

/// Any bytes keep the two scans alike.
proof fn lemma_scan_alike(
    encoding: PaneEncoding,
    whole: Scan,
    part: Scan,
    base: Seq<u8>,
    held: Seq<u8>,
    early: Seq<u8>,
    data: Seq<u8>,
)
    requires
        alike(encoding, whole, part, base, held, early),
    ensures
        alike(
            encoding,
            scan_bytes(Direction::Outbound, encoding, whole, data),
            scan_bytes(Direction::Outbound, encoding, part, data),
            base,
            held,
            early,
        ),
    decreases data.len(),
{
    if data.len() > 0 {
        lemma_scan_alike(encoding, whole, part, base, held, early, data.drop_last());
        lemma_step_alike(
            encoding,
            scan_bytes(Direction::Outbound, encoding, whole, data.drop_last()),
            scan_bytes(Direction::Outbound, encoding, part, data.drop_last()),
            base,
            held,
            early,
            data.last(),
        );
    }
}

/// A chunk boundary changes nothing on the way out, wherever it falls: in
/// a control sequence, between two characters, inside a character or inside
/// an invalid sequence. The two chunks together emit what the one chunk
/// emits, and leave the encoder as the one chunk leaves it.
pub proof fn lemma_encoder_chunks(
    pre: Stream,
    encoding: PaneEncoding,
    first: Seq<u8>,
    second: Seq<u8>,
)
    ensures
        ({
            let whole = transcoded(Direction::Outbound, pre, encoding, first + second);
            let one = transcoded(Direction::Outbound, pre, encoding, first);
            let two = transcoded(Direction::Outbound, one.stream, encoding, second);
            &&& whole.output == one.output + two.output
            &&& whole.stream == two.stream
        }),
{
    if encoding.legacy() {
        let start = begin(adopt(pre, encoding));
        let reached = scan_bytes(Direction::Outbound, encoding, start, first);
        let one = transcoded(Direction::Outbound, pre, encoding, first);
        let resumed = begin(one.stream);
        let base = one.output;
        lemma_scan_concat(Direction::Outbound, encoding, start, first, second);
        if reached.run.len() == 0 {
            assert(reached.output =~= base + resumed.output);
            assert(reached.run =~= resumed.run);
            assert(in_step(reached, resumed, base));
        } else {
            lemma_run_open(encoding, start, first);
            assert(reached.run =~= reached.run + resumed.run);
            assert(base + resumed.output =~= base);
            assert(behind(encoding, reached, resumed, base, reached.pending, reached.run));
        }
        lemma_scan_alike(
            encoding,
            reached,
            resumed,
            base,
            reached.pending,
            reached.run,
            second,
        );
        lemma_flush_alike(
            encoding,
            scan_bytes(Direction::Outbound, encoding, reached, second),
            scan_bytes(Direction::Outbound, encoding, resumed, second),
            base,
            reached.pending,
            reached.run,
        );
    }
}

/// A scan that began with no run open has a run open in plain text only.
proof fn lemma_run_open(encoding: PaneEncoding, start: Scan, data: Seq<u8>)
    requires
        start.run.len() == 0,
    ensures
        scan_bytes(Direction::Outbound, encoding, start, data).run.len() > 0 ==> scan_bytes(
            Direction::Outbound,
            encoding,
            start,
            data,
        ).state == EscapeState::Ground,
    decreases data.len(),
{
    if data.len() > 0 {
        lemma_run_open(encoding, start, data.drop_last());
    }
}

/// The chunks in a row, as one piece.
pub open spec fn joined(chunks: Seq<Seq<u8>>) -> Seq<u8>
    decreases chunks.len(),
{
    if chunks.len() == 0 {
        Seq::empty()
    } else {
        joined(chunks.drop_last()) + chunks.last()
    }
}

/// What a series of calls comes to, one call for each chunk: the filter
/// after the last, and all that was emitted.
pub open spec fn fed(
    direction: Direction,
    pre: Stream,
    encoding: PaneEncoding,
    chunks: Seq<Seq<u8>>,
) -> Transcoded
    decreases chunks.len(),
{
    if chunks.len() == 0 {
        Transcoded { stream: pre, output: Seq::empty() }
    } else {
        let before = fed(direction, pre, encoding, chunks.drop_last());
        let last = transcoded(direction, before.stream, encoding, chunks.last());
        Transcoded { stream: last.stream, output: before.output + last.output }
    }
}

/// However the operator's bytes are cut into chunks, the encoder emits in
/// all what it emits for them in one piece, and is left as the one piece
/// leaves it.
pub proof fn lemma_encoder_any_chunks(pre: Stream, encoding: PaneEncoding, chunks: Seq<Seq<u8>>)
    requires
        chunks.len() > 0,
    ensures
        fed(Direction::Outbound, pre, encoding, chunks) == transcoded(
            Direction::Outbound,
            pre,
            encoding,
            joined(chunks),
        ),
    decreases chunks.len(),
{
    let front = chunks.drop_last();
    if front.len() == 0 {
        assert(joined(front) =~= Seq::<u8>::empty());
        assert(joined(chunks) =~= chunks.last());
        let only = transcoded(Direction::Outbound, pre, encoding, chunks.last());
        assert(Seq::<u8>::empty() + only.output =~= only.output);
    } else {
        lemma_encoder_any_chunks(pre, encoding, front);
        lemma_encoder_chunks(pre, encoding, joined(front), chunks.last());
    }
}

/// Text that the codec can represent, sent in chunks cut anywhere and
/// received in one piece, comes back as it was sent. The law leaves out the
/// texts that hold an introducer on either side.
pub proof fn lemma_round_trip_any_sending(
    sender: Stream,
    receiver: Stream,
    encoding: PaneEncoding,
    text: Seq<char>,
    chunks: Seq<Seq<u8>>,
)
    requires
        encoding.legacy(),
        at_rest(sender, encoding),
        at_rest(receiver, encoding),
        representable(encoding, text),
        plain(encode_utf8(text)),
        plain(encoded_text(encoding, text)),
        chunks.len() > 0,
        joined(chunks) == encode_utf8(text),
    ensures
        ({
            let sent = fed(Direction::Outbound, sender, encoding, chunks);
            let back = transcoded(Direction::Inbound, receiver, encoding, sent.output);
            &&& sent.output == encoded_text(encoding, text)
            &&& back.output == encode_utf8(text)
            &&& at_rest(sent.stream, encoding)
            &&& at_rest(back.stream, encoding)
        }),
{
    lemma_encoder_any_chunks(sender, encoding, chunks);
    lemma_round_trip(sender, receiver, encoding, text);
}

/// True when the first `len` bytes of `wire` decode cleanly, or are none.
pub open spec fn clean_to(encoding: PaneEncoding, wire: Seq<u8>, len: int) -> bool {
    len == 0 || (0 < len <= wire.len() && strict_decoding(encoding, wire.take(len)) is Some)
}

/// The end of the longest clean prefix of `wire` that ends at `pos` or
/// before it.
pub open spec fn last_clean(encoding: PaneEncoding, wire: Seq<u8>, pos: nat) -> nat
    decreases pos,
{
    if pos == 0 {
        0
    } else if clean_to(encoding, wire, pos as int) {
        pos
    } else {
        last_clean(encoding, wire, (pos - 1) as nat)
    }
}

/// The UTF-8 of the text that the bytes of `wire` from `from` to `to` decode
/// to.
pub open spec fn stretch(encoding: PaneEncoding, wire: Seq<u8>, from: int, to: int) -> Seq<u8> {
    if from >= to {
        Seq::empty()
    } else {
        encode_utf8(strict_decoding(encoding, wire.subrange(from, to))->0)
    }
}

/// True when the codec decodes `wire` character by character: all of it
/// decodes cleanly; from the end of a clean prefix on, a stretch decodes
/// cleanly just where it ends a clean prefix; the texts of two such
/// stretches in a row are the text of both; and no character is longer than
/// the decoder's reach.
pub open spec fn by_characters(encoding: PaneEncoding, wire: Seq<u8>) -> bool {
    &&& clean_to(encoding, wire, wire.len() as int)
    &&& forall|from: int, to: int|
        0 <= from < to <= wire.len() && clean_to(encoding, wire, from) ==> (strict_decoding(
            encoding,
            #[trigger] wire.subrange(from, to),
        ) is Some <==> clean_to(encoding, wire, to))
    &&& forall|from: int, mid: int, to: int|
        0 <= from <= mid <= to <= wire.len() && clean_to(encoding, wire, from) && clean_to(
            encoding,
            wire,
            mid,
        ) && clean_to(encoding, wire, to) ==> #[trigger] stretch(encoding, wire, from, mid)
            + #[trigger] stretch(encoding, wire, mid, to) == stretch(encoding, wire, from, to)
    &&& forall|pos: nat|
        pos <= wire.len() ==> pos - #[trigger] last_clean(encoding, wire, pos) < 4
}

/// The longest clean prefix up to `pos` is clean, and no longer one up to
/// `pos` is.
proof fn lemma_last_clean(encoding: PaneEncoding, wire: Seq<u8>, pos: nat)
    requires
        pos <= wire.len(),
    ensures
        last_clean(encoding, wire, pos) <= pos,
        clean_to(encoding, wire, last_clean(encoding, wire, pos) as int),
        forall|longer: int|
            last_clean(encoding, wire, pos) < longer <= pos ==> !clean_to(encoding, wire, longer),
    decreases pos,
{
    if pos > 0 && !clean_to(encoding, wire, pos as int) {
        lemma_last_clean(encoding, wire, (pos - 1) as nat);
    }
}

/// The bytes of the chunks in a row are as many as the bytes of the chunks.
proof fn lemma_joined_front(chunks: Seq<Seq<u8>>)
    requires
        chunks.len() > 0,
    ensures
        joined(chunks) == joined(chunks.drop_last()) + chunks.last(),
        joined(chunks.drop_last()).len() <= joined(chunks).len(),
        joined(chunks).take(joined(chunks.drop_last()).len() as int) == joined(
            chunks.drop_last(),
        ),
{
    assert(joined(chunks).take(joined(chunks.drop_last()).len() as int) =~= joined(
        chunks.drop_last(),
    ));
}

/// How far a decoder has come after the first chunks of a wire that the
/// codec decodes character by character: it has emitted the text up to the
/// last clean prefix, and holds the bytes behind it.
proof fn lemma_decoder_so_far(
    pre: Stream,
    encoding: PaneEncoding,
    wire: Seq<u8>,
    chunks: Seq<Seq<u8>>,
)
    requires
        encoding.legacy(),
        at_rest(pre, encoding),
        plain(wire),
        by_characters(encoding, wire),
        joined(chunks).len() <= wire.len(),
        wire.take(joined(chunks).len() as int) == joined(chunks),
    ensures
        ({
            let now = fed(Direction::Inbound, pre, encoding, chunks);
            let pos = joined(chunks).len();
            let clean = last_clean(encoding, wire, pos);
            let stream = adopt(now.stream, encoding);
            &&& now.output == stretch(encoding, wire, 0, clean as int)
            &&& stream.state == EscapeState::Ground
            &&& stream.escape.len() == 0
            &&& stream.pending == wire.subrange(clean as int, pos as int)
        }),
    decreases chunks.len(),
{
    if chunks.len() == 0 {
        assert(wire.subrange(0, 0) =~= Seq::<u8>::empty());
        assert(adopt(pre, encoding).pending =~= Seq::<u8>::empty());
    } else {
        let front = chunks.drop_last();
        let chunk = chunks.last();
        lemma_joined_front(chunks);
        let old_pos = joined(front).len();
        let pos = joined(chunks).len();
        assert(wire.take(old_pos as int) =~= joined(chunks).take(old_pos as int));
        lemma_decoder_so_far(pre, encoding, wire, front);
        let before = fed(Direction::Inbound, pre, encoding, front);
        let old_clean = last_clean(encoding, wire, old_pos);
        let clean = last_clean(encoding, wire, pos);
        lemma_last_clean(encoding, wire, old_pos);
        lemma_last_clean(encoding, wire, pos);
        let taken = adopt(before.stream, encoding);
        lemma_empty_chunk(Direction::Inbound, encoding, before.stream);
        if chunk.len() == 0 {
            assert(chunk =~= Seq::<u8>::empty());
            assert(before.output + Seq::<u8>::empty() =~= before.output);
        } else {
            let held = taken.pending + chunk;
            assert(wire.subrange(old_pos as int, pos as int) =~= wire.take(pos as int).skip(
                old_pos as int,
            ));
            assert((joined(front) + chunk).skip(old_pos as int) =~= chunk);
            assert(chunk =~= wire.subrange(old_pos as int, pos as int));
            assert(held =~= wire.subrange(old_clean as int, pos as int));
            assert(plain(chunk));
            let reach = clean - old_clean;
            assert(old_clean <= clean);
            assert(held.take(reach) =~= wire.subrange(old_clean as int, clean as int));
            assert forall|longer: int| reach < longer <= held.len() implies strict_decoding(
                encoding,
                #[trigger] held.take(longer),
            ) is None by {
                assert(held.take(longer) =~= wire.subrange(
                    old_clean as int,
                    old_clean + longer,
                ));
                assert(!clean_to(encoding, wire, old_clean + longer));
            }
            lemma_inbound_call(before.stream, encoding, chunk, reach);
            assert(held.skip(reach) =~= wire.subrange(clean as int, pos as int));
            assert(clean_text(encoding, held.take(reach)) == stretch(
                encoding,
                wire,
                old_clean as int,
                clean as int,
            ));
            assert(stretch(encoding, wire, 0, old_clean as int) + stretch(
                encoding,
                wire,
                old_clean as int,
                clean as int,
            ) == stretch(encoding, wire, 0, clean as int));
        }
    }
}

/// However the bytes from the far end are cut into chunks, even inside
/// characters, a decoder at rest emits in all the text they stand for, and
/// is at rest again, where the codec decodes them character by character.
/// The law leaves out the bytes that hold an introducer.
pub proof fn lemma_decoder_any_chunks(
    pre: Stream,
    encoding: PaneEncoding,
    wire: Seq<u8>,
    chunks: Seq<Seq<u8>>,
)
    requires
        encoding.legacy(),
        at_rest(pre, encoding),
        plain(wire),
        by_characters(encoding, wire),
        chunks.len() > 0,
        joined(chunks) == wire,
    ensures
        fed(Direction::Inbound, pre, encoding, chunks).output == clean_text(encoding, wire),
        at_rest(fed(Direction::Inbound, pre, encoding, chunks).stream, encoding),
{
    assert(wire.take(wire.len() as int) =~= wire);
    lemma_decoder_so_far(pre, encoding, wire, chunks);
    lemma_last_clean(encoding, wire, wire.len());
    assert(wire.subrange(0, wire.len() as int) =~= wire);
    assert(wire.subrange(wire.len() as int, wire.len() as int) =~= Seq::<u8>::empty());
}

/// The round trip in general: text that the codec can represent and
/// decodes character by character, sent in chunks cut anywhere and received
/// in chunks cut anywhere else, comes back as it was sent, and leaves both
/// sides at rest. The law leaves out the texts that hold an introducer on
/// either side.
pub proof fn lemma_round_trip_any_chunks(
    sender: Stream,
    receiver: Stream,
    encoding: PaneEncoding,
    text: Seq<char>,
    sent: Seq<Seq<u8>>,
    received: Seq<Seq<u8>>,
)
    requires
        encoding.legacy(),
        at_rest(sender, encoding),
        at_rest(receiver, encoding),
        representable(encoding, text),
        by_characters(encoding, encoded_text(encoding, text)),
        plain(encode_utf8(text)),
        plain(encoded_text(encoding, text)),
        sent.len() > 0,
        received.len() > 0,
        joined(sent) == encode_utf8(text),
        joined(received) == fed(Direction::Outbound, sender, encoding, sent).output,
    ensures
        fed(Direction::Inbound, receiver, encoding, received).output == encode_utf8(text),
        at_rest(fed(Direction::Outbound, sender, encoding, sent).stream, encoding),
        at_rest(fed(Direction::Inbound, receiver, encoding, received).stream, encoding),
{
    let wire = encoded_text(encoding, text);
    lemma_round_trip_any_sending(sender, receiver, encoding, text, sent);
    lemma_decoder_any_chunks(receiver, encoding, wire, received);
    if text.len() == 0 {
        assert(encode_utf8(text) =~= Seq::<u8>::empty());
    }
}

} // verus!
