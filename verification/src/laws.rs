//! What holds of the filter whatever the codecs do: control sequences are
//! opaque, chunk boundaries inside them are invisible, and a change of
//! encoding starts afresh.
//!
//! The statements are about the model in [`crate::filter`], which the
//! contracts of `encode` and `decode` are stated in. None of them depends
//! on a conversion table: each holds for every codec.

use crate::encoding::PaneEncoding;
use crate::escape::{is_control_sequence, is_open_sequence, run_state, EscapeState};
use crate::filter::{
    adopt, begin, flush, fresh, scan_bytes, step, transcoded, well_formed, Direction, Scan,
    Stream,
};
use vstd::prelude::*;

verus! {

/// The same progress through a chunk, with `prefix` emitted before it.
pub open spec fn with_output(scan: Scan, prefix: Seq<u8>) -> Scan {
    Scan { output: prefix + scan.output, ..scan }
}

/// What a scan in progress always satisfies: in plain text no control
/// sequence is held, and inside a control sequence no text run is open.
pub open spec fn settled(scan: Scan) -> bool {
    &&& scan.state == EscapeState::Ground ==> scan.escape.len() == 0
    &&& scan.state != EscapeState::Ground ==> scan.run.len() == 0
}

/// Scanning `first + second` is scanning `first`, then `second`.
pub proof fn lemma_scan_concat(
    direction: Direction,
    encoding: PaneEncoding,
    start: Scan,
    first: Seq<u8>,
    second: Seq<u8>,
)
    ensures
        scan_bytes(direction, encoding, start, first + second) == scan_bytes(
            direction,
            encoding,
            scan_bytes(direction, encoding, start, first),
            second,
        ),
    decreases second.len(),
{
    if second.len() == 0 {
    } else {
        assert((first + second).drop_last() =~= first + second.drop_last());
        lemma_scan_concat(direction, encoding, start, first, second.drop_last());
    }
}

/// A scan stays settled.
pub proof fn lemma_scan_settled(
    direction: Direction,
    encoding: PaneEncoding,
    start: Scan,
    data: Seq<u8>,
)
    requires
        settled(start),
    ensures
        settled(scan_bytes(direction, encoding, start, data)),
    decreases data.len(),
{
    if data.len() > 0 {
        lemma_scan_settled(direction, encoding, start, data.drop_last());
    }
}

/// What was emitted before a scan began comes first in what it emits, and
/// changes nothing else.
pub proof fn lemma_scan_shift(
    direction: Direction,
    encoding: PaneEncoding,
    start: Scan,
    prefix: Seq<u8>,
    data: Seq<u8>,
)
    ensures
        scan_bytes(direction, encoding, with_output(start, prefix), data) == with_output(
            scan_bytes(direction, encoding, start, data),
            prefix,
        ),
        flush(
            direction,
            encoding,
            scan_bytes(direction, encoding, with_output(start, prefix), data),
        ) == with_output(
            flush(direction, encoding, scan_bytes(direction, encoding, start, data)),
            prefix,
        ),
    decreases data.len(),
{
    if data.len() > 0 {
        lemma_scan_shift(direction, encoding, start, prefix, data.drop_last());
        let plain = scan_bytes(direction, encoding, start, data.drop_last());
        lemma_step_shift(direction, encoding, plain, prefix, data.last());
    }
    lemma_flush_shift(direction, encoding, scan_bytes(direction, encoding, start, data), prefix);
}

proof fn lemma_flush_shift(
    direction: Direction,
    encoding: PaneEncoding,
    scan: Scan,
    prefix: Seq<u8>,
)
    ensures
        flush(direction, encoding, with_output(scan, prefix)) == with_output(
            flush(direction, encoding, scan),
            prefix,
        ),
{
    let shifted = flush(direction, encoding, with_output(scan, prefix));
    let plain = with_output(flush(direction, encoding, scan), prefix);
    assert(shifted.output =~= plain.output);
}

proof fn lemma_step_shift(
    direction: Direction,
    encoding: PaneEncoding,
    scan: Scan,
    prefix: Seq<u8>,
    byte: u8,
)
    ensures
        step(direction, encoding, with_output(scan, prefix), byte) == with_output(
            step(direction, encoding, scan, byte),
            prefix,
        ),
{
    lemma_flush_shift(direction, encoding, scan, prefix);
    let shifted = step(direction, encoding, with_output(scan, prefix), byte);
    let plain = with_output(step(direction, encoding, scan, byte), prefix);
    assert(shifted.output =~= plain.output);
}

/// Inside a control sequence that began in plain text: the text before it
/// has been converted, and the bytes of the sequence so far are held.
pub proof fn lemma_open_sequence_scanned(
    direction: Direction,
    encoding: PaneEncoding,
    start: Scan,
    opened: Seq<u8>,
)
    requires
        start.state == EscapeState::Ground,
        is_open_sequence(opened),
    ensures
        scan_bytes(direction, encoding, start, opened) == (Scan {
            state: run_state(EscapeState::Ground, opened),
            escape: opened,
            ..flush(direction, encoding, start)
        }),
    decreases opened.len(),
{
    let front = opened.drop_last();
    assert(opened.take(opened.len() as int) =~= opened);
    if opened.len() == 1 {
        assert(scan_bytes(direction, encoding, start, front) == start);
        assert(seq![opened.last()] =~= opened);
    } else {
        assert(is_open_sequence(front)) by {
            assert forall|taken: int| 0 < taken <= front.len() implies run_state(
                EscapeState::Ground,
                #[trigger] front.take(taken),
            ) != EscapeState::Ground by {
                assert(front.take(taken) =~= opened.take(taken));
            }
        }
        lemma_open_sequence_scanned(direction, encoding, start, front);
        assert(front.push(opened.last()) =~= opened);
    }
}

/// A control sequence that begins in plain text ends the text run before
/// it, comes out whole, and leaves the filter in plain text.
pub proof fn lemma_sequence_scanned(
    direction: Direction,
    encoding: PaneEncoding,
    start: Scan,
    sequence: Seq<u8>,
)
    requires
        start.state == EscapeState::Ground,
        is_control_sequence(sequence),
    ensures
        scan_bytes(direction, encoding, start, sequence) == (Scan {
            state: EscapeState::Ground,
            escape: Seq::empty(),
            output: flush(direction, encoding, start).output + sequence,
            ..flush(direction, encoding, start)
        }),
{
    let front = sequence.drop_last();
    lemma_open_sequence_scanned(direction, encoding, start, front);
    assert(front.push(sequence.last()) =~= sequence);
}

/// A control sequence is opaque: wherever it stands in plain text, in
/// either direction and in any encoding, it comes out byte for byte, between
/// what the bytes before it come to and what the bytes after it come to.
/// The bytes on its two sides are converted as two separate calls would
/// convert them.
pub proof fn lemma_control_sequence_opaque(
    direction: Direction,
    encoding: PaneEncoding,
    pre: Stream,
    before: Seq<u8>,
    sequence: Seq<u8>,
    after: Seq<u8>,
)
    requires
        well_formed(direction, pre),
        is_control_sequence(sequence),
        encoding.legacy() ==> scan_bytes(
            direction,
            encoding,
            begin(adopt(pre, encoding)),
            before,
        ).state == EscapeState::Ground,
    ensures
        ({
            let whole = transcoded(direction, pre, encoding, before + sequence + after);
            let head = transcoded(direction, pre, encoding, before);
            let tail = transcoded(direction, head.stream, encoding, after);
            &&& whole.output == head.output + sequence + tail.output
            &&& whole.stream == tail.stream
        }),
{
    if encoding.legacy() {
        let start = begin(adopt(pre, encoding));
        let reached = scan_bytes(direction, encoding, start, before);
        let flushed = flush(direction, encoding, reached);
        let head = transcoded(direction, pre, encoding, before);
        let resumed = begin(head.stream);
        let emitted = flushed.output + sequence;
        lemma_scan_settled(direction, encoding, start, before);
        lemma_scan_concat(direction, encoding, start, before + sequence, after);
        lemma_scan_concat(direction, encoding, start, before, sequence);
        lemma_sequence_scanned(direction, encoding, reached, sequence);
        let passed = scan_bytes(direction, encoding, reached, sequence);
        assert(passed.escape =~= resumed.escape);
        assert(passed.run =~= resumed.run);
        lemma_scan_shift(direction, encoding, resumed, emitted, after);
    }
}

/// A chunk boundary inside a control sequence changes nothing: the two
/// chunks together emit what the one chunk would have emitted, and leave
/// the filter as it would have left it.
pub proof fn lemma_split_inside_sequence(
    direction: Direction,
    encoding: PaneEncoding,
    pre: Stream,
    first: Seq<u8>,
    second: Seq<u8>,
)
    requires
        well_formed(direction, pre),
        encoding.legacy(),
        scan_bytes(direction, encoding, begin(adopt(pre, encoding)), first).state
            != EscapeState::Ground,
    ensures
        ({
            let whole = transcoded(direction, pre, encoding, first + second);
            let head = transcoded(direction, pre, encoding, first);
            let tail = transcoded(direction, head.stream, encoding, second);
            &&& whole.output == head.output + tail.output
            &&& whole.stream == tail.stream
        }),
{
    let start = begin(adopt(pre, encoding));
    let reached = scan_bytes(direction, encoding, start, first);
    let head = transcoded(direction, pre, encoding, first);
    let resumed = begin(head.stream);
    lemma_scan_settled(direction, encoding, start, first);
    lemma_scan_concat(direction, encoding, start, first, second);
    assert(reached.run =~= resumed.run);
    lemma_scan_shift(direction, encoding, resumed, reached.output, second);
}

/// A control sequence that has begun and not ended is held back whole: the
/// call emits what the bytes before it come to and nothing of the sequence,
/// and the filter keeps every byte of it.
pub proof fn lemma_unfinished_sequence_held(
    direction: Direction,
    encoding: PaneEncoding,
    pre: Stream,
    before: Seq<u8>,
    opened: Seq<u8>,
)
    requires
        encoding.legacy(),
        is_open_sequence(opened),
        scan_bytes(direction, encoding, begin(adopt(pre, encoding)), before).state
            == EscapeState::Ground,
    ensures
        ({
            let whole = transcoded(direction, pre, encoding, before + opened);
            let head = transcoded(direction, pre, encoding, before);
            &&& whole.output == head.output
            &&& whole.stream.escape == opened
            &&& whole.stream.state == run_state(EscapeState::Ground, opened)
            &&& whole.stream.state != EscapeState::Ground
            &&& whole.stream.pending == head.stream.pending
        }),
{
    let start = begin(adopt(pre, encoding));
    let reached = scan_bytes(direction, encoding, start, before);
    lemma_scan_concat(direction, encoding, start, before, opened);
    lemma_open_sequence_scanned(direction, encoding, reached, opened);
}

/// A call on nothing emits nothing and keeps the filter as it took it up.
pub proof fn lemma_empty_chunk(direction: Direction, encoding: PaneEncoding, pre: Stream)
    ensures
        transcoded(direction, pre, encoding, Seq::empty()).output == Seq::<u8>::empty(),
        transcoded(direction, pre, encoding, Seq::empty()).stream == adopt(pre, encoding),
{
}

/// A call under another encoding than the last starts from nothing: what
/// the filter held is dropped, and the result is that of a filter that has
/// seen no chunk at all.
pub proof fn lemma_switch_resets(
    direction: Direction,
    pre: Stream,
    encoding: PaneEncoding,
    data: Seq<u8>,
)
    requires
        pre.encoding != Some(encoding),
    ensures
        transcoded(direction, pre, encoding, data) == transcoded(
            direction,
            fresh(),
            encoding,
            data,
        ),
{
}

/// With no legacy encoding a chunk comes out as it went in, and the filter
/// keeps nothing of it.
pub proof fn lemma_passthrough(direction: Direction, pre: Stream, data: Seq<u8>)
    ensures
        transcoded(direction, pre, PaneEncoding::Utf8, data).output == data,
        transcoded(direction, pre, PaneEncoding::Utf8, data).stream == adopt(
            pre,
            PaneEncoding::Utf8,
        ),
{
}

} // verus!
