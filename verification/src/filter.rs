//! The streaming filter that both directions share.
//!
//! A chunk is cut into text runs and control sequences by the recognizer.
//! Control sequences are copied out whole, as soon as they end. Text runs
//! go through the codec of the direction. What a chunk leaves unfinished,
//! be it a control sequence or a character, stays in the filter until a
//! later chunk ends it.

use crate::bytes::{append, slice_between};
use crate::codec::{unfinished_scalar, MAX_CODEC_INPUT};
use crate::encoding::{PaneEncoding, MAX_TRAILING_ENCODED_BYTES, MAX_TRAILING_UTF8_BYTES};
use crate::escape::{advance_escape, next_state, EscapeState};
use crate::inbound::{decode_run, decode_text};
use crate::outbound::{encode_run, encode_text, RunResult};
use vstd::prelude::*;

verus! {

/// Which way the text travels.
#[derive(Debug, Copy, Clone, PartialEq, Eq, Structural)]
pub enum Direction {
    /// From the operator to the far end: UTF-8 in, legacy bytes out.
    Outbound,
    /// From the far end to the screen: legacy bytes in, UTF-8 out.
    Inbound,
}

/// What a filter holds between two chunks.
pub struct Stream {
    /// The encoding of the last chunk, if there was one.
    pub encoding: Option<PaneEncoding>,
    /// Where the recognizer stands.
    pub state: EscapeState,
    /// The bytes of the control sequence that has begun and not ended.
    pub escape: Seq<u8>,
    /// The bytes of the character that has begun and not ended.
    pub pending: Seq<u8>,
}

/// How far a chunk has been worked through.
pub struct Scan {
    pub state: EscapeState,
    pub escape: Seq<u8>,
    pub pending: Seq<u8>,
    /// The text seen since the last control sequence, not converted yet.
    pub run: Seq<u8>,
    /// Everything emitted for this chunk so far.
    pub output: Seq<u8>,
}

/// What a call comes to: the filter afterwards, and the bytes returned.
pub struct Transcoded {
    pub stream: Stream,
    pub output: Seq<u8>,
}

/// A filter that has seen nothing yet.
pub open spec fn fresh() -> Stream {
    Stream {
        encoding: None,
        state: EscapeState::Ground,
        escape: Seq::empty(),
        pending: Seq::empty(),
    }
}

/// The most bytes of an unfinished character a filter ever carries.
pub open spec fn carry_limit(direction: Direction) -> nat {
    match direction {
        Direction::Outbound => MAX_TRAILING_UTF8_BYTES as nat,
        Direction::Inbound => MAX_TRAILING_ENCODED_BYTES as nat,
    }
}

/// What holds of a filter between any two calls: it carries no more of an
/// unfinished character than its direction allows, on the way out nothing
/// but the beginning of one scalar, and in plain text it holds no bytes of
/// a control sequence.
pub open spec fn well_formed(direction: Direction, stream: Stream) -> bool {
    &&& stream.pending.len() <= carry_limit(direction)
    &&& direction == Direction::Outbound ==> stream.pending.len() == 0 || unfinished_scalar(
        stream.pending,
    )
    &&& stream.state == EscapeState::Ground ==> stream.escape.len() == 0
}

/// What a text run comes to in the given direction.
pub open spec fn text_run(direction: Direction, encoding: PaneEncoding, bytes: Seq<u8>) -> RunResult {
    match direction {
        Direction::Outbound => encode_run(encoding, bytes),
        Direction::Inbound => decode_run(encoding, bytes),
    }
}

/// The filter as a call with `encoding` finds it: unchanged under the
/// encoding it had, and empty under any other.
pub open spec fn adopt(pre: Stream, encoding: PaneEncoding) -> Stream {
    if pre.encoding == Some(encoding) {
        pre
    } else {
        Stream { encoding: Some(encoding), ..fresh() }
    }
}

/// The beginning of a chunk.
pub open spec fn begin(start: Stream) -> Scan {
    Scan {
        state: start.state,
        escape: start.escape,
        pending: start.pending,
        run: Seq::empty(),
        output: Seq::empty(),
    }
}

/// Converts the text run that has gathered, if any.
pub open spec fn flush(direction: Direction, encoding: PaneEncoding, scan: Scan) -> Scan {
    if scan.run.len() == 0 {
        scan
    } else {
        let converted = text_run(direction, encoding, scan.pending + scan.run);
        Scan {
            pending: converted.carry,
            run: Seq::empty(),
            output: scan.output + converted.output,
            ..scan
        }
    }
}

/// Takes one byte of the chunk.
///
/// In plain text a byte either joins the run or, if it introduces a control
/// sequence, ends the run. Inside a control sequence a byte joins the
/// sequence, and the byte that ends the sequence releases it to the output.
pub open spec fn step(direction: Direction, encoding: PaneEncoding, scan: Scan, byte: u8) -> Scan {
    let next = next_state(scan.state, byte);
    if scan.state == EscapeState::Ground {
        if next == EscapeState::Ground {
            Scan { run: scan.run.push(byte), ..scan }
        } else {
            Scan { state: next, escape: seq![byte], ..flush(direction, encoding, scan) }
        }
    } else if next == EscapeState::Ground {
        Scan {
            state: next,
            escape: Seq::empty(),
            output: scan.output + scan.escape.push(byte),
            ..scan
        }
    } else {
        Scan { state: next, escape: scan.escape.push(byte), ..scan }
    }
}

/// Takes all of `data`, byte by byte.
pub open spec fn scan_bytes(
    direction: Direction,
    encoding: PaneEncoding,
    start: Scan,
    data: Seq<u8>,
) -> Scan
    decreases data.len(),
{
    if data.len() == 0 {
        start
    } else {
        step(
            direction,
            encoding,
            scan_bytes(direction, encoding, start, data.drop_last()),
            data.last(),
        )
    }
}

/// What one call comes to.
///
/// A change of encoding empties the filter first. With no legacy encoding
/// the chunk is returned as it came. Otherwise the chunk is scanned, and the
/// text run still open at its end is converted.
pub open spec fn transcoded(
    direction: Direction,
    pre: Stream,
    encoding: PaneEncoding,
    data: Seq<u8>,
) -> Transcoded {
    let start = adopt(pre, encoding);
    if !encoding.legacy() {
        Transcoded { stream: start, output: data }
    } else {
        let end = flush(direction, encoding, scan_bytes(direction, encoding, begin(start), data));
        Transcoded {
            stream: Stream {
                encoding: Some(encoding),
                state: end.state,
                escape: end.escape,
                pending: end.pending,
            },
            output: end.output,
        }
    }
}

/// The longest chunk an inbound filter takes in one call.
pub open spec fn max_chunk() -> nat {
    (MAX_CODEC_INPUT - MAX_TRAILING_ENCODED_BYTES) as nat
}

/// The longest chunk an inbound filter takes in one call.
pub fn max_chunk_len() -> (limit: usize)
    ensures
        limit == max_chunk(),
{
    MAX_CODEC_INPUT - MAX_TRAILING_ENCODED_BYTES
}

/// Converts one text run in the given direction.
pub fn convert_run(
    direction: Direction,
    encoding: PaneEncoding,
    pending: &mut Vec<u8>,
    run: &[u8],
    output: &mut Vec<u8>,
)
    requires
        direction == Direction::Inbound ==> old(pending).len() + run.len() <= MAX_CODEC_INPUT,
    ensures
        final(pending)@ == text_run(direction, encoding, old(pending)@ + run@).carry,
        final(output)@ == old(output)@ + text_run(direction, encoding, old(pending)@ + run@).output,
        final(pending).len() <= carry_limit(direction),
        direction == Direction::Outbound ==> final(pending)@.len() == 0 || unfinished_scalar(
            final(pending)@,
        ),
{
    match direction {
        Direction::Outbound => encode_text(encoding, pending, run, output),
        Direction::Inbound => decode_text(encoding, pending, run, output),
    }
}

/// The state both directions keep between chunks.
#[derive(Debug)]
pub(crate) struct EscapeFilter {
    encoding: Option<PaneEncoding>,
    state: EscapeState,
    escape_bytes: Vec<u8>,
    pending: Vec<u8>,
}

impl View for EscapeFilter {
    type V = Stream;

    closed spec fn view(&self) -> Stream {
        Stream {
            encoding: self.encoding,
            state: self.state,
            escape: self.escape_bytes@,
            pending: self.pending@,
        }
    }
}

impl EscapeFilter {
    /// A filter that has seen nothing yet.
    pub(crate) fn new() -> (filter: Self)
        ensures
            filter@ == fresh(),
    {
        EscapeFilter {
            encoding: None,
            state: EscapeState::Ground,
            escape_bytes: Vec::new(),
            pending: Vec::new(),
        }
    }

    /// Empties the filter, unless `encoding` is the one it had.
    fn adopt(&mut self, encoding: PaneEncoding)
        ensures
            final(self)@ == adopt(old(self)@, encoding),
    {
        let same = match self.encoding {
            Some(current) => current == encoding,
            None => false,
        };
        if !same {
            self.encoding = Some(encoding);
            self.state = EscapeState::Ground;
            self.escape_bytes.clear();
            self.pending.clear();
        }
    }

    /// Takes one chunk and returns what it comes to.
    pub(crate) fn transcode(&mut self, direction: Direction, encoding: PaneEncoding, data: &[u8]) -> (out:
        Vec<u8>)
        requires
            well_formed(direction, old(self)@),
            encoding.legacy() && direction == Direction::Inbound ==> data.len() <= max_chunk(),
        ensures
            final(self)@ == transcoded(direction, old(self)@, encoding, data@).stream,
            out@ == transcoded(direction, old(self)@, encoding, data@).output,
            well_formed(direction, final(self)@),
    {
        self.adopt(encoding);
        let mut output: Vec<u8> = Vec::with_capacity(data.len());
        if !encoding.is_legacy() {
            append(&mut output, data);
            return output;
        }
        let ghost start = begin(self@);
        let mut text_start: usize = 0;
        let mut idx: usize = 0;
        while idx < data.len()
            invariant
                encoding.legacy(),
                direction == Direction::Inbound ==> data.len() <= max_chunk(),
                idx <= data.len(),
                self.encoding == Some(encoding),
                self.pending.len() <= carry_limit(direction),
                direction == Direction::Outbound ==> self.pending@.len() == 0 || unfinished_scalar(
                    self.pending@,
                ),
                self.state == EscapeState::Ground ==> self.escape_bytes@.len() == 0,
                self.state == EscapeState::Ground ==> text_start <= idx,
                ({
                    let now = scan_bytes(direction, encoding, start, data@.take(idx as int));
                    &&& now.state == self.state
                    &&& now.escape == self.escape_bytes@
                    &&& now.pending == self.pending@
                    &&& now.output == output@
                    &&& now.run == if self.state == EscapeState::Ground {
                        data@.subrange(text_start as int, idx as int)
                    } else {
                        Seq::empty()
                    }
                }),
            decreases data.len() - idx,
        {
            let byte = data[idx];
            assert(data@.take(idx + 1).drop_last() =~= data@.take(idx as int));
            let next = advance_escape(self.state, byte);
            match self.state {
                EscapeState::Ground => {
                    if next != EscapeState::Ground {
                        if idx > text_start {
                            let run = slice_between(data, text_start, idx);
                            convert_run(direction, encoding, &mut self.pending, run, &mut output);
                        }
                        self.escape_bytes.clear();
                        self.escape_bytes.push(byte);
                        self.state = next;
                        text_start = idx + 1;
                    }
                },
                _ => {
                    self.escape_bytes.push(byte);
                    self.state = next;
                    if next == EscapeState::Ground {
                        append(&mut output, self.escape_bytes.as_slice());
                        self.escape_bytes.clear();
                        text_start = idx + 1;
                    }
                },
            }
            idx = idx + 1;
        }
        assert(data@.take(idx as int) =~= data@);
        if self.state == EscapeState::Ground && text_start < data.len() {
            let run = slice_between(data, text_start, data.len());
            convert_run(direction, encoding, &mut self.pending, run, &mut output);
        }
        output
    }
}

} // verus!
