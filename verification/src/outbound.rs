//! Text runs on their way out: UTF-8 from the operator, turned into the
//! legacy encoding of the far end.

use crate::bytes::{append, slice_between};
use crate::codec::{
    check_utf8, codec_encode_scalar, describes, error_len_of, is_cut_short, longest_valid,
    scalar_encoding, unfinished_scalar, valid_prefix_len, Utf8Defect,
};
use crate::encoding::{PaneEncoding, MAX_TRAILING_UTF8_BYTES};
use vstd::prelude::*;
use vstd::utf8::{
    decode_utf8, encode_scalar, encode_utf8, encode_utf8_decode_utf8, encode_utf8_first_scalar,
    encode_utf8_valid_utf8, valid_utf8,
};

verus! {

/// The byte written in place of an invalid UTF-8 sequence, and in place of
/// a scalar that the encoding lacks.
pub const REPLACEMENT_BYTE: u8 = 0x3f;

/// What a text run comes to: the bytes to emit now, and the unfinished tail
/// to carry into the next run.
pub struct RunResult {
    pub output: Seq<u8>,
    pub carry: Seq<u8>,
}

/// The bytes that stand for the scalar `c` in a legacy encoding: an ASCII
/// scalar is its own byte, any other is what the codec gives for it, or one
/// replacement byte where the encoding lacks it.
pub open spec fn encoded_scalar(encoding: PaneEncoding, c: char) -> Seq<u8> {
    if (c as u32) < 0x80 {
        seq![c as u8]
    } else {
        match scalar_encoding(encoding, c) {
            Some(bytes) => bytes,
            None => seq![REPLACEMENT_BYTE],
        }
    }
}

/// The bytes that stand for `text` in a legacy encoding: those of its
/// scalars, one after the other.
pub open spec fn legacy_text(encoding: PaneEncoding, text: Seq<char>) -> Seq<u8>
    decreases text.len(),
{
    if text.len() == 0 {
        Seq::empty()
    } else {
        legacy_text(encoding, text.drop_last()) + encoded_scalar(encoding, text.last())
    }
}

/// The bytes that stand for `text` in `encoding`.
pub open spec fn encoded_text(encoding: PaneEncoding, text: Seq<char>) -> Seq<u8> {
    if encoding.legacy() {
        legacy_text(encoding, text)
    } else {
        encode_utf8(text)
    }
}

/// The number of bytes in the UTF-8 encoding of a scalar, read off its
/// first byte.
pub open spec fn width_of(lead: u8) -> int {
    if lead < 0x80 {
        1
    } else if lead < 0xe0 {
        2
    } else if lead < 0xf0 {
        3
    } else {
        4
    }
}

/// The encoding of the longest valid prefix of `bytes`.
pub open spec fn encoded_head(encoding: PaneEncoding, bytes: Seq<u8>) -> Seq<u8> {
    let valid = valid_prefix_len(bytes) as int;
    if valid > 0 {
        encoded_text(encoding, decode_utf8(bytes.subrange(0, valid)))
    } else {
        Seq::empty()
    }
}

/// What an outbound text run comes to.
///
/// Valid UTF-8 is encoded whole. Otherwise the longest valid prefix is
/// encoded, and what follows it decides: a scalar that the end of the run
/// cut short is carried, an invalid sequence becomes one replacement byte
/// and the rest of the run is treated the same way. (The last branch is
/// never taken: the length of an invalid sequence lies inside the run.)
pub open spec fn encode_run(encoding: PaneEncoding, bytes: Seq<u8>) -> RunResult
    decreases bytes.len(),
{
    if bytes.len() == 0 {
        RunResult { output: Seq::empty(), carry: Seq::empty() }
    } else if valid_utf8(bytes) {
        RunResult { output: encoded_text(encoding, decode_utf8(bytes)), carry: Seq::empty() }
    } else {
        let valid = valid_prefix_len(bytes) as int;
        let head = encoded_head(encoding, bytes);
        match error_len_of(bytes) {
            None => RunResult { output: head, carry: bytes.skip(valid) },
            Some(n) => {
                let resume = valid + n;
                if valid < resume <= bytes.len() {
                    let rest = encode_run(encoding, bytes.skip(resume));
                    RunResult {
                        output: head.push(REPLACEMENT_BYTE) + rest.output,
                        carry: rest.carry,
                    }
                } else {
                    RunResult { output: head.push(REPLACEMENT_BYTE), carry: Seq::empty() }
                }
            },
        }
    }
}

/// The longest valid prefix is valid, no longer than its limit, and no
/// longer prefix within the limit is valid.
pub proof fn lemma_longest_valid(bytes: Seq<u8>, limit: nat)
    requires
        limit <= bytes.len(),
    ensures
        longest_valid(bytes, limit) <= limit,
        valid_utf8(bytes.subrange(0, longest_valid(bytes, limit) as int)),
        forall|j: int|
            longest_valid(bytes, limit) < j <= limit ==> !valid_utf8(
                #[trigger] bytes.subrange(0, j),
            ),
    decreases limit,
{
    if limit == 0 {
    } else if valid_utf8(bytes.subrange(0, limit as int)) {
    } else {
        lemma_longest_valid(bytes, (limit - 1) as nat);
    }
}

/// What a valid run comes to.
proof fn lemma_valid_step(encoding: PaneEncoding, rest: Seq<u8>)
    requires
        valid_utf8(rest),
        rest.len() > 0,
    ensures
        encode_run(encoding, rest) == (RunResult {
            output: encoded_text(encoding, decode_utf8(rest)),
            carry: Seq::empty(),
        }),
{
}

/// An unfinished scalar is one to three bytes long.
pub proof fn lemma_unfinished_short(tail: Seq<u8>)
    requires
        unfinished_scalar(tail),
    ensures
        1 <= tail.len() <= MAX_TRAILING_UTF8_BYTES,
{
    let c = choose|c: char| is_cut_short(tail, c);
    lemma_encode_one(c);
}

/// The invalid sequence behind the valid prefix of an invalid run is at
/// least one byte long and lies inside the run.
pub proof fn lemma_invalid_len_fits(bytes: Seq<u8>)
    requires
        !valid_utf8(bytes),
    ensures
        valid_prefix_len(bytes) < bytes.len(),
        error_len_of(bytes) matches Some(n) ==> 1 <= n && valid_prefix_len(bytes) + n
            <= bytes.len(),
{
    lemma_longest_valid(bytes, bytes.len());
    assert(bytes.subrange(0, bytes.len() as int) =~= bytes);
}

/// What an outbound run leaves behind is nothing, or the beginning of one
/// scalar: at most three bytes, which the next run may complete.
pub proof fn lemma_carry_unfinished(encoding: PaneEncoding, bytes: Seq<u8>)
    ensures
        encode_run(encoding, bytes).carry.len() == 0 || unfinished_scalar(
            encode_run(encoding, bytes).carry,
        ),
        encode_run(encoding, bytes).carry.len() <= MAX_TRAILING_UTF8_BYTES,
    decreases bytes.len(),
{
    if bytes.len() > 0 && !valid_utf8(bytes) {
        let valid = valid_prefix_len(bytes) as int;
        match error_len_of(bytes) {
            None => {
                lemma_unfinished_short(bytes.skip(valid));
            },
            Some(n) => {
                if valid < valid + n <= bytes.len() {
                    lemma_carry_unfinished(encoding, bytes.skip(valid + n));
                }
            },
        }
    }
}

/// What an outbound run leaves behind is the end of the run.
pub proof fn lemma_carry_is_tail(encoding: PaneEncoding, bytes: Seq<u8>) -> (from: int)
    ensures
        0 <= from <= bytes.len(),
        encode_run(encoding, bytes).carry == bytes.skip(from),
    decreases bytes.len(),
{
    if bytes.len() > 0 && !valid_utf8(bytes) {
        let valid = valid_prefix_len(bytes) as int;
        lemma_longest_valid(bytes, bytes.len());
        match error_len_of(bytes) {
            None => valid,
            Some(n) => {
                if valid < valid + n <= bytes.len() {
                    let behind = lemma_carry_is_tail(encoding, bytes.skip(valid + n));
                    assert(bytes.skip(valid + n).skip(behind) =~= bytes.skip(valid + n + behind));
                    valid + n + behind
                } else {
                    assert(bytes.skip(bytes.len() as int) =~= Seq::<u8>::empty());
                    bytes.len() as int
                }
            },
        }
    } else {
        assert(bytes.skip(bytes.len() as int) =~= Seq::<u8>::empty());
        bytes.len() as int
    }
}

/// What an invalid run comes to, given what the validator reports of it.
proof fn lemma_defect_step(encoding: PaneEncoding, rest: Seq<u8>, defect: Utf8Defect)
    requires
        !valid_utf8(rest),
        describes(defect, rest),
    ensures
        defect.valid_up_to < rest.len(),
        valid_utf8(rest.subrange(0, defect.valid_up_to as int)),
        defect.error_len is None ==> encode_run(encoding, rest) == (RunResult {
            output: encoded_head(encoding, rest),
            carry: rest.skip(defect.valid_up_to as int),
        }) && rest.len() - defect.valid_up_to <= MAX_TRAILING_UTF8_BYTES && unfinished_scalar(
            rest.skip(defect.valid_up_to as int),
        ),
        defect.error_len matches Some(n) ==> {
            let behind = encode_run(encoding, rest.skip(defect.valid_up_to + n));
            &&& 1 <= n
            &&& defect.valid_up_to + n <= rest.len()
            &&& encode_run(encoding, rest).carry == behind.carry
            &&& encode_run(encoding, rest).output == encoded_head(encoding, rest).push(
                REPLACEMENT_BYTE,
            ) + behind.output
        },
{
    lemma_longest_valid(rest, rest.len());
    assert(rest.subrange(0, rest.len() as int) =~= rest);
    let tail = rest.skip(defect.valid_up_to as int);
    if unfinished_scalar(tail) {
        lemma_unfinished_short(tail);
    }
}

/// The number of bytes in the UTF-8 encoding of a scalar, read off its
/// first byte.
pub fn scalar_width(lead: u8) -> (width: usize)
    ensures
        width == width_of(lead),
{
    if lead < 0x80 {
        1
    } else if lead < 0xe0 {
        2
    } else if lead < 0xf0 {
        3
    } else {
        4
    }
}

/// The encoding of one scalar, taken alone.
pub proof fn lemma_encode_one(c: char)
    ensures
        encode_utf8(seq![c]) == encode_scalar(c as u32),
        1 <= encode_utf8(seq![c]).len() <= 4,
        encode_utf8(seq![c]).len() == width_of(encode_utf8(seq![c])[0]),
{
    encode_utf8_first_scalar(seq![c]);
    assert(seq![c].drop_first() =~= Seq::<char>::empty());
    assert(encode_utf8(Seq::<char>::empty()) =~= Seq::<u8>::empty());
    assert(encode_utf8(seq![c]) =~= encode_scalar(c as u32));
}

/// The encoding of a text begins with the encoding of its first scalar,
/// and the encoding of the other scalars follows.
pub proof fn lemma_encode_first(text: Seq<char>)
    requires
        text.len() > 0,
    ensures
        encode_utf8(text) == encode_utf8(seq![text[0]]) + encode_utf8(text.drop_first()),
{
    lemma_encode_one(text[0]);
}

/// Where the scalar number `done` of `text` lies in the encoding of the
/// text, given where it begins: its width is read off its first byte, its
/// bytes are its own encoding, and the rest of the text follows it.
proof fn lemma_next_scalar(text: Seq<char>, done: int, bytes: Seq<u8>, at: int)
    requires
        0 <= done <= text.len(),
        0 <= at < bytes.len(),
        bytes.skip(at) == encode_utf8(text.skip(done)),
    ensures
        done < text.len(),
        at + width_of(bytes[at]) <= bytes.len(),
        bytes.subrange(at, at + width_of(bytes[at])) == encode_utf8(seq![text[done]]),
        bytes.skip(at + width_of(bytes[at])) == encode_utf8(text.skip(done + 1)),
{
    let rest = text.skip(done);
    let tail = bytes.skip(at);
    assert(tail.len() > 0);
    assert(rest.len() > 0);
    lemma_encode_first(rest);
    lemma_encode_one(rest[0]);
    let one = encode_utf8(seq![rest[0]]);
    assert(rest.drop_first() =~= text.skip(done + 1));
    assert(tail[0] == one[0]);
    assert(tail[0] == bytes[at]);
    assert(tail.len() == one.len() + encode_utf8(text.skip(done + 1)).len());
    assert(bytes.subrange(at, at + one.len()) =~= tail.subrange(0, one.len() as int));
    assert(tail.subrange(0, one.len() as int) =~= one);
    assert(bytes.skip(at + one.len()) =~= tail.skip(one.len() as int));
    assert(tail.skip(one.len() as int) =~= encode_utf8(text.skip(done + 1)));
}

/// Appends the encoding of `text` to `output`, scalar by scalar: what the
/// codec gives for a scalar, or one replacement byte where the encoding
/// lacks it.
pub fn push_encoded(encoding: PaneEncoding, text: &str, output: &mut Vec<u8>)
    ensures
        final(output)@ == old(output)@ + encoded_text(encoding, text@),
{
    let bytes = text.as_bytes();
    if !encoding.is_legacy() {
        append(output, bytes);
        return ;
    }
    let mut at: usize = 0;
    let ghost mut done: int = 0;
    proof {
        assert(bytes@.skip(0) =~= bytes@);
        assert(text@.skip(0) =~= text@);
        assert(text@.take(0) =~= Seq::<char>::empty());
        assert(output@ =~= old(output)@ + legacy_text(encoding, text@.take(0)));
    }
    while at < bytes.len()
        invariant
            encoding.legacy(),
            bytes@ == encode_utf8(text@),
            at <= bytes.len(),
            0 <= done <= text@.len(),
            bytes@.skip(at as int) == encode_utf8(text@.skip(done)),
            output@ == old(output)@ + legacy_text(encoding, text@.take(done)),
        decreases bytes.len() - at,
    {
        let width = scalar_width(bytes[at]);
        proof {
            lemma_next_scalar(text@, done, bytes@, at as int);
            encode_utf8_valid_utf8(seq![text@[done]]);
            encode_utf8_decode_utf8(seq![text@[done]]);
        }
        let piece = slice_between(bytes, at, at + width);
        if let Ok(scalar) = check_utf8(piece) {
            match codec_encode_scalar(encoding, scalar) {
                Some(encoded) => append(output, encoded.as_slice()),
                None => output.push(REPLACEMENT_BYTE),
            }
        }
        proof {
            assert(text@.take(done + 1).drop_last() =~= text@.take(done));
            assert(text@.take(done + 1).last() == text@[done]);
            assert(output@ =~= old(output)@ + legacy_text(encoding, text@.take(done + 1)));
            done = done + 1;
        }
        at = at + width;
    }
    proof {
        assert(text@.skip(done).len() == 0) by {
            if text@.skip(done).len() > 0 {
                lemma_encode_first(text@.skip(done));
                lemma_encode_one(text@.skip(done)[0]);
            }
        }
        assert(text@.take(done) =~= text@);
    }
}

/// Deals with what follows the valid prefix of an invalid run, where the
/// prefix ends at `at`. An unfinished scalar is carried, and the run is
/// over. An invalid sequence becomes one replacement byte, and the run goes
/// on at the index returned.
pub fn skip_defect(
    buf: &[u8],
    at: usize,
    error_len: Option<usize>,
    pending: &mut Vec<u8>,
    output: &mut Vec<u8>,
) -> (resume: Option<usize>)
    requires
        at <= buf.len(),
        error_len matches Some(n) ==> at + n <= buf.len(),
    ensures
        error_len is None ==> resume is None && final(pending)@ == old(pending)@ + buf@.skip(
            at as int,
        ) && final(output)@ == old(output)@,
        error_len matches Some(n) ==> resume == Some((at + n) as usize) && final(pending)@ == old(
            pending,
        )@ && final(output)@ == old(output)@.push(REPLACEMENT_BYTE),
{
    match error_len {
        None => {
            append(pending, slice_between(buf, at, buf.len()));
            None
        },
        Some(n) => {
            output.push(REPLACEMENT_BYTE);
            Some(at + n)
        },
    }
}

/// Encodes one text run. The bytes carried from the run before come first;
/// what this run leaves unfinished is carried in turn.
pub fn encode_text(
    encoding: PaneEncoding,
    pending: &mut Vec<u8>,
    text: &[u8],
    output: &mut Vec<u8>,
)
    ensures
        final(pending)@ == encode_run(encoding, old(pending)@ + text@).carry,
        final(output)@ == old(output)@ + encode_run(encoding, old(pending)@ + text@).output,
        final(pending).len() <= MAX_TRAILING_UTF8_BYTES,
        final(pending)@.len() == 0 || unfinished_scalar(final(pending)@),
{
    let mut buf: Vec<u8> = Vec::new();
    append(&mut buf, pending.as_slice());
    append(&mut buf, text);
    pending.clear();
    let ghost whole = buf@;
    let ghost before = output@;
    let mut cursor: usize = 0;
    assert(whole.skip(0) =~= whole);
    while cursor < buf.len()
        invariant
            buf@ == whole,
            whole == old(pending)@ + text@,
            cursor <= buf.len(),
            pending@.len() == 0,
            before == old(output)@,
            before + encode_run(encoding, whole).output == output@ + encode_run(
                encoding,
                whole.skip(cursor as int),
            ).output,
            encode_run(encoding, whole).carry == encode_run(
                encoding,
                whole.skip(cursor as int),
            ).carry,
        decreases buf.len() - cursor,
    {
        let rest = slice_between(buf.as_slice(), cursor, buf.len());
        let ghost so_far = output@;
        assert(rest@ == whole.skip(cursor as int));
        match check_utf8(rest) {
            Ok(valid) => {
                proof {
                    lemma_valid_step(encoding, rest@);
                }
                push_encoded(encoding, valid, output);
                return ;
            },
            Err(defect) => {
                let valid_len = defect.valid_up_to;
                proof {
                    lemma_defect_step(encoding, rest@, defect);
                }
                if valid_len > 0 {
                    let head = slice_between(rest, 0, valid_len);
                    if let Ok(valid) = check_utf8(head) {
                        push_encoded(encoding, valid, output);
                    }
                }
                assert(output@ == so_far + encoded_head(encoding, rest@));
                let at = cursor + valid_len;
                assert(whole.skip(at as int) =~= rest@.skip(valid_len as int));
                match skip_defect(buf.as_slice(), at, defect.error_len, pending, output) {
                    None => {
                        assert(pending@ =~= rest@.skip(valid_len as int));
                        return ;
                    },
                    Some(resume) => {
                        cursor = resume;
                        assert(whole.skip(cursor as int) =~= rest@.skip(
                            valid_len + defect.error_len->0,
                        ));
                        assert(output@ + encode_run(encoding, whole.skip(cursor as int)).output
                            =~= so_far + encode_run(encoding, rest@).output);
                    },
                }
            },
        }
    }
}

} // verus!
