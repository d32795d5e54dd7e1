//! The shapes of the control sequences the recognizer brackets.
//!
//! Each family of sequences a terminal knows is shown here to be one whole
//! control sequence in the recognizer's eyes: it leaves plain text at its
//! first byte and is back there at its last, not before.

use crate::escape::{
    is_control_sequence, is_final_byte, is_introducer, next_state, run_state, EscapeState, BEL,
    CSI, ESC,
};
use vstd::prelude::*;

verus! {

/// The recognizer takes `first + second` as it takes `first`, then
/// `second`.
pub proof fn lemma_run_concat(state: EscapeState, first: Seq<u8>, second: Seq<u8>)
    ensures
        run_state(state, first + second) == run_state(run_state(state, first), second),
    decreases second.len(),
{
    if second.len() == 0 {
    } else {
        assert((first + second).drop_last() =~= first + second.drop_last());
        lemma_run_concat(state, first, second.drop_last());
    }
}

/// Bytes that each leave the recognizer where it is leave it there together.
proof fn lemma_run_stays(inside: EscapeState, body: Seq<u8>)
    requires
        forall|i: int| 0 <= i < body.len() ==> next_state(inside, #[trigger] body[i]) == inside,
    ensures
        run_state(inside, body) == inside,
    decreases body.len(),
{
    if body.len() > 0 {
        let front = body.drop_last();
        assert forall|i: int| 0 <= i < front.len() implies next_state(inside, #[trigger] front[i])
            == inside by {
            assert(front[i] == body[i]);
        }
        lemma_run_stays(inside, front);
    }
}

proof fn lemma_run_one(state: EscapeState, byte: u8)
    ensures
        run_state(state, seq![byte]) == next_state(state, byte),
{
    assert(seq![byte].drop_last() =~= Seq::<u8>::empty());
    assert(run_state(state, Seq::<u8>::empty()) == state);
}

proof fn lemma_run_two(state: EscapeState, first: u8, second: u8)
    ensures
        run_state(state, seq![first, second]) == next_state(next_state(state, first), second),
        seq![first, second].take(1) == seq![first],
{
    assert(seq![first, second].drop_last() =~= seq![first]);
    lemma_run_one(state, first);
}

/// An opening that leaves plain text, a body that stays inside, and an
/// ending that returns to plain text at its last byte make one control
/// sequence.
proof fn lemma_bracketed(opening: Seq<u8>, inside: EscapeState, body: Seq<u8>, ending: Seq<u8>)
    requires
        opening.len() >= 1,
        is_introducer(opening[0]),
        inside != EscapeState::Ground,
        run_state(EscapeState::Ground, opening) == inside,
        forall|taken: int|
            0 < taken <= opening.len() ==> run_state(
                EscapeState::Ground,
                #[trigger] opening.take(taken),
            ) != EscapeState::Ground,
        forall|i: int| 0 <= i < body.len() ==> next_state(inside, #[trigger] body[i]) == inside,
        ending.len() >= 1,
        run_state(inside, ending) == EscapeState::Ground,
        forall|taken: int|
            0 < taken < ending.len() ==> run_state(inside, #[trigger] ending.take(taken))
                != EscapeState::Ground,
    ensures
        is_control_sequence(opening + body + ending),
{
    let whole = opening + body + ending;
    let open = whole.drop_last();
    lemma_run_stays(inside, body);
    lemma_run_concat(EscapeState::Ground, opening, body);
    lemma_run_concat(EscapeState::Ground, opening + body, ending);
    assert forall|taken: int| 0 < taken <= open.len() implies run_state(
        EscapeState::Ground,
        #[trigger] open.take(taken),
    ) != EscapeState::Ground by {
        assert(open.take(taken) =~= whole.take(taken));
        if taken <= opening.len() {
            assert(whole.take(taken) =~= opening.take(taken));
        } else if taken <= opening.len() + body.len() {
            let part = body.take(taken - opening.len());
            assert(whole.take(taken) =~= opening + part);
            assert forall|i: int| 0 <= i < part.len() implies next_state(
                inside,
                #[trigger] part[i],
            ) == inside by {
                assert(part[i] == body[i]);
            }
            lemma_run_stays(inside, part);
            lemma_run_concat(EscapeState::Ground, opening, part);
        } else {
            let part = ending.take(taken - opening.len() - body.len());
            assert(whole.take(taken) =~= opening + body + part);
            lemma_run_concat(EscapeState::Ground, opening + body, part);
        }
    }
}

/// `ESC [`, parameters, and a final byte make one control sequence.
pub proof fn lemma_csi_sequence(parameters: Seq<u8>, last: u8)
    requires
        forall|i: int| 0 <= i < parameters.len() ==> !is_final_byte(#[trigger] parameters[i]),
        is_final_byte(last),
    ensures
        is_control_sequence(seq![ESC, 0x5bu8] + parameters + seq![last]),
{
    lemma_run_two(EscapeState::Ground, ESC, 0x5b);
    lemma_run_one(EscapeState::Ground, ESC);
    lemma_run_one(EscapeState::Csi, last);
    assert(seq![ESC, 0x5bu8].take(2) =~= seq![ESC, 0x5bu8]);
    lemma_bracketed(seq![ESC, 0x5bu8], EscapeState::Csi, parameters, seq![last]);
}

/// The single-byte introducer, parameters, and a final byte make one
/// control sequence.
pub proof fn lemma_short_csi_sequence(parameters: Seq<u8>, last: u8)
    requires
        forall|i: int| 0 <= i < parameters.len() ==> !is_final_byte(#[trigger] parameters[i]),
        is_final_byte(last),
    ensures
        is_control_sequence(seq![CSI] + parameters + seq![last]),
{
    lemma_run_one(EscapeState::Ground, CSI);
    lemma_run_one(EscapeState::Csi, last);
    lemma_bracketed(seq![CSI], EscapeState::Csi, parameters, seq![last]);
}

/// `ESC ]`, a body without BEL or ESC, and BEL make one control sequence.
pub proof fn lemma_osc_sequence_bel(body: Seq<u8>)
    requires
        forall|i: int| 0 <= i < body.len() ==> #[trigger] body[i] != BEL && body[i] != ESC,
    ensures
        is_control_sequence(seq![ESC, 0x5du8] + body + seq![BEL]),
{
    lemma_run_two(EscapeState::Ground, ESC, 0x5d);
    lemma_run_one(EscapeState::Ground, ESC);
    lemma_run_one(EscapeState::Osc, BEL);
    assert(seq![ESC, 0x5du8].take(2) =~= seq![ESC, 0x5du8]);
    lemma_bracketed(seq![ESC, 0x5du8], EscapeState::Osc, body, seq![BEL]);
}

/// `ESC ]`, a body without BEL or ESC, and `ESC \` make one control
/// sequence.
pub proof fn lemma_osc_sequence_st(body: Seq<u8>)
    requires
        forall|i: int| 0 <= i < body.len() ==> #[trigger] body[i] != BEL && body[i] != ESC,
    ensures
        is_control_sequence(seq![ESC, 0x5du8] + body + seq![ESC, 0x5cu8]),
{
    lemma_run_two(EscapeState::Ground, ESC, 0x5d);
    lemma_run_one(EscapeState::Ground, ESC);
    lemma_run_two(EscapeState::Osc, ESC, 0x5c);
    lemma_run_one(EscapeState::Osc, ESC);
    assert(seq![ESC, 0x5du8].take(2) =~= seq![ESC, 0x5du8]);
    lemma_bracketed(seq![ESC, 0x5du8], EscapeState::Osc, body, seq![ESC, 0x5cu8]);
}

/// `ESC P`, a body without ESC, and `ESC \` make one control sequence.
pub proof fn lemma_dcs_sequence(body: Seq<u8>)
    requires
        forall|i: int| 0 <= i < body.len() ==> #[trigger] body[i] != ESC,
    ensures
        is_control_sequence(seq![ESC, 0x50u8] + body + seq![ESC, 0x5cu8]),
{
    lemma_run_two(EscapeState::Ground, ESC, 0x50);
    lemma_run_one(EscapeState::Ground, ESC);
    lemma_run_two(EscapeState::Dcs, ESC, 0x5c);
    lemma_run_one(EscapeState::Dcs, ESC);
    assert(seq![ESC, 0x50u8].take(2) =~= seq![ESC, 0x50u8]);
    lemma_bracketed(seq![ESC, 0x50u8], EscapeState::Dcs, body, seq![ESC, 0x5cu8]);
}

} // verus!
