//! The recognizer that brackets terminal control sequences in a byte stream.
//!
//! It knows where a sequence starts and where it ends, and nothing of what
//! the sequence means: parameters are never parsed.

use vstd::prelude::*;

verus! {

/// Where the recognizer stands. `Ground` is plain text; every other state is
/// inside a control sequence that has not ended yet.
#[derive(Debug, Copy, Clone, PartialEq, Eq, Structural)]
pub enum EscapeState {
    Ground,
    /// After ESC, before the byte that selects the family.
    Esc,
    /// Inside a CSI sequence, waiting for its final byte.
    Csi,
    /// Inside an OSC string.
    Osc,
    /// Inside an OSC string, after an ESC that may begin the terminator.
    OscEsc,
    /// Inside a DCS string.
    Dcs,
    /// Inside a DCS string, after an ESC that may begin the terminator.
    DcsEsc,
}

impl Default for EscapeState {
    fn default() -> (r: Self)
        ensures
            r == EscapeState::Ground,
    {
        EscapeState::Ground
    }
}

/// ESC, which introduces every seven-bit control sequence.
pub const ESC: u8 = 0x1b;

/// The single-byte CSI introducer.
pub const CSI: u8 = 0x9b;

/// BEL, which ends an OSC string.
pub const BEL: u8 = 0x07;

/// True for the two bytes that leave plain text.
pub open spec fn is_introducer(byte: u8) -> bool {
    byte == ESC || byte == CSI
}

/// True for a byte that ends a CSI sequence or a two-byte escape.
pub open spec fn is_final_byte(byte: u8) -> bool {
    0x40 <= byte <= 0x7e
}

/// The transition table of the recognizer.
pub open spec fn next_state(state: EscapeState, byte: u8) -> EscapeState {
    match state {
        EscapeState::Ground => if byte == ESC {
            EscapeState::Esc
        } else if byte == CSI {
            EscapeState::Csi
        } else {
            EscapeState::Ground
        },
        EscapeState::Esc => if byte == 0x5b {
            EscapeState::Csi
        } else if byte == 0x5d {
            EscapeState::Osc
        } else if byte == 0x50 {
            EscapeState::Dcs
        } else if is_final_byte(byte) {
            EscapeState::Ground
        } else {
            EscapeState::Esc
        },
        EscapeState::Csi => if is_final_byte(byte) {
            EscapeState::Ground
        } else {
            EscapeState::Csi
        },
        EscapeState::Osc => if byte == BEL {
            EscapeState::Ground
        } else if byte == ESC {
            EscapeState::OscEsc
        } else {
            EscapeState::Osc
        },
        EscapeState::OscEsc => if byte == 0x5c {
            EscapeState::Ground
        } else {
            EscapeState::Osc
        },
        EscapeState::Dcs => if byte == ESC {
            EscapeState::DcsEsc
        } else {
            EscapeState::Dcs
        },
        EscapeState::DcsEsc => if byte == 0x5c {
            EscapeState::Ground
        } else {
            EscapeState::Dcs
        },
    }
}

/// The state reached from `state` after all of `bytes`, in order.
pub open spec fn run_state(state: EscapeState, bytes: Seq<u8>) -> EscapeState
    decreases bytes.len(),
{
    if bytes.len() == 0 {
        state
    } else {
        next_state(run_state(state, bytes.drop_last()), bytes.last())
    }
}

/// True when `bytes` begins a control sequence and does not end it: its
/// first byte leaves plain text and no later byte returns there.
pub open spec fn is_open_sequence(bytes: Seq<u8>) -> bool {
    &&& bytes.len() >= 1
    &&& forall|taken: int|
        0 < taken <= bytes.len() ==> run_state(EscapeState::Ground, #[trigger] bytes.take(taken))
            != EscapeState::Ground
}

/// True when `bytes` is one whole control sequence: its first byte leaves
/// plain text, its last byte returns there, and no byte between them does.
pub open spec fn is_control_sequence(bytes: Seq<u8>) -> bool {
    &&& bytes.len() >= 2
    &&& is_open_sequence(bytes.drop_last())
    &&& run_state(EscapeState::Ground, bytes) == EscapeState::Ground
}

/// Advances the recognizer by one byte.
pub fn advance_escape(state: EscapeState, byte: u8) -> (next: EscapeState)
    ensures
        next == next_state(state, byte),
{
    match state {
        EscapeState::Ground => match byte {
            0x1b => EscapeState::Esc,
            0x9b => EscapeState::Csi,
            _ => EscapeState::Ground,
        },
        EscapeState::Esc => match byte {
            0x5b => EscapeState::Csi,
            0x5d => EscapeState::Osc,
            0x50 => EscapeState::Dcs,
            0x40..=0x7e => EscapeState::Ground,
            _ => EscapeState::Esc,
        },
        EscapeState::Csi => {
            if 0x40 <= byte && byte <= 0x7e {
                EscapeState::Ground
            } else {
                EscapeState::Csi
            }
        },
        EscapeState::Osc => match byte {
            0x07 => EscapeState::Ground,
            0x1b => EscapeState::OscEsc,
            _ => EscapeState::Osc,
        },
        EscapeState::OscEsc => {
            if byte == 0x5c {
                EscapeState::Ground
            } else {
                EscapeState::Osc
            }
        },
        EscapeState::Dcs => {
            if byte == 0x1b {
                EscapeState::DcsEsc
            } else {
                EscapeState::Dcs
            }
        },
        EscapeState::DcsEsc => {
            if byte == 0x5c {
                EscapeState::Ground
            } else {
                EscapeState::Dcs
            }
        },
    }
}

} // verus!
