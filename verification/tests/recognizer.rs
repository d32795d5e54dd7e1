use pane_encoding::{advance_escape, EscapeState};

const ALL: [EscapeState; 7] = [
    EscapeState::Ground,
    EscapeState::Esc,
    EscapeState::Csi,
    EscapeState::Osc,
    EscapeState::OscEsc,
    EscapeState::Dcs,
    EscapeState::DcsEsc,
];

#[test]
fn recognizer_starts_in_ground() {
    assert_eq!(EscapeState::default(), EscapeState::Ground);
}

#[test]
fn ground_leaves_on_esc_and_on_single_byte_csi_only() {
    for byte in 0u8..=255 {
        let expected = match byte {
            0x1b => EscapeState::Esc,
            0x9b => EscapeState::Csi,
            _ => EscapeState::Ground,
        };
        assert_eq!(advance_escape(EscapeState::Ground, byte), expected, "byte {:#x}", byte);
    }
}

#[test]
fn esc_selects_the_family() {
    for byte in 0u8..=255 {
        let expected = match byte {
            b'[' => EscapeState::Csi,
            b']' => EscapeState::Osc,
            b'P' => EscapeState::Dcs,
            0x40..=0x7e => EscapeState::Ground,
            _ => EscapeState::Esc,
        };
        assert_eq!(advance_escape(EscapeState::Esc, byte), expected, "byte {:#x}", byte);
    }
}

#[test]
fn csi_ends_on_a_final_byte() {
    for byte in 0u8..=255 {
        let expected = match byte {
            0x40..=0x7e => EscapeState::Ground,
            _ => EscapeState::Csi,
        };
        assert_eq!(advance_escape(EscapeState::Csi, byte), expected, "byte {:#x}", byte);
    }
    // the edges of the range of final bytes
    assert_eq!(advance_escape(EscapeState::Csi, 0x3f), EscapeState::Csi);
    assert_eq!(advance_escape(EscapeState::Csi, 0x40), EscapeState::Ground);
    assert_eq!(advance_escape(EscapeState::Csi, 0x7e), EscapeState::Ground);
    assert_eq!(advance_escape(EscapeState::Csi, 0x7f), EscapeState::Csi);
}

#[test]
fn osc_ends_on_bel_or_on_esc_backslash() {
    for byte in 0u8..=255 {
        let expected = match byte {
            0x07 => EscapeState::Ground,
            0x1b => EscapeState::OscEsc,
            _ => EscapeState::Osc,
        };
        assert_eq!(advance_escape(EscapeState::Osc, byte), expected, "byte {:#x}", byte);
        let after_esc = if byte == b'\\' { EscapeState::Ground } else { EscapeState::Osc };
        assert_eq!(advance_escape(EscapeState::OscEsc, byte), after_esc, "byte {:#x}", byte);
    }
}

#[test]
fn osc_esc_does_not_look_at_its_byte_twice() {
    // An ESC that follows an ESC inside an OSC string is body, not a new start.
    assert_eq!(advance_escape(EscapeState::OscEsc, 0x1b), EscapeState::Osc);
    assert_eq!(advance_escape(EscapeState::OscEsc, 0x07), EscapeState::Osc);
}

#[test]
fn dcs_ends_on_esc_backslash_only() {
    for byte in 0u8..=255 {
        let expected = if byte == 0x1b { EscapeState::DcsEsc } else { EscapeState::Dcs };
        assert_eq!(advance_escape(EscapeState::Dcs, byte), expected, "byte {:#x}", byte);
        let after_esc = if byte == b'\\' { EscapeState::Ground } else { EscapeState::Dcs };
        assert_eq!(advance_escape(EscapeState::DcsEsc, byte), after_esc, "byte {:#x}", byte);
    }
    // BEL does not end a DCS string
    assert_eq!(advance_escape(EscapeState::Dcs, 0x07), EscapeState::Dcs);
}

#[test]
fn every_state_has_a_way_back_to_ground() {
    for state in ALL {
        let mut reached = state == EscapeState::Ground;
        for first in 0u8..=255 {
            let next = advance_escape(state, first);
            if next == EscapeState::Ground {
                reached = true;
                break;
            }
            for second in [0x07u8, b'\\', b'm'] {
                if advance_escape(next, second) == EscapeState::Ground {
                    reached = true;
                }
            }
        }
        assert!(reached, "{:?}", state);
    }
}
