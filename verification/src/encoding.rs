//! The closed set of encodings a pane can be switched to.

use vstd::prelude::*;

verus! {

/// The longest byte sequence that encodes one character in any of the legacy
/// encodings; also the most undecoded bytes an inbound stream carries from
/// one chunk to the next.
pub const MAX_TRAILING_ENCODED_BYTES: usize = 4;

/// The most bytes of an unfinished UTF-8 scalar an outbound stream carries
/// from one chunk to the next: a scalar takes at most four bytes.
pub const MAX_TRAILING_UTF8_BYTES: usize = 3;

/// The encoding spoken by the far end of a pane.
#[derive(Debug, Copy, Clone, PartialEq, Eq, Hash, Structural)]
pub enum PaneEncoding {
    /// No legacy encoding: the far end already speaks UTF-8.
    Utf8,
    Gbk,
    Gb18030,
    Big5,
    EucKr,
    ShiftJis,
}

impl PaneEncoding {
    /// True for every encoding but UTF-8.
    pub open spec fn legacy(self) -> bool {
        self != PaneEncoding::Utf8
    }

    /// Tells whether bytes in this encoding need transcoding at all.
    pub fn is_legacy(self) -> (r: bool)
        ensures
            r == self.legacy(),
    {
        match self {
            PaneEncoding::Utf8 => false,
            _ => true,
        }
    }
}

impl Default for PaneEncoding {
    fn default() -> (r: Self)
        ensures
            r == PaneEncoding::Utf8,
    {
        PaneEncoding::Utf8
    }
}

} // verus!
