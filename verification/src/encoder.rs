//! The outbound transcoder of a pane.

use crate::encoding::PaneEncoding;
use crate::filter::{
    fresh, transcoded, well_formed, Direction, EscapeFilter, Stream,
};
use vstd::prelude::*;

verus! {

/// Turns what the operator types, UTF-8 with control sequences in it, into
/// the bytes the far end expects. One lives as long as the pane does.
#[derive(Debug)]
pub struct PaneInputEncoder {
    filter: EscapeFilter,
}

impl View for PaneInputEncoder {
    type V = Stream;

    closed spec fn view(&self) -> Stream {
        self.filter@
    }
}

impl PaneInputEncoder {
    /// What every encoder satisfies between calls.
    #[verifier::type_invariant]
    spec fn bounded(&self) -> bool {
        well_formed(Direction::Outbound, self.filter@)
    }

    /// Encodes one chunk of UTF-8 for a far end that speaks `encoding`.
    ///
    /// Control sequences come out as they went in. With no legacy encoding
    /// the whole chunk does. A scalar that the encoding lacks, and a byte
    /// sequence that is no UTF-8, come out as one question mark each. A
    /// scalar or a control sequence that the chunk leaves unfinished is held
    /// back until a later chunk ends it; a change of encoding drops what was
    /// held back. Where the chunks are cut makes no difference to what comes
    /// out in all.
    pub fn encode(&mut self, encoding: PaneEncoding, data: &[u8]) -> (out: Vec<u8>)
        ensures
            final(self)@ == transcoded(Direction::Outbound, old(self)@, encoding, data@).stream,
            out@ == transcoded(Direction::Outbound, old(self)@, encoding, data@).output,
            !encoding.legacy() ==> out@ == data@,
            well_formed(Direction::Outbound, final(self)@),
    {
        proof {
            use_type_invariant(&*self);
        }
        // The filter works outside `self`, which holds an empty one meanwhile.
        let mut filter = EscapeFilter::new();
        core::mem::swap(&mut self.filter, &mut filter);
        let out = filter.transcode(Direction::Outbound, encoding, data);
        self.filter = filter;
        out
    }
}

impl Default for PaneInputEncoder {
    fn default() -> (encoder: Self)
        ensures
            encoder@ == fresh(),
    {
        PaneInputEncoder { filter: EscapeFilter::new() }
    }
}

} // verus!
