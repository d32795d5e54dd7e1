//! The inbound transcoder of a pane.

use crate::encoding::PaneEncoding;
use crate::filter::{
    fresh, max_chunk, transcoded, well_formed, Direction, EscapeFilter, Stream,
};
use vstd::prelude::*;

verus! {

/// Turns what the far end sends, legacy bytes with control sequences in
/// them, into UTF-8 for the screen. One lives as long as the pane does.
#[derive(Debug)]
pub struct PaneOutputDecoder {
    filter: EscapeFilter,
}

impl View for PaneOutputDecoder {
    type V = Stream;

    closed spec fn view(&self) -> Stream {
        self.filter@
    }
}

impl PaneOutputDecoder {
    /// What every decoder satisfies between calls.
    #[verifier::type_invariant]
    spec fn bounded(&self) -> bool {
        well_formed(Direction::Inbound, self.filter@)
    }

    /// Decodes one chunk from a far end that speaks `encoding` into UTF-8.
    ///
    /// Control sequences come out as they went in. With no legacy encoding
    /// the whole chunk does. A character or a control sequence that the
    /// chunk leaves unfinished is held back until a later chunk ends it; a
    /// change of encoding drops what was held back.
    pub fn decode(&mut self, encoding: PaneEncoding, data: &[u8]) -> (out: Vec<u8>)
        requires
            encoding.legacy() ==> data.len() <= max_chunk(),
        ensures
            final(self)@ == transcoded(Direction::Inbound, old(self)@, encoding, data@).stream,
            out@ == transcoded(Direction::Inbound, old(self)@, encoding, data@).output,
            !encoding.legacy() ==> out@ == data@,
            well_formed(Direction::Inbound, final(self)@),
    {
        proof {
            use_type_invariant(&*self);
        }
        // The filter works outside `self`, which holds an empty one meanwhile.
        let mut filter = EscapeFilter::new();
        core::mem::swap(&mut self.filter, &mut filter);
        let out = filter.transcode(Direction::Inbound, encoding, data);
        self.filter = filter;
        out
    }
}

impl Default for PaneOutputDecoder {
    fn default() -> (decoder: Self)
        ensures
            decoder@ == fresh(),
    {
        PaneOutputDecoder { filter: EscapeFilter::new() }
    }
}

} // verus!
