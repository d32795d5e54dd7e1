//! Small helpers on byte vectors.

use vstd::prelude::*;

verus! {

/// Appends `more` to `out`.
pub fn append(out: &mut Vec<u8>, more: &[u8])
    ensures
        final(out)@ == old(out)@ + more@,
{
    out.extend_from_slice(more);
}

/// The bytes of `data` from `start` up to `end`.
pub fn slice_between(data: &[u8], start: usize, end: usize) -> (part: &[u8])
    requires
        start <= end <= data.len(),
    ensures
        part@ == data@.subrange(start as int, end as int),
{
    &data[start..end]
}

} // verus!
