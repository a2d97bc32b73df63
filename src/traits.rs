//! What a syntax node parsed by a grammar offers.
use core::ops::Range;
use vstd::prelude::*;

use crate::results::ParseResult;
use crate::state::ParseState;
use crate::text::utf8_len;

verus! {

/// A node that parses itself from a state and knows its byte range.
pub trait Parse: Sized {
    /// Parse the node from the state.
    fn parse(input: ParseState) -> ParseResult<Self>;

    /// Parse the node from the start of a text.
    fn parse_text(input: &str) -> ParseResult<Self>
        requires
            utf8_len(input@) < usize::MAX,
    {
        Self::parse(ParseState::new(input))
    }

    /// The byte range of the node.
    fn get_range(&self) -> Range<usize>;

    /// The byte range of the node, as `u32` offsets, cut to 32 bits.
    fn get_range32(&self) -> Range<u32> {
        let range = self.get_range();
        (range.start as u32)..(range.end as u32)
    }
}

} // verus!
