//! Grapheme-aware measurement of text.
//!
//! Public offsets of the buffer are character offsets; a caller that
//! thinks in user-visible characters (grapheme clusters) can measure text
//! with this module. Segmentation itself is delegated to the
//! unicode-segmentation crate and its result is only named, never
//! restated.

use unicode_segmentation::UnicodeSegmentation;
use vstd::prelude::*;

verus! {

/// The number of extended grapheme clusters of a text: what
/// unicode-segmentation's `graphemes(true)` yields, a function of the
/// characters alone.
pub uninterp spec fn grapheme_count(s: Seq<char>) -> int;

/// Relies on unicode_segmentation's `graphemes(true)` iterator: it splits
/// a string into extended grapheme clusters per Unicode UAX #29, from the
/// characters alone. The clusters partition the string and none is empty,
/// so their number never exceeds the character count, and it is zero only
/// for the empty string.
#[verifier::external_body]
pub(crate) fn count_graphemes(s: &str) -> (r: usize)
    ensures
        r == grapheme_count(s@),
        r <= s@.len(),
        r == 0 <==> s@.len() == 0,
{
    s.graphemes(true).count()
}

} // verus!
