//! Grapheme clusters, as the unicode-segmentation crate finds them.
use crate::text::str_views;
use unicode_segmentation::UnicodeSegmentation;
use vstd::prelude::*;

verus! {

/// The extended grapheme clusters of `s` (Unicode Standard Annex #29), in order.
pub uninterp spec fn grapheme_clusters(s: Seq<char>) -> Seq<Seq<char>>;

/// Relies on `UnicodeSegmentation::graphemes(s, true)`: it yields the extended
/// grapheme clusters of `s` as consecutive non-empty slices that cover `s`
/// from its first character to its last.
#[verifier::external_body]
pub(crate) fn graphemes(s: &str) -> (r: Vec<&str>)
    ensures
        str_views(r@) == grapheme_clusters(s@),
        str_views(r@).flatten() == s@,
        forall|i: int| 0 <= i < r@.len() ==> (#[trigger] r@[i])@.len() > 0,
{
    s.graphemes(true).collect()
}

} // verus!
