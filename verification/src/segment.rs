//! Unicode-aware segmentation of a word into grapheme clusters.
//!
//! A grapheme cluster is one user-perceived character, possibly several
//! code points (a letter with combining marks, a multi-code-point emoji).
//! The encoder treats each cluster as one atomic unit.

use vstd::prelude::*;

use unicode_segmentation::UnicodeSegmentation;

verus! {

/// The extended grapheme clusters of a text, in order.
pub uninterp spec fn graphemes_of(s: Seq<char>) -> Seq<Seq<char>>;

/// Relies on `UnicodeSegmentation::graphemes` of unicode-segmentation:
/// the iterator yields the extended grapheme clusters of the string, in
/// order.  The clusters are non-empty substrings that partition the
/// string, so their concatenation is the string itself.
#[verifier::external_body]
pub(crate) fn split_graphemes(s: &str) -> (r: Vec<String>)
    ensures
        r.deep_view() == graphemes_of(s@),
        r.deep_view().flatten() == s@,
        forall|i: int| 0 <= i < r.deep_view().len() ==> (#[trigger] r.deep_view()[i]).len() > 0,
{
    let mut r: Vec<String> = Vec::new();
    for g in s.graphemes(true) {
        r.push(g.to_string());
    }
    r
}

} // verus!
