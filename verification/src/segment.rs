//! Splitting text into grapheme clusters, the units a reader sees as single
//! characters.

use unicode_segmentation::UnicodeSegmentation;
use vstd::prelude::*;

use crate::text::str_views;

verus! {

/// The extended grapheme clusters of a text, in order.
pub uninterp spec fn graphemes(text: Seq<char>) -> Seq<Seq<char>>;

/// Every cluster that holds a line feed is that line feed, alone or behind a
/// carriage return.
pub open spec fn line_feeds_stand_alone(clusters: Seq<Seq<char>>) -> bool {
    forall|i: int|
        0 <= i < clusters.len() && (#[trigger] clusters[i]).contains('\n') ==> clusters[i]
            == seq!['\n'] || clusters[i] == seq!['\r', '\n']
}

/// `UnicodeSegmentation::graphemes` in its extended form: the clusters that the
/// Unicode rules cut the text into, in order. They are consecutive pieces of the
/// text, so joined together they are the text again. The rules cut before and
/// behind a line feed, except between a carriage return and a line feed, and cut
/// before that carriage return. How other texts are cut, parts of this one among
/// them, is not said.
#[verifier::external_body]
pub(crate) fn split_graphemes(text: &str) -> (clusters: Vec<&str>)
    ensures
        str_views(clusters@) == graphemes(text@),
        str_views(clusters@).flatten() == text@,
        line_feeds_stand_alone(str_views(clusters@)),
{
    text.graphemes(true).collect()
}

} // verus!
