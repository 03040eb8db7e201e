//! What a terminal shows of a text: visible characters and columns.
//!
//! The rules behind both fill Unicode annexes, and two crates implement them. The functions here
//! hand texts to those crates; what comes back has a name, so that a contract elsewhere can say
//! exactly what was measured or split.

use unicode_segmentation::UnicodeSegmentation;
use unicode_width::UnicodeWidthStr;
use vstd::prelude::*;

use crate::text::{optional, texts};

verus! {

/// Nothing but printable ASCII characters.
pub open spec fn printable(text: Seq<char>) -> bool {
    forall|i: int| 0 <= i < text.len() ==> ' ' <= #[trigger] text[i] <= '~'
}

/// The extended grapheme clusters of a text, in order.
pub uninterp spec fn grapheme_clusters(text: Seq<char>) -> Seq<Seq<char>>;

/// `UnicodeSegmentation::graphemes` with extended clusters, collected. The clusters depend on the
/// text alone, none is empty, and one after the other they are the text. A printable ASCII
/// character is a cluster of its own where there are no others.
#[verifier::external_body]
pub(crate) fn graphemes(text: &str) -> (clusters: Vec<String>)
    ensures
        texts(clusters@) == grapheme_clusters(text@),
        texts(clusters@).flatten() == text@,
        forall|k: int| 0 <= k < clusters@.len() ==> (#[trigger] clusters@[k])@.len() > 0,
        printable(text@) ==> texts(clusters@) == text@.map_values(|c: char| seq![c]),
{
    text.graphemes(true).map(str::to_owned).collect()
}

/// The last extended grapheme cluster of a text.
pub uninterp spec fn last_cluster(text: Seq<char>) -> Option<Seq<char>>;

/// `UnicodeSegmentation::graphemes` with extended clusters, read from the end. Only an empty text
/// has no last cluster; that of any other is not empty and stands at the end of the text. In
/// printable ASCII it is one character.
#[verifier::external_body]
pub(crate) fn last_grapheme(text: &str) -> (cluster: Option<String>)
    ensures
        optional(cluster) == last_cluster(text@),
        cluster is None <==> text@.len() == 0,
        cluster matches Some(g) ==> 0 < g@.len() <= text@.len() && text@.skip(
            text@.len() - g@.len(),
        ) == g@,
        cluster matches Some(g) ==> printable(text@) ==> g@.len() == 1,
{
    text.graphemes(true).next_back().map(str::to_owned)
}

/// How many columns a text takes on a terminal.
pub uninterp spec fn display_width(text: Seq<char>) -> usize;

/// `UnicodeWidthStr::width`. The width depends on the text alone, and printable ASCII takes one
/// column per character.
#[verifier::external_body]
pub(crate) fn width(text: &str) -> (columns: usize)
    ensures
        columns == display_width(text@),
        printable(text@) ==> columns == text@.len(),
{
    text.width()
}

} // verus!
