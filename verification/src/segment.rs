//! Width measurement in display cells.
//!
//! All prose measurement counts extended grapheme clusters, so that a
//! combining sequence or an emoji occupies one display cell. The
//! segmentation itself comes from the `unicode_segmentation` crate; this
//! module names its result and records the facts the layout proofs need.

use vstd::prelude::*;

use unicode_segmentation::UnicodeSegmentation;

verus! {

/// The extended grapheme clusters of a string, in order.
pub uninterp spec fn grapheme_split(s: Seq<char>) -> Seq<Seq<char>>;

/// The display width of a string: its number of grapheme clusters.
pub open spec fn grapheme_len(s: Seq<char>) -> nat {
    grapheme_split(s).len()
}

/// Relies on unicode_segmentation's `str::graphemes(true)`: the extended
/// grapheme clusters of a string are consecutive non-empty substrings that
/// together spell the whole string, and they depend on the characters alone.
#[verifier::external_body]
pub(crate) fn graphemes_of(s: &str) -> (r: Vec<String>)
    ensures
        r@.map_values(|g: String| g@) == grapheme_split(s@),
        r@.map_values(|g: String| g@).flatten() == s@,
        forall|i: int| 0 <= i < r@.len() ==> (#[trigger] r@[i])@.len() >= 1,
{
    s.graphemes(true).map(|g| g.to_string()).collect()
}

/// Flattening a sequence of non-empty sequences yields at least one element
/// per sequence.
pub proof fn lemma_flatten_len_ge_count(ss: Seq<Seq<char>>)
    requires
        forall|i: int| 0 <= i < ss.len() ==> (#[trigger] ss[i]).len() >= 1,
    ensures
        ss.len() <= ss.flatten().len(),
    decreases ss.len(),
{
    if ss.len() > 0 {
        assert(ss.first().len() >= 1);
        assert(forall|i: int|
            0 <= i < ss.drop_first().len() ==> (#[trigger] ss.drop_first()[i]).len() >= 1);
        lemma_flatten_len_ge_count(ss.drop_first());
    }
}

/// Count the grapheme clusters of a string, and record that there are at
/// most as many clusters as characters.
pub fn grapheme_count(s: &str) -> (r: usize)
    ensures
        r == grapheme_len(s@),
        r <= s@.len(),
{
    let cells = graphemes_of(s);
    proof {
        lemma_flatten_len_ge_count(grapheme_split(s@));
    }
    cells.len()
}

} // verus!
