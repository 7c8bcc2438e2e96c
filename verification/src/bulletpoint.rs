//! Bullet points: an indented marker in front of a nested block.
//!
//! The indent, the marker and one following space form a fixed-width
//! column. The first painted line of the inner block sits behind the
//! marker; every following line sits behind blank indent of the same
//! width, so nested lists stay aligned under their own marker column.

use vstd::prelude::*;
use vstd::string::*;

use crate::document::Block;
use crate::segment::{grapheme_count, grapheme_len, grapheme_split};
use crate::span::{LineView, SpanView};
use crate::style::Style;
use crate::text::Text;

verus! {

/// The number of leading spaces per indent level.
pub const SPACES_PER_INDENT: usize = 4;

/// A bullet point: an indent level, a marker, and the block it introduces.
pub struct BulletPoint {
    pub indent: usize,
    pub point: String,
    pub content: Box<Block>,
}

/// The fixed number of columns a bullet's decoration occupies: the indent
/// spaces, the marker itself, and one space after the marker.
pub open spec fn bullet_indent_width(bp: BulletPoint) -> nat {
    (bp.indent * 4 + grapheme_len(bp.point@) + 1) as nat
}

/// The width handed to the inner block: the requested width less the
/// decoration, clamped to at least one column.
pub open spec fn bullet_inner_width(width: usize, d: nat) -> usize {
    if width > d {
        (width - d) as usize
    } else {
        1usize
    }
}

/// The decoration cells in front of an inner line: on the first line the
/// indent spaces, the marker's cells and one space; on every other line
/// blank indent of the same total width.
pub open spec fn bullet_prefix_cells(bp: BulletPoint, first: bool) -> Seq<Seq<char>> {
    if first {
        Seq::new((bp.indent * 4) as nat, |i: int| seq![' ']) + grapheme_split(bp.point@) + seq![
            seq![' '],
        ]
    } else {
        Seq::new(bullet_indent_width(bp), |i: int| seq![' '])
    }
}

/// An inner line behind its bullet decoration.
pub open spec fn bullet_decorated(bp: BulletPoint, l: LineView, first: bool) -> LineView {
    LineView {
        spans: seq![SpanView { cells: bullet_prefix_cells(bp, first), style: Style::plain_spec() }]
            + l.spans,
    }
}

impl BulletPoint {
    /// A bullet point from its parts.
    pub fn new(indent: usize, point: String, content: Box<Block>) -> (r: BulletPoint)
        ensures
            r.indent == indent,
            r.point == point,
            r.content == content,
    {
        BulletPoint { indent, point, content }
    }

    /// A plain bullet: the round marker in front of unstyled wrapped text
    /// split from the given string.
    pub fn plain(indent: usize, content: &str) -> (r: BulletPoint)
        ensures
            r.indent == indent,
            r.point@ == "\u{2022}"@,
            (*r.content) is Text,
            ({
                let words = ((*r.content)->Text_0).0@;
                &&& words.len() == crate::text::split_spaces(content@).len()
                &&& forall|i: int|
                    0 <= i < words.len() ==> {
                        &&& (#[trigger] words[i]).content@ == crate::text::split_spaces(
                            content@,
                        )[i] + seq![' ']
                        &&& words[i].style == Style::plain_spec()
                        &&& words[i].link is None
                    }
                &&& words.len() + crate::text::total_chars(words) <= 3 * content@.len() + 2
            }),
    {
        BulletPoint {
            indent,
            point: "\u{2022}".to_owned(),
            content: Box::new(Block::Text(Text::plain(content))),
        }
    }

    /// The unconstrained width of the content this bullet introduces, the
    /// marker column not included.
    pub fn max_width(&self) -> (r: usize)
        requires
            crate::document::block_wf(*self.content),
        ensures
            r == crate::document::block_max_width(*self.content),
    {
        self.content.max_width()
    }

    /// The number of columns this bullet's decoration occupies.
    pub fn indent_width(&self) -> (r: usize)
        requires
            self.indent * 4 + self.point@.len() + 1 <= usize::MAX,
        ensures
            r == bullet_indent_width(*self),
            r <= self.indent * 4 + self.point@.len() + 1,
    {
        let marker = grapheme_count(self.point.as_str());
        self.indent * SPACES_PER_INDENT + marker + 1
    }
}

} // verus!
