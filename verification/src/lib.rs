//! A document layout engine for fixed-width character grids.
//!
//! A tree of content blocks (word-wrapped text, bullet points, headings,
//! preformatted code, blank lines) is measured and rendered at a caller
//! supplied width, producing a stream of styled lines that a host terminal
//! renderer can blit cell by cell.

use vstd::prelude::*;

mod atoms;
mod bulletpoint;
mod code;
mod document;
mod segment;
mod span;
mod text;
mod style;
mod title;

pub use atoms::{blank_lines, Newlines};
pub use bulletpoint::{BulletPoint, SPACES_PER_INDENT};
pub use document::{
    doc_rendering_ok, doc_wf, visible_slice, visible_slice_spec, Block, Document, DocumentWidget,
};
pub use code::{box_code, max_line_len, pad_line, split_lines, Code};
pub use segment::{grapheme_count, grapheme_len, grapheme_split};
pub use span::{Line, LineView, Span, SpanView};
pub use text::{Text, TextBlock};
pub use title::{Title, TitleLevel};
pub use style::{Color, Style};

verus! {

/// A rectangle that, unlike a plain screen rectangle, allows a negative
/// origin. Cells at negative x or y coordinates are off screen and are not
/// rendered, which is what a scrolling widget needs.
pub struct ScrollRect {
    pub x: i32,
    pub y: i32,
    pub width: usize,
    pub height: usize,
}

impl ScrollRect {
    /// Move the rectangle vertically by `diff` rows.
    pub fn scroll_y(&mut self, diff: i32)
        requires
            i32::MIN <= old(self).y + diff <= i32::MAX,
        ensures
            final(self).y == old(self).y + diff,
            final(self).x == old(self).x,
            final(self).width == old(self).width,
            final(self).height == old(self).height,
    {
        self.y = self.y + diff;
    }
}

} // verus!
