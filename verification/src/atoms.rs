//! The spacer block: a fixed number of blank lines.

use vstd::prelude::*;

use crate::span::{lines_view, Line, LineView};

verus! {

/// A block that paints a fixed number of blank lines and occupies no width.
pub struct Newlines {
    pub count: usize,
}

/// The lines a spacer paints: `count` rows with no spans.
pub open spec fn blank_lines(count: nat) -> Seq<LineView> {
    Seq::new(count, |i: int| LineView { spans: Seq::empty() })
}

impl Newlines {
    /// A spacer of `count` blank lines.
    pub fn new(count: usize) -> (r: Newlines)
        ensures
            r.count == count,
    {
        Newlines { count }
    }

    /// A spacer occupies no width at any width.
    pub fn max_width(&self) -> (r: usize)
        ensures
            r == 0,
    {
        0
    }

    /// A spacer asks for no width.
    pub fn width_pressure(&self) -> (r: usize)
        ensures
            r == 0,
    {
        0
    }

    /// A spacer's box: no width, `count` lines, whatever width is offered.
    pub fn box_size_given_width(&self, _width: usize) -> (r: (usize, usize))
        ensures
            r.0 == 0,
            r.1 == self.count,
    {
        (0, self.count)
    }

    /// Paint the spacer: `count` blank lines.
    pub fn get_text(&self, _width: usize) -> (r: Vec<Line>)
        ensures
            lines_view(r@) == blank_lines(self.count as nat),
    {
        let mut lines: Vec<Line> = Vec::new();
        let mut i: usize = 0;
        proof {
            assert(lines_view(lines@) =~~= blank_lines(0));
        }
        while i < self.count
            invariant
                i <= self.count,
                lines_view(lines@) == blank_lines(i as nat),
            decreases self.count - i,
        {
            let ghost lines_old = lines@;
            let line = Line { spans: Vec::new() };
            lines.push(line);
            proof {
                crate::span::lemma_lines_view_push(lines_old, line);
                assert(lines_view(lines@) =~~= blank_lines((i + 1) as nat));
            }
            i = i + 1;
        }
        lines
    }
}

impl Default for Newlines {
    /// A single blank line.
    fn default() -> (r: Newlines)
        ensures
            r.count == 1,
    {
        Newlines { count: 1 }
    }
}

} // verus!
