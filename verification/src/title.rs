//! Headings: a wrapped text block under a rank-dependent decoration.
//!
//! The top rank is underlined with a rule of `=` signs; every other rank
//! carries a literal `#`-style prefix on each painted line, whose width is
//! subtracted from the available width before the inner text wraps.

use vstd::prelude::*;
use vstd::string::*;

use crate::span::{
    line_width, lines_view, max_line_width, lemma_lines_view_push, lemma_max_line_width_bound,
    lemma_spans_view_push, clone_cell_range, Line, LineView, Span, SpanView,
};
use crate::style::{Color, Style};
use crate::text::{
    spec_clamped_width, text_line_count, text_lines, text_used_width, total_chars, Text,
};

verus! {

/// The six heading ranks, rank 1 the most prominent.
#[derive(Clone, Copy, Debug, PartialEq, Eq, Structural)]
pub enum TitleLevel {
    Heading1,
    Heading2,
    Heading3,
    Heading4,
    Heading5,
    Heading6,
}

impl TitleLevel {
    /// The numeric rank of this level, 1 through 6.
    pub open spec fn spec_rank(self) -> nat {
        match self {
            TitleLevel::Heading1 => 1,
            TitleLevel::Heading2 => 2,
            TitleLevel::Heading3 => 3,
            TitleLevel::Heading4 => 4,
            TitleLevel::Heading5 => 5,
            TitleLevel::Heading6 => 6,
        }
    }

    /// The numeric rank of this level, 1 through 6.
    pub fn as_u8(&self) -> (r: u8)
        ensures
            r == self.spec_rank(),
    {
        match self {
            TitleLevel::Heading1 => 1,
            TitleLevel::Heading2 => 2,
            TitleLevel::Heading3 => 3,
            TitleLevel::Heading4 => 4,
            TitleLevel::Heading5 => 5,
            TitleLevel::Heading6 => 6,
        }
    }
}

/// A heading: a wrapped text block at a given rank.
pub struct Title {
    pub text: Text,
    pub level: TitleLevel,
}

/// The number of columns the literal prefix of a heading consumes: nothing
/// for rank 1, `rank + 1` columns (the `#` signs and one space) otherwise.
pub open spec fn spec_prefix_width(level: TitleLevel) -> nat {
    if level is Heading1 {
        0
    } else {
        level.spec_rank() + 1
    }
}

/// The width handed to the inner text: the requested width less the prefix,
/// clamped to at least one column.
pub open spec fn title_inner_width(width: usize, level: TitleLevel) -> nat {
    if width > spec_prefix_width(level) {
        (width - spec_prefix_width(level)) as nat
    } else {
        1nat
    }
}

/// A span's style forced to the heading color, its cells kept.
pub open spec fn patch_span(s: SpanView) -> SpanView {
    SpanView { cells: s.cells, style: s.style.with_fg_spec(Color::LightYellow) }
}

/// A line with every span forced to the heading color.
pub open spec fn patch_line(l: LineView) -> LineView {
    LineView { spans: l.spans.map_values(|s: SpanView| patch_span(s)) }
}

/// The cells of a heading prefix: `rank` hash signs and one space.
pub open spec fn prefix_cells(rank: nat) -> Seq<Seq<char>> {
    Seq::new(rank, |i: int| seq!['#']).push(seq![' '])
}

/// A painted heading line of rank 2 or below: the prefix span, then the
/// inner line, everything in the heading color.
pub open spec fn heading_line(rank: nat, l: LineView) -> LineView {
    LineView {
        spans: seq![
            SpanView {
                cells: prefix_cells(rank),
                style: Style::plain_spec().with_fg_spec(Color::LightYellow),
            },
        ] + l.spans.map_values(|s: SpanView| patch_span(s)),
    }
}

/// The width of the underline rule under a rank-1 heading: the widest
/// painted text line, but no narrower than three columns.
pub open spec fn underline_width(ls: Seq<LineView>) -> nat {
    let m = max_line_width(ls);
    if m > 3 {
        m
    } else {
        3
    }
}

/// The underline rule itself: one span of `=` cells in the heading color.
pub open spec fn underline_line(u: nat) -> LineView {
    LineView {
        spans: seq![
            SpanView {
                cells: Seq::new(u, |i: int| seq!['=']),
                style: Style::plain_spec().with_fg_spec(Color::LightYellow),
            },
        ],
    }
}

/// The lines a heading paints at the given width. Rank 1 paints its inner
/// text at the full width and appends the underline rule; every other rank
/// paints its inner text at the reduced width, each line behind the
/// literal prefix. Everything is in the heading color.
pub open spec fn title_lines(t: Title, width: usize) -> Seq<LineView> {
    if t.level is Heading1 {
        let inner = text_lines(t.text.0@, spec_clamped_width(width));
        inner.map_values(|l: LineView| patch_line(l)).push(underline_line(underline_width(inner)))
    } else {
        let inner = text_lines(t.text.0@, title_inner_width(width, t.level));
        inner.map_values(|l: LineView| heading_line(t.level.spec_rank(), l))
    }
}

/// Law: a rank-1 heading always paints exactly one more line than its
/// inner text paints at the same width; ranks 2 through 6 paint exactly as
/// many lines as their inner text paints at the reduced width. Decoration
/// other than the underline never adds a line.
pub proof fn lemma_heading_line_count(t: Title, width: usize)
    ensures
        t.level is Heading1 ==> title_lines(t, width).len() == text_line_count(
            t.text.0@,
            spec_clamped_width(width),
        ) + 1,
        !(t.level is Heading1) ==> title_lines(t, width).len() == text_line_count(
            t.text.0@,
            title_inner_width(width, t.level),
        ),
{
}

impl Title {
    /// Machine-limit well-formedness: the inner text is small enough that
    /// the extra underline line cannot overflow the line count.
    pub open spec fn wf(&self) -> bool {
        self.text.0@.len() + total_chars(self.text.0@) < usize::MAX
    }

    /// A heading defers to its text's own break pressure.
    pub fn width_pressure(&self) -> (r: usize)
        ensures
            r == crate::text::max_word_width(self.text.0@),
            r <= total_chars(self.text.0@),
    {
        self.text.width_pressure()
    }

    /// A heading defers to its text's unconstrained width.
    pub fn max_width(&self) -> (r: usize)
        requires
            self.wf(),
        ensures
            r == crate::text::total_word_width(self.text.0@),
            r <= total_chars(self.text.0@),
    {
        self.text.max_width()
    }

    /// Measure the heading's box: rank 1 is its text's box at the full
    /// width plus the underline; other ranks are the text's box at the
    /// width left over after the prefix.
    pub fn box_size_given_width(&self, width: usize) -> (r: (usize, usize))
        requires
            self.wf(),
        ensures
            self.level is Heading1 ==> r.0 == text_used_width(
                self.text.0@,
                spec_clamped_width(width),
            ) && r.1 == text_line_count(self.text.0@, spec_clamped_width(width)) + 1,
            !(self.level is Heading1) ==> r.0 == text_used_width(
                self.text.0@,
                title_inner_width(width, self.level),
            ) && r.1 == text_line_count(self.text.0@, title_inner_width(width, self.level)),
            r.1 <= self.text.0@.len() + total_chars(self.text.0@) + 1,
    {
        match self.level {
            TitleLevel::Heading1 => {
                let (x, y) = self.text.box_size_given_width(width);
                (x, y + 1)
            },
            _ => {
                let pw = self.prefix_width();
                let inner_w = if width > pw {
                    width - pw
                } else {
                    1
                };
                self.text.box_size_given_width(inner_w)
            },
        }
    }

    /// Paint the heading: the inner text at the reduced width, decorated
    /// per rank, everything in the heading color.
    pub fn get_text(&self, width: usize) -> (r: Vec<Line>)
        ensures
            lines_view(r@) == title_lines(*self, width),
    {
        let is_h1 = match self.level {
            TitleLevel::Heading1 => true,
            _ => false,
        };
        let pw = self.prefix_width();
        let inner_w = if width > pw {
            width - pw
        } else {
            1
        };
        let ghost iw = title_inner_width(width, self.level);
        let inner = self.text.get_text(inner_w);
        let ghost inner_views = lines_view(inner@);
        let ghost mapped = if is_h1 {
            inner_views.map_values(|l: LineView| patch_line(l))
        } else {
            inner_views.map_values(|l: LineView| heading_line(self.level.spec_rank(), l))
        };
        proof {
            assert(inner_views == text_lines(self.text.0@, iw));
            if is_h1 {
                assert(iw == spec_clamped_width(width));
            }
            crate::text::lemma_wrap_measures_le(self.text.0@, iw);
        }
        let rank = self.level.as_u8();
        let len = inner.len();
        let mut out: Vec<Line> = Vec::new();
        let mut i: usize = 0;
        proof {
            assert(lines_view(out@) =~~= mapped.take(0));
        }
        while i < len
            invariant
                i <= len,
                len == inner@.len(),
                inner_views == lines_view(inner@),
                mapped == if is_h1 {
                    inner_views.map_values(|l: LineView| patch_line(l))
                } else {
                    inner_views.map_values(|l: LineView| heading_line(self.level.spec_rank(), l))
                },
                rank == self.level.spec_rank(),
                is_h1 == (self.level is Heading1),
                lines_view(out@) == mapped.take(i as int),
            decreases len - i,
        {
            let mut spans: Vec<Span> = Vec::new();
            let ghost prefix_part: Seq<SpanView> = if is_h1 {
                Seq::empty()
            } else {
                seq![
                    SpanView {
                        cells: prefix_cells(rank as nat),
                        style: Style::plain_spec().with_fg_spec(Color::LightYellow),
                    },
                ]
            };
            if !is_h1 {
                let mut cells: Vec<String> = Vec::new();
                let mut k: u8 = 0;
                proof {
                    reveal_strlit("#");
                    reveal_strlit(" ");
                    assert(cells@.map_values(|c: String| c@) =~~= Seq::new(
                        0,
                        |x: int| seq!['#'],
                    ));
                }
                while k < rank
                    invariant
                        k <= rank,
                        cells@.map_values(|c: String| c@) == Seq::new(
                            k as nat,
                            |x: int| seq!['#'],
                        ),
                    decreases rank - k,
                {
                    let ghost cells_old = cells@;
                    let hash_cell = "#".to_owned();
                    cells.push(hash_cell);
                    proof {
                        reveal_strlit("#");
                        crate::span::lemma_cells_view_push(cells_old, hash_cell);
                        assert(cells@.map_values(|c: String| c@) =~~= Seq::new(
                            (k + 1) as nat,
                            |x: int| seq!['#'],
                        ));
                    }
                    k = k + 1;
                }
                let ghost cells_old = cells@;
                let space_cell = " ".to_owned();
                cells.push(space_cell);
                proof {
                    reveal_strlit(" ");
                    crate::span::lemma_cells_view_push(cells_old, space_cell);
                    assert(cells@.map_values(|c: String| c@) =~~= prefix_cells(rank as nat));
                }
                let style = Style::plain().with_fg(Color::LightYellow);
                let ghost spans_old = spans@;
                let prefix_span = Span { cells, style };
                spans.push(prefix_span);
                proof {
                    lemma_spans_view_push(spans_old, prefix_span);
                }
            }
            proof {
                assert(spans@.map_values(|s: Span| s@) =~~= prefix_part);
            }
            let m = inner[i].spans.len();
            let mut j: usize = 0;
            while j < m
                invariant
                    j <= m,
                    i < len,
                    len == inner@.len(),
                    inner_views == lines_view(inner@),
                    m == inner@[i as int].spans@.len(),
                    spans@.map_values(|s: Span| s@) == prefix_part + inner_views[i as int].spans
                        .take(j as int).map_values(|s: SpanView| patch_span(s)),
                decreases m - j,
            {
                let cell_count = inner[i].spans[j].cells.len();
                let cells = clone_cell_range(&inner[i].spans[j].cells, 0, cell_count);
                let style = inner[i].spans[j].style.with_fg(Color::LightYellow);
                let ghost spans_old = spans@;
                let content_span = Span { cells, style };
                spans.push(content_span);
                proof {
                    lemma_spans_view_push(spans_old, content_span);
                    assert(spans@.map_values(|s: Span| s@) =~~= prefix_part
                        + inner_views[i as int].spans.take(j + 1).map_values(
                        |s: SpanView| patch_span(s),
                    ));
                }
                j = j + 1;
            }
            let ghost out_old = out@;
            let new_line = Line { spans };
            out.push(new_line);
            proof {
                lemma_lines_view_push(out_old, new_line);
                assert(inner_views[i as int].spans.take(m as int) =~~= inner_views[i as int]
                    .spans);
                assert(new_line@ =~~= mapped[i as int]);
                assert(lines_view(out@) =~~= mapped.take(i + 1));
            }
            i = i + 1;
        }
        proof {
            assert(mapped.take(len as int) =~~= mapped);
        }
        if is_h1 {
            let mut mw: usize = 0;
            let mut i2: usize = 0;
            proof {
                assert(inner_views.take(0) =~~= Seq::<LineView>::empty());
            }
            while i2 < len
                invariant
                    i2 <= len,
                    len == inner@.len(),
                    inner_views == lines_view(inner@),
                    max_line_width(inner_views) <= usize::MAX,
                    mw == max_line_width(inner_views.take(i2 as int)),
                decreases len - i2,
            {
                proof {
                    lemma_max_line_width_bound(inner_views, i2 as int);
                    assert(inner_views.take(i2 + 1).drop_last() =~~= inner_views.take(
                        i2 as int,
                    ));
                    assert(inner_views.take(i2 + 1).last() == inner_views[i2 as int]);
                }
                let lw = inner[i2].width();
                if lw > mw {
                    mw = lw;
                }
                i2 = i2 + 1;
            }
            proof {
                assert(inner_views.take(len as int) =~~= inner_views);
            }
            let u = if mw > 3 {
                mw
            } else {
                3
            };
            let mut cells: Vec<String> = Vec::new();
            let mut k: usize = 0;
            proof {
                reveal_strlit("=");
                assert(cells@.map_values(|c: String| c@) =~~= Seq::new(0, |x: int| seq!['=']));
            }
            while k < u
                invariant
                    k <= u,
                    cells@.map_values(|c: String| c@) == Seq::new(k as nat, |x: int| seq!['=']),
                decreases u - k,
            {
                let ghost cells_old = cells@;
                let rule_cell = "=".to_owned();
                cells.push(rule_cell);
                proof {
                    reveal_strlit("=");
                    crate::span::lemma_cells_view_push(cells_old, rule_cell);
                    assert(cells@.map_values(|c: String| c@) =~~= Seq::new(
                        (k + 1) as nat,
                        |x: int| seq!['='],
                    ));
                }
                k = k + 1;
            }
            let style = Style::plain().with_fg(Color::LightYellow);
            let mut spans: Vec<Span> = Vec::new();
            spans.push(Span { cells, style });
            let ghost out_old = out@;
            let rule = Line { spans };
            out.push(rule);
            proof {
                lemma_lines_view_push(out_old, rule);
                assert(u == underline_width(inner_views));
                assert(rule@ =~~= underline_line(u as nat));
                assert(lines_view(out@) =~~= title_lines(*self, width));
            }
        } else {
            proof {
                assert(lines_view(out@) =~~= title_lines(*self, width));
            }
        }
        out
    }

    /// The number of columns this heading's prefix consumes.
    fn prefix_width(&self) -> (r: usize)
        ensures
            r == spec_prefix_width(self.level),
    {
        match self.level {
            TitleLevel::Heading1 => 0,
            TitleLevel::Heading2 => 3,
            TitleLevel::Heading3 => 4,
            TitleLevel::Heading4 => 5,
            TitleLevel::Heading5 => 6,
            TitleLevel::Heading6 => 7,
        }
    }
}

} // verus!
