//! Documents: an ordered list of heterogeneous content blocks, and the
//! scroll-aware rendering of their combined line stream.

use vstd::prelude::*;

use crate::atoms::{blank_lines, Newlines};
use crate::bulletpoint::{
    bullet_decorated, bullet_indent_width, bullet_inner_width, bullet_prefix_cells, BulletPoint,
};
use crate::code::{line_text, max_line_len, split_lines, Code};
use crate::segment::{grapheme_split, graphemes_of};
use crate::span::{
    clone_line, clone_span, line_width, lines_view, lemma_lines_view_add, lemma_lines_view_push,
    lemma_spans_view_push,
    Line, LineView, Span, SpanView,
};
use crate::style::Style;
use crate::text::{
    spec_clamped_width, text_line_count, text_lines, text_used_width, total_chars, word_width,
    Text, TextBlock,
};
use crate::title::{title_inner_width, title_lines, Title};

verus! {

/// One content block of a document: a single styled word, a word-wrapped
/// run, blank lines, a bullet point around a nested block, a heading, or a
/// preformatted code block.
pub enum Block {
    Word(TextBlock),
    Text(Text),
    Newlines(Newlines),
    Bullet(BulletPoint),
    Title(Title),
    Code(Code),
}

/// A structural size of a block: enough characters to bound every count
/// and width the layout computes over it.
pub open spec fn block_weight(b: Block) -> nat
    decreases b,
{
    match b {
        Block::Word(t) => t.content@.len() + 2,
        Block::Text(t) => t.0@.len() + total_chars(t.0@) + 2,
        Block::Newlines(nl) => nl.count as nat,
        Block::Bullet(bp) => (bp.indent * 4 + bp.point@.len() + 2 + block_weight(*bp.content)) as nat,
        Block::Title(t) => t.text.0@.len() + total_chars(t.text.0@) + 2,
        Block::Code(c) => c.content@.len() + 1,
    }
}

/// Machine-limit well-formedness: the block is small enough that none of
/// the layout arithmetic can overflow a `usize`.
pub open spec fn block_wf(b: Block) -> bool {
    block_weight(b) <= usize::MAX
}

/// The box a block reports at a width: its used width and line count, per
/// block kind, decorations included.
pub open spec fn block_box(b: Block, width: usize) -> (nat, nat)
    decreases b,
{
    match b {
        Block::Word(t) => (
            text_used_width(seq![t], spec_clamped_width(width)),
            text_line_count(seq![t], spec_clamped_width(width)),
        ),
        Block::Text(t) => (
            text_used_width(t.0@, spec_clamped_width(width)),
            text_line_count(t.0@, spec_clamped_width(width)),
        ),
        Block::Newlines(nl) => (0, nl.count as nat),
        Block::Bullet(bp) => {
            let d = bullet_indent_width(bp);
            let inner = block_box(*bp.content, bullet_inner_width(width, d));
            (inner.0 + d, inner.1)
        },
        Block::Title(t) => {
            if t.level is Heading1 {
                (
                    text_used_width(t.text.0@, spec_clamped_width(width)),
                    text_line_count(t.text.0@, spec_clamped_width(width)) + 1,
                )
            } else {
                (
                    text_used_width(t.text.0@, title_inner_width(width, t.level)),
                    text_line_count(t.text.0@, title_inner_width(width, t.level)),
                )
            }
        },
        Block::Code(c) => (max_line_len(split_lines(c.content@)), split_lines(c.content@).len()),
    }
}

/// The width a block occupies when nothing constrains it.
pub open spec fn block_max_width(b: Block) -> nat
    decreases b,
{
    match b {
        Block::Word(t) => word_width(t),
        Block::Text(t) => crate::text::total_word_width(t.0@),
        Block::Newlines(nl) => 0,
        Block::Bullet(bp) => bullet_indent_width(bp) + block_max_width(*bp.content),
        Block::Title(t) => crate::text::total_word_width(t.text.0@),
        Block::Code(c) => max_line_len(split_lines(c.content@)),
    }
}

/// The soft hint of a block's ugliest break width.
pub open spec fn block_width_pressure(b: Block) -> nat
    decreases b,
{
    match b {
        Block::Word(t) => word_width(t),
        Block::Text(t) => crate::text::max_word_width(t.0@),
        Block::Newlines(nl) => 0,
        Block::Bullet(bp) => bullet_indent_width(bp) + block_width_pressure(*bp.content),
        Block::Title(t) => crate::text::max_word_width(t.text.0@),
        Block::Code(c) => max_line_len(split_lines(c.content@)),
    }
}

impl Block {
    /// Measure the box this block occupies at the given width, exactly as
    /// the paint pass will lay it out.
    pub fn box_size_given_width(&self, width: usize) -> (r: (usize, usize))
        requires
            block_wf(*self),
        ensures
            r.0 == block_box(*self, width).0,
            r.1 == block_box(*self, width).1,
            r.0 <= spec_clamped_width(width) || r.0 <= block_weight(*self),
            r.1 <= block_weight(*self),
        decreases *self,
    {
        match self {
            Block::Word(t) => t.box_size_given_width(width),
            Block::Text(t) => t.box_size_given_width(width),
            Block::Newlines(nl) => nl.box_size_given_width(width),
            Block::Bullet(bp) => {
                let d = bp.indent_width();
                let iw = if width > d {
                    width - d
                } else {
                    1
                };
                let inner = bp.content.box_size_given_width(iw);
                proof {
                    assert(iw == bullet_inner_width(width, bullet_indent_width(*bp)));
                    if width > d {
                        assert(inner.0 <= spec_clamped_width(iw) || inner.0 <= block_weight(
                            *bp.content,
                        ));
                        assert(spec_clamped_width(iw) == iw);
                    }
                }
                (inner.0 + d, inner.1)
            },
            Block::Title(t) => {
                let r = t.box_size_given_width(width);
                proof {
                    if !(t.level is Heading1) {
                        assert(r.0 <= title_inner_width(width, t.level));
                    }
                }
                r
            },
            Block::Code(c) => {
                let r = c.box_size_given_width(width);
                proof {
                    crate::code::lemma_split_lines_count(c.content@);
                    crate::code::lemma_split_lines_line_len(c.content@);
                    crate::code::lemma_max_line_len_le_all(
                        split_lines(c.content@),
                        c.content@.len(),
                    );
                }
                r
            },
        }
    }

    /// The width this block occupies when no wrapping constrains it.
    pub fn max_width(&self) -> (r: usize)
        requires
            block_wf(*self),
        ensures
            r == block_max_width(*self),
            r <= block_weight(*self),
        decreases *self,
    {
        match self {
            Block::Word(t) => t.max_width(),
            Block::Text(t) => t.max_width(),
            Block::Newlines(nl) => nl.max_width(),
            Block::Bullet(bp) => {
                let d = bp.indent_width();
                let inner = bp.content.max_width();
                inner + d
            },
            Block::Title(t) => t.max_width(),
            Block::Code(c) => {
                let r = c.max_width();
                proof {
                    crate::code::lemma_split_lines_line_len(c.content@);
                    crate::code::lemma_max_line_len_le_all(
                        split_lines(c.content@),
                        c.content@.len(),
                    );
                }
                r
            },
        }
    }

    /// The soft hint of this block's ugliest break width.
    pub fn width_pressure(&self) -> (r: usize)
        requires
            block_wf(*self),
        ensures
            r == block_width_pressure(*self),
            r <= block_weight(*self),
        decreases *self,
    {
        match self {
            Block::Word(t) => t.width_pressure(),
            Block::Text(t) => t.width_pressure(),
            Block::Newlines(nl) => nl.width_pressure(),
            Block::Bullet(bp) => {
                let d = bp.indent_width();
                let inner = bp.content.width_pressure();
                inner + d
            },
            Block::Title(t) => t.width_pressure(),
            Block::Code(c) => {
                let r = c.width_pressure();
                proof {
                    crate::code::lemma_split_lines_line_len(c.content@);
                    crate::code::lemma_max_line_len_le_all(
                        split_lines(c.content@),
                        c.content@.len(),
                    );
                }
                r
            },
        }
    }
}

/// What it means for a line stream to be a correct paint of one block at
/// a width. For every block but a code block the stream is pinned exactly;
/// for a code block the stream spells the content, one line per content
/// line, whatever colors the highlighter chose.
pub open spec fn block_rendering_ok(b: Block, width: usize, ls: Seq<LineView>) -> bool
    decreases b,
{
    match b {
        Block::Word(t) => ls == text_lines(seq![t], spec_clamped_width(width)),
        Block::Text(t) => ls == text_lines(t.0@, spec_clamped_width(width)),
        Block::Newlines(nl) => ls == blank_lines(nl.count as nat),
        Block::Bullet(bp) => {
            let d = bullet_indent_width(bp);
            let iw = bullet_inner_width(width, d);
            let inner = Seq::new(ls.len(), |i: int| LineView { spans: ls[i].spans.drop_first() });
            &&& block_rendering_ok(*bp.content, iw, inner)
            &&& forall|i: int|
                0 <= i < ls.len() ==> #[trigger] ls[i] == bullet_decorated(
                    bp,
                    inner[i],
                    i == 0,
                )
        },
        Block::Title(t) => ls == title_lines(t, width),
        Block::Code(c) => {
            &&& ls.len() == split_lines(c.content@).len()
            &&& forall|i: int|
                0 <= i < ls.len() ==> line_text(#[trigger] ls[i]) == split_lines(c.content@)[i]
            &&& forall|i: int|
                0 <= i < ls.len() ==> line_width(#[trigger] ls[i]) == split_lines(
                    c.content@,
                )[i].len()
        },
    }
}

impl Block {
    /// Paint this block at the given width.
    pub fn get_text(&self, width: usize) -> (r: Vec<Line>)
        requires
            block_wf(*self),
        ensures
            block_rendering_ok(*self, width, lines_view(r@)),
        decreases *self,
    {
        match self {
            Block::Word(t) => t.get_text(width),
            Block::Text(t) => t.get_text(width),
            Block::Newlines(nl) => nl.get_text(width),
            Block::Title(t) => t.get_text(width),
            Block::Code(c) => c.get_text(width),
            Block::Bullet(bp) => {
                let d = bp.indent_width();
                let iw = if width > d {
                    width - d
                } else {
                    1
                };
                proof {
                    assert(iw == bullet_inner_width(width, bullet_indent_width(*bp)));
                }
                let inner = bp.content.get_text(iw);
                let ghost inner_views = lines_view(inner@);
                let n = inner.len();
                let mut out: Vec<Line> = Vec::new();
                let mut i: usize = 0;
                while i < n
                    invariant
                        i <= n,
                        n == inner@.len(),
                        inner_views == lines_view(inner@),
                        d == bullet_indent_width(*bp),
                        d <= usize::MAX - 1,
                        bp.indent * 4 + bp.point@.len() + 1 <= usize::MAX,
                        out@.len() == i,
                        forall|k: int|
                            0 <= k < i ==> lines_view(out@)[k] == bullet_decorated(
                                *bp,
                                #[trigger] inner_views[k],
                                k == 0,
                            ),
                    decreases n - i,
                {
                    let mut cells: Vec<String> = Vec::new();
                    if i == 0 {
                        let indent_cols = bp.indent * 4;
                        let mut k: usize = 0;
                        proof {
                            reveal_strlit(" ");
                            assert(cells@.map_values(|c: String| c@) =~~= Seq::new(
                                0,
                                |x: int| seq![' '],
                            ));
                        }
                        while k < indent_cols
                            invariant
                                k <= indent_cols,
                                cells@.map_values(|c: String| c@) == Seq::new(
                                    k as nat,
                                    |x: int| seq![' '],
                                ),
                            decreases indent_cols - k,
                        {
                            let ghost cells_old = cells@;
                            let cell = " ".to_owned();
                            cells.push(cell);
                            proof {
                                reveal_strlit(" ");
                                crate::span::lemma_cells_view_push(cells_old, cell);
                                assert(cells@.map_values(|c: String| c@) =~~= Seq::new(
                                    (k + 1) as nat,
                                    |x: int| seq![' '],
                                ));
                            }
                            k = k + 1;
                        }
                        let marker = graphemes_of(bp.point.as_str());
                        let mc = marker.len();
                        let mut j: usize = 0;
                        proof {
                            assert(cells@.map_values(|c: String| c@) =~~= Seq::new(
                                (indent_cols) as nat,
                                |x: int| seq![' '],
                            ) + grapheme_split(bp.point@).take(0));
                        }
                        while j < mc
                            invariant
                                j <= mc,
                                mc == marker@.len(),
                                marker@.map_values(|g: String| g@) == grapheme_split(bp.point@),
                                cells@.map_values(|c: String| c@) == Seq::new(
                                    (bp.indent * 4) as nat,
                                    |x: int| seq![' '],
                                ) + grapheme_split(bp.point@).take(j as int),
                            decreases mc - j,
                        {
                            let ghost cells_old = cells@;
                            let cell = marker[j].clone();
                            cells.push(cell);
                            proof {
                                crate::span::lemma_cells_view_push(cells_old, cell);
                                assert(grapheme_split(bp.point@).take(j + 1) =~~= grapheme_split(
                                    bp.point@,
                                ).take(j as int).push(grapheme_split(bp.point@)[j as int]));
                                assert(cells@.map_values(|c: String| c@) =~~= Seq::new(
                                    (bp.indent * 4) as nat,
                                    |x: int| seq![' '],
                                ) + grapheme_split(bp.point@).take(j + 1));
                            }
                            j = j + 1;
                        }
                        let ghost cells_old = cells@;
                        let cell = " ".to_owned();
                        cells.push(cell);
                        proof {
                            reveal_strlit(" ");
                            crate::span::lemma_cells_view_push(cells_old, cell);
                            assert(grapheme_split(bp.point@).take(mc as int) =~~= grapheme_split(
                                bp.point@,
                            ));
                            assert(cells@.map_values(|c: String| c@) =~~= bullet_prefix_cells(
                                *bp,
                                true,
                            ));
                        }
                    } else {
                        let mut k: usize = 0;
                        proof {
                            reveal_strlit(" ");
                            assert(cells@.map_values(|c: String| c@) =~~= Seq::new(
                                0,
                                |x: int| seq![' '],
                            ));
                        }
                        while k < d
                            invariant
                                k <= d,
                                cells@.map_values(|c: String| c@) == Seq::new(
                                    k as nat,
                                    |x: int| seq![' '],
                                ),
                            decreases d - k,
                        {
                            let ghost cells_old = cells@;
                            let cell = " ".to_owned();
                            cells.push(cell);
                            proof {
                                reveal_strlit(" ");
                                crate::span::lemma_cells_view_push(cells_old, cell);
                                assert(cells@.map_values(|c: String| c@) =~~= Seq::new(
                                    (k + 1) as nat,
                                    |x: int| seq![' '],
                                ));
                            }
                            k = k + 1;
                        }
                        proof {
                            assert(cells@.map_values(|c: String| c@) =~~= bullet_prefix_cells(
                                *bp,
                                false,
                            ));
                        }
                    }
                    let mut spans: Vec<Span> = Vec::new();
                    let prefix_span = Span { cells, style: Style::plain() };
                    let ghost prefix_view = prefix_span@;
                    spans.push(prefix_span);
                    proof {
                        assert(spans@.map_values(|s: Span| s@) =~~= seq![prefix_view]
                            + inner_views[i as int].spans.take(0));
                    }
                    let m = inner[i].spans.len();
                    let mut j: usize = 0;
                    while j < m
                        invariant
                            j <= m,
                            i < n,
                            n == inner@.len(),
                            inner_views == lines_view(inner@),
                            m == inner@[i as int].spans@.len(),
                            spans@.map_values(|s: Span| s@) == seq![prefix_view]
                                + inner_views[i as int].spans.take(j as int),
                        decreases m - j,
                    {
                        let ghost spans_old = spans@;
                        let copied = clone_span(&inner[i].spans[j]);
                        spans.push(copied);
                        proof {
                            lemma_spans_view_push(spans_old, copied);
                            assert(inner_views[i as int].spans.take(j + 1) =~~= inner_views[i
                                as int].spans.take(j as int).push(
                                inner_views[i as int].spans[j as int],
                            ));
                            assert(spans@.map_values(|s: Span| s@) =~~= seq![prefix_view]
                                + inner_views[i as int].spans.take(j + 1));
                        }
                        j = j + 1;
                    }
                    let ghost out_old = out@;
                    let new_line = Line { spans };
                    out.push(new_line);
                    proof {
                        lemma_lines_view_push(out_old, new_line);
                        assert(inner_views[i as int].spans.take(m as int) =~~= inner_views[i
                            as int].spans);
                        assert(new_line@ =~~= bullet_decorated(
                            *bp,
                            inner_views[i as int],
                            i == 0,
                        ));
                    }
                    i = i + 1;
                }
                proof {
                    let ls = lines_view(out@);
                    let recovered = Seq::new(
                        ls.len(),
                        |k: int| LineView { spans: ls[k].spans.drop_first() },
                    );
                    assert(ls.len() == inner_views.len());
                    assert forall|k: int| 0 <= k < ls.len() implies recovered[k]
                        == inner_views[k] by {
                        assert(ls[k] == bullet_decorated(*bp, inner_views[k], k == 0));
                        assert(ls[k].spans.drop_first() =~~= inner_views[k].spans);
                    }
                    assert(recovered =~~= inner_views);
                    assert(block_rendering_ok(
                        *bp.content,
                        bullet_inner_width(width, bullet_indent_width(*bp)),
                        recovered,
                    ));
                    assert(block_rendering_ok(*self, width, lines_view(out@)));
                }
                out
            },
        }
    }
}

/// The words carrying a link target anywhere in a block, in order.
pub open spec fn block_links(b: Block) -> Seq<TextBlock>
    decreases b,
{
    match b {
        Block::Word(t) => crate::text::links_of(seq![t]),
        Block::Text(t) => crate::text::links_of(t.0@),
        Block::Newlines(nl) => Seq::empty(),
        Block::Bullet(bp) => block_links(*bp.content),
        Block::Title(t) => crate::text::links_of(t.text.0@),
        Block::Code(c) => Seq::empty(),
    }
}

impl Block {
    /// The words of this block that carry a link target, in order.
    pub fn get_links(&self) -> (r: Vec<&TextBlock>)
        ensures
            r@.map_values(|t: &TextBlock| *t) == block_links(*self),
        decreases *self,
    {
        match self {
            Block::Word(t) => t.get_links(),
            Block::Text(t) => t.get_links(),
            Block::Bullet(bp) => bp.content.get_links(),
            Block::Title(t) => t.text.get_links(),
            _ => {
                let r: Vec<&TextBlock> = Vec::new();
                proof {
                    assert(r@.map_values(|t: &TextBlock| *t) =~~= Seq::<TextBlock>::empty());
                }
                r
            },
        }
    }
}

/// Every block of a document is within machine limits.
pub open spec fn doc_wf(blocks: Seq<Block>) -> bool {
    forall|i: int| 0 <= i < blocks.len() ==> block_wf(#[trigger] blocks[i])
}

/// One line stream per block, each a correct paint of its block.
pub open spec fn doc_blocks_ok(blocks: Seq<Block>, width: usize, per: Seq<Seq<LineView>>) -> bool {
    &&& per.len() == blocks.len()
    &&& forall|i: int|
        0 <= i < blocks.len() ==> block_rendering_ok(blocks[i], width, #[trigger] per[i])
}

/// What it means for a line stream to be a correct paint of a whole
/// document: the streams of its blocks, in order, concatenated.
pub open spec fn doc_rendering_ok(blocks: Seq<Block>, width: usize, ls: Seq<LineView>) -> bool {
    exists|per: Seq<Seq<LineView>>|
        #![trigger doc_blocks_ok(blocks, width, per)]
        {
            &&& doc_blocks_ok(blocks, width, per)
            &&& ls == per.flatten()
        }
}

/// A document: its blocks in rendering order.
pub struct Document(pub Vec<Block>);

impl Document {
    /// Paint the whole document: every block's lines, top to bottom, in
    /// one stream.
    pub fn get_text(&self, width: usize) -> (r: Vec<Line>)
        requires
            doc_wf(self.0@),
        ensures
            doc_rendering_ok(self.0@, width, lines_view(r@)),
    {
        let ghost blocks = self.0@;
        let len = self.0.len();
        let mut out: Vec<Line> = Vec::new();
        let ghost mut per: Seq<Seq<LineView>> = Seq::empty();
        let mut i: usize = 0;
        proof {
            assert(per.flatten() =~~= Seq::<LineView>::empty());
            assert(lines_view(out@) =~~= Seq::<LineView>::empty());
        }
        while i < len
            invariant
                i <= len,
                len == self.0@.len(),
                blocks == self.0@,
                doc_wf(blocks),
                per.len() == i,
                forall|k: int|
                    0 <= k < i ==> block_rendering_ok(blocks[k], width, #[trigger] per[k]),
                lines_view(out@) == per.flatten(),
            decreases len - i,
        {
            let mut block_lines = self.0[i].get_text(width);
            let ghost out_old = out@;
            let ghost tail = lines_view(block_lines@);
            out.append(&mut block_lines);
            proof {
                let appended = out@.subrange(out_old.len() as int, out@.len() as int);
                lemma_lines_view_add(out_old, appended);
                assert(out@ =~~= out_old + appended);
                assert(lines_view(appended) =~~= tail);
                Seq::lemma_flatten_push(per, tail);
                per = per.push(tail);
                assert(lines_view(out@) =~~= per.flatten());
            }
            i = i + 1;
        }
        proof {
            assert(doc_blocks_ok(blocks, width, per));
            assert(doc_rendering_ok(blocks, width, lines_view(out@)));
        }
        out
    }
}

/// The visible part of a line stream: skip `offset` lines, keep at most
/// `height`. An offset at or past the end leaves nothing visible.
pub open spec fn visible_slice_spec(ls: Seq<LineView>, height: nat, offset: nat) -> Seq<LineView> {
    if offset >= ls.len() {
        Seq::empty()
    } else if offset + height <= ls.len() {
        ls.subrange(offset as int, (offset + height) as int)
    } else {
        ls.subrange(offset as int, ls.len() as int)
    }
}

/// Law: a scroll offset at or past the end of the line stream yields an
/// empty visible region, whatever the stream and the viewport height; it
/// is never a failure.
pub proof fn lemma_scroll_past_end(ls: Seq<LineView>, height: nat, offset: nat)
    requires
        offset >= ls.len(),
    ensures
        visible_slice_spec(ls, height, offset) == Seq::<LineView>::empty(),
{
}

/// Cut the visible window out of a full line stream.
pub fn visible_slice(lines: &Vec<Line>, height: usize, offset: usize) -> (r: Vec<Line>)
    ensures
        lines_view(r@) == visible_slice_spec(lines_view(lines@), height as nat, offset as nat),
{
    let n = lines.len();
    let mut r: Vec<Line> = Vec::new();
    if offset >= n {
        proof {
            assert(lines_view(r@) =~~= Seq::<LineView>::empty());
        }
        return r;
    }
    let end = if height <= n - offset {
        offset + height
    } else {
        n
    };
    let mut i: usize = offset;
    proof {
        assert(lines_view(r@) =~~= lines_view(lines@).subrange(
            offset as int,
            offset as int,
        ));
    }
    while i < end
        invariant
            offset <= i <= end <= n,
            n == lines@.len(),
            lines_view(r@) == lines_view(lines@).subrange(offset as int, i as int),
        decreases end - i,
    {
        let ghost r_old = r@;
        let copied = clone_line(&lines[i]);
        r.push(copied);
        proof {
            lemma_lines_view_push(r_old, copied);
            assert(lines_view(lines@).subrange(offset as int, i + 1) =~~= lines_view(
                lines@,
            ).subrange(offset as int, i as int).push(lines_view(lines@)[i as int]));
        }
        i = i + 1;
    }
    r
}

impl Document {
    /// Flatten the document at `width` and write out only the rows that
    /// fall within the viewport: skip the first `scroll_offset` lines,
    /// then keep at most `viewport_height`. Scrolling past the end yields
    /// an empty region, never a failure.
    pub fn render_visible(
        &self,
        width: usize,
        viewport_height: usize,
        scroll_offset: usize,
    ) -> (r: Vec<Line>)
        requires
            doc_wf(self.0@),
        ensures
            exists|full: Seq<LineView>|
                {
                    &&& #[trigger] doc_rendering_ok(self.0@, width, full)
                    &&& lines_view(r@) == visible_slice_spec(
                        full,
                        viewport_height as nat,
                        scroll_offset as nat,
                    )
                },
    {
        let full = self.get_text(width);
        let r = visible_slice(&full, viewport_height, scroll_offset);
        proof {
            assert(doc_rendering_ok(self.0@, width, lines_view(full@)));
        }
        r
    }
}

/// The scroll state around a document: how many leading lines of the
/// flattened stream the host has scrolled away.
pub struct DocumentWidget {
    pub document: Document,
    pub scroll_offset: usize,
}

impl DocumentWidget {
    /// The full, unscrolled line stream of the document at a width.
    pub fn get_text(&self, width: usize) -> (r: Vec<Line>)
        requires
            doc_wf(self.document.0@),
        ensures
            doc_rendering_ok(self.document.0@, width, lines_view(r@)),
    {
        self.document.get_text(width)
    }

    /// The lines visible through a viewport of the given height, after
    /// this widget's scroll offset.
    pub fn visible_lines(&self, width: usize, viewport_height: usize) -> (r: Vec<Line>)
        requires
            doc_wf(self.document.0@),
        ensures
            exists|full: Seq<LineView>|
                {
                    &&& #[trigger] doc_rendering_ok(self.document.0@, width, full)
                    &&& lines_view(r@) == visible_slice_spec(
                        full,
                        viewport_height as nat,
                        self.scroll_offset as nat,
                    )
                },
    {
        self.document.render_visible(width, viewport_height, self.scroll_offset)
    }
}

/// Law: a bullet point's box is its inner block's box at the reduced
/// width, with the decoration's width added to the used width and the
/// line count unchanged: decoration never adds lines.
pub proof fn lemma_bullet_box(bp: BulletPoint, width: usize)
    ensures
        block_box(Block::Bullet(bp), width).0 == bullet_indent_width(bp) + block_box(
            *bp.content,
            bullet_inner_width(width, bullet_indent_width(bp)),
        ).0,
        block_box(Block::Bullet(bp), width).1 == block_box(
            *bp.content,
            bullet_inner_width(width, bullet_indent_width(bp)),
        ).1,
{
}

/// The number of lines a whole document measures at a width: the sum of
/// its blocks' measured line counts.
pub open spec fn doc_line_count(blocks: Seq<Block>, width: usize) -> nat
    decreases blocks.len(),
{
    if blocks.len() == 0 {
        0
    } else {
        doc_line_count(blocks.drop_last(), width) + block_box(blocks.last(), width).1
    }
}

/// The flattened length of a sequence of line streams is the sum of their
/// lengths.
proof fn lemma_flatten_line_streams_len(per: Seq<Seq<LineView>>)
    ensures
        per.flatten().len() == stream_len_sum(per),
    decreases per.len(),
{
    if per.len() > 0 {
        lemma_flatten_line_streams_len(per.drop_last());
        Seq::lemma_flatten_push(per.drop_last(), per.last());
        assert(per.drop_last().push(per.last()) =~~= per);
    }
}

/// The sum of the lengths of a sequence of line streams.
spec fn stream_len_sum(per: Seq<Seq<LineView>>) -> nat
    decreases per.len(),
{
    if per.len() == 0 {
        0
    } else {
        stream_len_sum(per.drop_last()) + per.last().len()
    }
}

/// Law: the whole document's paint agrees with the whole document's
/// measurement: any correctly painted stream has exactly the sum of the
/// blocks' measured line counts.
pub proof fn lemma_doc_paint_line_count(blocks: Seq<Block>, width: usize, ls: Seq<LineView>)
    requires
        doc_rendering_ok(blocks, width, ls),
    ensures
        ls.len() == doc_line_count(blocks, width),
{
    let per = choose|per: Seq<Seq<LineView>>|
        #![trigger doc_blocks_ok(blocks, width, per)]
        {
            &&& doc_blocks_ok(blocks, width, per)
            &&& ls == per.flatten()
        };
    lemma_flatten_line_streams_len(per);
    lemma_doc_counts(blocks, width, per);
}

/// The sum of correctly painted per-block streams is the measured total.
proof fn lemma_doc_counts(blocks: Seq<Block>, width: usize, per: Seq<Seq<LineView>>)
    requires
        doc_blocks_ok(blocks, width, per),
    ensures
        stream_len_sum(per) == doc_line_count(blocks, width),
    decreases blocks.len(),
{
    if blocks.len() > 0 {
        assert(doc_blocks_ok(blocks.drop_last(), width, per.drop_last())) by {
            assert(forall|i: int|
                0 <= i < blocks.drop_last().len() ==> blocks.drop_last()[i] == blocks[i]
                    && #[trigger] per.drop_last()[i] == per[i]);
        }
        lemma_doc_counts(blocks.drop_last(), width, per.drop_last());
        assert(block_rendering_ok(blocks.last(), width, per[blocks.len() - 1]));
        lemma_block_paint_line_count(blocks.last(), width, per.last());
    }
}

/// Law: measurement is idempotent for every block kind: any two measured
/// boxes of the same unmutated block at the same width are equal, because
/// each is pinned to a function of the block and the width alone.
pub proof fn lemma_block_box_idempotent(
    r1: (usize, usize),
    r2: (usize, usize),
    b: Block,
    width: usize,
)
    requires
        r1.0 == block_box(b, width).0,
        r1.1 == block_box(b, width).1,
        r2.0 == block_box(b, width).0,
        r2.1 == block_box(b, width).1,
    ensures
        r1 == r2,
{
}

/// Law: for every block, any correctly painted line stream has exactly
/// the measured line count, whatever the width and whatever choices the
/// external highlighter made.
pub proof fn lemma_block_paint_line_count(b: Block, width: usize, ls: Seq<LineView>)
    requires
        block_rendering_ok(b, width, ls),
    ensures
        ls.len() == block_box(b, width).1,
    decreases b,
{
    match b {
        Block::Word(t) => {},
        Block::Text(t) => {},
        Block::Newlines(nl) => {},
        Block::Title(t) => {
            crate::title::lemma_heading_line_count(t, width);
        },
        Block::Code(c) => {},
        Block::Bullet(bp) => {
            let d = bullet_indent_width(bp);
            let iw = bullet_inner_width(width, d);
            let inner = Seq::new(ls.len(), |i: int| LineView { spans: ls[i].spans.drop_first() });
            lemma_block_paint_line_count(*bp.content, iw, inner);
        },
    }
}

} // verus!
