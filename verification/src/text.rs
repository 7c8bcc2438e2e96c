//! Word-wrapped text: the measurement and paint passes of the layout engine.
//!
//! A [`Text`] is an ordered run of [`TextBlock`] words, each carrying one
//! whitespace-delimited word plus its trailing space. Both the box
//! measurement and the painted lines are defined by one greedy wrap
//! function, [`wrap_words`], so the two passes agree on every input.

use vstd::arithmetic::div_mod::{lemma_div_is_ordered_by_denominator, lemma_div_plus_one};
use vstd::prelude::*;
use vstd::string::*;

use crate::segment::{grapheme_len, grapheme_split, graphemes_of};
use crate::span::{
    clone_cell_range, line_width, lines_view, max_line_width, span_width, sum_widths,
    lemma_lines_view_push, lemma_spans_view_push, lemma_max_line_width_add,
    lemma_max_line_width_push, lemma_sum_widths_push, Line, LineView, Span, SpanView,
};
use crate::style::Style;

verus! {

/// One word of styled text, including its trailing space. The content is
/// expected to hold no interior space; the trailing space is the wrap
/// engine's break point. The optional link target is a purely additive
/// annotation that never affects measurement.
pub struct TextBlock {
    pub content: String,
    pub style: Style,
    pub link: Option<String>,
}

/// An ordered run of words that is wrapped onto lines of a given width.
pub struct Text(pub Vec<TextBlock>);

/// The display width of a word, in grapheme cells.
pub open spec fn word_width(t: TextBlock) -> nat {
    grapheme_len(t.content@)
}

/// The span a word paints: its grapheme cells under its style.
pub open spec fn word_span(t: TextBlock) -> SpanView {
    SpanView { cells: grapheme_split(t.content@), style: t.style }
}

/// The total number of characters held by a run of words.
pub open spec fn total_chars(ws: Seq<TextBlock>) -> nat
    decreases ws.len(),
{
    if ws.len() == 0 {
        0
    } else {
        total_chars(ws.drop_last()) + ws.last().content@.len()
    }
}

/// The requested width with the degenerate width 0 clamped to 1, so that no
/// wrap computation divides by zero.
pub open spec fn spec_clamped_width(width: usize) -> nat {
    if width == 0 {
        1nat
    } else {
        width as nat
    }
}

/// The lines an overlength word paints on its own: the word's cells cut
/// into full-width chunks, with whatever remains on the final line.
pub open spec fn chunk_lines(cells: Seq<Seq<char>>, style: Style, w: nat) -> Seq<LineView>
    decreases cells.len(),
    when w >= 1
{
    if cells.len() <= w {
        seq![LineView { spans: seq![SpanView { cells, style }] }]
    } else {
        seq![LineView { spans: seq![SpanView { cells: cells.take(w as int), style }] }]
            + chunk_lines(cells.skip(w as int), style, w)
    }
}

/// The state of the greedy wrap: the lines already closed, and the line
/// still open under the cursor, if any.
#[verifier::ext_equal]
pub struct WrapState {
    pub closed: Seq<LineView>,
    pub cur: Option<LineView>,
}

/// One step of the greedy wrap. An overlength word closes the open line and
/// spans its own chunk lines, leaving no line open; a word that no longer
/// fits closes the open line and opens a new one; a fitting word is appended
/// in place.
pub open spec fn wrap_step(st: WrapState, word: TextBlock, w: nat) -> WrapState {
    let n = word_width(word);
    let sp = word_span(word);
    match st.cur {
        None => {
            if n > w {
                WrapState { closed: st.closed + chunk_lines(sp.cells, sp.style, w), cur: None }
            } else {
                WrapState { closed: st.closed, cur: Some(LineView { spans: seq![sp] }) }
            }
        },
        Some(cl) => {
            if n > w {
                WrapState {
                    closed: st.closed.push(cl) + chunk_lines(sp.cells, sp.style, w),
                    cur: None,
                }
            } else if line_width(cl) + n > w {
                WrapState {
                    closed: st.closed.push(cl),
                    cur: Some(LineView { spans: seq![sp] }),
                }
            } else {
                WrapState { closed: st.closed, cur: Some(LineView { spans: cl.spans.push(sp) }) }
            }
        },
    }
}

/// The greedy wrap of a run of words at width `w`, from an empty state.
pub open spec fn wrap_words(words: Seq<TextBlock>, w: nat) -> WrapState
    decreases words.len(),
{
    if words.len() == 0 {
        WrapState { closed: Seq::empty(), cur: None }
    } else {
        wrap_step(wrap_words(words.drop_last(), w), words.last(), w)
    }
}

/// The painted lines of a run of words: the closed lines, then the open
/// line if one remains. An empty run paints no lines.
pub open spec fn finish_lines(st: WrapState) -> Seq<LineView> {
    match st.cur {
        None => st.closed,
        Some(cl) => st.closed.push(cl),
    }
}

/// The lines a run of words paints at width `w`.
pub open spec fn text_lines(words: Seq<TextBlock>, w: nat) -> Seq<LineView> {
    finish_lines(wrap_words(words, w))
}

/// The used width a run of words reports at width `w`: the widest painted
/// line, capped at `w`.
pub open spec fn text_used_width(words: Seq<TextBlock>, w: nat) -> nat {
    let m = max_line_width(text_lines(words, w));
    if m > w {
        w
    } else {
        m
    }
}

/// The number of lines a run of words paints at width `w`.
pub open spec fn text_line_count(words: Seq<TextBlock>, w: nat) -> nat {
    text_lines(words, w).len()
}

/// The width of a one-span line is the span's width.
pub proof fn lemma_line_width_singleton(sp: SpanView)
    ensures
        line_width(LineView { spans: seq![sp] }) == span_width(sp),
{
    assert(seq![sp] =~~= Seq::<SpanView>::empty().push(sp));
    lemma_sum_widths_push(Seq::empty(), sp);
}

/// An overlength word of `n` cells spans exactly `(n - 1) / w + 1` lines.
pub proof fn lemma_chunk_lines_len(cells: Seq<Seq<char>>, style: Style, w: nat)
    requires
        w >= 1,
        cells.len() >= 1,
    ensures
        chunk_lines(cells, style, w).len() == (cells.len() - 1) / (w as int) + 1,
        chunk_lines(cells, style, w).len() <= cells.len(),
    decreases cells.len(),
{
    if cells.len() <= w {
        assert((cells.len() - 1) / (w as int) == 0) by {
            vstd::arithmetic::div_mod::lemma_basic_div(cells.len() - 1, w as int);
        }
    } else {
        lemma_chunk_lines_len(cells.skip(w as int), style, w);
        assert(cells.skip(w as int).len() == cells.len() - w);
        lemma_div_plus_one(cells.len() - w - 1, w as int);
    }
}

/// The widest chunk line of an overlength word is the full width `w`; for a
/// word that fits, it is the word's own width.
pub proof fn lemma_chunk_lines_max(cells: Seq<Seq<char>>, style: Style, w: nat)
    requires
        w >= 1,
    ensures
        max_line_width(chunk_lines(cells, style, w)) == if cells.len() > w {
            w
        } else {
            cells.len()
        },
    decreases cells.len(),
{
    if cells.len() <= w {
        let sp = SpanView { cells, style };
        lemma_line_width_singleton(sp);
        let ls = chunk_lines(cells, style, w);
        assert(ls =~~= Seq::<LineView>::empty().push(LineView { spans: seq![sp] }));
        lemma_max_line_width_push(Seq::empty(), LineView { spans: seq![sp] });
    } else {
        let sp = SpanView { cells: cells.take(w as int), style };
        let first = LineView { spans: seq![sp] };
        lemma_line_width_singleton(sp);
        lemma_chunk_lines_max(cells.skip(w as int), style, w);
        lemma_max_line_width_add(seq![first], chunk_lines(cells.skip(w as int), style, w));
        assert(seq![first] =~~= Seq::<LineView>::empty().push(first));
        lemma_max_line_width_push(Seq::empty(), first);
    }
}

/// Clamp a requested width to at least one column.
pub fn clamped_width(width: usize) -> (w: usize)
    ensures
        w == spec_clamped_width(width),
        w >= 1,
{
    if width == 0 {
        1
    } else {
        width
    }
}

/// Append to `lines` the chunk lines of one word's cells at width `width`:
/// full-width lines first, the remainder on the final line.
fn push_chunk_lines(lines: &mut Vec<Line>, cells: Vec<String>, style: Style, width: usize)
    requires
        width >= 1,
    ensures
        lines_view(final(lines)@) == lines_view(old(lines)@) + chunk_lines(
            cells@.map_values(|c: String| c@),
            style,
            width as nat,
        ),
{
    let ghost cs = cells@.map_values(|c: String| c@);
    let n = cells.len();
    let mut idx: usize = 0;
    let ghost mut built: Seq<LineView> = Seq::empty();
    proof {
        assert(cs.skip(0) =~~= cs);
        assert(lines_view(lines@) =~~= lines_view(lines@) + built);
    }
    while n - idx > width
        invariant
            width >= 1,
            idx <= n,
            n == cells@.len(),
            cs == cells@.map_values(|c: String| c@),
            lines_view(lines@) == lines_view(old(lines)@) + built,
            chunk_lines(cs, style, width as nat) == built + chunk_lines(
                cs.skip(idx as int),
                style,
                width as nat,
            ),
        decreases n - idx,
    {
        let chunk = clone_cell_range(&cells, idx, idx + width);
        let line = Line { spans: vec![Span { cells: chunk, style }] };
        proof {
            let rest = cs.skip(idx as int);
            assert(rest.take(width as int) =~~= cs.subrange(idx as int, idx + width));
            assert(rest.skip(width as int) =~~= cs.skip(idx + width));
            assert(chunk_lines(rest, style, width as nat) =~~= seq![line@] + chunk_lines(
                cs.skip(idx + width),
                style,
                width as nat,
            ));
            assert(built + chunk_lines(rest, style, width as nat) =~~= built.push(line@)
                + chunk_lines(cs.skip(idx + width), style, width as nat));
        }
        let ghost lines_old = lines@;
        lines.push(line);
        proof {
            lemma_lines_view_push(lines_old, line);
            built = built.push(line@);
            assert(lines_view(lines@) =~~= lines_view(old(lines)@) + built);
        }
        idx = idx + width;
    }
    let chunk = clone_cell_range(&cells, idx, n);
    let line = Line { spans: vec![Span { cells: chunk, style }] };
    proof {
        let rest = cs.skip(idx as int);
        assert(rest =~~= cs.subrange(idx as int, n as int));
        assert(chunk_lines(rest, style, width as nat) =~~= seq![line@]);
        assert(built + chunk_lines(rest, style, width as nat) =~~= built.push(line@));
    }
    let ghost lines_old = lines@;
    lines.push(line);
    proof {
        lemma_lines_view_push(lines_old, line);
        built = built.push(line@);
        assert(lines_view(lines@) =~~= lines_view(old(lines)@) + built);
        assert(chunk_lines(cs, style, width as nat) =~~= built);
    }
}

impl TextBlock {
    /// The width this word occupies when no wrapping constrains it: its
    /// number of grapheme cells.
    pub fn max_width(&self) -> (r: usize)
        ensures
            r == word_width(*self),
            r <= self.content@.len(),
    {
        crate::segment::grapheme_count(self.content.as_str())
    }

    /// The ugliest break width of a single word is the word itself.
    pub fn width_pressure(&self) -> (r: usize)
        ensures
            r == word_width(*self),
            r <= self.content@.len(),
    {
        self.max_width()
    }

    /// The span this word paints: its grapheme cells under its style.
    pub fn to_span(&self) -> (r: Span)
        ensures
            r@ == word_span(*self),
    {
        let cells = graphemes_of(self.content.as_str());
        Span { cells, style: self.style }
    }

    /// The box a single word occupies at the given width: identical to
    /// wrapping a one-word run, so an overlength word reports its chunk
    /// lines and a fitting word reports one line.
    pub fn box_size_given_width(&self, width: usize) -> (r: (usize, usize))
        ensures
            r.0 == text_used_width(seq![*self], spec_clamped_width(width)),
            r.1 == text_line_count(seq![*self], spec_clamped_width(width)),
            r.1 <= self.content@.len() + 1,
    {
        let w = clamped_width(width);
        let mw = self.max_width();
        proof {
            lemma_text_lines_singleton(*self, w as nat);
            lemma_chunk_lines_max(grapheme_split(self.content@), self.style, w as nat);
            if mw >= 1 {
                lemma_chunk_lines_len(grapheme_split(self.content@), self.style, w as nat);
            }
        }
        if mw > w {
            let count = (mw - 1) / w + 1;
            (w, count)
        } else {
            (mw, 1)
        }
    }

    /// Paint this word alone at the given width: the same lines a one-word
    /// run would produce.
    pub fn get_text(&self, width: usize) -> (r: Vec<Line>)
        ensures
            lines_view(r@) == text_lines(seq![*self], spec_clamped_width(width)),
    {
        let w = clamped_width(width);
        let cells = graphemes_of(self.content.as_str());
        let mut lines: Vec<Line> = Vec::new();
        proof {
            lemma_text_lines_singleton(*self, w as nat);
            assert(lines_view(lines@) =~~= Seq::<LineView>::empty());
        }
        push_chunk_lines(&mut lines, cells, self.style, w);
        proof {
            assert(lines_view(lines@) =~~= chunk_lines(
                grapheme_split(self.content@),
                self.style,
                w as nat,
            ));
        }
        lines
    }

    /// The links this word carries: itself, when it has a link target.
    pub fn get_links(&self) -> (r: Vec<&TextBlock>)
        ensures
            r@.map_values(|t: &TextBlock| *t) == links_of(seq![*self]),
    {
        let mut r: Vec<&TextBlock> = Vec::new();
        if self.link.is_some() {
            r.push(self);
        }
        proof {
            assert(seq![*self].drop_last() =~~= Seq::<TextBlock>::empty());
            assert(links_of(Seq::<TextBlock>::empty()) =~~= Seq::<TextBlock>::empty());
            assert(r@.map_values(|t: &TextBlock| *t) =~~= links_of(seq![*self]));
        }
        r
    }
}

impl Text {
    /// Machine-limit well-formedness: the run is small enough that counting
    /// its wrapped lines cannot overflow a `usize`.
    pub open spec fn wf(&self) -> bool {
        self.0@.len() + total_chars(self.0@) <= usize::MAX
    }

    /// Measure the box this run occupies at the given width, without
    /// painting it: the widest wrapped line (capped at the width) and the
    /// number of wrapped lines, by the same greedy wrap the paint pass uses.
    pub fn box_size_given_width(&self, width: usize) -> (r: (usize, usize))
        requires
            self.wf(),
        ensures
            r.0 == text_used_width(self.0@, spec_clamped_width(width)),
            r.1 == text_line_count(self.0@, spec_clamped_width(width)),
            r.1 <= self.0@.len() + total_chars(self.0@),
    {
        let w = clamped_width(width);
        let ghost words = self.0@;
        let len = self.0.len();
        let mut i: usize = 0;
        let mut closed_count: usize = 0;
        let mut mw: usize = 0;
        let mut cur_len: usize = 0;
        let mut has_cur: bool = false;
        proof {
            assert(words.take(0) =~~= Seq::<TextBlock>::empty());
            assert(wrap_words(Seq::<TextBlock>::empty(), w as nat) == (WrapState {
                closed: Seq::<LineView>::empty(),
                cur: None::<LineView>,
            }));
        }
        while i < len
            invariant
                i <= len,
                len == self.0@.len(),
                words == self.0@,
                self.wf(),
                w == spec_clamped_width(width),
                w >= 1,
                closed_count == wrap_words(words.take(i as int), w as nat).closed.len(),
                has_cur == (wrap_words(words.take(i as int), w as nat).cur is Some),
                has_cur ==> cur_len == line_width(
                    wrap_words(words.take(i as int), w as nat).cur.unwrap(),
                ),
                cur_len <= w,
                !has_cur ==> cur_len == 0,
                mw == max_line_width(finish_lines(wrap_words(words.take(i as int), w as nat))),
                finish_lines(wrap_words(words.take(i as int), w as nat)).len() <= i
                    + total_chars(words.take(i as int)),
            decreases len - i,
        {
            let ghost st = wrap_words(words.take(i as int), w as nat);
            let word = &self.0[i];
            let n = word.max_width();
            proof {
                lemma_wrap_words_step(words, i as int, w as nat);
                lemma_wrap_step_measures(st, words[i as int], w as nat);
                lemma_total_chars_take_step(words, i as int);
                lemma_total_chars_take_le(words, i + 1);
            }
            if n > w {
                if has_cur {
                    closed_count = closed_count + 1;
                    has_cur = false;
                    cur_len = 0;
                }
                let chunks = (n - 1) / w + 1;
                proof {
                    assert((n - 1) / (w as int) <= n - 1) by {
                        lemma_div_is_ordered_by_denominator(n - 1, 1, w as int);
                    }
                }
                closed_count = closed_count + chunks;
                if w > mw {
                    mw = w;
                }
            } else if !has_cur {
                has_cur = true;
                cur_len = n;
                if n > mw {
                    mw = n;
                }
            } else if n > w - cur_len {
                closed_count = closed_count + 1;
                cur_len = n;
                if n > mw {
                    mw = n;
                }
            } else {
                cur_len = cur_len + n;
                if cur_len > mw {
                    mw = cur_len;
                }
            }
            i = i + 1;
        }
        proof {
            assert(words.take(len as int) =~~= words);
        }
        let used = if mw > w {
            w
        } else {
            mw
        };
        let count = if has_cur {
            closed_count + 1
        } else {
            closed_count
        };
        (used, count)
    }

    /// Paint this run at the given width: the exact lines of the greedy
    /// wrap, each span one word's grapheme cells, overlength words split
    /// across consecutive lines.
    pub fn get_text(&self, width: usize) -> (r: Vec<Line>)
        ensures
            lines_view(r@) == text_lines(self.0@, spec_clamped_width(width)),
    {
        let w = clamped_width(width);
        let ghost words = self.0@;
        let len = self.0.len();
        let mut lines: Vec<Line> = Vec::new();
        let mut cur: Vec<Span> = Vec::new();
        let mut cur_len: usize = 0;
        let mut has_cur: bool = false;
        let mut i: usize = 0;
        proof {
            assert(words.take(0) =~~= Seq::<TextBlock>::empty());
            assert(wrap_words(Seq::<TextBlock>::empty(), w as nat) == (WrapState {
                closed: Seq::<LineView>::empty(),
                cur: None::<LineView>,
            }));
            assert(lines_view(lines@) =~~= Seq::<LineView>::empty());
            assert(cur@.map_values(|s: Span| s@) =~~= Seq::<SpanView>::empty());
        }
        while i < len
            invariant
                i <= len,
                len == self.0@.len(),
                words == self.0@,
                w == spec_clamped_width(width),
                w >= 1,
                lines_view(lines@) == wrap_words(words.take(i as int), w as nat).closed,
                has_cur == (wrap_words(words.take(i as int), w as nat).cur is Some),
                has_cur ==> wrap_words(words.take(i as int), w as nat).cur.unwrap()
                    == (LineView { spans: cur@.map_values(|s: Span| s@) }),
                has_cur ==> cur_len == line_width(
                    wrap_words(words.take(i as int), w as nat).cur.unwrap(),
                ),
                cur_len <= w,
                !has_cur ==> cur@.len() == 0 && cur_len == 0,
            decreases len - i,
        {
            let ghost st = wrap_words(words.take(i as int), w as nat);
            let word = &self.0[i];
            let n = word.max_width();
            proof {
                lemma_wrap_words_step(words, i as int, w as nat);
                lemma_wrap_step_measures(st, words[i as int], w as nat);
            }
            if n > w {
                if has_cur {
                    let ghost lines_old = lines@;
                    let closed_line = Line { spans: cur };
                    lines.push(closed_line);
                    proof {
                        lemma_lines_view_push(lines_old, closed_line);
                    }
                    cur = Vec::new();
                    has_cur = false;
                    cur_len = 0;
                    proof {
                        assert(cur@.map_values(|s: Span| s@) =~~= Seq::<SpanView>::empty());
                    }
                }
                let cells = graphemes_of(word.content.as_str());
                push_chunk_lines(&mut lines, cells, word.style, w);
                proof {
                    assert(lines_view(lines@) =~~= wrap_words(
                        words.take(i + 1),
                        w as nat,
                    ).closed);
                }
            } else {
                let span = word.to_span();
                if !has_cur {
                    let ghost cur_old = cur@;
                    cur.push(span);
                    proof {
                        lemma_spans_view_push(cur_old, span);
                        assert(wrap_words(words.take(i + 1), w as nat).cur.unwrap()
                            == (LineView { spans: cur@.map_values(|s: Span| s@) }));
                    }
                    has_cur = true;
                    cur_len = n;
                } else if n > w - cur_len {
                    let ghost lines_old = lines@;
                    let closed_line = Line { spans: cur };
                    lines.push(closed_line);
                    proof {
                        lemma_lines_view_push(lines_old, closed_line);
                    }
                    cur = Vec::new();
                    let ghost cur_old = cur@;
                    cur.push(span);
                    proof {
                        assert(cur_old.map_values(|s: Span| s@) =~~= Seq::<SpanView>::empty());
                        lemma_spans_view_push(cur_old, span);
                        assert(wrap_words(words.take(i + 1), w as nat).cur.unwrap()
                            == (LineView { spans: cur@.map_values(|s: Span| s@) }));
                    }
                    cur_len = n;
                } else {
                    let ghost cur_old = cur@;
                    cur.push(span);
                    proof {
                        lemma_spans_view_push(cur_old, span);
                        assert(wrap_words(words.take(i + 1), w as nat).cur.unwrap()
                            == (LineView { spans: cur@.map_values(|s: Span| s@) }));
                    }
                    cur_len = cur_len + n;
                }
            }
            i = i + 1;
        }
        proof {
            assert(words.take(len as int) =~~= words);
        }
        if has_cur {
            let ghost lines_old = lines@;
            let last_line = Line { spans: cur };
            lines.push(last_line);
            proof {
                lemma_lines_view_push(lines_old, last_line);
            }
        }
        proof {
            assert(lines_view(lines@) =~~= text_lines(words, w as nat));
        }
        lines
    }
}

/// The words of a run that carry a link target, in order.
pub open spec fn links_of(ws: Seq<TextBlock>) -> Seq<TextBlock>
    decreases ws.len(),
{
    if ws.len() == 0 {
        Seq::empty()
    } else {
        let rest = links_of(ws.drop_last());
        if ws.last().link is Some {
            rest.push(ws.last())
        } else {
            rest
        }
    }
}

/// Processing one more word applies one wrap step.
pub proof fn lemma_wrap_words_step(words: Seq<TextBlock>, i: int, w: nat)
    requires
        0 <= i < words.len(),
    ensures
        wrap_words(words.take(i + 1), w) == wrap_step(wrap_words(words.take(i), w), words[i], w),
{
    assert(words.take(i + 1).drop_last() =~~= words.take(i));
    assert(words.take(i + 1).last() == words[i]);
}

/// Taking one more word adds its characters to the total.
pub proof fn lemma_total_chars_take_step(words: Seq<TextBlock>, i: int)
    requires
        0 <= i < words.len(),
    ensures
        total_chars(words.take(i + 1)) == total_chars(words.take(i)) + words[i].content@.len(),
{
    assert(words.take(i + 1).drop_last() =~~= words.take(i));
    assert(words.take(i + 1).last() == words[i]);
}

/// A prefix of a run never holds more characters than the whole run.
pub proof fn lemma_total_chars_take_le(words: Seq<TextBlock>, i: int)
    requires
        0 <= i <= words.len(),
    ensures
        total_chars(words.take(i)) <= total_chars(words),
    decreases words.len() - i,
{
    if i == words.len() {
        assert(words.take(i) =~~= words);
    } else {
        lemma_total_chars_take_step(words, i);
        lemma_total_chars_take_le(words, i + 1);
    }
}

/// How one wrap step changes the painted line count, the closed-line count,
/// the open line's width, and the widest painted line. This is the bridge
/// between the greedy wrap specification and the counting loop of the
/// measurement pass.
pub proof fn lemma_wrap_step_measures(st: WrapState, word: TextBlock, w: nat)
    requires
        w >= 1,
        st.cur is Some ==> line_width(st.cur.unwrap()) <= w,
    ensures
        ({
            let st2 = wrap_step(st, word, w);
            let n = word_width(word);
            let c0 = finish_lines(st).len();
            let m0 = max_line_width(finish_lines(st));
            let m2 = max_line_width(finish_lines(st2));
            &&& finish_lines(st2).len() <= c0 + n + 1
            &&& (st2.cur is Some ==> line_width(st2.cur.unwrap()) <= w)
            &&& (n > w ==> {
                &&& st2.cur is None
                &&& st2.closed.len() == c0 + (n - 1) / (w as int) + 1
                &&& m2 == if w > m0 {
                    w
                } else {
                    m0
                }
            })
            &&& (n <= w && st.cur is None ==> {
                &&& st2.cur is Some
                &&& line_width(st2.cur.unwrap()) == n
                &&& st2.closed == st.closed
                &&& m2 == if n > m0 {
                    n
                } else {
                    m0
                }
            })
            &&& (n <= w && st.cur is Some && line_width(st.cur.unwrap()) + n > w ==> {
                &&& st2.cur is Some
                &&& line_width(st2.cur.unwrap()) == n
                &&& st2.closed.len() == st.closed.len() + 1
                &&& m2 == if n > m0 {
                    n
                } else {
                    m0
                }
            })
            &&& (n <= w && st.cur is Some && line_width(st.cur.unwrap()) + n <= w ==> {
                &&& st2.cur is Some
                &&& line_width(st2.cur.unwrap()) == line_width(st.cur.unwrap()) + n
                &&& st2.closed == st.closed
                &&& m2 == if line_width(st.cur.unwrap()) + n > m0 {
                    (line_width(st.cur.unwrap()) + n) as nat
                } else {
                    m0
                }
            })
        }),
{
    let st2 = wrap_step(st, word, w);
    let n = word_width(word);
    let sp = word_span(word);
    let cells = grapheme_split(word.content@);
    lemma_line_width_singleton(sp);
    if n > w {
        lemma_chunk_lines_len(cells, word.style, w);
        lemma_chunk_lines_max(cells, word.style, w);
        match st.cur {
            None => {
                lemma_max_line_width_add(st.closed, chunk_lines(cells, word.style, w));
            },
            Some(cl) => {
                lemma_max_line_width_push(st.closed, cl);
                lemma_max_line_width_add(st.closed.push(cl), chunk_lines(cells, word.style, w));
            },
        }
    } else {
        match st.cur {
            None => {
                lemma_max_line_width_push(st.closed, LineView { spans: seq![sp] });
            },
            Some(cl) => {
                lemma_max_line_width_push(st.closed, cl);
                if line_width(cl) + n > w {
                    lemma_max_line_width_push(st.closed.push(cl), LineView { spans: seq![sp] });
                } else {
                    lemma_sum_widths_push(cl.spans, sp);
                    lemma_max_line_width_push(
                        st.closed,
                        LineView { spans: cl.spans.push(sp) },
                    );
                }
            },
        }
    }
}

/// Wrapping a single word yields exactly its chunk lines.
pub proof fn lemma_text_lines_singleton(t: TextBlock, w: nat)
    requires
        w >= 1,
    ensures
        text_lines(seq![t], w) == chunk_lines(grapheme_split(t.content@), t.style, w),
{
    let words = seq![t];
    assert(words.drop_last() =~~= Seq::<TextBlock>::empty());
    assert(words.last() == t);
    assert(wrap_words(Seq::<TextBlock>::empty(), w) == (WrapState {
        closed: Seq::<LineView>::empty(),
        cur: None::<LineView>,
    }));
    let n = word_width(t);
    let sp = word_span(t);
    if n > w {
        assert(text_lines(words, w) =~~= chunk_lines(sp.cells, sp.style, w));
    } else {
        assert(chunk_lines(sp.cells, sp.style, w) =~~= seq![LineView { spans: seq![sp] }]);
        assert(text_lines(words, w) =~~= seq![LineView { spans: seq![sp] }]);
    }
}

/// The segments of a string split on single spaces. Every space ends a
/// segment, so doubled spaces yield empty segments, and both the empty
/// string and a trailing space yield a final empty segment.
pub open spec fn split_spaces(s: Seq<char>) -> Seq<Seq<char>>
    decreases s.len(),
{
    if s.len() == 0 {
        seq![Seq::<char>::empty()]
    } else if s.first() == ' ' {
        seq![Seq::<char>::empty()] + split_spaces(s.drop_first())
    } else {
        let rest = split_spaces(s.drop_first());
        seq![seq![s.first()] + rest.first()] + rest.drop_first()
    }
}

/// Splitting always yields at least one segment.
pub proof fn lemma_split_spaces_len(s: Seq<char>)
    ensures
        split_spaces(s).len() >= 1,
    decreases s.len(),
{
    if s.len() != 0 {
        lemma_split_spaces_len(s.drop_first());
    }
}

/// A run of non-space characters up to the first space (or to the end)
/// forms the first segment, and the rest of the string splits on its own.
pub proof fn lemma_split_spaces_word(s: Seq<char>, k: int)
    requires
        0 <= k <= s.len(),
        forall|j: int| 0 <= j < k ==> s[j] != ' ',
        k < s.len() ==> s[k] == ' ',
    ensures
        k == s.len() ==> split_spaces(s) == seq![s],
        k < s.len() ==> split_spaces(s) == seq![s.take(k)] + split_spaces(s.skip(k + 1)),
    decreases k,
{
    lemma_split_spaces_len(s.drop_first());
    if k == 0 {
        if s.len() == 0 {
            assert(split_spaces(s) =~~= seq![s]);
        } else {
            assert(s.first() == ' ');
            assert(s.take(0) =~~= Seq::<char>::empty());
            assert(s.skip(1) =~~= s.drop_first());
            assert(split_spaces(s) =~~= seq![s.take(0)] + split_spaces(s.skip(1)));
        }
    } else {
        assert(s[0] != ' ');
        let d = s.drop_first();
        assert(forall|j: int| 0 <= j < k - 1 ==> d[j] != ' ');
        assert(k - 1 < d.len() ==> d[k - 1] == ' ');
        lemma_split_spaces_word(d, k - 1);
        let rest = split_spaces(d);
        if k == s.len() {
            assert(rest == seq![d]);
            assert(seq![s.first()] + rest.first() =~~= s);
            assert(rest.drop_last() =~~= Seq::<Seq<char>>::empty());
            assert(split_spaces(s) =~~= seq![s]);
        } else {
            assert(rest == seq![d.take(k - 1)] + split_spaces(d.skip(k)));
            assert(rest.first() == d.take(k - 1));
            assert(seq![s.first()] + d.take(k - 1) =~~= s.take(k));
            assert(rest.drop_first() =~~= split_spaces(d.skip(k)));
            assert(d.skip(k) =~~= s.skip(k + 1));
            assert(split_spaces(s) =~~= seq![s.take(k)] + split_spaces(s.skip(k + 1)));
        }
    }
}

impl TextBlock {
    /// Split this word's content on spaces into a run of words, each
    /// carrying one segment plus a trailing space, under this word's style.
    /// The links, being display annotations of the unsplit block, are not
    /// carried over.
    pub fn space_separate(&self) -> (r: Text)
        ensures
            r.0@.len() == split_spaces(self.content@).len(),
            forall|i: int|
                0 <= i < r.0@.len() ==> {
                    &&& (#[trigger] r.0@[i]).content@ == split_spaces(self.content@)[i]
                        + seq![' ']
                    &&& r.0@[i].style == self.style
                    &&& r.0@[i].link is None
                },
            r.0@.len() + total_chars(r.0@) <= 3 * self.content@.len() + 2,
    {
        let s = self.content.as_str();
        let n = s.unicode_len();
        let ghost whole = self.content@;
        let mut words: Vec<TextBlock> = Vec::new();
        let ghost mut built: Seq<Seq<char>> = Seq::empty();
        let mut start: usize = 0;
        let mut i: usize = 0;
        proof {
            assert(whole.skip(0) =~~= whole);
            assert(built + split_spaces(whole.skip(0)) =~~= split_spaces(whole));
        }
        while i < n
            invariant
                start <= i <= n,
                n == whole.len(),
                s@ == whole,
                forall|j: int| start <= j < i ==> whole[j] != ' ',
                split_spaces(whole) == built + split_spaces(whole.skip(start as int)),
                built.len() == words@.len(),
                words@.len() <= start,
                total_chars(words@) <= start + words@.len(),
                forall|k: int|
                    0 <= k < words@.len() ==> {
                        &&& (#[trigger] words@[k]).content@ == built[k] + seq![' ']
                        &&& words@[k].style == self.style
                        &&& words@[k].link is None
                    },
            decreases n - i,
        {
            let c = s.get_char(i);
            if c == ' ' {
                let seg = s.substring_char(start, i);
                let mut content = seg.to_owned();
                content.append(" ");
                proof {
                    reveal_strlit(" ");
                }
                let ghost words_old = words@;
                words.push(TextBlock { content, style: self.style, link: None });
                proof {
                    lemma_total_chars_push(words_old, words@.last());
                    let suffix = whole.skip(start as int);
                    assert(forall|j: int|
                        0 <= j < i - start ==> #[trigger] suffix[j] == whole[start + j]);
                    lemma_split_spaces_word(suffix, i - start);
                    assert(suffix.take(i - start) =~~= whole.subrange(start as int, i as int));
                    assert(suffix.skip(i - start + 1) =~~= whole.skip(i + 1));
                    built = built.push(whole.subrange(start as int, i as int));
                    assert(split_spaces(whole) =~~= built + split_spaces(whole.skip(i + 1)));
                }
                start = i + 1;
            }
            i = i + 1;
        }
        let seg = s.substring_char(start, n);
        let mut content = seg.to_owned();
        content.append(" ");
        proof {
            reveal_strlit(" ");
        }
        let ghost words_old = words@;
        words.push(TextBlock { content, style: self.style, link: None });
        proof {
            lemma_total_chars_push(words_old, words@.last());
            let suffix = whole.skip(start as int);
            assert(forall|j: int| 0 <= j < n - start ==> #[trigger] suffix[j] == whole[start + j]);
            lemma_split_spaces_word(suffix, n - start);
            assert(suffix =~~= whole.subrange(start as int, n as int));
            built = built.push(whole.subrange(start as int, n as int));
            assert(split_spaces(whole) =~~= built);
        }
        Text(words)
    }
}

impl Text {
    /// A plain, unstyled, unlinked run of words split from one string.
    pub fn plain(content: &str) -> (r: Text)
        ensures
            r.0@.len() == split_spaces(content@).len(),
            forall|i: int|
                0 <= i < r.0@.len() ==> {
                    &&& (#[trigger] r.0@[i]).content@ == split_spaces(content@)[i] + seq![' ']
                    &&& r.0@[i].style == Style::plain_spec()
                    &&& r.0@[i].link is None
                },
            r.0@.len() + total_chars(r.0@) <= 3 * content@.len() + 2,
    {
        let block = TextBlock {
            content: content.to_owned(),
            style: Style::plain(),
            link: None,
        };
        block.space_separate()
    }

    /// The width this run occupies when nothing wraps it: the sum of its
    /// words' widths.
    pub fn max_width(&self) -> (r: usize)
        requires
            self.wf(),
        ensures
            r == total_word_width(self.0@),
            r <= total_chars(self.0@),
    {
        let ghost words = self.0@;
        let len = self.0.len();
        let mut total: usize = 0;
        let mut i: usize = 0;
        proof {
            assert(words.take(0) =~~= Seq::<TextBlock>::empty());
        }
        while i < len
            invariant
                i <= len,
                len == self.0@.len(),
                words == self.0@,
                self.wf(),
                total == total_word_width(words.take(i as int)),
                total <= total_chars(words.take(i as int)),
            decreases len - i,
        {
            let n = self.0[i].max_width();
            proof {
                lemma_word_measures_take_step(words, i as int);
                lemma_total_chars_take_step(words, i as int);
                lemma_total_chars_take_le(words, i + 1);
            }
            total = total + n;
            i = i + 1;
        }
        proof {
            assert(words.take(len as int) =~~= words);
        }
        total
    }

    /// The ugliest break width of this run: its widest single unbreakable
    /// word.
    pub fn width_pressure(&self) -> (r: usize)
        ensures
            r == max_word_width(self.0@),
            r <= total_chars(self.0@),
    {
        let ghost words = self.0@;
        let len = self.0.len();
        let mut m: usize = 0;
        let mut i: usize = 0;
        proof {
            assert(words.take(0) =~~= Seq::<TextBlock>::empty());
        }
        while i < len
            invariant
                i <= len,
                len == self.0@.len(),
                words == self.0@,
                m == max_word_width(words.take(i as int)),
                m <= total_chars(words.take(i as int)),
            decreases len - i,
        {
            let n = self.0[i].max_width();
            proof {
                lemma_word_measures_take_step(words, i as int);
                lemma_total_chars_take_step(words, i as int);
                lemma_total_chars_take_le(words, i + 1);
            }
            if n > m {
                m = n;
            }
            i = i + 1;
        }
        proof {
            assert(words.take(len as int) =~~= words);
        }
        m
    }

    /// The words of this run that carry a link target, in order.
    pub fn get_links(&self) -> (r: Vec<&TextBlock>)
        ensures
            r@.map_values(|t: &TextBlock| *t) == links_of(self.0@),
    {
        let ghost words = self.0@;
        let len = self.0.len();
        let mut r: Vec<&TextBlock> = Vec::new();
        let mut i: usize = 0;
        proof {
            assert(words.take(0) =~~= Seq::<TextBlock>::empty());
            assert(r@.map_values(|t: &TextBlock| *t) =~~= links_of(words.take(0)));
        }
        while i < len
            invariant
                i <= len,
                len == self.0@.len(),
                words == self.0@,
                r@.map_values(|t: &TextBlock| *t) == links_of(words.take(i as int)),
            decreases len - i,
        {
            let ghost r_old = r@;
            if self.0[i].link.is_some() {
                r.push(&self.0[i]);
                proof {
                    assert(r@.map_values(|t: &TextBlock| *t) =~~= r_old.map_values(
                        |t: &TextBlock| *t,
                    ).push(words[i as int]));
                }
            }
            proof {
                lemma_word_measures_take_step(words, i as int);
            }
            i = i + 1;
        }
        proof {
            assert(words.take(len as int) =~~= words);
        }
        r
    }
}

/// The open line of a wrap is never wider than the wrap width, and neither
/// is any painted line.
pub proof fn lemma_wrap_measures_le(words: Seq<TextBlock>, w: nat)
    requires
        w >= 1,
    ensures
        wrap_words(words, w).cur is Some ==> line_width(wrap_words(words, w).cur.unwrap()) <= w,
        max_line_width(finish_lines(wrap_words(words, w))) <= w,
    decreases words.len(),
{
    if words.len() == 0 {
        assert(finish_lines(wrap_words(words, w)) =~~= Seq::<LineView>::empty());
    } else {
        lemma_wrap_measures_le(words.drop_last(), w);
        lemma_wrap_step_measures(wrap_words(words.drop_last(), w), words.last(), w);
    }
}

/// Law: the paint pass and the measurement pass agree exactly. At every
/// width, the painted line sequence has precisely the measured line count,
/// and its widest line is precisely the measured used width (the cap at
/// the wrap width never cuts anything off, because no painted line is
/// wider than the wrap width).
pub proof fn lemma_paint_agrees_with_measure(words: Seq<TextBlock>, width: usize)
    ensures
        text_lines(words, spec_clamped_width(width)).len() == text_line_count(
            words,
            spec_clamped_width(width),
        ),
        max_line_width(text_lines(words, spec_clamped_width(width))) == text_used_width(
            words,
            spec_clamped_width(width),
        ),
{
    lemma_wrap_measures_le(words, spec_clamped_width(width));
}

/// Law: measurement is idempotent. Any two results of measuring the same
/// unmutated run at the same width are equal, because each is pinned to a
/// function of the run and the width alone.
pub proof fn lemma_box_size_idempotent(
    r1: (usize, usize),
    r2: (usize, usize),
    words: Seq<TextBlock>,
    width: usize,
)
    requires
        r1.0 == text_used_width(words, spec_clamped_width(width)),
        r1.1 == text_line_count(words, spec_clamped_width(width)),
        r2.0 == text_used_width(words, spec_clamped_width(width)),
        r2.1 == text_line_count(words, spec_clamped_width(width)),
    ensures
        r1 == r2,
{
}

/// Law: painting is idempotent. Any two paints of the same unmutated run
/// at the same width yield the same lines.
pub proof fn lemma_paint_idempotent(
    v1: Seq<LineView>,
    v2: Seq<LineView>,
    words: Seq<TextBlock>,
    width: usize,
)
    requires
        v1 == text_lines(words, spec_clamped_width(width)),
        v2 == text_lines(words, spec_clamped_width(width)),
    ensures
        v1 == v2,
{
}

/// Appending one word adds its characters to the total.
pub proof fn lemma_total_chars_push(ws: Seq<TextBlock>, w: TextBlock)
    ensures
        total_chars(ws.push(w)) == total_chars(ws) + w.content@.len(),
{
    assert(ws.push(w).drop_last() =~~= ws);
    assert(ws.push(w).last() == w);
}

/// The sum of the display widths of a run of words.
pub open spec fn total_word_width(ws: Seq<TextBlock>) -> nat
    decreases ws.len(),
{
    if ws.len() == 0 {
        0
    } else {
        total_word_width(ws.drop_last()) + word_width(ws.last())
    }
}

/// The widest single word of a run.
pub open spec fn max_word_width(ws: Seq<TextBlock>) -> nat
    decreases ws.len(),
{
    if ws.len() == 0 {
        0
    } else {
        let rest = max_word_width(ws.drop_last());
        let last = word_width(ws.last());
        if last > rest {
            last
        } else {
            rest
        }
    }
}

/// Taking one more word extends the width sum, the width maximum, and the
/// link collection in the expected way.
pub proof fn lemma_word_measures_take_step(words: Seq<TextBlock>, i: int)
    requires
        0 <= i < words.len(),
    ensures
        total_word_width(words.take(i + 1)) == total_word_width(words.take(i)) + word_width(
            words[i],
        ),
        max_word_width(words.take(i + 1)) == if word_width(words[i]) > max_word_width(
            words.take(i),
        ) {
            word_width(words[i])
        } else {
            max_word_width(words.take(i))
        },
        links_of(words.take(i + 1)) == if words[i].link is Some {
            links_of(words.take(i)).push(words[i])
        } else {
            links_of(words.take(i))
        },
{
    assert(words.take(i + 1).drop_last() =~~= words.take(i));
    assert(words.take(i + 1).last() == words[i]);
}

} // verus!
