//! Rendered output: styled spans grouped into lines.
//!
//! A span is a run of display cells with one style; a cell holds the string
//! that a host buffer writes into a single column (a grapheme cluster for
//! prose, a single character for preformatted code). A line is an ordered
//! run of spans. Widths are counted in cells, so the measurement and the
//! paint pass agree by construction.

use vstd::prelude::*;

use crate::style::Style;

verus! {

/// The mathematical model of a span: the cell contents and the style.
#[verifier::ext_equal]
pub struct SpanView {
    pub cells: Seq<Seq<char>>,
    pub style: Style,
}

/// The mathematical model of a line: its spans in order.
#[verifier::ext_equal]
pub struct LineView {
    pub spans: Seq<SpanView>,
}

/// A run of display cells sharing one style.
pub struct Span {
    pub cells: Vec<String>,
    pub style: Style,
}

/// One rendered row: spans in left-to-right order.
pub struct Line {
    pub spans: Vec<Span>,
}

impl View for Span {
    type V = SpanView;

    open spec fn view(&self) -> SpanView {
        SpanView { cells: self.cells@.map_values(|c: String| c@), style: self.style }
    }
}

impl View for Line {
    type V = LineView;

    open spec fn view(&self) -> LineView {
        LineView { spans: self.spans@.map_values(|s: Span| s@) }
    }
}

/// The number of display columns a span occupies.
pub open spec fn span_width(s: SpanView) -> nat {
    s.cells.len()
}

/// The number of display columns occupied by a run of spans.
pub open spec fn sum_widths(spans: Seq<SpanView>) -> nat
    decreases spans.len(),
{
    if spans.len() == 0 {
        0
    } else {
        sum_widths(spans.drop_last()) + span_width(spans.last())
    }
}

/// The number of display columns a line occupies.
pub open spec fn line_width(l: LineView) -> nat {
    sum_widths(l.spans)
}

/// The view of a sequence of rendered lines.
pub open spec fn lines_view(ls: Seq<Line>) -> Seq<LineView> {
    ls.map_values(|l: Line| l@)
}

/// The widest line of a rendered block; zero when there are no lines.
pub open spec fn max_line_width(ls: Seq<LineView>) -> nat
    decreases ls.len(),
{
    if ls.len() == 0 {
        0
    } else {
        let rest = max_line_width(ls.drop_last());
        let last = line_width(ls.last());
        if last > rest {
            last
        } else {
            rest
        }
    }
}

/// Appending one span on the right adds its width to the sum.
pub proof fn lemma_sum_widths_push(spans: Seq<SpanView>, s: SpanView)
    ensures
        sum_widths(spans.push(s)) == sum_widths(spans) + span_width(s),
{
    assert(spans.push(s).drop_last() =~= spans);
    assert(spans.push(s).last() == s);
}

/// Appending one line on the right takes the running maximum with its width.
pub proof fn lemma_max_line_width_push(ls: Seq<LineView>, l: LineView)
    ensures
        max_line_width(ls.push(l)) == if line_width(l) > max_line_width(ls) {
            line_width(l)
        } else {
            max_line_width(ls)
        },
{
    assert(ls.push(l).drop_last() =~= ls);
    assert(ls.push(l).last() == l);
}

/// The maximum over a concatenation is the larger of the two maxima.
pub proof fn lemma_max_line_width_add(a: Seq<LineView>, b: Seq<LineView>)
    ensures
        max_line_width(a + b) == if max_line_width(b) > max_line_width(a) {
            max_line_width(b)
        } else {
            max_line_width(a)
        },
    decreases b.len(),
{
    if b.len() == 0 {
        assert(a + b =~= a);
    } else {
        assert((a + b).drop_last() =~= a + b.drop_last());
        assert((a + b).last() == b.last());
        lemma_max_line_width_add(a, b.drop_last());
    }
}

/// Every line in a sequence is at most the maximum width.
pub proof fn lemma_max_line_width_bound(ls: Seq<LineView>, i: int)
    requires
        0 <= i < ls.len(),
    ensures
        line_width(ls[i]) <= max_line_width(ls),
    decreases ls.len(),
{
    if i == ls.len() - 1 {
        assert(ls.last() == ls[i]);
    } else {
        assert(ls.drop_last()[i] == ls[i]);
        lemma_max_line_width_bound(ls.drop_last(), i);
    }
}

/// Pushing a line commutes with taking views.
pub proof fn lemma_lines_view_push(ls: Seq<Line>, l: Line)
    ensures
        lines_view(ls.push(l)) == lines_view(ls).push(l@),
{
    assert(lines_view(ls.push(l)) =~~= lines_view(ls).push(l@));
}

/// Concatenating lines commutes with taking views.
pub proof fn lemma_lines_view_add(a: Seq<Line>, b: Seq<Line>)
    ensures
        lines_view(a + b) == lines_view(a) + lines_view(b),
{
    assert(lines_view(a + b) =~~= lines_view(a) + lines_view(b));
}

/// Pushing a cell commutes with taking views.
pub proof fn lemma_cells_view_push(cs: Seq<String>, c: String)
    ensures
        cs.push(c).map_values(|x: String| x@) == cs.map_values(|x: String| x@).push(c@),
{
    assert(cs.push(c).map_values(|x: String| x@) =~~= cs.map_values(|x: String| x@).push(c@));
}

/// Pushing a span commutes with taking views.
pub proof fn lemma_spans_view_push(ss: Seq<Span>, s: Span)
    ensures
        ss.push(s).map_values(|x: Span| x@) == ss.map_values(|x: Span| x@).push(s@),
{
    assert(ss.push(s).map_values(|x: Span| x@) =~~= ss.map_values(|x: Span| x@).push(s@));
}

/// Clone a contiguous range of cells out of a span's backing vector.
pub fn clone_cell_range(cells: &Vec<String>, from: usize, to: usize) -> (r: Vec<String>)
    requires
        from <= to <= cells@.len(),
    ensures
        r@.map_values(|c: String| c@) == cells@.map_values(|c: String| c@).subrange(
            from as int,
            to as int,
        ),
{
    let ghost cs = cells@.map_values(|c: String| c@);
    let mut r: Vec<String> = Vec::new();
    let mut j: usize = from;
    proof {
        assert(r@.map_values(|c: String| c@) =~~= cs.subrange(from as int, from as int));
    }
    while j < to
        invariant
            from <= j <= to <= cells@.len(),
            cs == cells@.map_values(|c: String| c@),
            r@.map_values(|c: String| c@) == cs.subrange(from as int, j as int),
        decreases to - j,
    {
        let ghost r_old = r@;
        r.push(cells[j].clone());
        proof {
            lemma_cells_view_push(r_old, cells@[j as int]);
            assert(cs.subrange(from as int, j as int).push(cs[j as int]) =~~= cs.subrange(
                from as int,
                j + 1,
            ));
        }
        j = j + 1;
    }
    r
}

/// Clone one span, cells and style.
pub fn clone_span(s: &Span) -> (r: Span)
    ensures
        r@ == s@,
{
    let n = s.cells.len();
    let cells = clone_cell_range(&s.cells, 0, n);
    let r = Span { cells, style: s.style };
    proof {
        assert(s.cells@.map_values(|c: String| c@).subrange(0, n as int) =~~= s.cells@.map_values(
            |c: String| c@,
        ));
        assert(r@ =~~= s@);
    }
    r
}

/// Clone one line, span by span.
pub fn clone_line(l: &Line) -> (r: Line)
    ensures
        r@ == l@,
{
    let n = l.spans.len();
    let mut spans: Vec<Span> = Vec::new();
    let mut i: usize = 0;
    proof {
        assert(spans@.map_values(|s: Span| s@) =~~= l@.spans.take(0));
    }
    while i < n
        invariant
            i <= n,
            n == l.spans@.len(),
            spans@.map_values(|s: Span| s@) == l@.spans.take(i as int),
        decreases n - i,
    {
        let ghost spans_old = spans@;
        let copied = clone_span(&l.spans[i]);
        spans.push(copied);
        proof {
            lemma_spans_view_push(spans_old, copied);
            assert(l@.spans.take(i + 1) =~~= l@.spans.take(i as int).push(l@.spans[i as int]));
        }
        i = i + 1;
    }
    let r = Line { spans };
    proof {
        assert(l@.spans.take(n as int) =~~= l@.spans);
        assert(r@ =~~= l@);
    }
    r
}

impl Line {
    /// The number of display columns this line occupies.
    pub fn width(&self) -> (r: usize)
        requires
            line_width(self@) <= usize::MAX,
        ensures
            r == line_width(self@),
    {
        let mut total: usize = 0;
        let n = self.spans.len();
        let mut i: usize = 0;
        while i < n
            invariant
                0 <= i <= n,
                n == self.spans.len(),
                total == sum_widths(self@.spans.take(i as int)),
                line_width(self@) <= usize::MAX,
            decreases n - i,
        {
            proof {
                assert(self@.spans.take(i + 1).drop_last() =~= self@.spans.take(i as int));
                assert(self@.spans.take(i + 1).last() == self@.spans[i as int]);
                lemma_sum_widths_prefix_bound(self@.spans, i + 1);
            }
            total = total + self.spans[i].cells.len();
            i = i + 1;
        }
        proof {
            assert(self@.spans.take(n as int) =~= self@.spans);
        }
        total
    }
}

/// The width of a prefix of a run of spans never exceeds the width of the whole.
pub proof fn lemma_sum_widths_prefix_bound(spans: Seq<SpanView>, i: int)
    requires
        0 <= i <= spans.len(),
    ensures
        sum_widths(spans.take(i)) <= sum_widths(spans),
    decreases spans.len() - i,
{
    if i == spans.len() {
        assert(spans.take(i) =~= spans);
    } else {
        assert(spans.take(i + 1).drop_last() =~= spans.take(i));
        lemma_sum_widths_prefix_bound(spans, i + 1);
    }
}

} // verus!
