//! Preformatted code blocks.
//!
//! A code block is never re-wrapped: at construction its content is padded
//! line by line to a common width with trailing spaces, so that the block
//! is a rectangle and the box it reports ignores the requested width. The
//! coloring of the content is delegated to the syntect highlighter; this
//! module only checks that the colored spans still spell the content.

use vstd::prelude::*;
use vstd::string::*;

use crate::span::{
    line_width, lines_view, lemma_lines_view_push, lemma_spans_view_push, lemma_sum_widths_push,
    span_width, sum_widths, Line, LineView, Span, SpanView,
};
use crate::style::{Color, Style};

verus! {

/// The lines of a string, split on newline characters. A newline ends a
/// line, so a trailing newline does not open a final empty line, and the
/// empty string has no lines. A carriage return is an ordinary character.
pub open spec fn split_lines(s: Seq<char>) -> Seq<Seq<char>>
    decreases s.len(),
{
    if s.len() == 0 {
        Seq::empty()
    } else if s.first() == '\n' {
        seq![Seq::<char>::empty()] + split_lines(s.drop_first())
    } else {
        let rest = split_lines(s.drop_first());
        if rest.len() == 0 {
            seq![seq![s.first()]]
        } else {
            seq![seq![s.first()] + rest.first()] + rest.drop_first()
        }
    }
}

/// A non-empty string has at least one line.
pub proof fn lemma_split_lines_nonempty(s: Seq<char>)
    requires
        s.len() >= 1,
    ensures
        split_lines(s).len() >= 1,
{
}

/// No line of a split holds a newline character.
pub proof fn lemma_split_lines_no_newline(s: Seq<char>)
    ensures
        forall|i: int|
            0 <= i < split_lines(s).len() ==> !(#[trigger] split_lines(s)[i]).contains('\n'),
    decreases s.len(),
{
    if s.len() == 0 {
    } else if s.first() == '\n' {
        lemma_split_lines_no_newline(s.drop_first());
        assert forall|i: int| 0 <= i < split_lines(s).len() implies !(#[trigger] split_lines(
            s,
        )[i]).contains('\n') by {
            if i == 0 {
                assert(!Seq::<char>::empty().contains('\n'));
            } else {
                assert(split_lines(s)[i] == split_lines(s.drop_first())[i - 1]);
            }
        }
    } else {
        lemma_split_lines_no_newline(s.drop_first());
        let rest = split_lines(s.drop_first());
        assert forall|i: int| 0 <= i < split_lines(s).len() implies !(#[trigger] split_lines(
            s,
        )[i]).contains('\n') by {
            if rest.len() == 0 {
                assert(split_lines(s)[i] == seq![s.first()]);
                assert(forall|j: int|
                    0 <= j < seq![s.first()].len() ==> seq![s.first()][j] != '\n');
            } else {
                if i == 0 {
                    assert(!rest[0].contains('\n'));
                    assert(split_lines(s)[0] == seq![s.first()] + rest.first());
                    assert(forall|j: int|
                        0 <= j < (seq![s.first()] + rest.first()).len() ==> (seq![s.first()]
                            + rest.first())[j] != '\n');
                } else {
                    assert(split_lines(s)[i] == rest[i]);
                }
            }
        }
    }
}

/// A newline-free string followed by one newline is a single line.
pub proof fn lemma_split_lines_single(l: Seq<char>)
    requires
        !l.contains('\n'),
    ensures
        split_lines(l + seq!['\n']) == seq![l],
    decreases l.len(),
{
    let s = l + seq!['\n'];
    if l.len() == 0 {
        assert(s =~~= seq!['\n']);
        assert(s.drop_first() =~~= Seq::<char>::empty());
        assert(split_lines(Seq::<char>::empty()) =~~= Seq::<Seq<char>>::empty());
        assert(split_lines(s) =~~= seq![l]);
    } else {
        assert(l[0] != '\n');
        assert(s.first() == l.first());
        assert(s.drop_first() =~~= l.drop_first() + seq!['\n']);
        assert(!l.drop_first().contains('\n')) by {
            assert(forall|j: int|
                0 <= j < l.drop_first().len() ==> l.drop_first()[j] == l[j + 1]);
        }
        lemma_split_lines_single(l.drop_first());
        let rest = split_lines(s.drop_first());
        assert(rest == seq![l.drop_first()]);
        assert(seq![s.first()] + rest.first() =~~= l);
        assert(rest.drop_first() =~~= Seq::<Seq<char>>::empty());
        assert(split_lines(s) =~~= seq![l]);
    }
}

/// Splitting distributes over concatenation at a newline boundary.
pub proof fn lemma_split_lines_concat(a: Seq<char>, b: Seq<char>)
    requires
        a.len() >= 1,
        a.last() == '\n',
    ensures
        split_lines(a + b) == split_lines(a) + split_lines(b),
    decreases a.len(),
{
    let s = a + b;
    if a.len() == 1 {
        assert(a.first() == '\n');
        assert(s.first() == '\n');
        assert(s.drop_first() =~~= b);
        assert(a.drop_first() =~~= Seq::<char>::empty());
        assert(split_lines(a) =~~= seq![Seq::<char>::empty()]);
        assert(split_lines(s) =~~= split_lines(a) + split_lines(b));
    } else {
        assert(a.drop_first().len() >= 1);
        assert(a.drop_first().last() == a.last());
        lemma_split_lines_concat(a.drop_first(), b);
        assert(s.first() == a.first());
        assert(s.drop_first() =~~= a.drop_first() + b);
        lemma_split_lines_nonempty(a.drop_first());
        let rest_a = split_lines(a.drop_first());
        let rest_s = split_lines(s.drop_first());
        assert(rest_s == rest_a + split_lines(b));
        assert(rest_s.len() >= 1);
        if a.first() == '\n' {
            assert(split_lines(s) =~~= seq![Seq::<char>::empty()] + rest_s);
            assert(split_lines(a) =~~= seq![Seq::<char>::empty()] + rest_a);
            assert(split_lines(s) =~~= split_lines(a) + split_lines(b));
        } else {
            assert(rest_s.first() == rest_a.first());
            assert(rest_s.drop_first() =~~= rest_a.drop_first() + split_lines(b));
            assert(split_lines(s) =~~= seq![seq![s.first()] + rest_s.first()]
                + rest_s.drop_first());
            assert(split_lines(a) =~~= seq![seq![a.first()] + rest_a.first()]
                + rest_a.drop_first());
            assert(split_lines(s) =~~= split_lines(a) + split_lines(b));
        }
    }
}

/// A run of non-newline characters up to the first newline (or to the end)
/// forms the first line, and the rest of the string splits on its own.
pub proof fn lemma_split_lines_word(s: Seq<char>, k: int)
    requires
        0 <= k <= s.len(),
        forall|j: int| 0 <= j < k ==> s[j] != '\n',
        k < s.len() ==> s[k] == '\n',
    ensures
        k == s.len() && s.len() > 0 ==> split_lines(s) == seq![s],
        k < s.len() ==> split_lines(s) == seq![s.take(k)] + split_lines(s.skip(k + 1)),
    decreases k,
{
    if k == 0 {
        if 0 < s.len() {
            assert(s.first() == '\n');
            assert(s.take(0) =~~= Seq::<char>::empty());
            assert(s.skip(1) =~~= s.drop_first());
            assert(split_lines(s) =~~= seq![s.take(0)] + split_lines(s.skip(1)));
        }
    } else {
        assert(s[0] != '\n');
        let d = s.drop_first();
        assert(forall|j: int| 0 <= j < k - 1 ==> d[j] != '\n');
        assert(k - 1 < d.len() ==> d[k - 1] == '\n');
        lemma_split_lines_word(d, k - 1);
        let rest = split_lines(d);
        if k == s.len() {
            if d.len() == 0 {
                assert(split_lines(s) =~~= seq![seq![s.first()]]);
                assert(seq![s.first()] =~~= s);
            } else {
                assert(rest == seq![d]);
                assert(seq![s.first()] + rest.first() =~~= s);
                assert(rest.drop_first() =~~= Seq::<Seq<char>>::empty());
                assert(split_lines(s) =~~= seq![s]);
            }
        } else {
            assert(rest == seq![d.take(k - 1)] + split_lines(d.skip(k)));
            assert(rest.len() >= 1);
            assert(rest.first() == d.take(k - 1));
            assert(seq![s.first()] + d.take(k - 1) =~~= s.take(k));
            assert(rest.drop_first() =~~= split_lines(d.skip(k)));
            assert(d.skip(k) =~~= s.skip(k + 1));
            assert(split_lines(s) =~~= seq![s.take(k)] + split_lines(s.skip(k + 1)));
        }
    }
}

/// A string has at most one line per character.
pub proof fn lemma_split_lines_count(s: Seq<char>)
    ensures
        s.len() == 0 ==> split_lines(s).len() == 0,
        s.len() >= 1 ==> split_lines(s).len() <= s.len(),
    decreases s.len(),
{
    if s.len() == 0 {
    } else {
        lemma_split_lines_count(s.drop_first());
    }
}

/// No line of a string is longer than the string itself.
pub proof fn lemma_split_lines_line_len(s: Seq<char>)
    ensures
        forall|i: int|
            0 <= i < split_lines(s).len() ==> (#[trigger] split_lines(s)[i]).len() <= s.len(),
    decreases s.len(),
{
    if s.len() == 0 {
    } else if s.first() == '\n' {
        lemma_split_lines_line_len(s.drop_first());
        assert forall|i: int| 0 <= i < split_lines(s).len() implies (#[trigger] split_lines(
            s,
        )[i]).len() <= s.len() by {
            if i > 0 {
                assert(split_lines(s)[i] == split_lines(s.drop_first())[i - 1]);
            }
        }
    } else {
        lemma_split_lines_line_len(s.drop_first());
        let rest = split_lines(s.drop_first());
        assert forall|i: int| 0 <= i < split_lines(s).len() implies (#[trigger] split_lines(
            s,
        )[i]).len() <= s.len() by {
            if rest.len() > 0 {
                if i == 0 {
                    assert(split_lines(s)[0] == seq![s.first()] + rest.first());
                    assert(rest[0].len() <= s.drop_first().len());
                } else {
                    assert(split_lines(s)[i] == rest[i]);
                }
            }
        }
    }
}

/// The length of the longest line; zero when there are no lines.
pub open spec fn max_line_len(ls: Seq<Seq<char>>) -> nat
    decreases ls.len(),
{
    if ls.len() == 0 {
        0
    } else {
        let rest = max_line_len(ls.drop_last());
        let last = ls.last().len();
        if last > rest {
            last
        } else {
            rest
        }
    }
}

/// Every line is at most the longest line's length.
pub proof fn lemma_max_line_len_bound(ls: Seq<Seq<char>>, i: int)
    requires
        0 <= i < ls.len(),
    ensures
        ls[i].len() <= max_line_len(ls),
    decreases ls.len(),
{
    if i == ls.len() - 1 {
    } else {
        assert(ls.drop_last()[i] == ls[i]);
        lemma_max_line_len_bound(ls.drop_last(), i);
    }
}

/// A bound on every line bounds the longest line.
pub proof fn lemma_max_line_len_le_all(ls: Seq<Seq<char>>, b: nat)
    requires
        forall|i: int| 0 <= i < ls.len() ==> (#[trigger] ls[i]).len() <= b,
    ensures
        max_line_len(ls) <= b,
    decreases ls.len(),
{
    if ls.len() > 0 {
        assert(forall|i: int|
            0 <= i < ls.drop_last().len() ==> (#[trigger] ls.drop_last()[i]).len() <= b);
        lemma_max_line_len_le_all(ls.drop_last(), b);
        assert(ls.last().len() <= b);
    }
}

/// A run of spaces.
pub open spec fn spaces(n: nat) -> Seq<char> {
    Seq::new(n, |i: int| ' ')
}

/// A line padded with trailing spaces to width `w`; a line already that
/// wide is kept as it is.
pub open spec fn pad_line(l: Seq<char>, w: nat) -> Seq<char> {
    if l.len() >= w {
        l
    } else {
        l + spaces((w - l.len()) as nat)
    }
}

/// Split a string into its lines, dropping the newline characters.
fn split_content_lines(s: &str) -> (r: Vec<String>)
    ensures
        r@.map_values(|l: String| l@) == split_lines(s@),
{
    let n = s.unicode_len();
    let ghost whole = s@;
    let mut lines: Vec<String> = Vec::new();
    let ghost mut built: Seq<Seq<char>> = Seq::empty();
    let mut start: usize = 0;
    let mut i: usize = 0;
    proof {
        assert(whole.skip(0) =~~= whole);
        assert(built + split_lines(whole.skip(0)) =~~= split_lines(whole));
    }
    while i < n
        invariant
            start <= i <= n,
            n == whole.len(),
            s@ == whole,
            forall|j: int| start <= j < i ==> whole[j] != '\n',
            split_lines(whole) == built + split_lines(whole.skip(start as int)),
            built.len() == lines@.len(),
            lines@.map_values(|l: String| l@) == built,
        decreases n - i,
    {
        let c = s.get_char(i);
        if c == '\n' {
            let seg = s.substring_char(start, i);
            let ghost lines_old = lines@;
            let seg_string = seg.to_owned();
            lines.push(seg_string);
            proof {
                let suffix = whole.skip(start as int);
                assert(forall|j: int|
                    0 <= j < i - start ==> #[trigger] suffix[j] == whole[start + j]);
                assert(suffix[i - start] == whole[i as int]);
                lemma_split_lines_word(suffix, i - start);
                assert(suffix.take(i - start) =~~= whole.subrange(start as int, i as int));
                assert(suffix.skip(i - start + 1) =~~= whole.skip(i + 1));
                built = built.push(whole.subrange(start as int, i as int));
                assert(split_lines(whole) =~~= built + split_lines(whole.skip(i + 1)));
                assert(lines@.map_values(|l: String| l@) =~~= built);
            }
            start = i + 1;
        }
        i = i + 1;
    }
    if start < n {
        let seg = s.substring_char(start, n);
        let seg_string = seg.to_owned();
        lines.push(seg_string);
        proof {
            let suffix = whole.skip(start as int);
            assert(forall|j: int|
                0 <= j < n - start ==> #[trigger] suffix[j] == whole[start + j]);
            lemma_split_lines_word(suffix, n - start);
            assert(suffix =~~= whole.subrange(start as int, n as int));
            built = built.push(whole.subrange(start as int, n as int));
            assert(split_lines(whole) =~~= built);
            assert(lines@.map_values(|l: String| l@) =~~= built);
        }
    } else {
        proof {
            let suffix = whole.skip(start as int);
            assert(suffix =~~= Seq::<char>::empty());
            assert(split_lines(Seq::<char>::empty()) =~~= Seq::<Seq<char>>::empty());
            assert(split_lines(whole) =~~= built);
        }
    }
    lines
}

/// Pad every line of a code string with trailing spaces to the width of
/// its longest line, ending each padded line with a newline, so that the
/// result is a rectangle of text.
pub fn box_code(code: String) -> (r: String)
    ensures
        split_lines(r@).len() == split_lines(code@).len(),
        forall|i: int|
            0 <= i < split_lines(r@).len() ==> #[trigger] split_lines(r@)[i] == pad_line(
                split_lines(code@)[i],
                max_line_len(split_lines(code@)),
            ),
        r@.len() == split_lines(code@).len() * (max_line_len(split_lines(code@)) + 1),
{
    let ghost raw = split_lines(code@);
    let lines = split_content_lines(code.as_str());
    proof {
        lemma_split_lines_no_newline(code@);
    }
    let count = lines.len();
    let mut width: usize = 0;
    let mut i: usize = 0;
    proof {
        assert(raw.take(0) =~~= Seq::<Seq<char>>::empty());
    }
    while i < count
        invariant
            i <= count,
            count == lines@.len(),
            lines@.map_values(|l: String| l@) == raw,
            width == max_line_len(raw.take(i as int)),
        decreases count - i,
    {
        let ll = lines[i].as_str().unicode_len();
        proof {
            assert(raw.take(i + 1).drop_last() =~~= raw.take(i as int));
            assert(raw.take(i + 1).last() == raw[i as int]);
        }
        if ll > width {
            width = ll;
        }
        i = i + 1;
    }
    proof {
        assert(raw.take(count as int) =~~= raw);
    }
    let ghost padded = raw.map_values(|l: Seq<char>| pad_line(l, width as nat));
    let mut result = String::new();
    let mut i2: usize = 0;
    proof {
        reveal_strlit(" ");
        reveal_strlit("\n");
        assert(split_lines(result@) =~~= padded.take(0));
    }
    while i2 < count
        invariant
            i2 <= count,
            count == lines@.len(),
            lines@.map_values(|l: String| l@) == raw,
            width == max_line_len(raw),
            padded == raw.map_values(|l: Seq<char>| pad_line(l, width as nat)),
            forall|k: int| 0 <= k < raw.len() ==> !(#[trigger] raw[k]).contains('\n'),
            split_lines(result@) == padded.take(i2 as int),
            result@.len() == i2 * (width + 1),
            i2 >= 1 ==> result@.len() >= 1 && result@.last() == '\n',
        decreases count - i2,
    {
        let ghost result_before = result@;
        let ll = lines[i2].as_str().unicode_len();
        proof {
            lemma_max_line_len_bound(raw, i2 as int);
        }
        result.append(lines[i2].as_str());
        let mut k: usize = ll;
        while k < width
            invariant
                ll <= k <= width || (ll >= width && k == ll),
                result@ == result_before + raw[i2 as int] + spaces((k - ll) as nat),
                i2 < count,
                count == lines@.len(),
                lines@.map_values(|l: String| l@) == raw,
                ll == raw[i2 as int].len(),
            decreases width - k,
        {
            result.append(" ");
            proof {
                reveal_strlit(" ");
                assert(spaces((k - ll) as nat) + " "@ =~~= spaces((k + 1 - ll) as nat));
                assert(result@ =~~= result_before + raw[i2 as int] + spaces(
                    (k + 1 - ll) as nat,
                ));
            }
            k = k + 1;
        }
        result.append("\n");
        proof {
            reveal_strlit("\n");
            let p = pad_line(raw[i2 as int], width as nat);
            assert(result@ =~~= result_before + (p + seq!['\n'])) by {
                if ll >= width {
                    assert(spaces((k - ll) as nat) =~~= Seq::<char>::empty());
                    assert(p == raw[i2 as int]);
                } else {
                    assert(p =~~= raw[i2 as int] + spaces((width - ll) as nat));
                }
            }
            assert(!p.contains('\n')) by {
                assert(forall|j: int| 0 <= j < p.len() ==> p[j] != '\n') by {
                    assert(forall|j: int|
                        0 <= j < raw[i2 as int].len() ==> raw[i2 as int][j] != '\n');
                }
            }
            lemma_split_lines_single(p);
            if i2 == 0 {
                assert(result_before =~~= Seq::<char>::empty());
                assert(result@ =~~= p + seq!['\n']);
                assert(split_lines(result@) =~~= padded.take(1));
            } else {
                lemma_split_lines_concat(result_before, p + seq!['\n']);
                assert(split_lines(result@) == split_lines(result_before) + seq![p]);
                assert(split_lines(result@) =~~= padded.take(i2 + 1));
            }
            assert(p.len() == width) by {
                if ll < width {
                    assert(p.len() == ll + (width - ll));
                }
            }
            assert(result@.len() == (i2 + 1) * (width + 1)) by (nonlinear_arith)
                requires
                    result@.len() == result_before.len() + width + 1,
                    result_before.len() == i2 * (width + 1),
            ;
        }
        i2 = i2 + 1;
    }
    proof {
        assert(padded.take(count as int) =~~= padded);
        assert forall|i3: int| 0 <= i3 < split_lines(result@).len() implies #[trigger] split_lines(
            result@,
        )[i3] == pad_line(raw[i3], max_line_len(raw)) by {
        }
    }
    result
}

/// The full text of a span: its cells in order.
pub open spec fn span_text(s: SpanView) -> Seq<char> {
    s.cells.flatten()
}

/// The full text of a line: its spans' cells in order.
pub open spec fn line_text_of(spans: Seq<SpanView>) -> Seq<char>
    decreases spans.len(),
{
    if spans.len() == 0 {
        Seq::empty()
    } else {
        line_text_of(spans.drop_last()) + span_text(spans.last())
    }
}

/// The full text of a line.
pub open spec fn line_text(l: LineView) -> Seq<char> {
    line_text_of(l.spans)
}

/// Appending one span appends its text.
pub proof fn lemma_line_text_push(spans: Seq<SpanView>, s: SpanView)
    ensures
        line_text_of(spans.push(s)) == line_text_of(spans) + span_text(s),
{
    assert(spans.push(s).drop_last() =~~= spans);
    assert(spans.push(s).last() == s);
}

/// One display cell for each character of a string.
fn char_cells(s: &str) -> (r: Vec<String>)
    ensures
        r@.len() == s@.len(),
        forall|i: int| 0 <= i < r@.len() ==> (#[trigger] r@[i])@ == seq![s@[i]],
        r@.map_values(|c: String| c@).flatten() == s@,
{
    let n = s.unicode_len();
    let mut r: Vec<String> = Vec::new();
    let mut i: usize = 0;
    proof {
        assert(r@.map_values(|c: String| c@).flatten() =~~= s@.take(0));
    }
    while i < n
        invariant
            i <= n,
            n == s@.len(),
            r@.len() == i,
            forall|j: int| 0 <= j < i ==> (#[trigger] r@[j])@ == seq![s@[j]],
            r@.map_values(|c: String| c@).flatten() == s@.take(i as int),
        decreases n - i,
    {
        let cell = s.substring_char(i, i + 1).to_owned();
        let ghost r_old = r@;
        r.push(cell);
        proof {
            crate::span::lemma_cells_view_push(r_old, cell);
            assert(cell@ =~~= seq![s@[i as int]]);
            Seq::lemma_flatten_push(r_old.map_values(|c: String| c@), cell@);
            assert(r@.map_values(|c: String| c@).flatten() =~~= s@.take(i + 1));
        }
        i = i + 1;
    }
    proof {
        assert(s@.take(n as int) =~~= s@);
    }
    r
}

#[verifier::external_type_specification]
#[verifier::external_body]
pub struct ExSyntaxSet(syntect::parsing::SyntaxSet);

#[verifier::external_type_specification]
#[verifier::external_body]
pub struct ExTheme(syntect::highlighting::Theme);

#[verifier::external_type_specification]
#[verifier::external_body]
pub struct ExHighlightLines<'a>(syntect::easy::HighlightLines<'a>);

/// Relies on syntect's `SyntaxSet::load_defaults_nonewlines`: the bundled
/// syntax definitions, for lines handed over without their newline.
#[verifier::external_body]
fn load_syntaxes() -> syntect::parsing::SyntaxSet {
    syntect::parsing::SyntaxSet::load_defaults_nonewlines()
}

/// Relies on syntect's `ThemeSet::load_defaults`, whose documentation lists
/// the bundled theme `base16-ocean.dark`; a missing theme falls back to the
/// default theme rather than failing.
#[verifier::external_body]
fn load_theme() -> syntect::highlighting::Theme {
    let themes = syntect::highlighting::ThemeSet::load_defaults().themes;
    themes.get("base16-ocean.dark").cloned().unwrap_or_default()
}

/// Relies on syntect's `SyntaxSet::find_syntax_by_token` and
/// `HighlightLines::new`: a highlighter for the given language token,
/// falling back to plain text when the token is unknown.
#[verifier::external_body]
fn new_highlighter<'a>(
    syntaxes: &syntect::parsing::SyntaxSet,
    theme: &'a syntect::highlighting::Theme,
    language: &str,
) -> syntect::easy::HighlightLines<'a> {
    let syntax = syntaxes.find_syntax_by_token(language).unwrap_or_else(
        || syntaxes.find_syntax_plain_text(),
    );
    syntect::easy::HighlightLines::new(syntax, theme)
}

/// Relies on syntect's `HighlightLines::highlight_line`: the returned
/// styled ranges are consecutive slices of the input line, so their
/// concatenation spells the line itself (its source documents exactly
/// this); on a parse error the whole line comes back as one unstyled run.
/// Each range's syntect style is carried over field by field.
#[verifier::external_body]
fn highlight_one(
    highlighter: &mut syntect::easy::HighlightLines<'_>,
    syntaxes: &syntect::parsing::SyntaxSet,
    line: &str,
) -> (r: Vec<(String, Style)>)
    ensures
        r@.map_values(|p: (String, Style)| p.0@).flatten() == line@,
{
    match highlighter.highlight_line(line, syntaxes) {
        Ok(ranges) => ranges.iter().map(|(st, s)| (String::from(*s), Style {
            bold: st.font_style.contains(syntect::highlighting::FontStyle::BOLD),
            italic: st.font_style.contains(syntect::highlighting::FontStyle::ITALIC),
            underlined: st.font_style.contains(syntect::highlighting::FontStyle::UNDERLINE),
            crossed_out: false,
            fg: Color::Rgb(st.foreground.r, st.foreground.g, st.foreground.b),
        })).collect(),
        Err(_) => vec![(String::from(line), Style::plain())],
    }
}

/// A preformatted block: a language tag and rectangular, padded content.
pub struct Code {
    pub language: String,
    pub content: String,
}

impl Code {
    /// Build a code block: the content is padded into a rectangle once,
    /// here, and never re-wrapped afterwards.
    pub fn new(language: &str, content: &str) -> (r: Code)
        ensures
            r.language@ == language@,
            split_lines(r.content@).len() == split_lines(content@).len(),
            forall|i: int|
                0 <= i < split_lines(r.content@).len() ==> #[trigger] split_lines(r.content@)[i]
                    == pad_line(split_lines(content@)[i], max_line_len(split_lines(content@))),
    {
        Code { language: language.to_owned(), content: box_code(content.to_owned()) }
    }

    /// The box a code block occupies, whatever width is requested: its own
    /// longest line and its own line count. Preformatted content is never
    /// reflowed.
    pub fn box_size_given_width(&self, _width: usize) -> (r: (usize, usize))
        ensures
            r.0 == max_line_len(split_lines(self.content@)),
            r.1 == split_lines(self.content@).len(),
    {
        let ghost raw = split_lines(self.content@);
        let lines = split_content_lines(self.content.as_str());
        let count = lines.len();
        let mut width: usize = 0;
        let mut i: usize = 0;
        proof {
            assert(raw.take(0) =~~= Seq::<Seq<char>>::empty());
        }
        while i < count
            invariant
                i <= count,
                count == lines@.len(),
                lines@.map_values(|l: String| l@) == raw,
                width == max_line_len(raw.take(i as int)),
            decreases count - i,
        {
            let ll = lines[i].as_str().unicode_len();
            proof {
                assert(raw.take(i + 1).drop_last() =~~= raw.take(i as int));
                assert(raw.take(i + 1).last() == raw[i as int]);
            }
            if ll > width {
                width = ll;
            }
            i = i + 1;
        }
        proof {
            assert(raw.take(count as int) =~~= raw);
        }
        (width, count)
    }

    /// A code block's unconstrained width is its longest line.
    pub fn max_width(&self) -> (r: usize)
        ensures
            r == max_line_len(split_lines(self.content@)),
    {
        let (x, _) = self.box_size_given_width(0);
        x
    }

    /// A code block cannot be broken more kindly than its longest line.
    pub fn width_pressure(&self) -> (r: usize)
        ensures
            r == max_line_len(split_lines(self.content@)),
    {
        self.max_width()
    }

    /// Paint the code block: one rendered line per content line, colored
    /// by the external highlighter. Whatever styles the highlighter picks,
    /// each rendered line still spells its content line, one character per
    /// cell, so the block stays a rectangle.
    pub fn get_text(&self, _width: usize) -> (r: Vec<Line>)
        ensures
            r@.len() == split_lines(self.content@).len(),
            forall|i: int|
                0 <= i < r@.len() ==> line_text(#[trigger] lines_view(r@)[i]) == split_lines(
                    self.content@,
                )[i],
            forall|i: int|
                0 <= i < r@.len() ==> line_width(#[trigger] lines_view(r@)[i]) == split_lines(
                    self.content@,
                )[i].len(),
    {
        let ghost raw = split_lines(self.content@);
        let syntaxes = load_syntaxes();
        let theme = load_theme();
        let mut highlighter = new_highlighter(&syntaxes, &theme, self.language.as_str());
        let lines = split_content_lines(self.content.as_str());
        let count = lines.len();
        let mut out: Vec<Line> = Vec::new();
        let mut i: usize = 0;
        while i < count
            invariant
                i <= count,
                count == lines@.len(),
                lines@.map_values(|l: String| l@) == raw,
                out@.len() == i,
                forall|k: int|
                    0 <= k < i ==> line_text(#[trigger] lines_view(out@)[k]) == raw[k],
                forall|k: int|
                    0 <= k < i ==> line_width(#[trigger] lines_view(out@)[k]) == raw[k].len(),
            decreases count - i,
        {
            let pieces = highlight_one(&mut highlighter, &syntaxes, lines[i].as_str());
            let ghost texts = pieces@.map_values(|p: (String, Style)| p.0@);
            let m = pieces.len();
            let mut spans: Vec<Span> = Vec::new();
            let mut j: usize = 0;
            proof {
                assert(spans@.map_values(|s: Span| s@) =~~= Seq::<SpanView>::empty());
                assert(texts.take(0).flatten() =~~= Seq::<char>::empty());
            }
            while j < m
                invariant
                    j <= m,
                    m == pieces@.len(),
                    texts == pieces@.map_values(|p: (String, Style)| p.0@),
                    line_text_of(spans@.map_values(|s: Span| s@)) == texts.take(j as int)
                        .flatten(),
                    sum_widths(spans@.map_values(|s: Span| s@)) == texts.take(
                        j as int,
                    ).flatten().len(),
                decreases m - j,
            {
                let cells = char_cells(pieces[j].0.as_str());
                let style = pieces[j].1;
                let new_span = Span { cells, style };
                let ghost spans_old = spans@;
                spans.push(new_span);
                proof {
                    lemma_spans_view_push(spans_old, new_span);
                    lemma_line_text_push(
                        spans_old.map_values(|s: Span| s@),
                        new_span@,
                    );
                    lemma_sum_widths_push(
                        spans_old.map_values(|s: Span| s@),
                        new_span@,
                    );
                    assert(span_text(new_span@) == texts[j as int]);
                    assert(texts.take(j + 1) =~~= texts.take(j as int).push(texts[j as int]));
                    Seq::lemma_flatten_push(texts.take(j as int), texts[j as int]);
                }
                j = j + 1;
            }
            let new_line = Line { spans };
            let ghost out_old = out@;
            out.push(new_line);
            proof {
                lemma_lines_view_push(out_old, new_line);
                assert(texts.take(m as int) =~~= texts);
                assert(line_text(new_line@) == raw[i as int]);
                assert(line_width(new_line@) == raw[i as int].len());
            }
            i = i + 1;
        }
        out
    }
}

/// Law: a preformatted block is rectangular. Built from any raw content,
/// its box width is the length of the longest raw line, its line count is
/// the raw line count, and every stored line is exactly box width wide.
pub proof fn lemma_code_rectangular(c: Code, raw: Seq<char>)
    requires
        split_lines(c.content@).len() == split_lines(raw).len(),
        forall|i: int|
            0 <= i < split_lines(c.content@).len() ==> #[trigger] split_lines(c.content@)[i]
                == pad_line(split_lines(raw)[i], max_line_len(split_lines(raw))),
    ensures
        max_line_len(split_lines(c.content@)) == max_line_len(split_lines(raw)),
        forall|i: int|
            0 <= i < split_lines(c.content@).len() ==> (#[trigger] split_lines(c.content@)[i]).len()
                == max_line_len(split_lines(raw)),
{
    let w = max_line_len(split_lines(raw));
    assert forall|i: int| 0 <= i < split_lines(c.content@).len() implies (#[trigger] split_lines(
        c.content@,
    )[i]).len() == w by {
        lemma_max_line_len_bound(split_lines(raw), i);
        if split_lines(raw)[i].len() < w {
            assert(pad_line(split_lines(raw)[i], w).len() == split_lines(raw)[i].len() + (w
                - split_lines(raw)[i].len()));
        }
    }
    lemma_max_all_equal(split_lines(c.content@), w);
}

/// The maximum length of a sequence of equal-length lines is that length.
proof fn lemma_max_all_equal(ls: Seq<Seq<char>>, w: nat)
    requires
        forall|i: int| 0 <= i < ls.len() ==> (#[trigger] ls[i]).len() == w,
        ls.len() >= 1 || w == 0,
    ensures
        ls.len() >= 1 ==> max_line_len(ls) == w,
        ls.len() == 0 ==> max_line_len(ls) == 0,
    decreases ls.len(),
{
    if ls.len() > 0 {
        if ls.len() == 1 {
            assert(ls.drop_last() =~~= Seq::<Seq<char>>::empty());
            assert(max_line_len(Seq::<Seq<char>>::empty()) == 0);
            assert(ls.last() == ls[0]);
        } else {
            assert(forall|i: int|
                0 <= i < ls.drop_last().len() ==> (#[trigger] ls.drop_last()[i]).len() == w);
            lemma_max_all_equal(ls.drop_last(), w);
        }
    }
}

} // verus!
