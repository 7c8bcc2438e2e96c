use tui_document::{
    Block, BulletPoint, Code, Document, DocumentWidget, Line, Newlines, ScrollRect, Style, Text,
    TextBlock, Title, TitleLevel,
};

fn line_str(l: &Line) -> String {
    let mut s = String::new();
    for span in &l.spans {
        for cell in &span.cells {
            s.push_str(cell);
        }
    }
    s
}

fn plain_word(content: &str) -> TextBlock {
    TextBlock { content: content.to_string(), style: Style::plain(), link: None }
}

#[test]
fn text_block_box_size_given_width() {
    let text = TextBlock {
        content: "This-is-some-dummy-text".to_string(),
        style: Default::default(),
        link: None,
    };
    assert_eq!(text.content.len(), 23);

    let (x, y) = text.box_size_given_width(10);
    // Will fill the entire box and need three lines.
    assert_eq!((x, y), (10, 3));
}

#[test]
fn text_box_size_given_width() {
    let text = TextBlock {
        content: "This is some dummy text".to_string(),
        style: Default::default(),
        link: None,
    };
    let blocks = text.space_separate();

    // Given a width of 12 will will get
    // 123456789ABCDEF
    // This is |
    // some dummy |
    // text |
    //
    // With max length of 11

    let (x, y) = blocks.box_size_given_width(12);
    assert_eq!((x, y), (11, 3));
}

#[test]
fn wrapped_lines_have_expected_content() {
    let text = Text::plain("This is some dummy text");
    let lines = text.get_text(12);
    let rendered: Vec<String> = lines.iter().map(line_str).collect();
    assert_eq!(rendered, vec!["This is ", "some dummy ", "text "]);
}

#[test]
fn render_and_box_size_agree() {
    for width in [1, 2, 5, 10, 12, 24, 80] {
        let text = Text::plain("This is some dummy text with a muchtoolongword inside");
        let (used, count) = text.box_size_given_width(width);
        let lines = text.get_text(width);
        assert_eq!(lines.len(), count);
        let max = lines
            .iter()
            .map(|l| l.spans.iter().map(|s| s.cells.len()).sum::<usize>())
            .max()
            .unwrap_or(0);
        assert_eq!(max, used);
    }
}

#[test]
fn box_size_and_render_are_idempotent() {
    let text = Text::plain("repeat me twice");
    assert_eq!(text.box_size_given_width(7), text.box_size_given_width(7));
    let first: Vec<String> = text.get_text(7).iter().map(line_str).collect();
    let second: Vec<String> = text.get_text(7).iter().map(line_str).collect();
    assert_eq!(first, second);
}

#[test]
fn overlength_word_splits_across_lines() {
    // 20 cells at width 10: exactly two full lines.
    let text = Text(vec![plain_word("abcdefghijklmnopqrst")]);
    let (used, count) = text.box_size_given_width(10);
    assert_eq!((used, count), (10, 2));
    let lines = text.get_text(10);
    let rendered: Vec<String> = lines.iter().map(line_str).collect();
    assert_eq!(rendered, vec!["abcdefghij", "klmnopqrst"]);
}

#[test]
fn zero_width_is_treated_as_one_column() {
    let text = Text::plain("ab cd");
    assert_eq!(text.box_size_given_width(0), text.box_size_given_width(1));
}

#[test]
fn empty_text_has_no_lines() {
    let text = Text(Vec::new());
    assert_eq!(text.box_size_given_width(10), (0, 0));
    assert!(text.get_text(10).is_empty());
}

#[test]
fn grapheme_clusters_count_as_one_cell() {
    // 'e' followed by a combining acute accent: two chars, one cell.
    let word = plain_word("e\u{301}");
    assert_eq!(word.content.chars().count(), 2);
    assert_eq!(word.max_width(), 1);
}

#[test]
fn space_separation_keeps_trailing_spaces() {
    let block = plain_word("a  b");
    let words = block.space_separate();
    let contents: Vec<String> = words.0.iter().map(|w| w.content.clone()).collect();
    assert_eq!(contents, vec!["a ", " ", "b "]);
}

#[test]
fn newlines_report_zero_width() {
    let spacer = Newlines::new(3);
    assert_eq!(spacer.box_size_given_width(17), (0, 3));
    let lines = spacer.get_text(17);
    assert_eq!(lines.len(), 3);
    assert!(lines.iter().all(|l| l.spans.is_empty()));
}

#[test]
fn bullet_point_box_adds_indent_and_keeps_lines() {
    let bullet = BulletPoint::plain(1, "pointy content here");
    // indent 1 -> 4 spaces, marker 1 cell, 1 space after: 6 columns.
    assert_eq!(bullet.indent_width(), 6);
    let inner = Text::plain("pointy content here");
    let width = 20;
    let (ix, iy) = inner.box_size_given_width(width - 6);
    let block = Block::Bullet(bullet);
    let (x, y) = block.box_size_given_width(width);
    assert_eq!(x, ix + 6);
    assert_eq!(y, iy);
}

#[test]
fn bullet_point_prefixes_first_line_only() {
    let bullet = BulletPoint::plain(0, "alpha beta gamma");
    let block = Block::Bullet(bullet);
    let lines = block.get_text(14);
    let rendered: Vec<String> = lines.iter().map(line_str).collect();
    assert_eq!(rendered, vec!["\u{2022} alpha beta ", "  gamma "]);
}

#[test]
fn nested_bullets_stay_aligned() {
    let inner = BulletPoint::plain(1, "inner point");
    let outer = BulletPoint::new(0, "-".to_string(), Box::new(Block::Bullet(inner)));
    let lines = Block::Bullet(outer).get_text(30);
    let rendered: Vec<String> = lines.iter().map(line_str).collect();
    // Outer marker column, then the inner bullet's own indented marker.
    assert_eq!(rendered, vec!["-     \u{2022} inner point "]);
}

#[test]
fn heading_one_adds_underline_line() {
    let title = Title { text: Text::plain("Title"), level: TitleLevel::Heading1 };
    let (_, count) = title.box_size_given_width(40);
    let inner_count = Text::plain("Title").box_size_given_width(40).1;
    assert_eq!(count, inner_count + 1);
    let lines = title.get_text(40);
    assert_eq!(lines.len(), count);
    assert_eq!(line_str(&lines[0]), "Title ");
    assert_eq!(line_str(&lines[1]), "======");
}

#[test]
fn heading_underline_is_at_least_three_columns() {
    let title = Title { text: Text::plain("a"), level: TitleLevel::Heading1 };
    let lines = title.get_text(40);
    assert_eq!(line_str(&lines[1]), "===");
}

#[test]
fn lower_headings_keep_inner_line_count() {
    for level in [
        TitleLevel::Heading2,
        TitleLevel::Heading3,
        TitleLevel::Heading4,
        TitleLevel::Heading5,
        TitleLevel::Heading6,
    ] {
        let prefix_cols = level.as_u8() as usize + 1;
        let title = Title { text: Text::plain("some heading words here"), level };
        let (_, count) = title.box_size_given_width(20);
        let inner_count =
            Text::plain("some heading words here").box_size_given_width(20 - prefix_cols).1;
        assert_eq!(count, inner_count);
        let lines = title.get_text(20);
        assert_eq!(lines.len(), count);
    }
}

#[test]
fn heading_two_prefixes_every_line() {
    let title = Title { text: Text::plain("alpha beta"), level: TitleLevel::Heading2 };
    let lines = title.get_text(9);
    // Inner width is 6: "alpha " then "beta ", each behind "## ".
    let rendered: Vec<String> = lines.iter().map(line_str).collect();
    assert_eq!(rendered, vec!["## alpha ", "## beta "]);
}

#[test]
fn code_box_ignores_requested_width() {
    let code = Code::new("rust", "fn main() {}\nlet x = 1;");
    assert_eq!(code.box_size_given_width(5), code.box_size_given_width(500));
}

#[test]
fn code_block_is_rectangular() {
    let code = Code::new("text", "a\nlongest line\nmid");
    let (width, count) = code.box_size_given_width(7);
    assert_eq!(width, "longest line".len());
    assert_eq!(count, 3);
    let lines = code.get_text(7);
    assert_eq!(lines.len(), 3);
    for line in &lines {
        let cells: usize = line.spans.iter().map(|s| s.cells.len()).sum();
        assert_eq!(cells, width);
    }
    let rendered: Vec<String> = lines.iter().map(line_str).collect();
    assert_eq!(rendered, vec!["a           ", "longest line", "mid         "]);
}

#[test]
fn code_highlighting_keeps_the_text() {
    let source = "pub struct Wow {\n  hi: u64,\n}";
    let code = Code::new("rust", source);
    let lines = code.get_text(80);
    let rendered: Vec<String> = lines.iter().map(line_str).collect();
    assert_eq!(rendered, vec!["pub struct Wow {", "  hi: u64,      ", "}               "]);
}

#[test]
fn code_rendering_is_idempotent() {
    let code = Code::new("rust", "fn twice() -> u8 { 2 }");
    let first: Vec<String> = code.get_text(30).iter().map(line_str).collect();
    let second: Vec<String> = code.get_text(30).iter().map(line_str).collect();
    assert_eq!(first, second);
}

#[test]
fn document_renders_blocks_in_order() {
    let doc = Document(vec![
        Block::Title(Title { text: Text::plain("Title"), level: TitleLevel::Heading1 }),
        Block::Newlines(Newlines::new(1)),
        Block::Text(Text::plain("Body")),
    ]);
    let lines = doc.get_text(40);
    let rendered: Vec<String> = lines.iter().map(line_str).collect();
    assert_eq!(rendered, vec!["Title ", "======", "", "Body "]);
}

#[test]
fn viewport_clips_to_visible_rows() {
    let doc = Document(vec![
        Block::Title(Title { text: Text::plain("Title"), level: TitleLevel::Heading1 }),
        Block::Newlines(Newlines::new(1)),
        Block::Text(Text::plain("Body")),
    ]);
    let visible = doc.render_visible(40, 2, 0);
    let rendered: Vec<String> = visible.iter().map(line_str).collect();
    assert_eq!(rendered, vec!["Title ", "======"]);
}

#[test]
fn scrolling_past_the_end_yields_no_lines() {
    let doc = Document(vec![Block::Text(Text::plain("short document"))]);
    let total = doc.get_text(30).len();
    assert!(total > 0);
    let visible = doc.render_visible(30, 5, total + 10);
    assert!(visible.is_empty());
}

#[test]
fn document_widget_applies_its_scroll_offset() {
    let doc = Document(vec![
        Block::Text(Text::plain("one")),
        Block::Text(Text::plain("two")),
        Block::Text(Text::plain("three")),
    ]);
    let widget = DocumentWidget { document: doc, scroll_offset: 1 };
    let visible = widget.visible_lines(20, 1);
    let rendered: Vec<String> = visible.iter().map(line_str).collect();
    assert_eq!(rendered, vec!["two "]);
}

#[test]
fn links_are_collected_in_order() {
    let linked = TextBlock {
        content: "here".to_string(),
        style: Style::plain(),
        link: Some("https://example.invalid".to_string()),
    };
    let text = Text(vec![plain_word("see "), linked, plain_word(" there")]);
    let links = text.get_links();
    assert_eq!(links.len(), 1);
    assert_eq!(links[0].content, "here");
    assert!(plain_word("plain").get_links().is_empty());
}

#[test]
fn scroll_rect_moves_vertically() {
    let mut rect = ScrollRect { x: 2, y: 5, width: 80, height: 24 };
    rect.scroll_y(-7);
    assert_eq!(rect.y, -2);
    assert_eq!(rect.x, 2);
    assert_eq!(rect.width, 80);
    assert_eq!(rect.height, 24);
}
