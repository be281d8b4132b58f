use styled_text::Color;
use styled_text::Span;
use styled_text::Spans;
use styled_text::Style;
use styled_text::Text;

#[test]
fn span_width_counts_display_columns() {
    assert_eq!(7, Span::raw("My text").width());
    assert_eq!(4, Span::raw("\u{4f60}\u{597d}").width());
    assert_eq!(0, Span::raw("").width());
}

#[test]
fn spans_width_sums_its_runs() {
    let spans = Spans::from(vec![
        Span::styled("My", Style::default().fg(Color::Yellow)),
        Span::raw(" text"),
    ]);
    assert_eq!(7, spans.width());
}

#[test]
fn text_width_is_the_widest_line() {
    let text = Text::from("The first line\nThe second line");
    assert_eq!(15, text.width());
}

#[test]
fn text_height_counts_lines() {
    let text = Text::from("The first line\nThe second line");
    assert_eq!(2, text.height());
}

#[test]
fn raw_splits_on_line_boundaries() {
    let text = Text::raw("a\r\nb\nc\n");
    assert_eq!(3, text.height());
    assert_eq!("a", text.lines[0].0[0].content);
    assert_eq!("b", text.lines[1].0[0].content);
    assert_eq!("c", text.lines[2].0[0].content);
}

#[test]
fn patch_style_matches_styled_construction() {
    let style = Style::default().fg(Color::Yellow).italic(true);
    let mut raw_text = Text::raw("The first line\nThe second line");
    let styled_text = Text::styled("The first line\nThe second line", style);
    assert_ne!(raw_text, styled_text);
    raw_text.patch_style(style);
    assert_eq!(raw_text, styled_text);
}

#[test]
fn patch_keeps_unset_attributes() {
    let base = Style::default().fg(Color::Yellow).bold(true);
    let over = Style::default().fg(Color::Green).bg(Color::Black);
    let merged = base.patch(over);
    assert_eq!(Some(Color::Green), merged.fg);
    assert_eq!(Some(Color::Black), merged.bg);
    assert_eq!(Some(true), merged.bold);
    assert_eq!(None, merged.italic);
}

#[test]
fn styled_graphemes_merge_styles_and_drop_line_feeds() {
    let span = Span::styled("T\ne", Style::default().fg(Color::Yellow));
    let base = Style::default().fg(Color::Green).bg(Color::Black);
    let gs = span.styled_graphemes(base);
    assert_eq!(2, gs.len());
    assert_eq!("T", gs[0].symbol);
    assert_eq!("e", gs[1].symbol);
    for g in &gs {
        assert_eq!(Some(Color::Yellow), g.style.fg);
        assert_eq!(Some(Color::Black), g.style.bg);
    }
}

#[test]
fn styled_graphemes_keep_clusters_whole() {
    let span = Span::raw("e\u{301}x");
    let gs = span.styled_graphemes(Style::default());
    assert_eq!(2, gs.len());
    assert_eq!("e\u{301}", gs[0].symbol);
    assert_eq!("x", gs[1].symbol);
}

#[test]
fn trim_start_removes_leading_whitespace() {
    let mut span = Span::raw(" \t abc ");
    span.trim_start();
    assert_eq!("abc ", span.content);
}

#[test]
fn split_at_in_place_cuts_by_characters() {
    let mut span = Span::styled("abcdef", Style::default().fg(Color::Red));
    let tail = span.split_at_in_place(2);
    assert_eq!("ab", span.content);
    assert_eq!("cdef", tail.content);
    assert_eq!(span.style, tail.style);
}

#[test]
fn spans_convert_to_plain_text() {
    let spans = Spans::from(vec![
        Span::styled("My", Style::default().fg(Color::Yellow)),
        Span::raw(" text"),
    ]);
    assert_eq!("My text", String::from(spans));
}

#[test]
fn text_extend_appends_lines() {
    let mut text = Text::from("The first line\nThe second line");
    assert_eq!(2, text.height());
    text.extend(Text::raw("These are two\nmore lines!"));
    assert_eq!(4, text.height());
}
