use styled_text::Color;
use styled_text::Span;
use styled_text::Spans;
use styled_text::Style;
use styled_text::Text;
use styled_text::WrappedText;

#[test]
fn text_can_be_wrapped() {
    let mut t = WrappedText::new(10);
    t.extend(Text::from(Spans::from(vec![
        Span::raw("This is "),
        Span::styled("a test.", Style::default().fg(Color::Red)),
    ])));
    t.extend(Text::from("It should wrap."));
    let t = Text::from(t);
    let expected = Text::from(vec![
        Spans::from(vec![
            Span::raw("This is "),
            Span::styled("a", Style::default().fg(Color::Red)),
        ]),
        Spans::from(Span::styled("test.", Style::default().fg(Color::Red))),
        Spans::from("It should"),
        Spans::from("wrap."),
    ]);
    assert_eq!(expected, t);
}

fn doc_contents(t: &Text) -> String {
    let mut s = String::new();
    for line in &t.lines {
        for span in &line.0 {
            s.push_str(&span.content);
        }
    }
    s
}

#[test]
fn no_line_exceeds_width() {
    let text = Text::from("the quick brown fox jumps over the lazy dog");
    let out = text.wrap(7, true);
    for line in &out.lines {
        assert!(line.width() <= 7);
    }
}

#[test]
fn hard_break_splits_long_word() {
    let text = Text::from("xxxxxxxxxxxxxxx");
    let out = text.wrap(5, true);
    assert_eq!(3, out.height());
    for line in &out.lines {
        assert_eq!(5, line.width());
        assert_eq!("xxxxx", doc_contents(&Text::from(line.clone())));
    }
}

#[test]
fn content_preserved_without_trim() {
    let text = Text::from(Spans::from("abc def"));
    let out = text.wrap(3, false);
    assert_eq!("abc def", doc_contents(&out));
    let widths: Vec<usize> = out.lines.iter().map(|l| l.width()).collect();
    for w in widths {
        assert!(w <= 3);
    }
}

#[test]
fn styles_survive_wrapping() {
    let red = Style::default().fg(Color::Red);
    let blue = Style::default().fg(Color::Blue).bold(true);
    let text = Text::from(Spans::from(vec![
        Span::styled("alpha ", red),
        Span::styled("beta", blue),
    ]));
    let out = text.wrap(5, true);
    assert_eq!(2, out.height());
    assert_eq!(red, out.lines[0].0[0].style);
    assert_eq!("alpha", out.lines[0].0[0].content);
    // the trimmed remainder of the first run survives as an empty red run
    assert_eq!(red, out.lines[1].0[0].style);
    assert_eq!("", out.lines[1].0[0].content);
    assert_eq!(blue, out.lines[1].0[1].style);
    assert_eq!("beta", out.lines[1].0[1].content);
}

#[test]
fn rewrap_is_identity() {
    let text = Text::from(Spans::from(vec![
        Span::raw("This is "),
        Span::styled("a test. It should wrap.", Style::default().fg(Color::Red)),
    ]));
    let once = text.wrap(10, true);
    let twice = once.clone().wrap(10, true);
    assert_eq!(once, twice);
}

#[test]
fn rewrap_is_identity_without_trim() {
    let text = Text::from("one two three four five");
    let once = text.wrap(9, false);
    let twice = once.clone().wrap(9, false);
    assert_eq!(once, twice);
}

#[test]
fn overwide_character_is_dropped() {
    let text = Text::from("a\u{4f60}b");
    let out = text.wrap(1, true);
    assert_eq!("ab", doc_contents(&out));
    for line in &out.lines {
        assert!(line.width() <= 1);
    }
}

#[test]
fn wide_characters_wrap_by_columns() {
    let text = Text::from("\u{4f60}\u{597d}\u{4e16}\u{754c}");
    let out = text.wrap(4, true);
    assert_eq!(2, out.height());
    assert_eq!(4, out.lines[0].width());
    assert_eq!(4, out.lines[1].width());
}

#[test]
fn empty_document_stays_empty() {
    let out = Text::default().wrap(8, true);
    assert_eq!(0, out.height());
    assert_eq!(0, out.width());
}

#[test]
fn all_whitespace_line_collapses_when_trimming() {
    let text = Text::from("   \t  ");
    let out = text.wrap(4, true);
    assert_eq!(1, out.height());
    assert_eq!(0, out.width());
}

#[test]
fn trim_can_be_disabled() {
    let mut t = WrappedText::new(6).trim(false);
    t.extend(Text::from("  abcd"));
    let out = Text::from(t);
    assert_eq!(1, out.height());
    assert_eq!("  abcd", doc_contents(&out));
}

#[test]
fn embedded_line_feed_breaks_the_line() {
    let mut t = WrappedText::new(20);
    t.extend(Text::from(Spans::from("left\nright")));
    let out = Text::from(t);
    assert_eq!(2, out.height());
    assert_eq!("left", doc_contents(&Text::from(out.lines[0].clone())));
    assert_eq!("right", doc_contents(&Text::from(out.lines[1].clone())));
}

#[test]
fn nbsp_is_not_a_break_candidate() {
    let with_space = Text::from("ab cd").wrap(3, true);
    assert_eq!(2, with_space.height());
    assert_eq!("ab", doc_contents(&Text::from(with_space.lines[0].clone())));
    assert_eq!("cd", doc_contents(&Text::from(with_space.lines[1].clone())));
    // the same text with a no-break space finds no boundary after "ab"
    let with_nbsp = Text::from("ab\u{a0}cd").wrap(3, true);
    assert_eq!(3, with_nbsp.height());
    assert_eq!("a", doc_contents(&Text::from(with_nbsp.lines[0].clone())));
}

#[test]
fn zero_width_target_emits_nothing_visible() {
    let text = Text::from("ab");
    let out = text.wrap(0, true);
    assert_eq!(0, out.width());
}

#[test]
fn trimming_removes_only_whitespace() {
    let red = Style::default().fg(Color::Red);
    let text = Text::from(Spans::from(vec![
        Span::raw("  the quick "),
        Span::styled("brown fox  ", red),
    ]));
    let out = text.wrap(6, true);
    let dark: String = doc_contents(&out).chars().filter(|c| !c.is_whitespace()).collect();
    assert_eq!("thequickbrownfox", dark);
    for line in &out.lines {
        assert!(line.width() <= 6);
        for span in &line.0 {
            if span.content.contains("brown") || span.content.contains("fox") {
                assert_eq!(red, span.style);
            }
        }
    }
}
