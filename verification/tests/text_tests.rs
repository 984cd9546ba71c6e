use termdash::markup::parse_spans;
use termdash::style::{Color, SChar, Style};
use termdash::wrap::para_rows;

fn chars(s: &str) -> Vec<char> {
    s.chars().collect()
}

fn plain() -> Style {
    Style { fg: Color::Reset, bg: Color::Reset, bold: false }
}

fn text_of(spans: &[SChar]) -> String {
    spans.iter().map(|sc| sc.ch).collect()
}

#[test]
fn markup_styles_the_enclosed_run() {
    let spans = parse_spans(&chars("a{mod=bold;fg=yellow b}c"));
    assert_eq!(text_of(&spans), "abc");
    assert_eq!(spans[0].style, plain());
    assert_eq!(
        spans[1].style,
        Style { fg: Color::Yellow, bg: Color::Reset, bold: true }
    );
    assert_eq!(spans[2].style, plain());
}

#[test]
fn markup_resets_at_closing_brace() {
    let spans = parse_spans(&chars("{mod=bold hi} there"));
    assert_eq!(text_of(&spans), "hi there");
    assert!(spans[0].style.bold);
    assert!(spans[1].style.bold);
    assert!(!spans[2].style.bold);
}

#[test]
fn unknown_tag_renders_verbatim() {
    let spans = parse_spans(&chars("x{bad tag}y"));
    assert_eq!(text_of(&spans), "x{bad tag}y");
    for sc in spans.iter() {
        assert_eq!(sc.style, plain());
    }
}

#[test]
fn unterminated_span_renders_verbatim() {
    let spans = parse_spans(&chars("a{mod=bold bc"));
    assert_eq!(text_of(&spans), "a{mod=bold bc");
    for sc in spans.iter() {
        assert_eq!(sc.style, plain());
    }
}

#[test]
fn unterminated_tag_renders_verbatim() {
    let spans = parse_spans(&chars("a{mod=bold"));
    assert_eq!(text_of(&spans), "a{mod=bold");
    for sc in spans.iter() {
        assert_eq!(sc.style, plain());
    }
}

fn row_strings(rows: &[Vec<SChar>]) -> Vec<String> {
    rows.iter()
        .map(|r| r.iter().map(|sc| sc.ch).collect())
        .collect()
}

#[test]
fn wrap_flows_words_to_width() {
    let spans = parse_spans(&chars("aa bb cc"));
    let rows = para_rows(&spans, 5, true);
    assert_eq!(row_strings(&rows), vec!["aa bb".to_string(), "cc".to_string()]);
}

#[test]
fn wrap_never_exceeds_width() {
    let spans = parse_spans(&chars("one two three four five six"));
    for width in 1u16..12 {
        let rows = para_rows(&spans, width, true);
        for row in rows.iter() {
            assert!(row.len() <= width as usize);
        }
    }
}

#[test]
fn long_word_is_hard_broken_onto_own_lines() {
    let spans = parse_spans(&chars("abcdefghijkl"));
    let rows = para_rows(&spans, 5, true);
    assert_eq!(
        row_strings(&rows),
        vec!["abcde".to_string(), "fghij".to_string(), "kl".to_string()]
    );
}

#[test]
fn newlines_are_always_honored() {
    let spans = parse_spans(&chars("one\n\ntwo"));
    let rows = para_rows(&spans, 10, true);
    assert_eq!(
        row_strings(&rows),
        vec!["one".to_string(), "".to_string(), "two".to_string()]
    );
}

#[test]
fn unwrapped_lines_are_truncated() {
    let spans = parse_spans(&chars("abcdefgh\nxy"));
    let rows = para_rows(&spans, 4, false);
    assert_eq!(row_strings(&rows), vec!["abcd".to_string(), "xy".to_string()]);
}

#[test]
fn tag_closed_without_space_renders_verbatim() {
    let spans = parse_spans(&chars("a{mod=bold}b"));
    assert_eq!(text_of(&spans), "a{mod=bold}b");
    for sc in spans.iter() {
        assert_eq!(sc.style, plain());
    }
}

#[test]
fn other_recognized_colors_apply() {
    let spans = parse_spans(&chars("{fg=green g}{fg=magenta m}"));
    assert_eq!(text_of(&spans), "gm");
    assert_eq!(spans[0].style.fg, Color::Green);
    assert_eq!(spans[1].style.fg, Color::Magenta);
    assert!(!spans[0].style.bold);
}
