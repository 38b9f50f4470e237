use mdrender::inline::ResolvedFormat;
use mdrender::render::{
    color_ansi_code, write_ansi_style, write_bytes, write_extended_color, write_line_ansi,
    write_line_plain, write_lines, write_succeeded, SpanStyle, StyledLine, StyledSpan, TermColor,
    WriteOutcome, BOLD, CROSSED_OUT, ITALIC, UNDERLINED,
};

const NO_STYLE: SpanStyle = SpanStyle { fg: None, bg: None, modifiers: 0 };

fn line(parts: &[(&str, SpanStyle)]) -> StyledLine {
    StyledLine {
        spans: parts
            .iter()
            .map(|(text, style)| StyledSpan { content: text.to_string(), style: *style })
            .collect(),
    }
}

fn render(lines: &[StyledLine], format: ResolvedFormat, width: usize, gutter: usize) -> String {
    let mut out = String::new();
    write_lines(lines, format, width, gutter, &mut out);
    out
}

#[test]
fn plain_line_that_fits() {
    assert_eq!(render(&[line(&[("hello", NO_STYLE)])], ResolvedFormat::Plain, 80, 0), "hello\n");
}

#[test]
fn plain_line_wraps_at_width() {
    assert_eq!(render(&[line(&[("abcdef", NO_STYLE)])], ResolvedFormat::Plain, 3, 0), "abc\ndef\n");
}

#[test]
fn gutter_starts_every_row() {
    assert_eq!(
        render(&[line(&[("abcdef", NO_STYLE)])], ResolvedFormat::Plain, 4, 2),
        "  abcd\n  ef\n"
    );
}

#[test]
fn gutter_is_clamped_below_width() {
    assert_eq!(
        render(&[line(&[("abcdef", NO_STYLE)])], ResolvedFormat::Plain, 3, 10),
        "  abc\n  def\n"
    );
}

#[test]
fn wide_characters_take_two_columns() {
    assert_eq!(render(&[line(&[("中中", NO_STYLE)])], ResolvedFormat::Plain, 3, 0), "中\n中\n");
    assert_eq!(render(&[line(&[("a\tb", NO_STYLE)])], ResolvedFormat::Plain, 2, 0), "a\tb\n");
}

#[test]
fn spans_share_the_row() {
    assert_eq!(
        render(&[line(&[("ab", NO_STYLE), ("cd", NO_STYLE)])], ResolvedFormat::Plain, 3, 0),
        "abc\nd\n"
    );
}

#[test]
fn several_lines() {
    let lines = [line(&[("one", NO_STYLE)]), line(&[]), line(&[("two", NO_STYLE)])];
    assert_eq!(render(&lines, ResolvedFormat::Plain, 80, 1), " one\n \n two\n");
}

#[test]
fn ansi_unstyled_line() {
    assert_eq!(render(&[line(&[("hi", NO_STYLE)])], ResolvedFormat::Ansi, 80, 0), "hi\x1b[0m\n");
}

#[test]
fn ansi_styled_line() {
    let style = SpanStyle { fg: Some(TermColor::Red), bg: None, modifiers: BOLD };
    assert_eq!(
        render(&[line(&[("hi", style)])], ResolvedFormat::Ansi, 80, 0),
        "\x1b[31;1mhi\x1b[0m\x1b[0m\n"
    );
}

#[test]
fn ansi_styled_wrap_restores_style() {
    let style = SpanStyle { fg: Some(TermColor::Green), bg: None, modifiers: 0 };
    assert_eq!(
        render(&[line(&[("abc", style)])], ResolvedFormat::Ansi, 2, 1),
        " \x1b[32mab\x1b[0m\n \x1b[32mc\x1b[0m\x1b[0m\n"
    );
}

#[test]
fn reset_colour_is_no_style() {
    let style = SpanStyle { fg: Some(TermColor::Reset), bg: Some(TermColor::Reset), modifiers: 0 };
    assert_eq!(render(&[line(&[("x", style)])], ResolvedFormat::Ansi, 80, 0), "x\x1b[0m\n");
}

#[test]
fn style_sequences() {
    let mut out = String::new();
    write_ansi_style(
        &mut out,
        SpanStyle {
            fg: Some(TermColor::Rgb(1, 2, 3)),
            bg: Some(TermColor::Indexed(200)),
            modifiers: BOLD | ITALIC | UNDERLINED | CROSSED_OUT,
        },
    );
    assert_eq!(out, "\x1b[38;2;1;2;3;48;5;200;1;3;4;9m");

    let mut out = String::new();
    write_ansi_style(&mut out, SpanStyle { fg: None, bg: Some(TermColor::LightBlue), modifiers: 0 });
    assert_eq!(out, "\x1b[104m");

    let mut out = String::new();
    write_ansi_style(&mut out, SpanStyle { fg: None, bg: None, modifiers: 2 });
    assert_eq!(out, "\x1b[m");
}

#[test]
fn colour_codes() {
    assert_eq!(color_ansi_code(TermColor::Gray, false), Some(37));
    assert_eq!(color_ansi_code(TermColor::White, true), Some(107));
    assert_eq!(color_ansi_code(TermColor::DarkGray, false), Some(90));
    assert_eq!(color_ansi_code(TermColor::Black, true), Some(40));
    assert_eq!(color_ansi_code(TermColor::Reset, false), None);
    assert_eq!(color_ansi_code(TermColor::Indexed(3), false), None);
    assert_eq!(color_ansi_code(TermColor::Rgb(0, 0, 0), true), None);
}

#[test]
fn extended_colours() {
    let mut out = String::new();
    write_extended_color(&mut out, TermColor::Indexed(7), false);
    assert_eq!(out, "38;5;7");
    let mut out = String::new();
    write_extended_color(&mut out, TermColor::Rgb(255, 0, 10), true);
    assert_eq!(out, "48;2;255;0;10");
    let mut out = String::new();
    write_extended_color(&mut out, TermColor::Red, true);
    assert_eq!(out, "");
}

#[test]
fn single_line_writers() {
    let l = line(&[("ab", NO_STYLE)]);
    let mut out = String::new();
    write_line_plain(&l, 80, "> ", &mut out);
    assert_eq!(out, "> ab\n");
    let mut out = String::new();
    write_line_ansi(&l, 80, "", &mut out);
    assert_eq!(out, "ab\x1b[0m\n");
}

#[test]
fn bytes_are_appended() {
    let mut out = String::from("a");
    write_bytes(&mut out, "bc");
    assert_eq!(out, "abc");
}

#[test]
fn broken_pipe_is_not_an_error() {
    assert!(write_succeeded(WriteOutcome::Written));
    assert!(write_succeeded(WriteOutcome::BrokenPipe));
    assert!(!write_succeeded(WriteOutcome::Failed));
}

#[test]
fn only_a_last_character_passes_the_width() {
    // U+0301 has no width: after the wide character overflows the row it
    // starts a new row, and the next wide character joins it.
    assert_eq!(
        render(&[line(&[("中\u{301}中", NO_STYLE)])], ResolvedFormat::Plain, 1, 0),
        "中\n\u{301}中\n"
    );
}

#[test]
fn rows_are_filled_greedily() {
    assert_eq!(
        render(&[line(&[("ab", NO_STYLE), ("cde", NO_STYLE), ("f", NO_STYLE)])], ResolvedFormat::Plain, 4, 1),
        " abcd\n ef\n"
    );
}
