//! Rendering styled lines as terminal text, plain or with ANSI styling,
//! soft-wrapped at a column width with an optional left gutter.

use vstd::prelude::*;
use vstd::string::StringExecFns;
use crate::text::{chars_of, decimal, push_char, push_decimal};

verus! {

// ---------------------------------------------------------------------
// Styled text
// ---------------------------------------------------------------------

/// A terminal colour.
#[derive(Debug, Clone, Copy, PartialEq, Eq, Structural)]
pub enum TermColor {
    Reset,
    Black,
    Red,
    Green,
    Yellow,
    Blue,
    Magenta,
    Cyan,
    Gray,
    DarkGray,
    LightRed,
    LightGreen,
    LightYellow,
    LightBlue,
    LightMagenta,
    LightCyan,
    White,
    Rgb(u8, u8, u8),
    Indexed(u8),
}

/// Bold text.
pub const BOLD: u16 = 0x1;

/// Italic text.
pub const ITALIC: u16 = 0x4;

/// Underlined text.
pub const UNDERLINED: u16 = 0x8;

/// Crossed-out text.
pub const CROSSED_OUT: u16 = 0x100;

/// The style of a span: colours and a set of modifier flags.
#[derive(Debug, Clone, Copy, PartialEq, Eq, Structural)]
pub struct SpanStyle {
    pub fg: Option<TermColor>,
    pub bg: Option<TermColor>,
    pub modifiers: u16,
}

/// A run of text in one style.
#[derive(Debug)]
pub struct StyledSpan {
    pub content: String,
    pub style: SpanStyle,
}

/// A line made of styled spans.
#[derive(Debug)]
pub struct StyledLine {
    pub spans: Vec<StyledSpan>,
}

impl View for StyledSpan {
    type V = (Seq<char>, SpanStyle);

    open spec fn view(&self) -> (Seq<char>, SpanStyle) {
        (self.content@, self.style)
    }
}

impl View for StyledLine {
    type V = Seq<(Seq<char>, SpanStyle)>;

    open spec fn view(&self) -> Seq<(Seq<char>, SpanStyle)> {
        self.spans@.map_values(|s: StyledSpan| s@)
    }
}

/// The lines as the specification sees them.
pub open spec fn lines_view(lines: Seq<StyledLine>) -> Seq<Seq<(Seq<char>, SpanStyle)>> {
    lines.map_values(|l: StyledLine| l@)
}

// ---------------------------------------------------------------------
// Display width (unicode-width)
// ---------------------------------------------------------------------

/// The column width that the unicode-width tables give a character of
/// U+00A0 or above.
pub uninterp spec fn table_char_width(c: char) -> usize;

/// `UnicodeWidthChar::width` of unicode-width: printable ASCII is one
/// column wide, the C0 and C1 control characters and DEL have no width
/// (`None`), and every other character has the width its tables give.
#[verifier::external_body]
fn char_width(c: char) -> (w: Option<usize>)
    ensures
        w == (if (c as u32) < 0x20 || (0x7F <= (c as u32) && (c as u32) < 0xA0) {
            None
        } else if (c as u32) < 0x7F {
            Some(1usize)
        } else {
            Some(table_char_width(c))
        }),
{
    unicode_width::UnicodeWidthChar::width(c)
}

/// The columns a character advances the cursor by; a control character
/// advances it by none.
pub open spec fn char_columns(c: char) -> nat {
    if (c as u32) < 0x20 || (0x7F <= (c as u32) && (c as u32) < 0xA0) {
        0
    } else if (c as u32) < 0x7F {
        1
    } else {
        table_char_width(c) as nat
    }
}

fn columns_of(c: char) -> (w: usize)
    ensures
        w == char_columns(c),
{
    match char_width(c) {
        Some(w) => w,
        None => 0,
    }
}

// ---------------------------------------------------------------------
// ANSI styling
// ---------------------------------------------------------------------

/// The SGR code of a basic colour (30-37 and 90-97 as foreground; ten
/// more as background). `Reset`, indexed and RGB colours have none.
pub open spec fn ansi_color_code(color: TermColor, bg: bool) -> Option<nat> {
    let base: Option<nat> = match color {
        TermColor::Black => Some(30),
        TermColor::Red => Some(31),
        TermColor::Green => Some(32),
        TermColor::Yellow => Some(33),
        TermColor::Blue => Some(34),
        TermColor::Magenta => Some(35),
        TermColor::Cyan => Some(36),
        TermColor::Gray => Some(37),
        TermColor::DarkGray => Some(90),
        TermColor::LightRed => Some(91),
        TermColor::LightGreen => Some(92),
        TermColor::LightYellow => Some(93),
        TermColor::LightBlue => Some(94),
        TermColor::LightMagenta => Some(95),
        TermColor::LightCyan => Some(96),
        TermColor::White => Some(97),
        _ => None,
    };
    match base {
        Some(n) => Some(if bg {
            n + 10
        } else {
            n
        }),
        None => None,
    }
}

/// The SGR parameters of an indexed (`38;5;n`) or RGB (`38;2;r;g;b`)
/// colour; `48` in place of `38` for a background.
pub open spec fn extended_color_params(color: TermColor, bg: bool) -> Seq<char> {
    let base: nat = if bg {
        48
    } else {
        38
    };
    match color {
        TermColor::Indexed(n) => decimal(base) + ";5;"@ + decimal(n as nat),
        TermColor::Rgb(r, g, b) => decimal(base) + ";2;"@ + decimal(r as nat) + ";"@ + decimal(
            g as nat,
        ) + ";"@ + decimal(b as nat),
        _ => seq![],
    }
}

/// The SGR parameters that select a colour.
pub open spec fn color_params(color: TermColor, bg: bool) -> Seq<char> {
    match ansi_color_code(color, bg) {
        Some(n) => decimal(n),
        None => extended_color_params(color, bg),
    }
}

/// A colour that changes something: `Reset` counts as no colour.
pub open spec fn visible(c: Option<TermColor>) -> Option<TermColor> {
    match c {
        Some(TermColor::Reset) => None,
        _ => c,
    }
}

/// Whether the modifier set holds `flag`.
pub open spec fn has_modifier(mods: u16, flag: u16) -> bool {
    mods & flag == flag
}

/// Whether a span needs styling at all.
pub open spec fn is_styled(st: SpanStyle) -> bool {
    visible(st.fg) is Some || visible(st.bg) is Some || st.modifiers != 0
}

/// The SGR parameters of a style, in order: foreground, background, then
/// bold (`1`), italic (`3`), underlined (`4`) and crossed out (`9`).
pub open spec fn style_params(st: SpanStyle) -> Seq<Seq<char>> {
    let p0: Seq<Seq<char>> = seq![];
    let p1 = match visible(st.fg) {
        Some(c) => p0.push(color_params(c, false)),
        None => p0,
    };
    let p2 = match visible(st.bg) {
        Some(c) => p1.push(color_params(c, true)),
        None => p1,
    };
    let p3 = if has_modifier(st.modifiers, BOLD) {
        p2.push(seq!['1'])
    } else {
        p2
    };
    let p4 = if has_modifier(st.modifiers, ITALIC) {
        p3.push(seq!['3'])
    } else {
        p3
    };
    let p5 = if has_modifier(st.modifiers, UNDERLINED) {
        p4.push(seq!['4'])
    } else {
        p4
    };
    if has_modifier(st.modifiers, CROSSED_OUT) {
        p5.push(seq!['9'])
    } else {
        p5
    }
}

/// Parameters joined by `;`.
pub open spec fn joined(ps: Seq<Seq<char>>) -> Seq<char>
    decreases ps.len(),
{
    if ps.len() == 0 {
        seq![]
    } else if ps.len() == 1 {
        ps[0]
    } else {
        joined(ps.drop_last()) + seq![';'] + ps.last()
    }
}

/// The escape sequence that switches a style on.
pub open spec fn style_sequence(st: SpanStyle) -> Seq<char> {
    "\x1b["@ + joined(style_params(st)) + "m"@
}

/// The escape sequence that switches styling off.
pub open spec fn reset_sequence() -> Seq<char> {
    "\x1b[0m"@
}

/// The SGR code of a basic colour, or `None` for `Reset`, indexed and RGB
/// colours.
pub fn color_ansi_code(color: TermColor, bg: bool) -> (r: Option<u8>)
    ensures
        match r {
            Some(n) => ansi_color_code(color, bg) == Some(n as nat),
            None => ansi_color_code(color, bg) is None,
        },
{
    let base: u8 = match color {
        TermColor::Reset => {
            return None;
        },
        TermColor::Black => 30,
        TermColor::Red => 31,
        TermColor::Green => 32,
        TermColor::Yellow => 33,
        TermColor::Blue => 34,
        TermColor::Magenta => 35,
        TermColor::Cyan => 36,
        TermColor::Gray => 37,
        TermColor::DarkGray => 90,
        TermColor::LightRed => 91,
        TermColor::LightGreen => 92,
        TermColor::LightYellow => 93,
        TermColor::LightBlue => 94,
        TermColor::LightMagenta => 95,
        TermColor::LightCyan => 96,
        TermColor::White => 97,
        TermColor::Indexed(_) | TermColor::Rgb(_, _, _) => {
            return None;
        },
    };
    if bg {
        Some(base + 10)
    } else {
        Some(base)
    }
}

/// Append to `writer` the SGR parameters of an indexed or RGB colour.
pub fn write_extended_color(writer: &mut String, color: TermColor, bg: bool)
    ensures
        final(writer)@ == old(writer)@ + extended_color_params(color, bg),
{
    let base: usize = if bg {
        48
    } else {
        38
    };
    match color {
        TermColor::Indexed(n) => {
            push_decimal(writer, base);
            writer.append(";5;");
            push_decimal(writer, n as usize);
        },
        TermColor::Rgb(r, g, b) => {
            push_decimal(writer, base);
            writer.append(";2;");
            push_decimal(writer, r as usize);
            writer.append(";");
            push_decimal(writer, g as usize);
            writer.append(";");
            push_decimal(writer, b as usize);
        },
        _ => {
            assert(extended_color_params(color, bg) == Seq::<char>::empty());
            assert(old(writer)@ + Seq::<char>::empty() == old(writer)@);
        },
    }
}

/// Append to `writer` the SGR parameters of a colour.
fn write_color_params(writer: &mut String, color: TermColor, bg: bool)
    ensures
        final(writer)@ == old(writer)@ + color_params(color, bg),
{
    match color_ansi_code(color, bg) {
        Some(code) => push_decimal(writer, code as usize),
        None => write_extended_color(writer, color, bg),
    }
}

/// Append `text` to `writer`.
pub fn write_bytes(writer: &mut String, text: &str)
    ensures
        final(writer)@ == old(writer)@ + text@,
{
    writer.append(text);
}

} // verus!
verus! {

/// Append one SGR parameter, after a `;` unless it is the first.
fn write_param_sep(writer: &mut String, need_sep: bool, Ghost(done): Ghost<Seq<Seq<char>>>)
    requires
        need_sep == (done.len() > 0),
    ensures
        need_sep ==> final(writer)@ == old(writer)@ + seq![';'],
        !need_sep ==> final(writer)@ == old(writer)@,
{
    if need_sep {
        push_char(writer, ';');
    }
}

proof fn lemma_joined_push(ps: Seq<Seq<char>>, p: Seq<char>)
    ensures
        joined(ps.push(p)) == if ps.len() == 0 {
            p
        } else {
            joined(ps) + seq![';'] + p
        },
{
    assert(ps.push(p).drop_last() == ps);
    if ps.len() == 0 {
        assert(ps.push(p)[0] == p);
    }
}

/// Append a colour parameter when the colour is present.
fn write_color_param(
    writer: &mut String,
    color: Option<TermColor>,
    bg: bool,
    need_sep: bool,
    Ghost(head): Ghost<Seq<char>>,
    Ghost(done): Ghost<Seq<Seq<char>>>,
) -> (r: bool)
    requires
        need_sep == (done.len() > 0),
        old(writer)@ == head + joined(done),
    ensures
        ({
            let next = match color {
                Some(c) => done.push(color_params(c, bg)),
                None => done,
            };
            final(writer)@ == head + joined(next) && r == (next.len() > 0)
        }),
{
    match color {
        Some(c) => {
            write_param_sep(writer, need_sep, Ghost(done));
            write_color_params(writer, c, bg);
            proof {
                lemma_joined_push(done, color_params(c, bg));
            }
            true
        },
        None => need_sep,
    }
}

/// Append a one-character modifier parameter when the flag is set.
fn write_flag_param(
    writer: &mut String,
    present: bool,
    code: char,
    need_sep: bool,
    Ghost(head): Ghost<Seq<char>>,
    Ghost(done): Ghost<Seq<Seq<char>>>,
) -> (r: bool)
    requires
        need_sep == (done.len() > 0),
        old(writer)@ == head + joined(done),
    ensures
        ({
            let next = if present {
                done.push(seq![code])
            } else {
                done
            };
            final(writer)@ == head + joined(next) && r == (next.len() > 0)
        }),
{
    if present {
        write_param_sep(writer, need_sep, Ghost(done));
        push_char(writer, code);
        proof {
            lemma_joined_push(done, seq![code]);
        }
        true
    } else {
        need_sep
    }
}

/// The colour with `Reset` taken as no colour.
fn visible_color(c: Option<TermColor>) -> (r: Option<TermColor>)
    ensures
        r == visible(c),
{
    match c {
        Some(TermColor::Reset) => None,
        other => other,
    }
}

/// Append the escape sequence that switches a style on.
pub fn write_ansi_style(writer: &mut String, style: SpanStyle)
    ensures
        final(writer)@ == old(writer)@ + style_sequence(style),
{
    writer.append("\x1b[");
    let ghost head = writer@;
    let ghost p0: Seq<Seq<char>> = seq![];
    let fg = visible_color(style.fg);
    let bg = visible_color(style.bg);
    let mods = style.modifiers;
    let ghost p1 = match fg {
        Some(c) => p0.push(color_params(c, false)),
        None => p0,
    };
    let ghost p2 = match bg {
        Some(c) => p1.push(color_params(c, true)),
        None => p1,
    };
    let ghost p3 = if has_modifier(mods, BOLD) { p2.push(seq!['1']) } else { p2 };
    let ghost p4 = if has_modifier(mods, ITALIC) { p3.push(seq!['3']) } else { p3 };
    let ghost p5 = if has_modifier(mods, UNDERLINED) { p4.push(seq!['4']) } else { p4 };
    let ghost p6 = if has_modifier(mods, CROSSED_OUT) { p5.push(seq!['9']) } else { p5 };
    assert(writer@ == head + joined(p0));
    let s1 = write_color_param(writer, fg, false, false, Ghost(head), Ghost(p0));
    let s2 = write_color_param(writer, bg, true, s1, Ghost(head), Ghost(p1));
    let s3 = write_flag_param(writer, mods & BOLD == BOLD, '1', s2, Ghost(head), Ghost(p2));
    let s4 = write_flag_param(writer, mods & ITALIC == ITALIC, '3', s3, Ghost(head), Ghost(p3));
    let s5 = write_flag_param(writer, mods & UNDERLINED == UNDERLINED, '4', s4, Ghost(head), Ghost(p4));
    let _ = write_flag_param(writer, mods & CROSSED_OUT == CROSSED_OUT, '9', s5, Ghost(head), Ghost(p5));
    assert(p6 == style_params(style));
    writer.append("m");
}

} // verus!
verus! {

// ---------------------------------------------------------------------
// Soft-wrapped lines
// ---------------------------------------------------------------------

/// Whether a character `w` columns wide, met at column `col`, starts a new
/// row: it would pass `max_width`, and the row is not empty.
pub open spec fn wraps_at(col: nat, w: nat, max_width: nat) -> bool {
    col > 0 && col + w > max_width
}

/// The characters `cs` written from column `col`: each one that would pass
/// `max_width` on a non-empty row is preceded by `wrap`. Gives the text and
/// the column after it.
pub open spec fn emit_chars(cs: Seq<char>, col: nat, max_width: nat, wrap: Seq<char>) -> (
    Seq<char>,
    nat,
)
    decreases cs.len(),
{
    if cs.len() == 0 {
        (seq![], col)
    } else {
        let w = char_columns(cs[0]);
        let (pre, c1) = if wraps_at(col, w, max_width) {
            (wrap, 0nat)
        } else {
            (Seq::<char>::empty(), col)
        };
        let (rest, end) = emit_chars(cs.drop_first(), c1 + w, max_width, wrap);
        (pre + seq![cs[0]] + rest, end)
    }
}

/// What a row break is in a span: in ANSI mode a styled span switches its
/// style off before the newline and on again after the gutter.
pub open spec fn wrap_text(styled: bool, style: SpanStyle, gutter: Seq<char>) -> Seq<char> {
    if styled {
        reset_sequence() + seq!['\n'] + gutter + style_sequence(style)
    } else {
        seq!['\n'] + gutter
    }
}

/// One span written from column `col`.
pub open spec fn emit_span(
    span: (Seq<char>, SpanStyle),
    ansi: bool,
    col: nat,
    max_width: nat,
    gutter: Seq<char>,
) -> (Seq<char>, nat) {
    let styled = ansi && is_styled(span.1);
    let (body, end) = emit_chars(span.0, col, max_width, wrap_text(styled, span.1, gutter));
    if styled {
        (style_sequence(span.1) + body + reset_sequence(), end)
    } else {
        (body, end)
    }
}

/// The spans of a line written from column `col`.
pub open spec fn emit_spans(
    spans: Seq<(Seq<char>, SpanStyle)>,
    ansi: bool,
    col: nat,
    max_width: nat,
    gutter: Seq<char>,
) -> (Seq<char>, nat)
    decreases spans.len(),
{
    if spans.len() == 0 {
        (seq![], col)
    } else {
        let (first, c1) = emit_span(spans[0], ansi, col, max_width, gutter);
        let (rest, end) = emit_spans(spans.drop_first(), ansi, c1, max_width, gutter);
        (first + rest, end)
    }
}

/// A whole line: the gutter, its spans, and the line end (with a final
/// style reset in ANSI mode).
pub open spec fn rendered_line(
    spans: Seq<(Seq<char>, SpanStyle)>,
    ansi: bool,
    max_width: nat,
    gutter: Seq<char>,
) -> Seq<char> {
    gutter + emit_spans(spans, ansi, 0, max_width, gutter).0 + if ansi {
        reset_sequence() + seq!['\n']
    } else {
        seq!['\n']
    }
}

/// A sequence of lines.
pub open spec fn rendered_lines(
    lines: Seq<Seq<(Seq<char>, SpanStyle)>>,
    ansi: bool,
    max_width: nat,
    gutter: Seq<char>,
) -> Seq<char>
    decreases lines.len(),
{
    if lines.len() == 0 {
        seq![]
    } else {
        rendered_line(lines[0], ansi, max_width, gutter) + rendered_lines(
            lines.drop_first(),
            ansi,
            max_width,
            gutter,
        )
    }
}

/// The gutter actually used: never wider than `max_width - 1`, so every
/// row keeps at least one column for text.
pub open spec fn clamped_gutter(gutter: nat, max_width: nat) -> nat {
    let limit: nat = if max_width > 0 {
        (max_width - 1) as nat
    } else {
        0
    };
    if gutter < limit {
        gutter
    } else {
        limit
    }
}

/// `n` spaces.
pub open spec fn spaces(n: nat) -> Seq<char> {
    Seq::new(n, |i: int| ' ')
}

/// Append the characters of a span, wrapping rows at `max_width`.
fn write_chars(
    writer: &mut String,
    cs: &Vec<char>,
    start_col: usize,
    max_width: usize,
    wrap: &str,
) -> (end: usize)
    ensures
        final(writer)@ == old(writer)@ + emit_chars(cs@, start_col as nat, max_width as nat, wrap@).0,
        end == emit_chars(cs@, start_col as nat, max_width as nat, wrap@).1,
{
    let mut col = start_col;
    let mut i: usize = 0;
    assert(cs@.skip(0) == cs@);
    while i < cs.len()
        invariant
            i <= cs.len(),
            writer@ + emit_chars(cs@.skip(i as int), col as nat, max_width as nat, wrap@).0 == old(
                writer,
            )@ + emit_chars(cs@, start_col as nat, max_width as nat, wrap@).0,
            emit_chars(cs@.skip(i as int), col as nat, max_width as nat, wrap@).1 == emit_chars(
                cs@,
                start_col as nat,
                max_width as nat,
                wrap@,
            ).1,
        decreases cs.len() - i,
    {
        let ghost rest = cs@.skip(i as int);
        assert(rest[0] == cs@[i as int]);
        assert(rest.drop_first() == cs@.skip(i + 1));
        let c = cs[i];
        let w = columns_of(c);
        if col > 0 && (col > max_width || w > max_width - col) {
            writer.append(wrap);
            col = 0;
        }
        push_char(writer, c);
        col = col + w;
        i = i + 1;
    }
    assert(cs@.skip(cs.len() as int) == Seq::<char>::empty());
    col
}

} // verus!
verus! {

/// Append one span from column `col`.
fn write_span(
    writer: &mut String,
    span: &StyledSpan,
    ansi: bool,
    col: usize,
    max_width: usize,
    gutter: &str,
) -> (end: usize)
    ensures
        final(writer)@ == old(writer)@ + emit_span(span@, ansi, col as nat, max_width as nat, gutter@).0,
        end == emit_span(span@, ansi, col as nat, max_width as nat, gutter@).1,
{
    let style = span.style;
    let styled = ansi && (visible_color(style.fg).is_some() || visible_color(style.bg).is_some()
        || style.modifiers != 0);
    let mut wrap = String::new();
    if styled {
        wrap.append("\x1b[0m");
        push_char(&mut wrap, '\n');
        wrap.append(gutter);
        write_ansi_style(&mut wrap, style);
        write_ansi_style(writer, style);
    } else {
        push_char(&mut wrap, '\n');
        wrap.append(gutter);
    }
    assert(wrap@ == wrap_text(styled, style, gutter@));
    let cs = chars_of(span.content.as_str());
    let end = write_chars(writer, &cs, col, max_width, wrap.as_str());
    if styled {
        writer.append("\x1b[0m");
    }
    end
}

/// Append the spans of a line followed by the line end.
fn write_line(writer: &mut String, line: &StyledLine, ansi: bool, max_width: usize, gutter: &str)
    ensures
        final(writer)@ == old(writer)@ + rendered_line(line@, ansi, max_width as nat, gutter@),
{
    let ghost spans = line@;
    writer.append(gutter);
    let ghost base = writer@;
    let mut col: usize = 0;
    let mut k: usize = 0;
    assert(spans.skip(0) == spans);
    while k < line.spans.len()
        invariant
            spans == line@,
            spans.len() == line.spans.len(),
            k <= spans.len(),
            writer@ + emit_spans(spans.skip(k as int), ansi, col as nat, max_width as nat, gutter@).0
                == base + emit_spans(spans, ansi, 0, max_width as nat, gutter@).0,
        decreases line.spans.len() - k,
    {
        let ghost rest = spans.skip(k as int);
        assert(rest[0] == spans[k as int]);
        assert(spans[k as int] == line.spans@[k as int]@);
        assert(rest.drop_first() == spans.skip(k + 1));
        col = write_span(writer, &line.spans[k], ansi, col, max_width, gutter);
        k = k + 1;
    }
    assert(spans.skip(k as int) == Seq::<(Seq<char>, SpanStyle)>::empty());
    if ansi {
        writer.append("\x1b[0m");
    }
    push_char(writer, '\n');
}

/// Append one line with ANSI styling.
pub fn write_line_ansi(line: &StyledLine, max_width: usize, gutter: &str, writer: &mut String)
    ensures
        final(writer)@ == old(writer)@ + rendered_line(line@, true, max_width as nat, gutter@),
{
    write_line(writer, line, true, max_width, gutter);
}

/// Append one line as plain text.
pub fn write_line_plain(line: &StyledLine, max_width: usize, gutter: &str, writer: &mut String)
    ensures
        final(writer)@ == old(writer)@ + rendered_line(line@, false, max_width as nat, gutter@),
{
    write_line(writer, line, false, max_width, gutter);
}

/// `n` spaces.
fn spaces_string(n: usize) -> (s: String)
    ensures
        s@ == spaces(n as nat),
{
    let mut s = String::new();
    let mut k: usize = 0;
    while k < n
        invariant
            k <= n,
            s@ == spaces(k as nat),
        decreases n - k,
    {
        push_char(&mut s, ' ');
        k = k + 1;
        assert(s@ == spaces(k as nat));
    }
    s
}

/// Append `lines`, soft-wrapped at `max_width` columns, each row indented
/// by a gutter of `gutter` spaces. The gutter is narrowed, if need be, so
/// that it leaves at least one column for text.
pub fn write_lines(
    lines: &[StyledLine],
    format: crate::inline::ResolvedFormat,
    max_width: usize,
    gutter: usize,
    writer: &mut String,
)
    ensures
        final(writer)@ == old(writer)@ + rendered_lines(
            lines_view(lines@),
            format == crate::inline::ResolvedFormat::Ansi,
            max_width as nat,
            spaces(clamped_gutter(gutter as nat, max_width as nat)),
        ),
{
    let limit = if max_width > 0 {
        max_width - 1
    } else {
        0
    };
    let g = if gutter < limit {
        gutter
    } else {
        limit
    };
    let gutter_text = spaces_string(g);
    let ansi = match format {
        crate::inline::ResolvedFormat::Ansi => true,
        crate::inline::ResolvedFormat::Plain => false,
    };
    let ghost lv = lines_view(lines@);
    let ghost gs = gutter_text@;
    let ghost base = writer@;
    let mut k: usize = 0;
    assert(lv.skip(0) == lv);
    while k < lines.len()
        invariant
            lv == lines_view(lines@),
            lv.len() == lines.len(),
            gs == gutter_text@,
            k <= lines.len(),
            writer@ + rendered_lines(lv.skip(k as int), ansi, max_width as nat, gs) == base
                + rendered_lines(lv, ansi, max_width as nat, gs),
        decreases lines.len() - k,
    {
        let ghost rest = lv.skip(k as int);
        assert(rest[0] == lv[k as int]);
        assert(rest.drop_first() == lv.skip(k + 1));
        if ansi {
            write_line_ansi(&lines[k], max_width, gutter_text.as_str(), writer);
        } else {
            write_line_plain(&lines[k], max_width, gutter_text.as_str(), writer);
        }
        k = k + 1;
    }
    assert(lv.skip(k as int) == Seq::<Seq<(Seq<char>, SpanStyle)>>::empty());
}

} // verus!
verus! {

/// How writing the rendered text out ended.
#[derive(Debug, Clone, Copy, PartialEq, Eq, Structural)]
pub enum WriteOutcome {
    Written,
    /// The reader went away.
    BrokenPipe,
    Failed,
}

/// Whether a write counts as done: a broken pipe (the reader closed the
/// stream, as `head` does) is not an error.
pub fn write_succeeded(outcome: WriteOutcome) -> (ok: bool)
    ensures
        ok == !(outcome is Failed),
{
    match outcome {
        WriteOutcome::Written => true,
        WriteOutcome::BrokenPipe => true,
        WriteOutcome::Failed => false,
    }
}

// ---------------------------------------------------------------------
// Laws
// ---------------------------------------------------------------------

/// The columns `cs` take up.
pub open spec fn total_columns(cs: Seq<char>) -> nat
    decreases cs.len(),
{
    if cs.len() == 0 {
        0
    } else {
        char_columns(cs[0]) + total_columns(cs.drop_first())
    }
}

/// Text that fits in the rest of the row is written as it is, with no
/// row break.
pub proof fn lemma_fitting_text_is_not_wrapped(cs: Seq<char>, col: nat, max_width: nat, wrap: Seq<char>)
    requires
        col + total_columns(cs) <= max_width,
    ensures
        emit_chars(cs, col, max_width, wrap) == (cs, col + total_columns(cs)),
    decreases cs.len(),
{
    if cs.len() > 0 {
        let w = char_columns(cs[0]);
        lemma_fitting_text_is_not_wrapped(cs.drop_first(), col + w, max_width, wrap);
        assert(seq![cs[0]] + cs.drop_first() == cs);
    }
}

/// When every character fits in a row, wrapping keeps the cursor within
/// `max_width`: no row is written past the width.
pub proof fn lemma_wrapped_rows_fit(cs: Seq<char>, col: nat, max_width: nat, wrap: Seq<char>)
    requires
        col <= max_width,
        forall|k: int| 0 <= k < cs.len() ==> char_columns(#[trigger] cs[k]) <= max_width,
    ensures
        emit_chars(cs, col, max_width, wrap).1 <= max_width,
    decreases cs.len(),
{
    if cs.len() > 0 {
        let w = char_columns(cs[0]);
        let c1: nat = if wraps_at(col, w, max_width) {
            0
        } else {
            col
        };
        assert forall|k: int| 0 <= k < cs.drop_first().len() implies char_columns(
            #[trigger] cs.drop_first()[k],
        ) <= max_width by {
            assert(cs.drop_first()[k] == cs[k + 1]);
        }
        lemma_wrapped_rows_fit(cs.drop_first(), c1 + w, max_width, wrap);
    }
}

/// The gutter always leaves at least one column for text, so wrapping
/// always makes progress.
pub proof fn lemma_gutter_leaves_room(gutter: nat, max_width: nat)
    requires
        max_width > 0,
    ensures
        clamped_gutter(gutter, max_width) < max_width,
{
}

} // verus!
verus! {

// ---------------------------------------------------------------------
// Rows of a plain line
// ---------------------------------------------------------------------

/// The text of a line's spans, one after the other.
pub open spec fn spans_text(spans: Seq<(Seq<char>, SpanStyle)>) -> Seq<char>
    decreases spans.len(),
{
    if spans.len() == 0 {
        seq![]
    } else {
        spans[0].0 + spans_text(spans.drop_first())
    }
}

/// The rows that `cs` is wrapped into when the current row already holds
/// `col` columns: the first entry continues the current row, each further
/// entry is a new row.
pub open spec fn rows_from(cs: Seq<char>, col: nat, max_width: nat) -> Seq<Seq<char>>
    decreases cs.len(),
{
    if cs.len() == 0 {
        seq![seq![]]
    } else {
        let w = char_columns(cs[0]);
        if wraps_at(col, w, max_width) {
            let rest = rows_from(cs.drop_first(), w, max_width);
            seq![Seq::<char>::empty()] + rest.update(0, seq![cs[0]] + rest[0])
        } else {
            let rest = rows_from(cs.drop_first(), col + w, max_width);
            rest.update(0, seq![cs[0]] + rest[0])
        }
    }
}

/// Rows joined by a separator.
pub open spec fn join_rows(rows: Seq<Seq<char>>, sep: Seq<char>) -> Seq<char>
    decreases rows.len(),
{
    if rows.len() == 0 {
        seq![]
    } else if rows.len() == 1 {
        rows[0]
    } else {
        rows[0] + sep + join_rows(rows.drop_first(), sep)
    }
}

/// Rows put back together.
pub open spec fn flatten_rows(rows: Seq<Seq<char>>) -> Seq<char>
    decreases rows.len(),
{
    if rows.len() == 0 {
        seq![]
    } else {
        rows[0] + flatten_rows(rows.drop_first())
    }
}

/// A row that starts after `start` columns stays within `max_width`, or
/// it starts a fresh row and everything before its last character is of
/// zero width: only one character ever passes the width.
pub open spec fn row_fits(row: Seq<char>, start: nat, max_width: nat) -> bool {
    ||| row.len() == 0
    ||| start + total_columns(row) <= max_width
    ||| start == 0 && total_columns(row.drop_last()) == 0
}

/// The columns a row takes when it starts after `col` columns.
pub open spec fn row_columns(rows: Seq<Seq<char>>, i: int, col: nat) -> nat {
    if i == 0 {
        col + total_columns(rows[0])
    } else {
        total_columns(rows[i])
    }
}

proof fn lemma_total_columns_add(a: Seq<char>, b: Seq<char>)
    ensures
        total_columns(a + b) == total_columns(a) + total_columns(b),
    decreases a.len(),
{
    if a.len() == 0 {
        assert(a + b == b);
    } else {
        assert((a + b).drop_first() == a.drop_first() + b);
        lemma_total_columns_add(a.drop_first(), b);
    }
}

proof fn lemma_emit_chars_append(a: Seq<char>, b: Seq<char>, col: nat, max_width: nat, wrap: Seq<char>)
    ensures
        ({
            let (oa, ca) = emit_chars(a, col, max_width, wrap);
            let (ob, cb) = emit_chars(b, ca, max_width, wrap);
            emit_chars(a + b, col, max_width, wrap) == (oa + ob, cb)
        }),
    decreases a.len(),
{
    if a.len() == 0 {
        assert(a + b == b);
    } else {
        let w = char_columns(a[0]);
        let c1: nat = if wraps_at(col, w, max_width) {
            0
        } else {
            col
        };
        assert((a + b).drop_first() == a.drop_first() + b);
        assert((a + b)[0] == a[0]);
        lemma_emit_chars_append(a.drop_first(), b, c1 + w, max_width, wrap);
    }
}

proof fn lemma_plain_spans(
    spans: Seq<(Seq<char>, SpanStyle)>,
    col: nat,
    max_width: nat,
    gutter: Seq<char>,
)
    ensures
        emit_spans(spans, false, col, max_width, gutter) == emit_chars(
            spans_text(spans),
            col,
            max_width,
            seq!['\n'] + gutter,
        ),
    decreases spans.len(),
{
    if spans.len() > 0 {
        let (first, c1) = emit_span(spans[0], false, col, max_width, gutter);
        lemma_plain_spans(spans.drop_first(), c1, max_width, gutter);
        lemma_emit_chars_append(
            spans[0].0,
            spans_text(spans.drop_first()),
            col,
            max_width,
            seq!['\n'] + gutter,
        );
    }
}

proof fn lemma_join_prepend(c: char, rows: Seq<Seq<char>>, sep: Seq<char>)
    requires
        rows.len() > 0,
    ensures
        join_rows(rows.update(0, seq![c] + rows[0]), sep) == seq![c] + join_rows(rows, sep),
{
    let r2 = rows.update(0, seq![c] + rows[0]);
    if rows.len() > 1 {
        assert(r2.drop_first() == rows.drop_first());
    }
}

proof fn lemma_flatten_prepend(c: char, rows: Seq<Seq<char>>)
    requires
        rows.len() > 0,
    ensures
        flatten_rows(rows.update(0, seq![c] + rows[0])) == seq![c] + flatten_rows(rows),
{
    let r2 = rows.update(0, seq![c] + rows[0]);
    assert(r2.drop_first() == rows.drop_first());
}

proof fn lemma_single_columns(c: char)
    ensures
        total_columns(seq![c]) == char_columns(c),
{
    reveal_with_fuel(total_columns, 2);
    assert(seq![c].drop_first() == Seq::<char>::empty());
}

proof fn lemma_prepend_fits(c: char, row: Seq<char>, start: nat, max_width: nat)
    requires
        row_fits(row, start + char_columns(c), max_width),
        start == 0 || start + char_columns(c) <= max_width,
    ensures
        row_fits(seq![c] + row, start, max_width),
{
    let w = char_columns(c);
    lemma_single_columns(c);
    lemma_total_columns_add(seq![c], row);
    if row.len() == 0 {
        assert(seq![c] + row == seq![c]);
        assert(seq![c].drop_last() == Seq::<char>::empty());
    } else if start + w + total_columns(row) <= max_width {
    } else {
        assert((seq![c] + row).drop_last() == seq![c] + row.drop_last());
        lemma_total_columns_add(seq![c], row.drop_last());
    }
}

proof fn lemma_rows_from(cs: Seq<char>, col: nat, max_width: nat, wrap: Seq<char>)
    ensures
        ({
            let rows = rows_from(cs, col, max_width);
            &&& rows.len() >= 1
            &&& emit_chars(cs, col, max_width, wrap).0 == join_rows(rows, wrap)
            &&& flatten_rows(rows) == cs
            &&& forall|i: int| 1 <= i < rows.len() ==> (#[trigger] rows[i]).len() >= 1
            &&& forall|i: int| 1 <= i < rows.len() ==> row_fits(#[trigger] rows[i], 0, max_width)
            &&& row_fits(rows[0], col, max_width)
            &&& forall|i: int|
                0 <= i < rows.len() - 1 ==> row_columns(rows, i, col) + char_columns(
                    (#[trigger] rows[i + 1])[0],
                ) > max_width
        }),
    decreases cs.len(),
{
    let rows = rows_from(cs, col, max_width);
    if cs.len() == 0 {
        assert(flatten_rows(Seq::<Seq<char>>::empty()) == Seq::<char>::empty());
        assert(rows.drop_first() == Seq::<Seq<char>>::empty());
        assert(rows[0] + Seq::<char>::empty() == Seq::<char>::empty());
    } else {
        let c = cs[0];
        let w = char_columns(c);
        let tail = cs.drop_first();
        assert(seq![c] + tail == cs);
        lemma_single_columns(c);
        if wraps_at(col, w, max_width) {
            lemma_rows_from(tail, w, max_width, wrap);
            let rest = rows_from(tail, w, max_width);
            let r2 = rest.update(0, seq![c] + rest[0]);
            lemma_join_prepend(c, rest, wrap);
            lemma_flatten_prepend(c, rest);
            lemma_prepend_fits(c, rest[0], 0, max_width);
            lemma_total_columns_add(seq![c], rest[0]);
            assert(rows == seq![Seq::<char>::empty()] + r2);
            assert(rows.drop_first() == r2);
            assert(rows[0] == Seq::<char>::empty());
            assert(flatten_rows(rows) == Seq::<char>::empty() + flatten_rows(r2));
            assert(Seq::<char>::empty() + flatten_rows(r2) == flatten_rows(r2));
            assert forall|i: int| 1 <= i < rows.len() implies (#[trigger] rows[i]).len() >= 1 by {
                assert(rows[i] == r2[i - 1]);
            }
            assert forall|i: int| 1 <= i < rows.len() implies row_fits(
                #[trigger] rows[i],
                0,
                max_width,
            ) by {
                assert(rows[i] == r2[i - 1]);
                if i > 1 {
                    assert(r2[i - 1] == rest[i - 1]);
                }
            }
            assert forall|i: int| 0 <= i < rows.len() - 1 implies row_columns(rows, i, col)
                + char_columns((#[trigger] rows[i + 1])[0]) > max_width by {
                assert(rows[i + 1] == r2[i]);
                if i == 0 {
                    assert(r2[0][0] == c);
                } else if i == 1 {
                    assert(r2[1] == rest[1]);
                    assert(row_columns(rows, 1, col) == total_columns(r2[0]));
                    assert(row_columns(rest, 0, w) == w + total_columns(rest[0]));
                } else {
                    assert(r2[i - 1] == rest[i - 1]);
                    assert(r2[i] == rest[i]);
                }
            }
            assert(join_rows(rows, wrap) == rows[0] + wrap + join_rows(r2, wrap));
            assert(rows[0] + wrap == wrap);
        } else {
            lemma_rows_from(tail, col + w, max_width, wrap);
            let rest = rows_from(tail, col + w, max_width);
            let r2 = rest.update(0, seq![c] + rest[0]);
            lemma_join_prepend(c, rest, wrap);
            lemma_flatten_prepend(c, rest);
            lemma_prepend_fits(c, rest[0], col, max_width);
            lemma_total_columns_add(seq![c], rest[0]);
            assert(rows == r2);
            assert forall|i: int| 1 <= i < rows.len() implies (#[trigger] rows[i]).len() >= 1 by {
                assert(rows[i] == rest[i]);
            }
            assert forall|i: int| 1 <= i < rows.len() implies row_fits(
                #[trigger] rows[i],
                0,
                max_width,
            ) by {
                assert(rows[i] == rest[i]);
            }
            assert forall|i: int| 0 <= i < rows.len() - 1 implies row_columns(rows, i, col)
                + char_columns((#[trigger] rows[i + 1])[0]) > max_width by {
                assert(rows[i + 1] == rest[i + 1]);
                if i > 0 {
                    assert(rows[i] == rest[i]);
                }
            }
        }
    }
}

/// A plain line is written as rows: the gutter, a row and a newline for
/// each row in turn. Put together, the rows are the line's text; every row
/// but the first is non-empty; each row fits in `max_width`, except that a
/// row may end with one character that passes it when everything before
/// that character has zero width; and each row is as long as it can be,
/// since adding the next row's first character would pass `max_width`.
pub proof fn lemma_plain_line_rows(
    spans: Seq<(Seq<char>, SpanStyle)>,
    max_width: nat,
    gutter: Seq<char>,
)
    ensures
        ({
            let rows = rows_from(spans_text(spans), 0, max_width);
            &&& rows.len() >= 1
            &&& rendered_line(spans, false, max_width, gutter) == gutter + join_rows(
                rows,
                seq!['\n'] + gutter,
            ) + seq!['\n']
            &&& flatten_rows(rows) == spans_text(spans)
            &&& forall|i: int| 1 <= i < rows.len() ==> (#[trigger] rows[i]).len() >= 1
            &&& forall|i: int| 0 <= i < rows.len() ==> row_fits(#[trigger] rows[i], 0, max_width)
            &&& forall|i: int|
                0 <= i < rows.len() - 1 ==> total_columns(#[trigger] rows[i]) + char_columns(
                    rows[i + 1][0],
                ) > max_width
        }),
{
    let text = spans_text(spans);
    lemma_plain_spans(spans, 0, max_width, gutter);
    lemma_rows_from(text, 0, max_width, seq!['\n'] + gutter);
    let rows = rows_from(text, 0, max_width);
    assert forall|i: int| 0 <= i < rows.len() - 1 implies total_columns(#[trigger] rows[i])
        + char_columns(rows[i + 1][0]) > max_width by {
        assert(row_columns(rows, i, 0) == total_columns(rows[i]));
        assert(row_columns(rows, i, 0) + char_columns((rows[i + 1])[0]) > max_width);
    }
}

} // verus!
verus! {

/// How a span is written. In ANSI mode a span with a visible foreground,
/// a visible background or any modifier is wrapped in its style: the style
/// sequence, its text (a row break switches the style off and on again
/// around the newline and gutter), and a reset. A span with none of these,
/// and every span in plain mode, is its text alone, with plain row breaks.
pub proof fn lemma_span_styling(
    span: (Seq<char>, SpanStyle),
    col: nat,
    max_width: nat,
    gutter: Seq<char>,
)
    ensures
        ({
            let st = span.1;
            let has_look = visible(st.fg) is Some || visible(st.bg) is Some || st.modifiers != 0;
            let plain_wrap = seq!['\n'] + gutter;
            let styled_wrap = "\x1b[0m"@ + seq!['\n'] + gutter + style_sequence(st);
            &&& has_look ==> emit_span(span, true, col, max_width, gutter) == (
                style_sequence(st) + emit_chars(span.0, col, max_width, styled_wrap).0 + "\x1b[0m"@,
                emit_chars(span.0, col, max_width, styled_wrap).1,
            )
            &&& !has_look ==> emit_span(span, true, col, max_width, gutter) == emit_chars(
                span.0,
                col,
                max_width,
                plain_wrap,
            )
            &&& emit_span(span, false, col, max_width, gutter) == emit_chars(
                span.0,
                col,
                max_width,
                plain_wrap,
            )
        }),
{
}

} // verus!
