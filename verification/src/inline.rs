//! The `--inline` output mode: parsing its `[fmt][:width[:gutter]]` spec
//! and choosing the format and width it renders with.

use vstd::prelude::*;
use vstd::string::{StrSliceExecFns, StringExecFns};
use crate::text::{
    all_digits, chars_of, decimal, is_digit, parse_usize_range, parsed_usize, push_decimal,
    is_white_space, lemma_skip_ws_back_bounds, lemma_skip_ws_bounds, lemma_trim_bounds, trim_bounds,
    trim_hi, trim_lo, trimmed,
};

verus! {

/// Narrowest width the renderer wraps at.
pub const MIN_WIDTH: usize = 20;

/// Width used when neither the spec nor the terminal gives one.
pub const DEFAULT_WIDTH: usize = 80;

/// The output format an inline spec asks for.
#[derive(Debug, Clone, Copy, PartialEq, Eq, Structural)]
pub enum InlineFormat {
    Auto,
    Ansi,
    Plain,
}

/// The format actually rendered once `Auto` is resolved.
#[derive(Debug, Clone, Copy, PartialEq, Eq, Structural)]
pub enum ResolvedFormat {
    Ansi,
    Plain,
}

/// A parsed `--inline` spec.
#[derive(Debug, Clone, Copy, PartialEq, Eq, Structural)]
pub struct InlineSpec {
    pub format: InlineFormat,
    pub width: Option<usize>,
    pub gutter: usize,
}

/// Why an inline spec was refused.
#[derive(Debug, PartialEq, Eq)]
pub enum SpecError {
    /// The spec was empty.
    Empty,
    /// The spec had no format or width in front, or too many segments.
    InvalidSpec(String),
    /// The first segment was neither a keyword nor a width.
    UnknownFormat(String),
    /// The width segment was not a number.
    InvalidWidth(String),
    /// The gutter segment was not a number.
    InvalidGutter(String),
    /// The width was zero.
    ZeroWidth,
    /// The gutter left no room for text.
    GutterTooWide { gutter: usize, width: usize },
}

/// A refusal, as the specification sees it.
pub enum SpecErrorView {
    Empty,
    InvalidSpec(Seq<char>),
    UnknownFormat(Seq<char>),
    InvalidWidth(Seq<char>),
    InvalidGutter(Seq<char>),
    ZeroWidth,
    GutterTooWide(nat, nat),
}

impl View for SpecError {
    type V = SpecErrorView;

    open spec fn view(&self) -> SpecErrorView {
        match self {
            SpecError::Empty => SpecErrorView::Empty,
            SpecError::InvalidSpec(s) => SpecErrorView::InvalidSpec(s@),
            SpecError::UnknownFormat(s) => SpecErrorView::UnknownFormat(s@),
            SpecError::InvalidWidth(s) => SpecErrorView::InvalidWidth(s@),
            SpecError::InvalidGutter(s) => SpecErrorView::InvalidGutter(s@),
            SpecError::ZeroWidth => SpecErrorView::ZeroWidth,
            SpecError::GutterTooWide { gutter, width } => SpecErrorView::GutterTooWide(
                *gutter as nat,
                *width as nat,
            ),
        }
    }
}

// ---------------------------------------------------------------------
// Specification
// ---------------------------------------------------------------------

/// `c` equals the lower-case ASCII letter or symbol `k` once `c` is
/// lower-cased (`to_ascii_lowercase`).
pub open spec fn lower_matches(c: char, k: char) -> bool {
    c as u32 == k as u32 || (97 <= k as u32 <= 122 && c as u32 + 32 == k as u32)
}

/// `s` equals the lower-case keyword `kw` ignoring ASCII case.
pub open spec fn keyword_matches(s: Seq<char>, kw: Seq<char>) -> bool {
    s.len() == kw.len() && forall|k: int| 0 <= k < s.len() ==> lower_matches(#[trigger] s[k], kw[k])
}

pub open spec fn is_ansi_keyword(s: Seq<char>) -> bool {
    keyword_matches(s, seq!['a', 'n', 's', 'i'])
}

pub open spec fn is_plain_keyword(s: Seq<char>) -> bool {
    keyword_matches(s, seq!['p', 'l', 'a', 'i', 'n'])
}

/// Index of the first `:` at or after `i`, or the length of `s`.
pub open spec fn next_colon(s: Seq<char>, i: int) -> int
    decreases s.len() - i,
{
    if 0 <= i < s.len() && s[i] != ':' {
        next_colon(s, i + 1)
    } else {
        i
    }
}

pub proof fn lemma_next_colon_bounds(s: Seq<char>, i: int)
    requires
        0 <= i <= s.len(),
    ensures
        i <= next_colon(s, i) <= s.len(),
        forall|k: int| i <= k < next_colon(s, i) ==> s[k] != ':',
        next_colon(s, i) < s.len() ==> s[next_colon(s, i)] == ':',
    decreases s.len() - i,
{
    if i < s.len() && s[i] != ':' {
        lemma_next_colon_bounds(s, i + 1);
    }
}

/// The bounds of the `:`-separated segments of `s` from `start` on
/// (`str::split(':')`).
pub open spec fn colon_segments(s: Seq<char>, start: int) -> Seq<(int, int)>
    decreases s.len() - start,
{
    if start < 0 || start > s.len() {
        seq![]
    } else {
        let j = next_colon(s, start);
        proof {
            lemma_next_colon_bounds(s, start);
        }
        if j >= s.len() {
            seq![(start, s.len() as int)]
        } else {
            seq![(start, j)] + colon_segments(s, j + 1)
        }
    }
}

/// The `i`-th `:`-separated segment of `s`, if there is one.
pub open spec fn segment(s: Seq<char>, i: int) -> Option<Seq<char>> {
    let segs = colon_segments(s, 0);
    if 0 <= i < segs.len() {
        Some(s.subrange(segs[i].0, segs[i].1))
    } else {
        None
    }
}

/// A width or gutter segment must be a non-empty run of digits.
pub open spec fn is_number_segment(s: Seq<char>) -> bool {
    s.len() > 0 && all_digits(s)
}

/// The lexical reading of a spec: its format and its unparsed width and
/// gutter segments.
pub open spec fn lexed(value: Seq<char>) -> Result<
    (InlineFormat, Option<Seq<char>>, Option<Seq<char>>),
    SpecErrorView,
> {
    let n = colon_segments(value, 0).len();
    let head = segment(value, 0).unwrap();
    if value.len() == 0 {
        Err(SpecErrorView::Empty)
    } else if head.len() == 0 {
        Err(SpecErrorView::InvalidSpec(value))
    } else if !is_ansi_keyword(head) && !is_plain_keyword(head) && !all_digits(head) {
        Err(SpecErrorView::UnknownFormat(head))
    } else {
        let keyword = is_ansi_keyword(head) || is_plain_keyword(head);
        let format = if is_ansi_keyword(head) {
            InlineFormat::Ansi
        } else if is_plain_keyword(head) {
            InlineFormat::Plain
        } else {
            InlineFormat::Auto
        };
        let width = if keyword {
            segment(value, 1)
        } else {
            Some(head)
        };
        let gutter_index = if keyword {
            2int
        } else {
            1int
        };
        let gutter = segment(value, gutter_index);
        if width is Some && !is_number_segment(width.unwrap()) {
            Err(SpecErrorView::InvalidWidth(width.unwrap()))
        } else if gutter is Some && !is_number_segment(gutter.unwrap()) {
            Err(SpecErrorView::InvalidGutter(gutter.unwrap()))
        } else if n > gutter_index + 1 {
            Err(SpecErrorView::InvalidSpec(value))
        } else {
            Ok((format, width, gutter))
        }
    }
}

} // verus!
verus! {

/// What `str::parse::<usize>` makes of a width segment, as `--inline`
/// reads it: a zero width is refused, and a narrow one is raised to
/// `MIN_WIDTH`.
pub open spec fn width_result(s: Seq<char>) -> Result<nat, SpecErrorView> {
    match parsed_usize(s) {
        None => Err(SpecErrorView::InvalidWidth(s)),
        Some(w) => if w == 0 {
            Err(SpecErrorView::ZeroWidth)
        } else if w < MIN_WIDTH {
            Ok(MIN_WIDTH as nat)
        } else {
            Ok(w)
        },
    }
}

/// What `str::parse::<usize>` makes of a gutter segment.
pub open spec fn gutter_result(s: Seq<char>) -> Result<nat, SpecErrorView> {
    match parsed_usize(s) {
        None => Err(SpecErrorView::InvalidGutter(s)),
        Some(g) => Ok(g),
    }
}

/// The reading of a whole `--inline` spec: format, optional width and
/// gutter, or the first refusal met.
pub open spec fn parsed_spec(value: Seq<char>) -> Result<(InlineFormat, Option<nat>, nat), SpecErrorView> {
    match lexed(trimmed(value)) {
        Err(e) => Err(e),
        Ok((format, w, g)) => {
            let width: Result<Option<nat>, SpecErrorView> = match w {
                None => Ok(None),
                Some(ws) => match width_result(ws) {
                    Ok(x) => Ok(Some(x)),
                    Err(e) => Err(e),
                },
            };
            let gutter: Result<nat, SpecErrorView> = match g {
                None => Ok(0nat),
                Some(gs) => gutter_result(gs),
            };
            match width {
                Err(e) => Err(e),
                Ok(width) => match gutter {
                    Err(e) => Err(e),
                    Ok(gutter) => match width {
                        Some(x) => if gutter >= x {
                            Err(SpecErrorView::GutterTooWide(gutter, x))
                        } else {
                            Ok((format, width, gutter))
                        },
                        None => Ok((format, width, gutter)),
                    },
                },
            }
        },
    }
}

/// Whether a bare argument reads as an attempted `--inline` spec: it does
/// not start with `-`, and its first `:`-segment (after trimming) is
/// `ansi`, `plain` (in any case) or a run of digits.
pub open spec fn looks_like_spec(value: Seq<char>) -> bool {
    let head = segment(trimmed(value), 0).unwrap();
    &&& !(value.len() > 0 && value[0] == '-')
    &&& head.len() > 0
    &&& (is_ansi_keyword(head) || is_plain_keyword(head) || all_digits(head))
}

pub open spec fn str_opt_view(s: Option<&str>) -> Option<Seq<char>> {
    match s {
        Some(x) => Some(x@),
        None => None,
    }
}

pub open spec fn usize_opt_view(s: Option<usize>) -> Option<nat> {
    match s {
        Some(x) => Some(x as nat),
        None => None,
    }
}

pub open spec fn segments_view(v: Seq<(usize, usize)>) -> Seq<(int, int)> {
    v.map_values(|x: (usize, usize)| (x.0 as int, x.1 as int))
}

// ---------------------------------------------------------------------
// Lexing
// ---------------------------------------------------------------------

pub open spec fn segment_in_bounds(r: (usize, usize), n: usize) -> bool {
    r.0 <= r.1 <= n
}

/// The bounds of the `:`-separated segments of `v`.
fn colon_segments_of(v: &Vec<char>) -> (r: Vec<(usize, usize)>)
    ensures
        segments_view(r@) == colon_segments(v@, 0),
        r.len() >= 1,
        forall|k: int| 0 <= k < r.len() ==> segment_in_bounds(#[trigger] r@[k], v.len()),
{
    let mut r: Vec<(usize, usize)> = Vec::new();
    let mut start: usize = 0;
    let mut i: usize = 0;
    while i < v.len()
        invariant
            start <= i <= v.len(),
            segments_view(r@) + colon_segments(v@, start as int) == colon_segments(v@, 0),
            next_colon(v@, start as int) == next_colon(v@, i as int),
            forall|k: int| 0 <= k < r.len() ==> segment_in_bounds(#[trigger] r@[k], v.len()),
        decreases v.len() - i,
    {
        if v[i] == ':' {
            let ghost before = r@;
            proof {
                lemma_next_colon_bounds(v@, start as int);
            }
            r.push((start, i));
            assert(segments_view(r@) == segments_view(before) + seq![(start as int, i as int)]);
            start = i + 1;
        }
        i = i + 1;
    }
    proof {
        lemma_next_colon_bounds(v@, start as int);
    }
    let ghost before = r@;
    r.push((start, v.len()));
    assert(segments_view(r@) == segments_view(before) + seq![(start as int, v.len() as int)]);
    assert(colon_segments(v@, start as int) == seq![(start as int, v.len() as int)]);
    assert forall|k: int| 0 <= k < r.len() implies segment_in_bounds(#[trigger] r@[k], v.len()) by {
        if k < r.len() - 1 {
            assert(r@[k] == before[k]);
        } else {
            assert(r@[k] == (start, v.len()));
        }
    }
    r
}

/// Whether `v[a..e]` is the lower-case keyword `kw` ignoring ASCII case.
fn keyword_in_range(v: &Vec<char>, a: usize, e: usize, kw: &Vec<char>) -> (r: bool)
    requires
        a <= e <= v.len(),
    ensures
        r == keyword_matches(v@.subrange(a as int, e as int), kw@),
{
    let ghost s = v@.subrange(a as int, e as int);
    if e - a != kw.len() {
        return false;
    }
    let mut k: usize = 0;
    while k < kw.len()
        invariant
            a <= e <= v.len(),
            e - a == kw.len(),
            s == v@.subrange(a as int, e as int),
            k <= kw.len(),
            forall|j: int| 0 <= j < k ==> lower_matches(#[trigger] s[j], kw@[j]),
        decreases kw.len() - k,
    {
        let c = v[a + k];
        let w = kw[k];
        assert(s[k as int] == c);
        let ku = w as u32;
        if !(c as u32 == ku || (97 <= ku && ku <= 122 && c as u32 == ku - 32)) {
            return false;
        }
        k = k + 1;
    }
    true
}

/// Whether `v[a..e]` is made only of ASCII digits.
fn digits_in_range(v: &Vec<char>, a: usize, e: usize) -> (r: bool)
    requires
        a <= e <= v.len(),
    ensures
        r == all_digits(v@.subrange(a as int, e as int)),
{
    let ghost s = v@.subrange(a as int, e as int);
    let mut k = a;
    while k < e
        invariant
            a <= k <= e <= v.len(),
            s == v@.subrange(a as int, e as int),
            forall|j: int| 0 <= j < k - a ==> is_digit(#[trigger] s[j]),
        decreases e - k,
    {
        let c = v[k];
        assert(s[k - a] == c);
        if !('0' <= c && c <= '9') {
            return false;
        }
        k = k + 1;
    }
    true
}

/// Whether `v[a..e]` is a non-empty run of ASCII digits.
fn number_in_range(v: &Vec<char>, a: usize, e: usize) -> (r: bool)
    requires
        a <= e <= v.len(),
    ensures
        r == is_number_segment(v@.subrange(a as int, e as int)),
{
    a < e && digits_in_range(v, a, e)
}

/// Lexical pass over an inline spec: the format keyword and the unparsed
/// width and gutter segments, with no numeric or semantic check.
pub fn lex_inline_spec(value: &str) -> (res: Result<
    (InlineFormat, Option<&str>, Option<&str>),
    SpecError,
>)
    ensures
        match res {
            Ok((format, w, g)) => lexed(value@) == Ok::<
                (InlineFormat, Option<Seq<char>>, Option<Seq<char>>),
                SpecErrorView,
            >((format, str_opt_view(w), str_opt_view(g))),
            Err(e) => lexed(value@) == Err::<
                (InlineFormat, Option<Seq<char>>, Option<Seq<char>>),
                SpecErrorView,
            >(e@),
        },
{
    let v = chars_of(value);
    if v.len() == 0 {
        return Err(SpecError::Empty);
    }
    let segs = colon_segments_of(&v);
    let ghost sv = segments_view(segs@);
    assert(sv[0] == (segs@[0].0 as int, segs@[0].1 as int));
    let (h0, h1) = segs[0];
    if h0 == h1 {
        return Err(SpecError::InvalidSpec(value.to_owned()));
    }
    let ansi = keyword_in_range(&v, h0, h1, &vec!['a', 'n', 's', 'i']);
    let plain = keyword_in_range(&v, h0, h1, &vec!['p', 'l', 'a', 'i', 'n']);
    let digits = digits_in_range(&v, h0, h1);
    if !ansi && !plain && !digits {
        return Err(SpecError::UnknownFormat(value.substring_char(h0, h1).to_owned()));
    }
    let keyword = ansi || plain;
    let format = if ansi {
        InlineFormat::Ansi
    } else if plain {
        InlineFormat::Plain
    } else {
        InlineFormat::Auto
    };
    let width: Option<(usize, usize)> = if keyword {
        if segs.len() > 1 {
            assert(sv[1] == (segs@[1].0 as int, segs@[1].1 as int));
            Some(segs[1])
        } else {
            None
        }
    } else {
        Some((h0, h1))
    };
    let gutter_index: usize = if keyword {
        2
    } else {
        1
    };
    let gutter: Option<(usize, usize)> = if gutter_index < segs.len() {
        assert(sv[gutter_index as int] == (
            segs@[gutter_index as int].0 as int,
            segs@[gutter_index as int].1 as int,
        ));
        Some(segs[gutter_index])
    } else {
        None
    };
    if let Some((w0, w1)) = width {
        if !number_in_range(&v, w0, w1) {
            return Err(SpecError::InvalidWidth(value.substring_char(w0, w1).to_owned()));
        }
    }
    if let Some((g0, g1)) = gutter {
        if !number_in_range(&v, g0, g1) {
            return Err(SpecError::InvalidGutter(value.substring_char(g0, g1).to_owned()));
        }
    }
    if segs.len() > gutter_index + 1 {
        return Err(SpecError::InvalidSpec(value.to_owned()));
    }
    let width_seg = match width {
        Some((w0, w1)) => Some(value.substring_char(w0, w1)),
        None => None,
    };
    let gutter_seg = match gutter {
        Some((g0, g1)) => Some(value.substring_char(g0, g1)),
        None => None,
    };
    Ok((format, width_seg, gutter_seg))
}

} // verus!
verus! {

// ---------------------------------------------------------------------
// Parsing
// ---------------------------------------------------------------------

/// Parse a width segment: a positive number, raised to `MIN_WIDTH` when
/// smaller.
pub fn parse_width(s: &str) -> (res: Result<usize, SpecError>)
    ensures
        match res {
            Ok(w) => width_result(s@) == Ok::<nat, SpecErrorView>(w as nat),
            Err(e) => width_result(s@) == Err::<nat, SpecErrorView>(e@),
        },
{
    let v = chars_of(s);
    assert(v@.subrange(0, v.len() as int) == s@);
    match parse_usize_range(&v, 0, v.len()) {
        None => Err(SpecError::InvalidWidth(s.to_owned())),
        Some(w) => if w == 0 {
            Err(SpecError::ZeroWidth)
        } else if w < MIN_WIDTH {
            Ok(MIN_WIDTH)
        } else {
            Ok(w)
        },
    }
}

/// Parse a gutter segment: any number.
pub fn parse_gutter(s: &str) -> (res: Result<usize, SpecError>)
    ensures
        match res {
            Ok(g) => gutter_result(s@) == Ok::<nat, SpecErrorView>(g as nat),
            Err(e) => gutter_result(s@) == Err::<nat, SpecErrorView>(e@),
        },
{
    let v = chars_of(s);
    assert(v@.subrange(0, v.len() as int) == s@);
    match parse_usize_range(&v, 0, v.len()) {
        None => Err(SpecError::InvalidGutter(s.to_owned())),
        Some(g) => Ok(g),
    }
}

/// `value` with leading and trailing whitespace removed.
fn trim_str(value: &str) -> (t: &str)
    ensures
        t@ == trimmed(value@),
{
    let v = chars_of(value);
    let (a, e) = trim_bounds(&v);
    value.substring_char(a, e)
}

/// Parse an `--inline` spec of the form `[fmt][:width[:gutter]]`, where
/// `fmt` is `ansi` or `plain` (in any case) and `width` and `gutter` are
/// numbers. A gutter that leaves no column for text is refused.
pub fn parse_inline_spec(value: &str) -> (res: Result<InlineSpec, SpecError>)
    ensures
        match res {
            Ok(spec) => parsed_spec(value@) == Ok::<
                (InlineFormat, Option<nat>, nat),
                SpecErrorView,
            >((spec.format, usize_opt_view(spec.width), spec.gutter as nat)),
            Err(e) => parsed_spec(value@) == Err::<(InlineFormat, Option<nat>, nat), SpecErrorView>(
                e@,
            ),
        },
        res matches Ok(spec) ==> (spec.width matches Some(w) ==> MIN_WIDTH <= w && spec.gutter < w),
{
    let t = trim_str(value);
    let (format, width_seg, gutter_seg) = match lex_inline_spec(t) {
        Ok(x) => x,
        Err(e) => {
            return Err(e);
        },
    };
    let width = match width_seg {
        None => None,
        Some(ws) => match parse_width(ws) {
            Ok(w) => Some(w),
            Err(e) => {
                return Err(e);
            },
        },
    };
    let gutter = match gutter_seg {
        None => 0,
        Some(gs) => match parse_gutter(gs) {
            Ok(g) => g,
            Err(e) => {
                return Err(e);
            },
        },
    };
    if let Some(w) = width {
        if gutter >= w {
            return Err(SpecError::GutterTooWide { gutter, width: w });
        }
    }
    Ok(InlineSpec { format, width, gutter })
}

/// Whether a bare argument should be taken as an `--inline` spec rather
/// than a file path. This recognises intent, not validity: anything that
/// starts with `ansi`, `plain` or a bare number counts, so a typo in a
/// spec is reported by `parse_inline_spec` rather than read as a file.
pub fn is_inline_spec(value: &str) -> (r: bool)
    ensures
        r == looks_like_spec(value@),
{
    let raw = chars_of(value);
    if raw.len() > 0 && raw[0] == '-' {
        return false;
    }
    let t = trim_str(value);
    let v = chars_of(t);
    let segs = colon_segments_of(&v);
    let ghost sv = segments_view(segs@);
    assert(sv[0] == (segs@[0].0 as int, segs@[0].1 as int));
    let (h0, h1) = segs[0];
    if h0 == h1 {
        return false;
    }
    keyword_in_range(&v, h0, h1, &vec!['a', 'n', 's', 'i']) || keyword_in_range(
        &v,
        h0,
        h1,
        &vec!['p', 'l', 'a', 'i', 'n'],
    ) || digits_in_range(&v, h0, h1)
}

/// The rendering width: the spec's width (at least `MIN_WIDTH`); else, on
/// a terminal, the terminal's column count (at least `MIN_WIDTH`) when it
/// could be read; else `DEFAULT_WIDTH`.
pub open spec fn chosen_width(spec: InlineSpec, is_stdout_terminal: bool, terminal_columns: Option<u16>) -> nat {
    match spec.width {
        Some(w) => if w < MIN_WIDTH {
            MIN_WIDTH as nat
        } else {
            w as nat
        },
        None => if is_stdout_terminal {
            match terminal_columns {
                Some(c) => if (c as nat) < MIN_WIDTH {
                    MIN_WIDTH as nat
                } else {
                    c as nat
                },
                None => DEFAULT_WIDTH as nat,
            }
        } else {
            DEFAULT_WIDTH as nat
        },
    }
}

/// The width to render at. `terminal_columns` is the terminal's column
/// count when it could be read; it is looked at only when the spec gives
/// no width and standard output is a terminal.
pub fn render_width(spec: &InlineSpec, is_stdout_terminal: bool, terminal_columns: Option<u16>) -> (w: usize)
    ensures
        w == chosen_width(*spec, is_stdout_terminal, terminal_columns),
        w >= MIN_WIDTH,
        spec.width matches Some(x) ==> w == if x < MIN_WIDTH {
            MIN_WIDTH
        } else {
            x
        },
        spec.width is None && !is_stdout_terminal ==> w == DEFAULT_WIDTH,
{
    if let Some(w) = spec.width {
        return if w < MIN_WIDTH {
            MIN_WIDTH
        } else {
            w
        };
    }
    if is_stdout_terminal {
        match terminal_columns {
            Some(cols) => {
                let c = cols as usize;
                if c < MIN_WIDTH {
                    MIN_WIDTH
                } else {
                    c
                }
            },
            None => DEFAULT_WIDTH,
        }
    } else {
        DEFAULT_WIDTH
    }
}

/// The format to render with: `Auto` means ANSI on a terminal and plain
/// text elsewhere.
pub fn resolve_format(spec: &InlineSpec, is_stdout_terminal: bool) -> (f: ResolvedFormat)
    ensures
        f == (match spec.format {
            InlineFormat::Ansi => ResolvedFormat::Ansi,
            InlineFormat::Plain => ResolvedFormat::Plain,
            InlineFormat::Auto => if is_stdout_terminal {
                ResolvedFormat::Ansi
            } else {
                ResolvedFormat::Plain
            },
        }),
{
    match spec.format {
        InlineFormat::Ansi => ResolvedFormat::Ansi,
        InlineFormat::Plain => ResolvedFormat::Plain,
        InlineFormat::Auto => if is_stdout_terminal {
            ResolvedFormat::Ansi
        } else {
            ResolvedFormat::Plain
        },
    }
}

} // verus!
verus! {

/// The message reported for a refused spec.
pub open spec fn error_message(e: SpecErrorView) -> Seq<char> {
    match e {
        SpecErrorView::Empty => "Empty inline spec"@,
        SpecErrorView::InvalidSpec(v) => "Invalid inline spec: "@ + v
            + " (expected [fmt][:width[:gutter]])"@,
        SpecErrorView::UnknownFormat(h) => "Unknown inline format: "@ + h
            + " (expected 'ansi' or 'plain')"@,
        SpecErrorView::InvalidWidth(w) => "Invalid width: "@ + w,
        SpecErrorView::InvalidGutter(g) => "Invalid gutter: "@ + g,
        SpecErrorView::ZeroWidth => "Width must be a positive integer"@,
        SpecErrorView::GutterTooWide(g, w) => "gutter ("@ + decimal(g) + ") must be smaller than width ("@
            + decimal(w) + ")"@,
    }
}

impl SpecError {
    /// The message for this refusal.
    pub fn message(&self) -> (m: String)
        ensures
            m@ == error_message(self@),
    {
        let mut m = String::new();
        match self {
            SpecError::Empty => m.append("Empty inline spec"),
            SpecError::InvalidSpec(v) => {
                m.append("Invalid inline spec: ");
                m.append(v.as_str());
                m.append(" (expected [fmt][:width[:gutter]])");
            },
            SpecError::UnknownFormat(h) => {
                m.append("Unknown inline format: ");
                m.append(h.as_str());
                m.append(" (expected 'ansi' or 'plain')");
            },
            SpecError::InvalidWidth(w) => {
                m.append("Invalid width: ");
                m.append(w.as_str());
            },
            SpecError::InvalidGutter(g) => {
                m.append("Invalid gutter: ");
                m.append(g.as_str());
            },
            SpecError::ZeroWidth => m.append("Width must be a positive integer"),
            SpecError::GutterTooWide { gutter, width } => {
                m.append("gutter (");
                push_decimal(&mut m, *gutter);
                m.append(") must be smaller than width (");
                push_decimal(&mut m, *width);
                m.append(")");
            },
        }
        m
    }
}

// ---------------------------------------------------------------------
// Laws
// ---------------------------------------------------------------------

/// Every spec that `parse_inline_spec` accepts is one that
/// `is_inline_spec` recognises, so no valid spec is mistaken for a path.
pub proof fn lemma_accepted_spec_is_recognised(value: Seq<char>)
    requires
        parsed_spec(value) is Ok,
    ensures
        looks_like_spec(value),
{
    let t = trimmed(value);
    lemma_trim_bounds(value);
    lemma_skip_ws_bounds(value, 0);
    lemma_skip_ws_back_bounds(value, trim_lo(value), value.len() as int);
    assert(lexed(t) is Ok);
    if value.len() > 0 && value[0] == '-' {
        assert(!is_white_space(value[0]));
        assert(trim_lo(value) == 0);
        assert(trim_hi(value) >= 1);
        assert(t[0] == '-');
        lemma_next_colon_bounds(t, 0);
        let head = segment(t, 0).unwrap();
        assert(head[0] == t[0]);
        assert(!is_digit(head[0]));
        assert(!lower_matches(head[0], 'a'));
        assert(!lower_matches(head[0], 'p'));
        assert(!is_ansi_keyword(head) && !is_plain_keyword(head)) by {
            assert(seq!['a', 'n', 's', 'i'][0] == 'a');
            assert(seq!['p', 'l', 'a', 'i', 'n'][0] == 'p');
        }
        assert(false);
    }
}

} // verus!
verus! {

/// The specs the lexer accepts: `ansi` or `plain` in any case, then
/// optionally `:width` and `:width:gutter`; or a width, then optionally
/// `:gutter`; every width and gutter a non-empty run of digits.
pub open spec fn lexer_accepts(v: Seq<char>) -> bool {
    let n = colon_segments(v, 0).len();
    let head = segment(v, 0).unwrap();
    ||| {
        &&& is_ansi_keyword(head) || is_plain_keyword(head)
        &&& n <= 3
        &&& n >= 2 ==> is_number_segment(segment(v, 1).unwrap())
        &&& n >= 3 ==> is_number_segment(segment(v, 2).unwrap())
    }
    ||| {
        &&& is_number_segment(head)
        &&& n <= 2
        &&& n >= 2 ==> is_number_segment(segment(v, 1).unwrap())
    }
}

proof fn lemma_keyword_not_number(head: Seq<char>)
    requires
        is_ansi_keyword(head) || is_plain_keyword(head),
    ensures
        !all_digits(head),
        head.len() > 0,
{
    assert(lower_matches(head[0], seq!['a', 'n', 's', 'i'][0]) || lower_matches(
        head[0],
        seq!['p', 'l', 'a', 'i', 'n'][0],
    ));
    assert(!is_digit(head[0]));
}

/// The lexer accepts exactly the specs of the form
/// `(ansi|plain)(:digits(:digits)?)?` (keyword in any case) or
/// `digits(:digits)?`. A keyword spec gives its second and third segments
/// as width and gutter; a numeric one is an `Auto` spec whose width is the
/// head and whose gutter is the second segment.
pub proof fn lemma_lexer_acceptance(v: Seq<char>)
    ensures
        lexed(v) is Ok <==> lexer_accepts(v),
        lexed(v) matches Ok((f, w, g)) ==> {
            let head = segment(v, 0).unwrap();
            &&& (f == InlineFormat::Auto) == all_digits(head)
            &&& f == InlineFormat::Auto ==> w == Some(head) && g == segment(v, 1)
            &&& f != InlineFormat::Auto ==> w == segment(v, 1) && g == segment(v, 2)
        },
{
    let head = segment(v, 0).unwrap();
    if is_ansi_keyword(head) || is_plain_keyword(head) {
        lemma_keyword_not_number(head);
    }
    if v.len() == 0 {
        lemma_next_colon_bounds(v, 0);
        assert(colon_segments(v, 0) == seq![(0int, 0int)]);
        assert(head.len() == 0);
    }
}

} // verus!
verus! {

/// The code of `c` after `to_ascii_lowercase`: `A`-`Z` map to `a`-`z`,
/// every other character is kept.
pub open spec fn ascii_lower_code(c: char) -> u32 {
    if 65 <= c as u32 && c as u32 <= 90 {
        (c as u32 + 32) as u32
    } else {
        c as u32
    }
}

/// `s`, lower-cased in ASCII, is exactly the word `w`.
pub open spec fn lowercases_to(s: Seq<char>, w: Seq<char>) -> bool {
    s.len() == w.len() && forall|k: int| 0 <= k < s.len() ==> ascii_lower_code(#[trigger] s[k]) == w[k] as u32
}

proof fn lemma_lowercase_keyword(s: Seq<char>, w: Seq<char>)
    requires
        lowercases_to(s, w),
        forall|k: int| 0 <= k < w.len() ==> 97 <= (#[trigger] w[k]) as u32 <= 122,
    ensures
        keyword_matches(s, w),
{
    assert forall|k: int| 0 <= k < s.len() implies lower_matches(#[trigger] s[k], w[k]) by {
        assert(ascii_lower_code(s[k]) == w[k] as u32);
        if !(65 <= s[k] as u32 <= 90) {
            assert(s[k] as u32 == w[k] as u32);
        }
    }
}

proof fn lemma_keyword_lowercase(s: Seq<char>, w: Seq<char>)
    requires
        keyword_matches(s, w),
        forall|k: int| 0 <= k < w.len() ==> 97 <= (#[trigger] w[k]) as u32 <= 122,
    ensures
        lowercases_to(s, w),
{
    assert forall|k: int| 0 <= k < s.len() implies ascii_lower_code(s[k]) == w[k] as u32 by {
        assert(lower_matches(s[k], w[k]));
    }
}

/// The format keyword is read ignoring ASCII case: a head that lower-cases
/// to `plain` always asks for plain output and one that lower-cases to
/// `ansi` for ANSI output; neither is ever refused as an unknown format,
/// and any lexing refusal concerns a later segment.
pub proof fn lemma_format_keyword_ignores_case(v: Seq<char>)
    ensures
        ({
            let head = segment(v, 0).unwrap();
            &&& lowercases_to(head, seq!['p', 'l', 'a', 'i', 'n']) ==> match lexed(v) {
                Ok((f, _, _)) => f == InlineFormat::Plain,
                Err(e) => e is InvalidWidth || e is InvalidGutter || e is InvalidSpec,
            }
            &&& lowercases_to(head, seq!['a', 'n', 's', 'i']) ==> match lexed(v) {
                Ok((f, _, _)) => f == InlineFormat::Ansi,
                Err(e) => e is InvalidWidth || e is InvalidGutter || e is InvalidSpec,
            }
            &&& (head.len() > 0 && all_digits(head)) ==> match lexed(v) {
                Ok((f, _, _)) => f == InlineFormat::Auto,
                Err(e) => e is InvalidGutter || e is InvalidSpec,
            }
        }),
{
    let head = segment(v, 0).unwrap();
    let plain = seq!['p', 'l', 'a', 'i', 'n'];
    let ansi = seq!['a', 'n', 's', 'i'];
    if lowercases_to(head, plain) {
        lemma_lowercase_keyword(head, plain);
        assert(!is_ansi_keyword(head));
        if v.len() == 0 {
            lemma_next_colon_bounds(v, 0);
            assert(colon_segments(v, 0) == seq![(0int, 0int)]);
        }
    }
    if lowercases_to(head, ansi) {
        lemma_lowercase_keyword(head, ansi);
        if v.len() == 0 {
            lemma_next_colon_bounds(v, 0);
            assert(colon_segments(v, 0) == seq![(0int, 0int)]);
        }
    }
    if head.len() > 0 && all_digits(head) {
        if is_ansi_keyword(head) || is_plain_keyword(head) {
            lemma_keyword_not_number(head);
        }
        if v.len() == 0 {
            lemma_next_colon_bounds(v, 0);
            assert(colon_segments(v, 0) == seq![(0int, 0int)]);
        }
    }
}

/// A bare argument is taken as a spec exactly when it does not start with
/// `-` and the first `:`-segment of the trimmed argument is `ansi` or
/// `plain` in any case, or a non-empty run of ASCII digits.
pub proof fn lemma_spec_recognition(v: Seq<char>)
    ensures
        ({
            let head = segment(trimmed(v), 0).unwrap();
            looks_like_spec(v) <==> {
                &&& !(v.len() > 0 && v[0] == '-')
                &&& head.len() > 0
                &&& (lowercases_to(head, seq!['a', 'n', 's', 'i']) || lowercases_to(
                    head,
                    seq!['p', 'l', 'a', 'i', 'n'],
                ) || all_digits(head))
            }
        }),
{
    let head = segment(trimmed(v), 0).unwrap();
    let plain = seq!['p', 'l', 'a', 'i', 'n'];
    let ansi = seq!['a', 'n', 's', 'i'];
    if is_ansi_keyword(head) {
        lemma_keyword_lowercase(head, ansi);
    }
    if is_plain_keyword(head) {
        lemma_keyword_lowercase(head, plain);
    }
    if lowercases_to(head, ansi) {
        lemma_lowercase_keyword(head, ansi);
    }
    if lowercases_to(head, plain) {
        lemma_lowercase_keyword(head, plain);
    }
}

/// A recognised spec is never refused for its first segment: parsing it
/// gives a spec, or fails only on the width, the gutter or a surplus
/// segment. So an argument such as a file name is never recognised only
/// to be refused as an unknown format.
pub proof fn lemma_recognised_spec_has_valid_head(v: Seq<char>)
    requires
        looks_like_spec(v),
    ensures
        match parsed_spec(v) {
            Ok(_) => true,
            Err(e) => e is InvalidWidth || e is InvalidGutter || e is InvalidSpec || e is ZeroWidth
                || e is GutterTooWide,
        },
{
    let t = trimmed(v);
    let head = segment(t, 0).unwrap();
    if t.len() == 0 {
        lemma_next_colon_bounds(t, 0);
        assert(colon_segments(t, 0) == seq![(0int, 0int)]);
    }
}

/// The width: a width given in the spec wins, raised to `MIN_WIDTH`,
/// whether or not standard output is a terminal and whatever the terminal
/// reports; without one, a terminal's column count (raised to `MIN_WIDTH`)
/// is used when it is known, and `DEFAULT_WIDTH` otherwise.
pub proof fn lemma_width_choice(spec: InlineSpec, is_stdout_terminal: bool, terminal_columns: Option<u16>)
    ensures
        chosen_width(spec, is_stdout_terminal, terminal_columns) >= MIN_WIDTH,
        spec.width matches Some(w) ==> chosen_width(spec, is_stdout_terminal, terminal_columns) == if w
            < MIN_WIDTH {
            MIN_WIDTH as nat
        } else {
            w as nat
        },
        spec.width is None && !is_stdout_terminal ==> chosen_width(
            spec,
            is_stdout_terminal,
            terminal_columns,
        ) == DEFAULT_WIDTH,
        spec.width is None && is_stdout_terminal ==> chosen_width(
            spec,
            is_stdout_terminal,
            terminal_columns,
        ) == match terminal_columns {
            Some(c) => if (c as nat) < MIN_WIDTH {
                MIN_WIDTH as nat
            } else {
                c as nat
            },
            None => DEFAULT_WIDTH as nat,
        },
{
}

} // verus!
