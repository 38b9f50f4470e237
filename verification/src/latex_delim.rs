//! Normalise LaTeX-style math delimiters into the dollar forms that the
//! Markdown math extension understands.
//!
//! * A line whose only non-whitespace content is `\[` or `\]` becomes `$$`.
//! * Paired `\(...\)` spans on one line become `$...$`, unless they sit in
//!   an inline-code span or the backslash is itself escaped.
//! * Fenced code blocks (three or more backticks or tildes) are copied
//!   through verbatim.
//!
//! The model works on the characters of the text; every delimiter is ASCII,
//! so this agrees with a byte-level scan.

use std::borrow::Cow;
use vstd::prelude::*;
use vstd::string::StrSliceExecFns;
use crate::text::{chars_of, push_char, trim_bounds, trim_lo, trimmed, lemma_trim_bounds};

verus! {

// ---------------------------------------------------------------------
// Specification
// ---------------------------------------------------------------------

/// The second character of a LaTeX delimiter: `[`, `]`, `(` or `)`.
pub open spec fn is_delim_char(c: char) -> bool {
    c == '[' || c == ']' || c == '(' || c == ')'
}

/// `s` contains one of `\[`, `\]`, `\(`, `\)`.
pub open spec fn contains_delimiter(s: Seq<char>) -> bool {
    exists|i: int| 0 <= i && i + 1 < s.len() && s[i] == '\\' && is_delim_char(#[trigger] s[i + 1])
}

/// End of the run of `c` that starts at `i`.
pub open spec fn run_end(s: Seq<char>, i: int, c: char) -> int
    decreases s.len() - i,
{
    if 0 <= i < s.len() && s[i] == c {
        run_end(s, i + 1, c)
    } else {
        i
    }
}

/// End (exclusive) of the line that starts at `i`: one past its `\n`, or
/// the end of the text.
pub open spec fn line_end(s: Seq<char>, i: int) -> int
    decreases s.len() - i,
{
    if 0 <= i < s.len() {
        if s[i] == '\n' {
            i + 1
        } else {
            line_end(s, i + 1)
        }
    } else {
        i
    }
}

/// Whether a line carries a trailing `\n`.
pub open spec fn has_eol(line: Seq<char>) -> bool {
    line.len() > 0 && line.last() == '\n'
}

/// A line without its trailing `\n` or `\r\n`.
pub open spec fn eol_body(line: Seq<char>) -> Seq<char> {
    if has_eol(line) {
        let s = line.drop_last();
        if s.len() > 0 && s.last() == '\r' {
            s.drop_last()
        } else {
            s
        }
    } else {
        line
    }
}

/// The opening fence of a fenced code block: after optional leading
/// whitespace, a run of three or more backticks or tildes. Gives the fence
/// character and the length of its run.
pub open spec fn fence_open(body: Seq<char>) -> Option<(char, nat)> {
    let a = trim_lo(body);
    if a >= body.len() {
        None
    } else {
        let ch = body[a];
        if ch != '`' && ch != '~' {
            None
        } else {
            let count = run_end(body, a, ch) - a;
            if count >= 3 {
                Some((ch, count as nat))
            } else {
                None
            }
        }
    }
}

/// A closing fence: the trimmed line is made only of `ch`, at least
/// `min_len` of them.
pub open spec fn fence_close(body: Seq<char>, ch: char, min_len: nat) -> bool {
    let t = trimmed(body);
    (forall|k: int| 0 <= k < t.len() ==> t[k] == ch) && t.len() >= min_len
}

/// A standalone display-math delimiter line: `\[` or `\]` alone.
pub open spec fn is_block_delimiter(body: Seq<char>) -> bool {
    trimmed(body) == seq!['\\', '['] || trimmed(body) == seq!['\\', ']']
}


/// Start of the first run of exactly `n` backticks at or after `j`, where
/// `j` is not in the middle of a backtick run: the run that closes an
/// inline-code span opened by `n` backticks.
pub open spec fn closing_run(b: Seq<char>, j: int, n: nat) -> Option<int>
    decreases b.len() - j,
{
    if j < 0 || j >= b.len() {
        None
    } else if b[j] != '`' {
        closing_run(b, j + 1, n)
    } else {
        let e = run_end(b, j, '`');
        proof {
            lemma_run_end_bounds(b, j, '`');
        }
        if e - j == n {
            Some(j)
        } else {
            closing_run(b, e, n)
        }
    }
}

/// The inline-math delimiters of `b` from index `i` on: each entry is the
/// index of the backslash of an unescaped `\(` (`true`) or `\)` (`false`)
/// outside inline code. A run of backticks opens an inline-code span only
/// when a run of the same length follows on the line, and the span ends
/// with that run; a run with no such partner is ordinary text.
pub open spec fn scan_delims(b: Seq<char>, i: int) -> Seq<(int, bool)>
    decreases b.len() - i,
{
    if i < 0 || i >= b.len() {
        seq![]
    } else if b[i] == '`' {
        let j = run_end(b, i, '`');
        proof {
            lemma_run_end_bounds(b, i, '`');
            lemma_closing_run_bounds(b, j, (j - i) as nat);
        }
        match closing_run(b, j, (j - i) as nat) {
            Some(k) => scan_delims(b, k + (j - i)),
            None => scan_delims(b, j),
        }
    } else if b[i] == '\\' {
        let j = run_end(b, i, '\\');
        proof {
            lemma_run_end_bounds(b, i, '\\');
        }
        if j < b.len() && (j - i) % 2 == 1 && (b[j] == '(' || b[j] == ')') {
            seq![(j - 1, b[j] == '(')] + scan_delims(b, j + 1)
        } else {
            scan_delims(b, j)
        }
    } else {
        scan_delims(b, i + 1)
    }
}

pub proof fn lemma_closing_run_bounds(b: Seq<char>, j: int, n: nat)
    requires
        0 <= j <= b.len(),
    ensures
        closing_run(b, j, n) matches Some(k) ==> {
            &&& j <= k
            &&& k + n <= b.len()
            &&& run_end(b, k, '`') == k + n
            &&& b[k] == '`'
        },
    decreases b.len() - j,
{
    if j < b.len() {
        if b[j] != '`' {
            lemma_closing_run_bounds(b, j + 1, n);
        } else {
            lemma_run_end_bounds(b, j, '`');
            let e = run_end(b, j, '`');
            if e - j != n {
                lemma_closing_run_bounds(b, e, n);
            }
        }
    }
}

/// Pair each opener with an immediately following closer; an opener
/// followed by another opener, or by nothing, is dropped, and so is a
/// closer with no opener before it.
pub open spec fn pair_up(p: Seq<(int, bool)>) -> Seq<(int, int)>
    decreases p.len(),
{
    if p.len() == 0 {
        seq![]
    } else if !p[0].1 {
        pair_up(p.drop_first())
    } else if p.len() > 1 && !p[1].1 {
        seq![(p[0].0, p[1].0)] + pair_up(p.skip(2))
    } else {
        pair_up(p.drop_first())
    }
}

/// `b` from `cursor` on, with each paired `\(` and `\)` replaced by `$`.
pub open spec fn splice(b: Seq<char>, pairs: Seq<(int, int)>, cursor: int) -> Seq<char>
    decreases pairs.len(),
{
    if pairs.len() == 0 {
        b.subrange(cursor, b.len() as int)
    } else {
        let o = pairs[0].0;
        let c = pairs[0].1;
        b.subrange(cursor, o) + seq!['$'] + b.subrange(o + 2, c) + seq!['$'] + splice(
            b,
            pairs.drop_first(),
            c + 2,
        )
    }
}

/// The inline-math pairs of a line body.
pub open spec fn math_pairs(b: Seq<char>) -> Seq<(int, int)> {
    pair_up(scan_delims(b, 0))
}

/// The rewrite of a line body's `\(...\)` spans into `$...$`, or `None`
/// when the line has no complete pair.
pub open spec fn inline_math_rewrite(b: Seq<char>) -> Option<Seq<char>> {
    if math_pairs(b).len() == 0 {
        None
    } else {
        Some(splice(b, math_pairs(b), 0))
    }
}


/// The line terminator that a rewritten line keeps: `\n` when the line had
/// one (a `\r` before it is dropped), nothing otherwise.
pub open spec fn eol_suffix(line: Seq<char>) -> Seq<char> {
    if has_eol(line) {
        seq!['\n']
    } else {
        seq![]
    }
}

/// One line of the normalisation: the text emitted for it, the fence
/// state after it, and whether it was rewritten.
pub open spec fn process_line(line: Seq<char>, fence: Option<(char, nat)>) -> (
    Seq<char>,
    Option<(char, nat)>,
    bool,
) {
    let body = eol_body(line);
    match fence {
        Some((ch, len)) => (line, if fence_close(body, ch, len) {
            None
        } else {
            fence
        }, false),
        None => match fence_open(body) {
            Some(f) => (line, Some(f), false),
            None => if is_block_delimiter(body) {
                (seq!['$', '$'] + eol_suffix(line), None, true)
            } else {
                match inline_math_rewrite(body) {
                    Some(r) => (r + eol_suffix(line), None, true),
                    None => (line, None, false),
                }
            },
        },
    }
}

/// The normalisation of the lines of `s` from index `pos` on, starting in
/// fence state `fence`: the text emitted and whether any line changed.
pub open spec fn normalize_from(s: Seq<char>, pos: int, fence: Option<(char, nat)>) -> (
    Seq<char>,
    bool,
)
    decreases s.len() - pos,
{
    if pos < 0 || pos >= s.len() {
        (seq![], false)
    } else {
        let e = line_end(s, pos);
        proof {
            lemma_line_end_bounds(s, pos);
        }
        let (piece, next, changed) = process_line(s.subrange(pos, e), fence);
        let (rest, changed_rest) = normalize_from(s, e, next);
        (piece + rest, changed || changed_rest)
    }
}

/// Whether the normalisation hands the source back as it is.
pub open spec fn keeps_source(s: Seq<char>) -> bool {
    !contains_delimiter(s) || !normalize_from(s, 0, None).1
}

/// The normalised text.
pub open spec fn normalized(s: Seq<char>) -> Seq<char> {
    if keeps_source(s) {
        s
    } else {
        normalize_from(s, 0, None).0
    }
}

/// Delimiter positions at or after `lo`, each leaving room for its two
/// characters, in increasing order with no overlap.
pub open spec fn spaced(p: Seq<(int, bool)>, lo: int, n: int) -> bool {
    &&& forall|k: int| 0 <= k < p.len() ==> lo <= #[trigger] p[k].0 && p[k].0 + 2 <= n
    &&& forall|k: int, l: int| 0 <= k < l < p.len() ==> #[trigger] p[k].0 + 2 <= #[trigger] p[l].0
}

/// Pairs at or after `lo`, each opener before its closer, in increasing
/// order with no overlap, all within `n` characters.
pub open spec fn pairs_spaced(q: Seq<(int, int)>, lo: int, n: int) -> bool {
    &&& forall|k: int|
        0 <= k < q.len() ==> lo <= #[trigger] q[k].0 && q[k].0 + 2 <= q[k].1 && q[k].1 + 2 <= n
    &&& forall|k: int, l: int| 0 <= k < l < q.len() ==> #[trigger] q[k].1 + 2 <= #[trigger] q[l].0
}

/// What each scanned delimiter points at.
pub open spec fn delims_valid(b: Seq<char>, p: Seq<(int, bool)>) -> bool {
    forall|k: int|
        0 <= k < p.len() ==> #[trigger] b[p[k].0] == '\\' && b[p[k].0 + 1] == (if p[k].1 {
            '('
        } else {
            ')'
        })
}

pub proof fn lemma_scan_spaced(b: Seq<char>, i: int)
    requires
        0 <= i,
    ensures
        spaced(scan_delims(b, i), i, b.len() as int),
        delims_valid(b, scan_delims(b, i)),
    decreases b.len() - i,
{
    if i < b.len() {
        if b[i] == '`' {
            lemma_run_end_bounds(b, i, '`');
            let j = run_end(b, i, '`');
            lemma_closing_run_bounds(b, j, (j - i) as nat);
            match closing_run(b, j, (j - i) as nat) {
                Some(k) => lemma_scan_spaced(b, k + (j - i)),
                None => lemma_scan_spaced(b, j),
            }
        } else if b[i] == '\\' {
            lemma_run_end_bounds(b, i, '\\');
            let j = run_end(b, i, '\\');
            if j < b.len() && (j - i) % 2 == 1 && (b[j] == '(' || b[j] == ')') {
                lemma_scan_spaced(b, j + 1);
                let rest = scan_delims(b, j + 1);
                let all = seq![(j - 1, b[j] == '(')] + rest;
                assert(all == scan_delims(b, i));
                assert forall|k: int| 0 <= k < all.len() implies i <= #[trigger] all[k].0 && all[k].0
                    + 2 <= b.len() by {
                    if k > 0 {
                        assert(all[k] == rest[k - 1]);
                    }
                }
                assert forall|k: int, l: int| 0 <= k < l < all.len() implies #[trigger] all[k].0
                    + 2 <= #[trigger] all[l].0 by {
                    assert(all[l] == rest[l - 1]);
                    if k > 0 {
                        assert(all[k] == rest[k - 1]);
                    }
                }
                assert forall|k: int| 0 <= k < all.len() implies #[trigger] b[all[k].0] == '\\'
                    && b[all[k].0 + 1] == (if all[k].1 {
                    '('
                } else {
                    ')'
                }) by {
                    if k > 0 {
                        assert(all[k] == rest[k - 1]);
                    }
                }
            } else {
                lemma_scan_spaced(b, j);
            }
        } else {
            lemma_scan_spaced(b, i + 1);
        }
    }
}

pub proof fn lemma_pair_up_spaced(p: Seq<(int, bool)>, lo: int, n: int)
    requires
        spaced(p, lo, n),
    ensures
        pairs_spaced(pair_up(p), lo, n),
        forall|k: int|
            0 <= k < pair_up(p).len() ==> exists|a: int, c: int|
                0 <= a < c < p.len() && p[a].1 && !p[c].1 && #[trigger] pair_up(p)[k] == (
                    p[a].0,
                    p[c].0,
                ),
    decreases p.len(),
{
    if p.len() > 0 {
        if !p[0].1 || !(p.len() > 1 && !p[1].1) {
            let r = p.drop_first();
            assert forall|k: int| 0 <= k < r.len() implies lo <= #[trigger] r[k].0 && r[k].0 + 2
                <= n by {
                assert(r[k] == p[k + 1]);
            }
            assert forall|k: int, l: int| 0 <= k < l < r.len() implies #[trigger] r[k].0 + 2
                <= #[trigger] r[l].0 by {
                assert(r[k] == p[k + 1]);
                assert(r[l] == p[l + 1]);
            }
            lemma_pair_up_spaced(r, lo, n);
            let q = pair_up(r);
            assert forall|k: int| 0 <= k < q.len() implies exists|a: int, c: int|
                0 <= a < c < p.len() && p[a].1 && !p[c].1 && #[trigger] q[k] == (
                    p[a].0,
                    p[c].0,
                ) by {
                let (a, c) = choose|a: int, c: int|
                    0 <= a < c < r.len() && r[a].1 && !r[c].1 && #[trigger] q[k] == (
                        r[a].0,
                        r[c].0,
                    );
                assert(r[a] == p[a + 1] && r[c] == p[c + 1]);
            }
        } else {
            let r = p.skip(2);
            let lo2 = p[1].0 + 2;
            assert forall|k: int| 0 <= k < r.len() implies lo2 <= #[trigger] r[k].0 && r[k].0 + 2
                <= n by {
                assert(r[k] == p[k + 2]);
            }
            assert forall|k: int, l: int| 0 <= k < l < r.len() implies #[trigger] r[k].0 + 2
                <= #[trigger] r[l].0 by {
                assert(r[k] == p[k + 2]);
                assert(r[l] == p[l + 2]);
            }
            lemma_pair_up_spaced(r, lo2, n);
            let q = pair_up(r);
            let all = seq![(p[0].0, p[1].0)] + q;
            assert(all == pair_up(p));
            assert(p[0].0 + 2 <= p[1].0);
            assert forall|k: int| 0 <= k < all.len() implies lo <= #[trigger] all[k].0 && all[k].0
                + 2 <= all[k].1 && all[k].1 + 2 <= n by {
                if k > 0 {
                    assert(all[k] == q[k - 1]);
                }
            }
            assert forall|k: int, l: int| 0 <= k < l < all.len() implies #[trigger] all[k].1 + 2
                <= #[trigger] all[l].0 by {
                assert(all[l] == q[l - 1]);
                if k > 0 {
                    assert(all[k] == q[k - 1]);
                }
            }
            assert forall|k: int| 0 <= k < all.len() implies exists|a: int, c: int|
                0 <= a < c < p.len() && p[a].1 && !p[c].1 && #[trigger] all[k] == (
                    p[a].0,
                    p[c].0,
                ) by {
                if k == 0 {
                    assert(all[0] == (p[0].0, p[1].0));
                } else {
                    assert(all[k] == q[k - 1]);
                    let (a, c) = choose|a: int, c: int|
                        0 <= a < c < r.len() && r[a].1 && !r[c].1 && #[trigger] q[k - 1] == (
                            r[a].0,
                            r[c].0,
                        );
                    assert(r[a] == p[a + 2] && r[c] == p[c + 2]);
                }
            }
        }
    }
}

// ---------------------------------------------------------------------
// Lemmas on the scanning functions
// ---------------------------------------------------------------------

pub proof fn lemma_run_end_bounds(s: Seq<char>, i: int, c: char)
    requires
        0 <= i <= s.len(),
    ensures
        i <= run_end(s, i, c) <= s.len(),
        forall|k: int| i <= k < run_end(s, i, c) ==> s[k] == c,
        run_end(s, i, c) < s.len() ==> s[run_end(s, i, c)] != c,
    decreases s.len() - i,
{
    if i < s.len() && s[i] == c {
        lemma_run_end_bounds(s, i + 1, c);
    }
}

pub proof fn lemma_line_end_bounds(s: Seq<char>, i: int)
    requires
        0 <= i < s.len(),
    ensures
        i < line_end(s, i) <= s.len(),
        forall|k: int| i <= k < line_end(s, i) - 1 ==> s[k] != '\n',
        line_end(s, i) < s.len() ==> s[line_end(s, i) - 1] == '\n',
    decreases s.len() - i,
{
    if s[i] != '\n' {
        if i + 1 < s.len() {
            lemma_line_end_bounds(s, i + 1);
        } else {
            assert(line_end(s, i + 1) == i + 1);
        }
    }
}

// ---------------------------------------------------------------------
// Line-level helpers on a vector of characters
// ---------------------------------------------------------------------

/// Index of the end of the run of `c` starting at `i`.
fn run_end_at(b: &Vec<char>, i: usize, c: char) -> (j: usize)
    requires
        i <= b.len(),
    ensures
        j == run_end(b@, i as int, c),
        i <= j <= b.len(),
{
    let mut j = i;
    while j < b.len() && b[j] == c
        invariant
            i <= j <= b.len(),
            run_end(b@, i as int, c) == run_end(b@, j as int, c),
        decreases b.len() - j,
    {
        j = j + 1;
    }
    j
}

/// Fence opener detection on a line body.
fn fence_open_of(b: &Vec<char>) -> (r: Option<(char, usize)>)
    ensures
        fence_view(r) == fence_open(b@),
{
    let (a, _e) = trim_bounds(b);
    if a >= b.len() {
        return None;
    }
    let ch = b[a];
    if ch != '`' && ch != '~' {
        return None;
    }
    let end = run_end_at(b, a, ch);
    let count = end - a;
    if count >= 3 {
        Some((ch, count))
    } else {
        None
    }
}

/// Fence closer detection on a line body.
fn fence_close_of(b: &Vec<char>, ch: char, min_len: usize) -> (r: bool)
    ensures
        r == fence_close(b@, ch, min_len as nat),
{
    let (a, e) = trim_bounds(b);
    let ghost t = b@.subrange(a as int, e as int);
    let mut k = a;
    while k < e
        invariant
            a <= k <= e <= b.len(),
            t == b@.subrange(a as int, e as int),
            t == trimmed(b@),
            forall|j: int| 0 <= j < k - a ==> t[j] == ch,
        decreases e - k,
    {
        if b[k] != ch {
            assert(t[k - a] == b@[k as int]);
            return false;
        }
        k = k + 1;
    }
    e - a >= min_len
}

/// A fence, as seen by the specification.
pub open spec fn fence_view(f: Option<(char, usize)>) -> Option<(char, nat)> {
    match f {
        Some((c, n)) => Some((c, n as nat)),
        None => None,
    }
}

/// Whether a line body is a standalone `\[` or `\]`.
fn block_delimiter_of(b: &Vec<char>) -> (r: bool)
    ensures
        r == is_block_delimiter(b@),
{
    let (a, e) = trim_bounds(b);
    let ghost t = b@.subrange(a as int, e as int);
    if e - a == 2 && b[a] == '\\' && (b[a + 1] == '[' || b[a + 1] == ']') {
        assert(t == seq!['\\', '['] || t == seq!['\\', ']']);
        true
    } else {
        assert(t.len() != 2 || t[0] != seq!['\\', '['][0] || (t[1] != seq!['\\', '['][1] && t[1] != seq!['\\', ']'][1]));
        false
    }
}

} // verus!
verus! {

/// Delimiter positions as the specification sees them.
pub open spec fn positions_view(v: Seq<(usize, bool)>) -> Seq<(int, bool)> {
    v.map_values(|x: (usize, bool)| (x.0 as int, x.1))
}

/// Pairs as the specification sees them.
pub open spec fn pairs_view(v: Seq<(usize, usize)>) -> Seq<(int, int)> {
    v.map_values(|x: (usize, usize)| (x.0 as int, x.1 as int))
}

/// Start of the run of exactly `n` backticks that closes an inline-code
/// span, searching from `j`.
fn closing_run_at(b: &Vec<char>, j: usize, n: usize) -> (r: Option<usize>)
    requires
        j <= b.len(),
    ensures
        match r {
            Some(k) => closing_run(b@, j as int, n as nat) == Some(k as int),
            None => closing_run(b@, j as int, n as nat) is None,
        },
{
    let mut p = j;
    while p < b.len()
        invariant
            j <= p <= b.len(),
            closing_run(b@, j as int, n as nat) == closing_run(b@, p as int, n as nat),
        decreases b.len() - p,
    {
        if b[p] != '`' {
            p = p + 1;
        } else {
            let e = run_end_at(b, p, '`');
            proof {
                lemma_run_end_bounds(b@, p as int, '`');
            }
            if e - p == n {
                return Some(p);
            }
            p = e;
        }
    }
    None
}

/// Scan a line body for unescaped `\(` and `\)` outside inline code.
fn find_delims(b: &Vec<char>) -> (r: Vec<(usize, bool)>)
    ensures
        positions_view(r@) == scan_delims(b@, 0),
{
    let n = b.len();
    let mut positions: Vec<(usize, bool)> = Vec::new();
    let mut i: usize = 0;
    while i < n
        invariant
            n == b.len(),
            i <= n,
            positions_view(positions@) + scan_delims(b@, i as int) == scan_delims(b@, 0),
        decreases n - i,
    {
        let c = b[i];
        if c == '`' {
            let start = i;
            let j = run_end_at(b, start, '`');
            proof {
                lemma_run_end_bounds(b@, start as int, '`');
                lemma_closing_run_bounds(b@, j as int, (j - start) as nat);
            }
            let run = j - start;
            match closing_run_at(b, j, run) {
                Some(k) => {
                    i = k + run;
                },
                None => {
                    i = j;
                },
            }
            continue;
        }
        if c == '\\' {
            let start = i;
            i = run_end_at(b, start, '\\');
            proof {
                lemma_run_end_bounds(b@, start as int, '\\');
            }
            let run = i - start;
            if i < n && run % 2 == 1 {
                let next = b[i];
                if next == '(' || next == ')' {
                    let ghost before = positions@;
                    positions.push((i - 1, next == '('));
                    proof {
                        assert(positions_view(positions@) == positions_view(before) + seq![
                            ((i - 1) as int, next == '('),
                        ]);
                    }
                    i = i + 1;
                    continue;
                }
            }
            continue;
        }
        i = i + 1;
    }
    proof {
        assert(positions_view(positions@) + seq![] == positions_view(positions@));
    }
    positions
}

/// Pair each opener with the closer right after it.
fn pair_delims(positions: &Vec<(usize, bool)>) -> (r: Vec<(usize, usize)>)
    ensures
        pairs_view(r@) == pair_up(positions_view(positions@)),
{
    let ghost pv = positions_view(positions@);
    let m = positions.len();
    let mut pairs: Vec<(usize, usize)> = Vec::new();
    let mut k: usize = 0;
    assert(pv.skip(0) == pv);
    assert(pairs_view(pairs@) == Seq::<(int, int)>::empty());
    while k < m
        invariant
            m == positions.len(),
            k <= m,
            pv == positions_view(positions@),
            pairs_view(pairs@) + pair_up(pv.skip(k as int)) == pair_up(pv),
        decreases m - k,
    {
        let ghost rest = pv.skip(k as int);
        assert(rest[0] == pv[k as int]);
        let (idx, is_open) = positions[k];
        if !is_open {
            assert(rest.drop_first() == pv.skip(k + 1));
            k = k + 1;
            continue;
        }
        if k + 1 < m && !positions[k + 1].1 {
            let ghost before = pairs@;
            let close = positions[k + 1].0;
            assert(rest[1] == pv[k + 1]);
            assert(rest.skip(2) == pv.skip(k + 2));
            pairs.push((idx, close));
            assert(pairs_view(pairs@) == pairs_view(before) + seq![(idx as int, close as int)]);
            k = k + 2;
        } else {
            assert(rest.drop_first() == pv.skip(k + 1));
            k = k + 1;
        }
    }
    assert(pv.skip(m as int) == Seq::<(int, bool)>::empty());
    assert(pairs_view(pairs@) + seq![] == pairs_view(pairs@));
    pairs
}

/// Append `b[from..to]` to `out`.
fn push_range(out: &mut String, b: &Vec<char>, from: usize, to: usize)
    requires
        from <= to <= b.len(),
    ensures
        final(out)@ == old(out)@ + b@.subrange(from as int, to as int),
{
    let mut k = from;
    while k < to
        invariant
            from <= k <= to <= b.len(),
            out@ == old(out)@ + b@.subrange(from as int, k as int),
        decreases to - k,
    {
        push_char(out, b[k]);
        assert(b@.subrange(from as int, k + 1) == b@.subrange(from as int, k as int).push(b@[k as int]));
        k = k + 1;
    }
}

/// Append the body with every pair replaced by `$...$`.
fn push_spliced(out: &mut String, b: &Vec<char>, pairs: &Vec<(usize, usize)>)
    requires
        pairs_spaced(pairs_view(pairs@), 0, b.len() as int),
    ensures
        final(out)@ == old(out)@ + splice(b@, pairs_view(pairs@), 0),
{
    let ghost pv = pairs_view(pairs@);
    let m = pairs.len();
    let mut cursor: usize = 0;
    let mut k: usize = 0;
    assert(pv.skip(0) == pv);
    while k < m
        invariant
            m == pairs.len(),
            k <= m,
            pv == pairs_view(pairs@),
            pairs_spaced(pv, 0, b.len() as int),
            cursor <= b.len(),
            k < m ==> cursor <= pv[k as int].0,
            out@ + splice(b@, pv.skip(k as int), cursor as int) == old(out)@ + splice(b@, pv, 0),
        decreases m - k,
    {
        let ghost rest = pv.skip(k as int);
        assert(rest[0] == pv[k as int]);
        assert(rest.drop_first() == pv.skip(k + 1));
        let (open, close) = pairs[k];
        let ghost before = out@;
        push_range(out, b, cursor, open);
        push_char(out, '$');
        push_range(out, b, open + 2, close);
        push_char(out, '$');
        assert(out@ == before + (b@.subrange(cursor as int, open as int) + seq!['$'] + b@.subrange(
            open + 2,
            close as int,
        ) + seq!['$']));
        cursor = close + 2;
        k = k + 1;
        assert(k < m ==> pv[k - 1].1 + 2 <= pv[k as int].0);
    }
    assert(pv.skip(m as int) == Seq::<(int, int)>::empty());
    push_range(out, b, cursor, b.len());
}

/// The pairs of a line body, together with the facts the splice needs.
fn math_pairs_of(b: &Vec<char>) -> (r: Vec<(usize, usize)>)
    ensures
        pairs_view(r@) == math_pairs(b@),
        pairs_spaced(pairs_view(r@), 0, b.len() as int),
{
    let positions = find_delims(b);
    proof {
        lemma_scan_spaced(b@, 0);
        lemma_pair_up_spaced(scan_delims(b@, 0), 0, b.len() as int);
    }
    pair_delims(&positions)
}

} // verus!
verus! {

/// A copy of `v[from..to]`.
fn copy_range(v: &Vec<char>, from: usize, to: usize) -> (r: Vec<char>)
    requires
        from <= to <= v.len(),
    ensures
        r@ == v@.subrange(from as int, to as int),
{
    let mut r: Vec<char> = Vec::new();
    let mut k = from;
    while k < to
        invariant
            from <= k <= to <= v.len(),
            r@ == v@.subrange(from as int, k as int),
        decreases to - k,
    {
        r.push(v[k]);
        assert(v@.subrange(from as int, k + 1) == v@.subrange(from as int, k as int).push(v@[k as int]));
        k = k + 1;
    }
    r
}

/// End of the body of the line `v[pos..e]`, and whether it had a `\n`.
fn body_end_of(v: &Vec<char>, pos: usize, e: usize) -> (r: (usize, bool))
    requires
        pos <= e <= v.len(),
    ensures
        pos <= r.0 <= e,
        v@.subrange(pos as int, r.0 as int) == eol_body(v@.subrange(pos as int, e as int)),
        r.1 == has_eol(v@.subrange(pos as int, e as int)),
{
    let ghost line = v@.subrange(pos as int, e as int);
    if e > pos && v[e - 1] == '\n' {
        assert(line.drop_last() == v@.subrange(pos as int, e - 1));
        let mut be = e - 1;
        if be > pos && v[be - 1] == '\r' {
            assert(line.drop_last().drop_last() == v@.subrange(pos as int, be - 1));
            be = be - 1;
        }
        (be, true)
    } else {
        (e, false)
    }
}

/// Index one past the end of the line starting at `pos`.
fn line_end_at(v: &Vec<char>, pos: usize) -> (e: usize)
    requires
        pos < v.len(),
    ensures
        e == line_end(v@, pos as int),
        pos < e <= v.len(),
{
    proof {
        lemma_line_end_bounds(v@, pos as int);
    }
    let mut i = pos;
    while i < v.len()
        invariant
            pos <= i <= v.len(),
            line_end(v@, pos as int) == line_end(v@, i as int),
        decreases v.len() - i,
    {
        if v[i] == '\n' {
            return i + 1;
        }
        i = i + 1;
    }
    i
}

/// Emit one line of the normalisation.
fn normalize_line(
    v: &Vec<char>,
    pos: usize,
    e: usize,
    fence: Option<(char, usize)>,
    out: &mut String,
) -> (r: (Option<(char, usize)>, bool))
    requires
        pos <= e <= v.len(),
    ensures
        ({
            let (piece, next, changed) = process_line(
                v@.subrange(pos as int, e as int),
                fence_view(fence),
            );
            &&& final(out)@ == old(out)@ + piece
            &&& fence_view(r.0) == next
            &&& r.1 == changed
        }),
{
    let ghost line = v@.subrange(pos as int, e as int);
    let (be, eol) = body_end_of(v, pos, e);
    let body = copy_range(v, pos, be);
    if let Some((ch, len)) = fence {
        let closes = fence_close_of(&body, ch, len);
        push_range(out, v, pos, e);
        if closes {
            return (None, false);
        } else {
            return (fence, false);
        }
    }
    let open = fence_open_of(&body);
    if open.is_some() {
        push_range(out, v, pos, e);
        return (open, false);
    }
    if block_delimiter_of(&body) {
        push_char(out, '$');
        push_char(out, '$');
        if eol {
            push_char(out, '\n');
        }
        assert(eol_suffix(line) == (if eol { seq!['\n'] } else { Seq::<char>::empty() }));
        return (None, true);
    }
    let pairs = math_pairs_of(&body);
    if pairs.len() == 0 {
        push_range(out, v, pos, e);
        (None, false)
    } else {
        push_spliced(out, &body, &pairs);
        if eol {
            push_char(out, '\n');
        }
        (None, true)
    }
}

/// Rewrite LaTeX-style math delimiters to their dollar-delimited forms:
/// standalone `\[` / `\]` lines become `$$`, and paired `\(...\)` spans on
/// one line become `$...$`. Fenced code blocks are left as they are.
///
/// Hands back the source itself when nothing had to change, and an owned
/// string with the substitutions otherwise.
pub fn normalize_latex_delimiters(src: &str) -> (res: Cow<'_, str>)
    ensures
        res@ == normalized(src@),
        (res is Borrowed) <==> keeps_source(src@),
        res is Owned ==> res@ != src@,
{
    proof {
        lemma_owned_result_differs(src@);
    }
    if !needs_normalization(src) {
        return Cow::Borrowed(src);
    }
    let v = chars_of(src);
    let mut out = String::new();
    let mut fence: Option<(char, usize)> = None;
    let mut changed = false;
    let mut pos: usize = 0;
    while pos < v.len()
        invariant
            pos <= v.len(),
            v@ == src@,
            out@ + normalize_from(v@, pos as int, fence_view(fence)).0 == normalize_from(
                v@,
                0,
                None,
            ).0,
            (changed || normalize_from(v@, pos as int, fence_view(fence)).1) == normalize_from(
                v@,
                0,
                None,
            ).1,
        decreases v.len() - pos,
    {
        let e = line_end_at(&v, pos);
        let ghost f = fence_view(fence);
        let (next, line_changed) = normalize_line(&v, pos, e, fence, &mut out);
        proof {
            let (piece, nf, ch) = process_line(v@.subrange(pos as int, e as int), f);
            assert(normalize_from(v@, pos as int, f).0 == piece + normalize_from(v@, e as int, nf).0);
        }
        fence = next;
        changed = changed || line_changed;
        pos = e;
    }
    if changed {
        Cow::Owned(out)
    } else {
        Cow::Borrowed(src)
    }
}

/// Whether `src` holds any of `\[`, `\]`, `\(`, `\)`; a source without
/// them needs no line-by-line scan.
pub fn needs_normalization(src: &str) -> (b: bool)
    ensures
        b == contains_delimiter(src@),
{
    let v = chars_of(src);
    let mut i: usize = 0;
    while v.len() - i > 1
        invariant
            v@ == src@,
            i <= v.len(),
            forall|k: int| 0 <= k < i && k + 1 < v@.len() ==> !(v@[k] == '\\' && is_delim_char(#[trigger] v@[k + 1])),
        decreases v.len() - i,
    {
        if v[i] == '\\' && (v[i + 1] == '[' || v[i + 1] == ']' || v[i + 1] == '(' || v[i + 1] == ')') {
            assert(is_delim_char(v@[i + 1]));
            return true;
        }
        i = i + 1;
    }
    false
}

} // verus!
verus! {

/// Split `line` (which may end in `\n` or `\r\n`) into its body, without
/// the line terminator, and whether a terminator was present.
pub fn split_eol(line: &str) -> (r: (&str, bool))
    ensures
        r.0@ == eol_body(line@),
        r.1 == has_eol(line@),
{
    let v = chars_of(line);
    let (be, eol) = body_end_of(&v, 0, v.len());
    assert(v@.subrange(0, v.len() as int) == line@);
    if eol {
        (line.substring_char(0, be), true)
    } else {
        (line, false)
    }
}

/// Detect a fenced-code opener: three or more backticks or tildes after
/// optional leading whitespace. Gives the fence character and its run
/// length.
pub fn detect_fence_open(body: &str) -> (r: Option<(char, usize)>)
    ensures
        fence_view(r) == fence_open(body@),
{
    let v = chars_of(body);
    fence_open_of(&v)
}

/// A closing fence is the opener's character repeated at least `min_len`
/// times, with nothing else but whitespace on the line.
pub fn is_fence_close(body: &str, ch: char, min_len: usize) -> (r: bool)
    ensures
        r == fence_close(body@, ch, min_len as nat),
{
    let v = chars_of(body);
    fence_close_of(&v, ch, min_len)
}

/// Rewrite paired `\(...\)` inline-math spans on one line into `$...$`.
/// Gives `None` when no pair was found, so the line stays as it is.
///
/// A `\(` or `\)` inside an inline-code span (delimited by matching
/// backtick runs; a run with no partner of the same length is plain text)
/// is ignored; one whose backslash is itself escaped (an even run of
/// backslashes) is no delimiter; an opener without a closer right after it
/// on the line is
/// left alone.
pub fn rewrite_inline_math(body: &str) -> (r: Option<String>)
    ensures
        match r {
            Some(s) => inline_math_rewrite(body@) == Some(s@),
            None => inline_math_rewrite(body@) is None,
        },
{
    let v = chars_of(body);
    let pairs = math_pairs_of(&v);
    if pairs.len() == 0 {
        None
    } else {
        let mut out = String::new();
        push_spliced(&mut out, &v, &pairs);
        Some(out)
    }
}

} // verus!
verus! {

// ---------------------------------------------------------------------
// Laws
// ---------------------------------------------------------------------

/// When no line from `pos` on is rewritten, the lines are emitted exactly
/// as they stand: an unchanged normalisation reproduces the source.
pub proof fn lemma_unchanged_lines_reproduce_source(
    s: Seq<char>,
    pos: int,
    fence: Option<(char, nat)>,
)
    requires
        0 <= pos <= s.len(),
        !normalize_from(s, pos, fence).1,
    ensures
        normalize_from(s, pos, fence).0 == s.subrange(pos, s.len() as int),
    decreases s.len() - pos,
{
    if pos < s.len() {
        lemma_line_end_bounds(s, pos);
        let e = line_end(s, pos);
        let (piece, next, changed) = process_line(s.subrange(pos, e), fence);
        lemma_unchanged_lines_reproduce_source(s, e, next);
        assert(s.subrange(pos, e) + s.subrange(e, s.len() as int) == s.subrange(pos, s.len() as int));
    } else {
        assert(s.subrange(pos, s.len() as int) == Seq::<char>::empty());
    }
}

/// Whatever path the normalisation takes, its text is the line-by-line
/// rewrite of the source: handing the source back never hides a change.
pub proof fn lemma_normalized_is_line_rewrite(s: Seq<char>)
    ensures
        normalized(s) == normalize_from(s, 0, None).0,
{
    if !contains_delimiter(s) {
        lemma_no_delimiter_no_change(s, 0, None);
    }
    if !normalize_from(s, 0, None).1 {
        lemma_unchanged_lines_reproduce_source(s, 0, None);
        assert(s.subrange(0, s.len() as int) == s);
    }
}

/// A text without `\[`, `\]`, `\(` or `\)` from `pos` on has no line that
/// the normalisation rewrites.
pub proof fn lemma_no_delimiter_no_change(s: Seq<char>, pos: int, fence: Option<(char, nat)>)
    requires
        0 <= pos,
        !contains_delimiter(s),
    ensures
        !normalize_from(s, pos, fence).1,
    decreases s.len() - pos,
{
    if pos < s.len() {
        lemma_line_end_bounds(s, pos);
        lemma_no_delimiter_line(s, pos);
        let e = line_end(s, pos);
        let (piece, next, changed) = process_line(s.subrange(pos, e), fence);
        lemma_no_delimiter_no_change(s, e, next);
    }
}

/// Does any line of `s` from `pos` on close a fence of `ch` with at least
/// `len` characters?
pub open spec fn closes_fence_from(s: Seq<char>, pos: int, ch: char, len: nat) -> bool
    decreases s.len() - pos,
{
    if pos < 0 || pos >= s.len() {
        false
    } else {
        let e = line_end(s, pos);
        proof {
            lemma_line_end_bounds(s, pos);
        }
        fence_close(eol_body(s.subrange(pos, e)), ch, len) || closes_fence_from(s, e, ch, len)
    }
}

/// Inside a fenced code block that is never closed, every remaining line
/// is copied through verbatim and nothing is rewritten.
pub proof fn lemma_open_fence_is_verbatim(s: Seq<char>, pos: int, ch: char, len: nat)
    requires
        0 <= pos <= s.len(),
        !closes_fence_from(s, pos, ch, len),
    ensures
        normalize_from(s, pos, Some((ch, len))) == (s.subrange(pos, s.len() as int), false),
    decreases s.len() - pos,
{
    if pos < s.len() {
        lemma_line_end_bounds(s, pos);
        let e = line_end(s, pos);
        lemma_open_fence_is_verbatim(s, e, ch, len);
        assert(s.subrange(pos, e) + s.subrange(e, s.len() as int) == s.subrange(pos, s.len() as int));
    } else {
        assert(s.subrange(pos, s.len() as int) == Seq::<char>::empty());
    }
}

} // verus!
verus! {

/// Every span that the inline rewrite replaces runs from an unescaped
/// `\(` to the `\)` after it, and the spans neither overlap nor touch.
pub proof fn lemma_rewritten_spans_are_delimited(b: Seq<char>)
    ensures
        pairs_spaced(math_pairs(b), 0, b.len() as int),
        forall|k: int|
            0 <= k < math_pairs(b).len() ==> {
                let (o, c) = #[trigger] math_pairs(b)[k];
                &&& b[o] == '\\' && b[o + 1] == '('
                &&& b[c] == '\\' && b[c + 1] == ')'
            },
{
    let p = scan_delims(b, 0);
    lemma_scan_spaced(b, 0);
    lemma_pair_up_spaced(p, 0, b.len() as int);
    let q = math_pairs(b);
    assert forall|k: int| 0 <= k < q.len() implies {
        let (o, c) = #[trigger] q[k];
        &&& b[o] == '\\' && b[o + 1] == '('
        &&& b[c] == '\\' && b[c + 1] == ')'
    } by {
        let (a, c) = choose|a: int, c: int|
            0 <= a < c < p.len() && p[a].1 && !p[c].1 && #[trigger] q[k] == (p[a].0, p[c].0);
        assert(b[p[a].0] == '\\');
        assert(b[p[c].0] == '\\');
    }
}

proof fn lemma_splice_length(b: Seq<char>, q: Seq<(int, int)>, cursor: int)
    requires
        0 <= cursor <= b.len(),
        pairs_spaced(q, cursor, b.len() as int),
    ensures
        splice(b, q, cursor).len() == b.len() - cursor - 2 * q.len(),
    decreases q.len(),
{
    if q.len() > 0 {
        let r = q.drop_first();
        let c = q[0].1;
        assert(cursor <= q[0].0);
        assert(q[0].0 + 2 <= q[0].1 && q[0].1 + 2 <= b.len());
        assert forall|k: int| 0 <= k < r.len() implies c + 2 <= #[trigger] r[k].0 && r[k].0 + 2
            <= r[k].1 && r[k].1 + 2 <= b.len() by {
            assert(r[k] == q[k + 1]);
        }
        assert forall|k: int, l: int| 0 <= k < l < r.len() implies #[trigger] r[k].1 + 2
            <= #[trigger] r[l].0 by {
            assert(r[k] == q[k + 1]);
            assert(r[l] == q[l + 1]);
        }
        lemma_splice_length(b, r, c + 2);
    }
}

/// The inline rewrite turns each two-character delimiter into one `$`: the
/// line gets exactly two characters shorter per rewritten span.
pub proof fn lemma_rewrite_length(b: Seq<char>)
    ensures
        inline_math_rewrite(b) matches Some(r) ==> r.len() == b.len() - 2 * math_pairs(b).len(),
{
    lemma_rewritten_spans_are_delimited(b);
    lemma_splice_length(b, math_pairs(b), 0);
}

} // verus!
verus! {

/// The number of consecutive backslashes that end at index `p`.
pub open spec fn backslashes_ending_at(b: Seq<char>, p: int) -> nat
    decreases p + 1,
{
    if p < 0 || p >= b.len() || b[p] != '\\' {
        0
    } else {
        1 + backslashes_ending_at(b, p - 1)
    }
}

/// `i` is not in the middle of a run of backslashes.
pub open spec fn starts_fresh(b: Seq<char>, i: int) -> bool {
    !(0 < i < b.len() && b[i - 1] == '\\' && b[i] == '\\')
}

proof fn lemma_backslash_run_count(b: Seq<char>, i: int, k: int)
    requires
        0 <= i <= k < b.len(),
        forall|m: int| i <= m <= k ==> b[m] == '\\',
        i == 0 || b[i - 1] != '\\',
    ensures
        backslashes_ending_at(b, k) == k - i + 1,
    decreases k - i,
{
    if k > i {
        lemma_backslash_run_count(b, i, k - 1);
    } else {
        assert(backslashes_ending_at(b, i - 1) == 0);
    }
}

/// Each delimiter the scan finds is a backslash that ends an odd-length
/// run of backslashes, followed by `(` or `)`: an escaped backslash never
/// starts a delimiter.
pub proof fn lemma_delimiters_are_unescaped(b: Seq<char>, i: int)
    requires
        0 <= i,
        starts_fresh(b, i),
    ensures
        forall|k: int|
            0 <= k < scan_delims(b, i).len() ==> {
                let p = #[trigger] scan_delims(b, i)[k].0;
                &&& b[p] == '\\'
                &&& b[p + 1] == (if scan_delims(b, i)[k].1 { '(' } else { ')' })
                &&& backslashes_ending_at(b, p) % 2 == 1
            },
    decreases b.len() - i,
{
    lemma_scan_spaced(b, i);
    if 0 <= i < b.len() {
        if b[i] == '`' {
            lemma_run_end_bounds(b, i, '`');
            let j = run_end(b, i, '`');
            lemma_closing_run_bounds(b, j, (j - i) as nat);
            match closing_run(b, j, (j - i) as nat) {
                Some(k) => {
                    let n = j - i;
                    lemma_run_end_bounds(b, k, '`');
                    assert(b[k + n - 1] == '`');
                    lemma_delimiters_are_unescaped(b, k + n);
                    assert(scan_delims(b, i) == scan_delims(b, k + n));
                },
                None => {
                    lemma_delimiters_are_unescaped(b, j);
                    assert(scan_delims(b, i) == scan_delims(b, j));
                },
            }
        } else if b[i] == '\\' {
            lemma_run_end_bounds(b, i, '\\');
            let j = run_end(b, i, '\\');
            if j < b.len() && (j - i) % 2 == 1 && (b[j] == '(' || b[j] == ')') {
                lemma_delimiters_are_unescaped(b, j + 1);
                lemma_backslash_run_count(b, i, j - 1);
                let rest = scan_delims(b, j + 1);
                let all = seq![(j - 1, b[j] == '(')] + rest;
                assert(all == scan_delims(b, i));
                assert forall|k: int| 0 <= k < all.len() implies {
                    let p = #[trigger] all[k].0;
                    &&& b[p] == '\\'
                    &&& b[p + 1] == (if all[k].1 { '(' } else { ')' })
                    &&& backslashes_ending_at(b, p) % 2 == 1
                } by {
                    if k > 0 {
                        assert(all[k] == rest[k - 1]);
                    }
                }
            } else {
                lemma_delimiters_are_unescaped(b, j);
                assert(scan_delims(b, i) == scan_delims(b, j));
            }
        } else {
            lemma_delimiters_are_unescaped(b, i + 1);
            assert(scan_delims(b, i) == scan_delims(b, i + 1));
        }
    }
}

/// The pairing finds a pair exactly when some opener is immediately
/// followed, among the delimiters, by a closer.
pub proof fn lemma_pairs_exist_iff_adjacent(p: Seq<(int, bool)>)
    ensures
        pair_up(p).len() > 0 <==> exists|k: int| 0 <= k && k + 1 < p.len() && #[trigger] p[k].1 && !p[k + 1].1,
    decreases p.len(),
{
    if p.len() > 0 {
        let r = p.drop_first();
        lemma_pairs_exist_iff_adjacent(r);
        if (exists|k: int| 0 <= k && k + 1 < r.len() && #[trigger] r[k].1 && !r[k + 1].1) {
            let k = choose|k: int| 0 <= k && k + 1 < r.len() && #[trigger] r[k].1 && !r[k + 1].1;
            assert(p[k + 1] == r[k] && p[k + 2] == r[k + 1]);
        }
        if (exists|k: int| 0 <= k && k + 1 < p.len() && #[trigger] p[k].1 && !p[k + 1].1) {
            let k = choose|k: int| 0 <= k && k + 1 < p.len() && #[trigger] p[k].1 && !p[k + 1].1;
            if k > 0 {
                assert(r[k - 1] == p[k] && r[k] == p[k + 1]);
            }
        }
        if p[0].1 && p.len() > 1 && !p[1].1 {
            let r2 = p.skip(2);
            assert(pair_up(p).len() > 0);
        }
    }
}

/// A line is rewritten exactly when, among its unescaped delimiters outside
/// inline code, some `\(` is directly followed by a `\)`.
pub proof fn lemma_rewrite_iff_adjacent_pair(b: Seq<char>)
    ensures
        inline_math_rewrite(b) is Some <==> exists|k: int|
            0 <= k && k + 1 < scan_delims(b, 0).len() && #[trigger] scan_delims(b, 0)[k].1
                && !scan_delims(b, 0)[k + 1].1,
{
    lemma_pairs_exist_iff_adjacent(scan_delims(b, 0));
}

} // verus!
verus! {

/// End of the fenced block whose fence is `ch` repeated at least `len`
/// times, searching from the line at `pos`: one past its closing line, or
/// the end of the text when it is never closed.
pub open spec fn fence_block_end(s: Seq<char>, pos: int, ch: char, len: nat) -> int
    decreases s.len() - pos,
{
    if pos < 0 || pos >= s.len() {
        s.len() as int
    } else {
        let e = line_end(s, pos);
        proof {
            lemma_line_end_bounds(s, pos);
        }
        if fence_close(eol_body(s.subrange(pos, e)), ch, len) {
            e
        } else {
            fence_block_end(s, e, ch, len)
        }
    }
}

/// Inside a fenced block, every line up to and including the closing
/// fence is copied verbatim and nothing is rewritten; after it, the text
/// is normalised as if no fence had been open.
pub proof fn lemma_fenced_block_is_verbatim(s: Seq<char>, pos: int, ch: char, len: nat)
    requires
        0 <= pos <= s.len(),
    ensures
        pos <= fence_block_end(s, pos, ch, len) <= s.len(),
        normalize_from(s, pos, Some((ch, len))) == (
            s.subrange(pos, fence_block_end(s, pos, ch, len)) + normalize_from(
                s,
                fence_block_end(s, pos, ch, len),
                None,
            ).0,
            normalize_from(s, fence_block_end(s, pos, ch, len), None).1,
        ),
    decreases s.len() - pos,
{
    if pos < s.len() {
        lemma_line_end_bounds(s, pos);
        let e = line_end(s, pos);
        if !fence_close(eol_body(s.subrange(pos, e)), ch, len) {
            lemma_fenced_block_is_verbatim(s, e, ch, len);
            let end = fence_block_end(s, e, ch, len);
            assert(s.subrange(pos, e) + s.subrange(e, end) == s.subrange(pos, end));
        }
    } else {
        assert(s.subrange(pos, s.len() as int) == Seq::<char>::empty());
        assert(normalize_from(s, s.len() as int, None).0 == Seq::<char>::empty());
    }
}

/// A line outside any fence that opens a fenced block starts a verbatim
/// stretch: the opening fence, the lines inside and the closing fence are
/// all copied unchanged.
pub proof fn lemma_fence_opener_starts_verbatim_block(s: Seq<char>, pos: int)
    requires
        0 <= pos < s.len(),
        fence_open(eol_body(s.subrange(pos, line_end(s, pos)))) is Some,
    ensures
        ({
            let (ch, len) = fence_open(eol_body(s.subrange(pos, line_end(s, pos)))).unwrap();
            let end = fence_block_end(s, line_end(s, pos), ch, len);
            &&& pos < end <= s.len()
            &&& normalize_from(s, pos, None) == (
                s.subrange(pos, end) + normalize_from(s, end, None).0,
                normalize_from(s, end, None).1,
            )
        }),
{
    lemma_line_end_bounds(s, pos);
    let e = line_end(s, pos);
    let (ch, len) = fence_open(eol_body(s.subrange(pos, e))).unwrap();
    lemma_fenced_block_is_verbatim(s, e, ch, len);
    let end = fence_block_end(s, e, ch, len);
    assert(s.subrange(pos, e) + s.subrange(e, end) == s.subrange(pos, end));
}

/// A standalone `\[` or `\]` line outside any fence becomes exactly `$$`,
/// followed by `\n` when the line had a line ending.
pub proof fn lemma_block_delimiter_line(s: Seq<char>, pos: int)
    requires
        0 <= pos < s.len(),
        fence_open(eol_body(s.subrange(pos, line_end(s, pos)))) is None,
        is_block_delimiter(eol_body(s.subrange(pos, line_end(s, pos)))),
    ensures
        normalize_from(s, pos, None) == (
            seq!['$', '$'] + eol_suffix(s.subrange(pos, line_end(s, pos))) + normalize_from(
                s,
                line_end(s, pos),
                None,
            ).0,
            true,
        ),
{
}

} // verus!
verus! {

/// The number of occurrences of `x` in `s`.
pub open spec fn char_count(s: Seq<char>, x: char) -> nat
    decreases s.len(),
{
    if s.len() == 0 {
        0
    } else {
        char_count(s.drop_last(), x) + if s.last() == x {
            1nat
        } else {
            0nat
        }
    }
}

/// `s` ends with `\n`.
pub open spec fn ends_with_newline(s: Seq<char>) -> bool {
    s.len() > 0 && s.last() == '\n'
}

pub proof fn lemma_char_count_add(a: Seq<char>, b: Seq<char>, x: char)
    ensures
        char_count(a + b, x) == char_count(a, x) + char_count(b, x),
    decreases b.len(),
{
    if b.len() == 0 {
        assert(a + b == a);
    } else {
        assert((a + b).drop_last() == a + b.drop_last());
        lemma_char_count_add(a, b.drop_last(), x);
    }
}

pub proof fn lemma_char_free_count(s: Seq<char>, x: char)
    requires
        forall|k: int| 0 <= k < s.len() ==> s[k] != x,
    ensures
        char_count(s, x) == 0,
    decreases s.len(),
{
    if s.len() > 0 {
        lemma_char_free_count(s.drop_last(), x);
    }
}

proof fn lemma_splice_newline_free(b: Seq<char>, q: Seq<(int, int)>, cursor: int)
    requires
        0 <= cursor <= b.len(),
        pairs_spaced(q, cursor, b.len() as int),
        forall|k: int| 0 <= k < b.len() ==> b[k] != '\n',
    ensures
        char_count(splice(b, q, cursor), '\n') == 0,
    decreases q.len(),
{
    if q.len() == 0 {
        lemma_char_free_count(b.subrange(cursor, b.len() as int), '\n');
    } else {
        let o = q[0].0;
        let c = q[0].1;
        assert(cursor <= q[0].0);
        assert(q[0].0 + 2 <= q[0].1 && q[0].1 + 2 <= b.len());
        let r = q.drop_first();
        assert forall|k: int| 0 <= k < r.len() implies c + 2 <= #[trigger] r[k].0 && r[k].0 + 2
            <= r[k].1 && r[k].1 + 2 <= b.len() by {
            assert(r[k] == q[k + 1]);
        }
        assert forall|k: int, l: int| 0 <= k < l < r.len() implies #[trigger] r[k].1 + 2
            <= #[trigger] r[l].0 by {
            assert(r[k] == q[k + 1]);
            assert(r[l] == q[l + 1]);
        }
        lemma_splice_newline_free(b, r, c + 2);
        let head = b.subrange(cursor, o) + seq!['$'] + b.subrange(o + 2, c) + seq!['$'];
        assert forall|k: int| 0 <= k < head.len() implies head[k] != '\n' by {
            if k < o - cursor {
                assert(head[k] == b[cursor + k]);
            } else if o - cursor < k < c - cursor - 1 {
                assert(head[k] == b[o + 2 + (k - (o - cursor) - 1)]);
            }
        }
        lemma_char_free_count(head, '\n');
        lemma_char_count_add(head, splice(b, r, c + 2), '\n');
    }
}

/// What one line emits keeps its `\n` count and its line ending.
proof fn lemma_line_piece_structure(s: Seq<char>, pos: int, fence: Option<(char, nat)>)
    requires
        0 <= pos < s.len(),
    ensures
        ({
            let line = s.subrange(pos, line_end(s, pos));
            let piece = process_line(line, fence).0;
            &&& piece.len() > 0
            &&& char_count(piece, '\n') == char_count(line, '\n')
            &&& ends_with_newline(piece) == ends_with_newline(line)
        }),
{
    lemma_line_end_bounds(s, pos);
    let e = line_end(s, pos);
    let line = s.subrange(pos, e);
    let body = eol_body(line);
    let suffix = eol_suffix(line);
    let piece = process_line(line, fence).0;
    assert(forall|k: int| 0 <= k < line.len() - 1 ==> line[k] != '\n');
    assert(body.len() <= line.len());
    assert(forall|k: int| 0 <= k < body.len() ==> body[k] == line[k]);
    assert(has_eol(line) ==> body.len() < line.len());
    assert forall|k: int| 0 <= k < body.len() implies body[k] != '\n' by {
        assert(body[k] == line[k]);
        if k == line.len() - 1 {
            assert(!has_eol(line));
            assert(line.last() != '\n');
        }
    }
    lemma_char_free_count(body, '\n');
    // the line is its body, an optional `\r`, and its `\n`
    if has_eol(line) {
        lemma_char_free_count(line.drop_last(), '\n');
        assert(char_count(line, '\n') == 1);
    } else {
        assert(body == line);
    }
    assert(line.len() > 0);
    if has_eol(line) {
        assert(suffix == seq!['\n']);
        assert(char_count(suffix, '\n') == 1) by {
            reveal_with_fuel(char_count, 2);
            assert(suffix.drop_last() == Seq::<char>::empty());
        }
    } else {
        assert(suffix == Seq::<char>::empty());
        assert(char_count(suffix, '\n') == 0);
    }
    if piece != line {
        let x = if is_block_delimiter(body) && fence is None && fence_open(body) is None {
            seq!['$', '$']
        } else {
            splice(body, math_pairs(body), 0)
        };
        if is_block_delimiter(body) && fence is None && fence_open(body) is None {
            assert(piece == seq!['$', '$'] + suffix);
            assert(char_count(seq!['$', '$'], '\n') == 0) by {
                reveal_with_fuel(char_count, 3);
                assert(seq!['$', '$'].drop_last() == seq!['$']);
                assert(seq!['$'].drop_last() == Seq::<char>::empty());
            }
        } else {
            let q = math_pairs(body);
            lemma_rewritten_spans_are_delimited(body);
            lemma_splice_newline_free(body, q, 0);
            assert(piece == x + suffix);
        }
        assert(x.len() > 0);
        assert(char_count(x, '\n') == 0);
        assert(piece == x + suffix);
        lemma_char_count_add(x, suffix, '\n');
        if x.last() == '\n' {
            lemma_char_count_add(x.drop_last(), seq![x.last()], '\n');
            assert(x.drop_last() + seq![x.last()] == x);
            assert(char_count(seq![x.last()], '\n') == 1) by {
                reveal_with_fuel(char_count, 2);
                assert(seq![x.last()].drop_last() == Seq::<char>::empty());
            }
        }
        if has_eol(line) {
            assert(piece.last() == '\n');
        } else {
            assert(piece == x);
        }
    }
}

proof fn lemma_normalize_from_structure(s: Seq<char>, pos: int, fence: Option<(char, nat)>)
    requires
        0 <= pos <= s.len(),
    ensures
        char_count(normalize_from(s, pos, fence).0, '\n') == char_count(
            s.subrange(pos, s.len() as int),
            '\n',
        ),
        ends_with_newline(normalize_from(s, pos, fence).0) == ends_with_newline(
            s.subrange(pos, s.len() as int),
        ),
        pos < s.len() ==> normalize_from(s, pos, fence).0.len() > 0,
    decreases s.len() - pos,
{
    if pos < s.len() {
        lemma_line_end_bounds(s, pos);
        let e = line_end(s, pos);
        let line = s.subrange(pos, e);
        let (piece, next, changed) = process_line(line, fence);
        lemma_line_piece_structure(s, pos, fence);
        lemma_normalize_from_structure(s, e, next);
        let rest = normalize_from(s, e, next).0;
        let tail = s.subrange(e, s.len() as int);
        assert(line + tail == s.subrange(pos, s.len() as int));
        lemma_char_count_add(piece, rest, '\n');
        lemma_char_count_add(line, tail, '\n');
        if e == s.len() {
            assert(rest == Seq::<char>::empty());
            assert(tail == Seq::<char>::empty());
            assert(piece + rest == piece);
            assert(line + tail == line);
        } else {
            assert((piece + rest).last() == rest.last());
            assert((line + tail).last() == tail.last());
        }
    } else {
        assert(s.subrange(pos, s.len() as int) == Seq::<char>::empty());
    }
}

/// The normalisation keeps the line structure: the result has as many
/// `\n` as the source, and ends with `\n` exactly when the source does.
pub proof fn lemma_line_structure_kept(s: Seq<char>)
    ensures
        char_count(normalized(s), '\n') == char_count(s, '\n'),
        ends_with_newline(normalized(s)) == ends_with_newline(s),
{
    lemma_normalize_from_structure(s, 0, None);
    assert(s.subrange(0, s.len() as int) == s);
}

} // verus!
verus! {

/// A backslash at `p` that ends an odd run of backslashes and is followed
/// by `(` or `)`: the start of an unescaped inline-math delimiter.
pub open spec fn is_unescaped_delimiter(b: Seq<char>, p: int) -> bool {
    &&& 0 <= p && p + 1 < b.len()
    &&& b[p] == '\\'
    &&& (b[p + 1] == '(' || b[p + 1] == ')')
    &&& backslashes_ending_at(b, p) % 2 == 1
}

proof fn lemma_scan_finds(b: Seq<char>, i: int, p: int)
    requires
        0 <= i <= p,
        starts_fresh(b, i),
        forall|k: int| 0 <= k < b.len() ==> b[k] != '`',
        is_unescaped_delimiter(b, p),
    ensures
        exists|k: int| 0 <= k < scan_delims(b, i).len() && (#[trigger] scan_delims(b, i)[k]).0 == p,
    decreases b.len() - i,
{
    if b[i] == '\\' {
        lemma_run_end_bounds(b, i, '\\');
        let j = run_end(b, i, '\\');
        if p < j {
            assert(b[p + 1] != '\\');
            if p + 1 < j {
                assert(b[p + 1] == '\\');
            }
            assert(p == j - 1);
            lemma_backslash_run_count(b, i, p);
            let all = scan_delims(b, i);
            assert(all[0].0 == p);
        } else if j < b.len() && (j - i) % 2 == 1 && (b[j] == '(' || b[j] == ')') {
            assert(p != j);
            lemma_scan_finds(b, j + 1, p);
            let rest = scan_delims(b, j + 1);
            let k = choose|k: int| 0 <= k < rest.len() && (#[trigger] rest[k]).0 == p;
            assert(scan_delims(b, i)[k + 1] == rest[k]);
        } else {
            lemma_scan_finds(b, j, p);
            assert(scan_delims(b, i) == scan_delims(b, j));
        }
    } else {
        assert(p != i);
        lemma_scan_finds(b, i + 1, p);
        assert(scan_delims(b, i) == scan_delims(b, i + 1));
    }
}

/// On a line without backticks (so without inline code), the delimiters
/// the scan finds are exactly the unescaped `\(` and `\)`: the backslashes
/// that end an odd run and are followed by `(` or `)`.
pub proof fn lemma_delimiters_without_code(b: Seq<char>)
    requires
        forall|k: int| 0 <= k < b.len() ==> b[k] != '`',
    ensures
        forall|p: int|
            is_unescaped_delimiter(b, p) <==> exists|k: int|
                0 <= k < scan_delims(b, 0).len() && (#[trigger] scan_delims(b, 0)[k]).0 == p,
{
    lemma_delimiters_are_unescaped(b, 0);
    lemma_scan_spaced(b, 0);
    assert forall|p: int|
        is_unescaped_delimiter(b, p) <==> exists|k: int|
            0 <= k < scan_delims(b, 0).len() && (#[trigger] scan_delims(b, 0)[k]).0 == p by {
        if is_unescaped_delimiter(b, p) {
            lemma_scan_finds(b, 0, p);
        }
    }
}

} // verus!
verus! {

/// Every pair runs from a `\(` to a `\)` of `b`.
pub open spec fn pairs_delimited(b: Seq<char>, q: Seq<(int, int)>) -> bool {
    forall|k: int|
        0 <= k < q.len() ==> {
            let (o, c) = #[trigger] q[k];
            &&& b[o] == '\\' && b[o + 1] == '('
            &&& b[c] == '\\' && b[c + 1] == ')'
        }
}

proof fn lemma_count_one(a: char, x: char)
    ensures
        char_count(seq![a], x) == if a == x {
            1nat
        } else {
            0nat
        },
{
    reveal_with_fuel(char_count, 2);
    assert(seq![a].drop_last() == Seq::<char>::empty());
}

proof fn lemma_count_two(a: char, b: char, x: char)
    ensures
        char_count(seq![a, b], x) == (if a == x {
            1nat
        } else {
            0nat
        }) + (if b == x {
            1nat
        } else {
            0nat
        }),
{
    assert(seq![a, b] == seq![a] + seq![b]);
    lemma_char_count_add(seq![a], seq![b], x);
    lemma_count_one(a, x);
    lemma_count_one(b, x);
}

proof fn lemma_splice_counts(b: Seq<char>, q: Seq<(int, int)>, cursor: int, x: char)
    requires
        0 <= cursor <= b.len(),
        pairs_spaced(q, cursor, b.len() as int),
        pairs_delimited(b, q),
        x == '$' || x == '\\',
    ensures
        x == '$' ==> char_count(splice(b, q, cursor), x) == char_count(
            b.subrange(cursor, b.len() as int),
            x,
        ) + 2 * q.len(),
        x == '\\' ==> char_count(splice(b, q, cursor), x) + 2 * q.len() == char_count(
            b.subrange(cursor, b.len() as int),
            x,
        ),
    decreases q.len(),
{
    if q.len() > 0 {
        let o = q[0].0;
        let c = q[0].1;
        let n = b.len() as int;
        assert(cursor <= q[0].0);
        assert(q[0].0 + 2 <= q[0].1 && q[0].1 + 2 <= b.len());
        let r = q.drop_first();
        assert forall|k: int| 0 <= k < r.len() implies c + 2 <= #[trigger] r[k].0 && r[k].0 + 2
            <= r[k].1 && r[k].1 + 2 <= b.len() by {
            assert(r[k] == q[k + 1]);
        }
        assert forall|k: int, l: int| 0 <= k < l < r.len() implies #[trigger] r[k].1 + 2
            <= #[trigger] r[l].0 by {
            assert(r[k] == q[k + 1]);
            assert(r[l] == q[l + 1]);
        }
        assert forall|k: int| 0 <= k < r.len() implies {
            let (o2, c2) = #[trigger] r[k];
            &&& b[o2] == '\\' && b[o2 + 1] == '('
            &&& b[c2] == '\\' && b[c2 + 1] == ')'
        } by {
            assert(r[k] == q[k + 1]);
        }
        lemma_splice_counts(b, r, c + 2, x);
        let (o0, c0) = q[0];
        assert(b[o] == '\\' && b[o + 1] == '(' && b[c] == '\\' && b[c + 1] == ')');
        let s1 = b.subrange(cursor, o);
        let s2 = b.subrange(o + 2, c);
        let rest = b.subrange(c + 2, n);
        assert(b.subrange(o, o + 2) == seq!['\\', '(']);
        assert(b.subrange(c, c + 2) == seq!['\\', ')']);
        assert(b.subrange(cursor, n) == s1 + seq!['\\', '('] + s2 + seq!['\\', ')'] + rest);
        let out_rest = splice(b, r, c + 2);
        assert(splice(b, q, cursor) == s1 + seq!['$'] + s2 + seq!['$'] + out_rest);
        lemma_char_count_add(s1 + seq!['\\', '('] + s2 + seq!['\\', ')'], rest, x);
        lemma_char_count_add(s1 + seq!['\\', '('] + s2, seq!['\\', ')'], x);
        lemma_char_count_add(s1 + seq!['\\', '('], s2, x);
        lemma_char_count_add(s1, seq!['\\', '('], x);
        lemma_char_count_add(s1 + seq!['$'] + s2 + seq!['$'], out_rest, x);
        lemma_char_count_add(s1 + seq!['$'] + s2, seq!['$'], x);
        lemma_char_count_add(s1 + seq!['$'], s2, x);
        lemma_char_count_add(s1, seq!['$'], x);
        lemma_count_two('\\', '(', x);
        lemma_count_two('\\', ')', x);
        lemma_count_one('$', x);
    } else {
        assert(splice(b, q, cursor) == b.subrange(cursor, b.len() as int));
    }
}

/// A rewritten line has at least one span; each span's two-character
/// delimiters become one `$` each, so the line is two characters shorter,
/// holds two more `$` and two fewer backslashes per span, and everything
/// else is kept.
pub proof fn lemma_rewrite_counts(b: Seq<char>)
    ensures
        inline_math_rewrite(b) matches Some(r) ==> {
            let k = math_pairs(b).len();
            &&& k >= 1
            &&& r.len() + 2 * k == b.len()
            &&& char_count(r, '$') == char_count(b, '$') + 2 * k
            &&& char_count(r, '\\') + 2 * k == char_count(b, '\\')
        },
{
    lemma_rewrite_length(b);
    lemma_rewritten_spans_are_delimited(b);
    let q = math_pairs(b);
    assert(b.subrange(0, b.len() as int) == b);
    lemma_splice_counts(b, q, 0, '$');
    lemma_splice_counts(b, q, 0, '\\');
}

} // verus!
verus! {

proof fn lemma_count_at_least_one(s: Seq<char>, i: int, x: char)
    requires
        0 <= i < s.len(),
        s[i] == x,
    ensures
        char_count(s, x) >= 1,
{
    assert(s == s.subrange(0, i) + seq![x] + s.subrange(i + 1, s.len() as int));
    lemma_char_count_add(s.subrange(0, i) + seq![x], s.subrange(i + 1, s.len() as int), x);
    lemma_char_count_add(s.subrange(0, i), seq![x], x);
    lemma_count_one(x, x);
}

/// A rewritten line holds fewer backslashes than the source line; a line
/// left alone is emitted as it is.
proof fn lemma_line_piece_backslashes(s: Seq<char>, pos: int, fence: Option<(char, nat)>)
    requires
        0 <= pos < s.len(),
    ensures
        ({
            let line = s.subrange(pos, line_end(s, pos));
            let (piece, next, changed) = process_line(line, fence);
            &&& changed ==> char_count(piece, '\\') < char_count(line, '\\')
            &&& !changed ==> piece == line
        }),
{
    lemma_line_end_bounds(s, pos);
    let e = line_end(s, pos);
    let line = s.subrange(pos, e);
    let body = eol_body(line);
    let suffix = eol_suffix(line);
    let (piece, next, changed) = process_line(line, fence);
    assert(body.len() <= line.len());
    assert(line == body + line.subrange(body.len() as int, line.len() as int));
    lemma_char_count_add(body, line.subrange(body.len() as int, line.len() as int), '\\');
    if has_eol(line) {
        lemma_count_one('\n', '\\');
    } else {
        assert(suffix == Seq::<char>::empty());
    }
    if changed {
        if is_block_delimiter(body) {
            lemma_trim_bounds(body);
            let t = trimmed(body);
            assert(t[0] == '\\');
            lemma_count_at_least_one(body, trim_lo(body), '\\');
            lemma_count_two('$', '$', '\\');
            lemma_char_count_add(seq!['$', '$'], suffix, '\\');
        } else {
            lemma_rewrite_counts(body);
            let r = inline_math_rewrite(body).unwrap();
            lemma_char_count_add(r, suffix, '\\');
        }
    }
}

proof fn lemma_normalize_from_backslashes(s: Seq<char>, pos: int, fence: Option<(char, nat)>)
    requires
        0 <= pos <= s.len(),
    ensures
        char_count(normalize_from(s, pos, fence).0, '\\') <= char_count(
            s.subrange(pos, s.len() as int),
            '\\',
        ),
        normalize_from(s, pos, fence).1 ==> char_count(normalize_from(s, pos, fence).0, '\\')
            < char_count(s.subrange(pos, s.len() as int), '\\'),
    decreases s.len() - pos,
{
    if pos < s.len() {
        lemma_line_end_bounds(s, pos);
        let e = line_end(s, pos);
        let line = s.subrange(pos, e);
        let (piece, next, changed) = process_line(line, fence);
        lemma_line_piece_backslashes(s, pos, fence);
        lemma_normalize_from_backslashes(s, e, next);
        let rest = normalize_from(s, e, next).0;
        let tail = s.subrange(e, s.len() as int);
        assert(line + tail == s.subrange(pos, s.len() as int));
        lemma_char_count_add(piece, rest, '\\');
        lemma_char_count_add(line, tail, '\\');
    }
}

/// A normalisation that does not hand the source back always changes it:
/// an owned result never equals the source.
pub proof fn lemma_owned_result_differs(s: Seq<char>)
    ensures
        !keeps_source(s) ==> normalized(s) != s,
{
    lemma_normalize_from_backslashes(s, 0, None);
    assert(s.subrange(0, s.len() as int) == s);
}

/// With no `\[`, `\]`, `\(` or `\)` anywhere in the text, no line, fenced
/// or not, is a display-math delimiter line or holds an inline-math pair.
pub proof fn lemma_no_delimiter_line(s: Seq<char>, pos: int)
    requires
        0 <= pos < s.len(),
        !contains_delimiter(s),
    ensures
        ({
            let body = eol_body(s.subrange(pos, line_end(s, pos)));
            &&& !is_block_delimiter(body)
            &&& inline_math_rewrite(body) is None
        }),
{
    lemma_line_end_bounds(s, pos);
    let e = line_end(s, pos);
    let line = s.subrange(pos, e);
    let body = eol_body(line);
    assert(body == s.subrange(pos, pos + body.len()));
    lemma_trim_bounds(body);
    if is_block_delimiter(body) {
        let a = trim_lo(body);
        let t = trimmed(body);
        assert(t.len() == 2);
        assert(t[0] == body[a] && t[1] == body[a + 1]);
        assert(t[0] == '\\' && is_delim_char(t[1]));
        assert(s[pos + a] == body[a]);
        assert(s[pos + a + 1] == t[1]);
        assert(is_delim_char(s[pos + a + 1]));
        assert(false);
    }
    if math_pairs(body).len() > 0 {
        lemma_rewritten_spans_are_delimited(body);
        let (o, c) = math_pairs(body)[0];
        assert(body[o] == '\\' && body[o + 1] == '(');
        assert(s[pos + o] == body[o]);
        assert(s[pos + o + 1] == body[o + 1]);
        assert(is_delim_char(s[pos + o + 1]));
        assert(false);
    }
}

} // verus!
verus! {

// ---------------------------------------------------------------------
// The normalisation line by line
// ---------------------------------------------------------------------

/// The lines of `s` from index `pos` on, each with its `\n` when it has one
/// (`str::split_inclusive('\n')`).
pub open spec fn split_lines(s: Seq<char>, pos: int) -> Seq<Seq<char>>
    decreases s.len() - pos,
{
    if pos < 0 || pos >= s.len() {
        seq![]
    } else {
        let e = line_end(s, pos);
        proof {
            lemma_line_end_bounds(s, pos);
        }
        seq![s.subrange(pos, e)] + split_lines(s, e)
    }
}

/// The fence state in force before each line of `s` from `pos` on.
pub open spec fn line_fences(s: Seq<char>, pos: int, fence: Option<(char, nat)>) -> Seq<
    Option<(char, nat)>,
>
    decreases s.len() - pos,
{
    if pos < 0 || pos >= s.len() {
        seq![]
    } else {
        let e = line_end(s, pos);
        proof {
            lemma_line_end_bounds(s, pos);
        }
        seq![fence] + line_fences(s, e, process_line(s.subrange(pos, e), fence).1)
    }
}

/// What the normalisation emits for each line of `s` from `pos` on.
pub open spec fn line_pieces(s: Seq<char>, pos: int, fence: Option<(char, nat)>) -> Seq<Seq<char>>
    decreases s.len() - pos,
{
    if pos < 0 || pos >= s.len() {
        seq![]
    } else {
        let e = line_end(s, pos);
        proof {
            lemma_line_end_bounds(s, pos);
        }
        let (piece, next, changed) = process_line(s.subrange(pos, e), fence);
        seq![piece] + line_pieces(s, e, next)
    }
}

/// Lines put back together.
pub open spec fn join_lines(lines: Seq<Seq<char>>) -> Seq<char>
    decreases lines.len(),
{
    if lines.len() == 0 {
        seq![]
    } else {
        lines[0] + join_lines(lines.drop_first())
    }
}

/// A non-empty line whose only `\n`, if any, is its last character.
pub open spec fn line_shaped(x: Seq<char>) -> bool {
    x.len() > 0 && forall|k: int| 0 <= k < x.len() - 1 ==> x[k] != '\n'
}

proof fn lemma_count_zero_free(s: Seq<char>, x: char)
    requires
        char_count(s, x) == 0,
    ensures
        forall|k: int| 0 <= k < s.len() ==> s[k] != x,
{
    assert forall|k: int| 0 <= k < s.len() implies s[k] != x by {
        if s[k] == x {
            lemma_count_at_least_one(s, k, x);
        }
    }
}

proof fn lemma_piece_shaped(s: Seq<char>, pos: int, fence: Option<(char, nat)>)
    requires
        0 <= pos < s.len(),
    ensures
        line_shaped(process_line(s.subrange(pos, line_end(s, pos)), fence).0),
        ends_with_newline(process_line(s.subrange(pos, line_end(s, pos)), fence).0) == (line_end(
            s,
            pos,
        ) < s.len() || s.last() == '\n'),
{
    lemma_line_end_bounds(s, pos);
    lemma_line_piece_structure(s, pos, fence);
    let e = line_end(s, pos);
    let line = s.subrange(pos, e);
    let piece = process_line(line, fence).0;
    assert(line.drop_last() == s.subrange(pos, e - 1));
    lemma_char_free_count(line.drop_last(), '\n');
    lemma_char_count_add(line.drop_last(), seq![line.last()], '\n');
    assert(line.drop_last() + seq![line.last()] == line);
    lemma_count_one(line.last(), '\n');
    lemma_char_count_add(piece.drop_last(), seq![piece.last()], '\n');
    assert(piece.drop_last() + seq![piece.last()] == piece);
    lemma_count_one(piece.last(), '\n');
    lemma_count_zero_free(piece.drop_last(), '\n');
    assert forall|k: int| 0 <= k < piece.len() - 1 implies piece[k] != '\n' by {
        assert(piece[k] == piece.drop_last()[k]);
    }
    if e == s.len() {
        assert(line.last() == s.last());
    }
}

proof fn lemma_pieces(s: Seq<char>, pos: int, fence: Option<(char, nat)>)
    requires
        0 <= pos <= s.len(),
    ensures
        ({
            let lines = split_lines(s, pos);
            let fences = line_fences(s, pos, fence);
            let pieces = line_pieces(s, pos, fence);
            &&& lines.len() == fences.len() && lines.len() == pieces.len()
            &&& join_lines(pieces) == normalize_from(s, pos, fence).0
            &&& lines.len() > 0 ==> fences[0] == fence
            &&& forall|i: int|
                1 <= i < lines.len() ==> #[trigger] fences[i] == process_line(
                    lines[i - 1],
                    fences[i - 1],
                ).1
            &&& forall|i: int|
                0 <= i < lines.len() ==> #[trigger] pieces[i] == process_line(lines[i], fences[i]).0
            &&& forall|i: int| 0 <= i < pieces.len() ==> line_shaped(#[trigger] pieces[i])
            &&& forall|i: int| 0 <= i < pieces.len() - 1 ==> ends_with_newline(#[trigger] pieces[i])
        }),
    decreases s.len() - pos,
{
    if pos < s.len() {
        lemma_line_end_bounds(s, pos);
        let e = line_end(s, pos);
        let line = s.subrange(pos, e);
        let (piece, next, changed) = process_line(line, fence);
        lemma_pieces(s, e, next);
        lemma_piece_shaped(s, pos, fence);
        let lines = split_lines(s, pos);
        let fences = line_fences(s, pos, fence);
        let pieces = line_pieces(s, pos, fence);
        let l2 = split_lines(s, e);
        let f2 = line_fences(s, e, next);
        let p2 = line_pieces(s, e, next);
        assert(lines == seq![line] + l2);
        assert(fences == seq![fence] + f2);
        assert(pieces == seq![piece] + p2);
        assert(pieces.drop_first() == p2);
        assert forall|i: int|
            1 <= i < lines.len() implies #[trigger] fences[i] == process_line(
            lines[i - 1],
            fences[i - 1],
        ).1 by {
            assert(fences[i] == f2[i - 1]);
            if i > 1 {
                assert(fences[i - 1] == f2[i - 2] && lines[i - 1] == l2[i - 2]);
            } else {
                assert(l2.len() > 0);
                assert(f2[0] == next);
                assert(lines[0] == line);
                assert(fences[0] == fence);
            }
        }
        assert forall|i: int| 0 <= i < lines.len() implies #[trigger] pieces[i] == process_line(
            lines[i],
            fences[i],
        ).0 by {
            if i > 0 {
                assert(pieces[i] == p2[i - 1] && lines[i] == l2[i - 1] && fences[i] == f2[i - 1]);
            }
        }
        assert forall|i: int| 0 <= i < pieces.len() implies line_shaped(#[trigger] pieces[i]) by {
            if i > 0 {
                assert(pieces[i] == p2[i - 1]);
            }
        }
        assert forall|i: int| 0 <= i < pieces.len() - 1 implies ends_with_newline(
            #[trigger] pieces[i],
        ) by {
            if i > 0 {
                assert(pieces[i] == p2[i - 1]);
            }
        }
    }
}

proof fn lemma_line_end_shift(a: Seq<char>, b: Seq<char>, i: int)
    requires
        0 <= i <= b.len(),
    ensures
        line_end(a + b, a.len() + i) == a.len() + line_end(b, i),
    decreases b.len() - i,
{
    if i < b.len() {
        assert((a + b)[a.len() + i] == b[i]);
        if b[i] != '\n' {
            lemma_line_end_shift(a, b, i + 1);
        }
    }
}

proof fn lemma_split_lines_shift(a: Seq<char>, b: Seq<char>, i: int)
    requires
        0 <= i <= b.len(),
    ensures
        split_lines(a + b, a.len() + i) == split_lines(b, i),
    decreases b.len() - i,
{
    if i < b.len() {
        lemma_line_end_shift(a, b, i);
        lemma_line_end_bounds(b, i);
        let e = line_end(b, i);
        lemma_split_lines_shift(a, b, e);
        assert((a + b).subrange(a.len() + i, a.len() + e) == b.subrange(i, e));
    }
}

proof fn lemma_first_line_end(x: Seq<char>, y: Seq<char>, i: int)
    requires
        line_shaped(x),
        ends_with_newline(x) || y.len() == 0,
        0 <= i < x.len(),
    ensures
        line_end(x + y, i) == x.len(),
    decreases x.len() - i,
{
    assert((x + y)[i] == x[i]);
    if i < x.len() - 1 {
        lemma_first_line_end(x, y, i + 1);
    } else if x[i] != '\n' {
        assert(x + y == x);
        assert(line_end(x, i + 1) == i + 1);
    }
}

proof fn lemma_split_join(pieces: Seq<Seq<char>>)
    requires
        forall|i: int| 0 <= i < pieces.len() ==> line_shaped(#[trigger] pieces[i]),
        forall|i: int| 0 <= i < pieces.len() - 1 ==> ends_with_newline(#[trigger] pieces[i]),
    ensures
        split_lines(join_lines(pieces), 0) == pieces,
    decreases pieces.len(),
{
    if pieces.len() > 0 {
        let x = pieces[0];
        let rest = pieces.drop_first();
        assert forall|i: int| 0 <= i < rest.len() implies line_shaped(#[trigger] rest[i]) by {
            assert(rest[i] == pieces[i + 1]);
        }
        assert forall|i: int| 0 <= i < rest.len() - 1 implies ends_with_newline(#[trigger] rest[i]) by {
            assert(rest[i] == pieces[i + 1]);
        }
        lemma_split_join(rest);
        let y = join_lines(rest);
        if rest.len() == 0 {
            assert(y == Seq::<char>::empty());
        }
        lemma_first_line_end(x, y, 0);
        lemma_split_lines_shift(x, y, 0);
        assert((x + y).subrange(0, x.len() as int) == x);
        assert(split_lines(x + y, 0) == seq![x] + split_lines(x + y, x.len() as int));
        assert(seq![x] + rest == pieces);
    } else {
        assert(join_lines(pieces) == Seq::<char>::empty());
    }
}

/// The result has one line for each line of the source, in order: line `i`
/// of the result is what line `i` of the source becomes in the fence state
/// before it. That state is "no fence" before the first line, and each
/// line's own outcome after it.
pub proof fn lemma_output_lines(s: Seq<char>)
    ensures
        ({
            let lines = split_lines(s, 0);
            let fences = line_fences(s, 0, None);
            let out = split_lines(normalized(s), 0);
            &&& out.len() == lines.len() && fences.len() == lines.len()
            &&& lines.len() > 0 ==> fences[0] is None
            &&& forall|i: int|
                1 <= i < lines.len() ==> #[trigger] fences[i] == process_line(
                    lines[i - 1],
                    fences[i - 1],
                ).1
            &&& forall|i: int|
                0 <= i < lines.len() ==> #[trigger] out[i] == process_line(lines[i], fences[i]).0
        }),
{
    lemma_pieces(s, 0, None);
    lemma_normalized_is_line_rewrite(s);
    lemma_split_join(line_pieces(s, 0, None));
}

/// The fence state after a line, given the state before it: an open fence
/// stays open until a line closes it; outside a fence, a line may open one.
pub open spec fn fence_after(line: Seq<char>, fence: Option<(char, nat)>) -> Option<(char, nat)> {
    let body = eol_body(line);
    match fence {
        Some((ch, len)) => if fence_close(body, ch, len) {
            None
        } else {
            fence
        },
        None => fence_open(body),
    }
}

/// The fence state before each line of `s` from `pos` on.
pub open spec fn fence_states(s: Seq<char>, pos: int, fence: Option<(char, nat)>) -> Seq<
    Option<(char, nat)>,
>
    decreases s.len() - pos,
{
    if pos < 0 || pos >= s.len() {
        seq![]
    } else {
        let e = line_end(s, pos);
        proof {
            lemma_line_end_bounds(s, pos);
        }
        seq![fence] + fence_states(s, e, fence_after(s.subrange(pos, e), fence))
    }
}

proof fn lemma_fence_states_agree(s: Seq<char>, pos: int, fence: Option<(char, nat)>)
    requires
        0 <= pos <= s.len(),
    ensures
        fence_states(s, pos, fence) == line_fences(s, pos, fence),
    decreases s.len() - pos,
{
    if pos < s.len() {
        lemma_line_end_bounds(s, pos);
        let e = line_end(s, pos);
        let line = s.subrange(pos, e);
        assert(process_line(line, fence).1 == fence_after(line, fence));
        lemma_fence_states_agree(s, e, fence_after(line, fence));
    }
}

/// Line by line, with `fences[i]` the fence state before line `i`: the
/// result has one line per source line, and line `i` becomes
/// * itself, when a fence is open or the line opens one;
/// * `$$` (and `\n` if it had a line ending), when it is a standalone
///   `\[` or `\]` line;
/// * otherwise, whatever its indentation, its body with each `\(...\)`
///   pair rewritten to `$...$` followed by `\n` when the body has a pair,
///   and itself when it has none.
pub proof fn lemma_line_outcomes(s: Seq<char>, i: int)
    requires
        0 <= i < split_lines(s, 0).len(),
    ensures
        ({
            let lines = split_lines(s, 0);
            let fences = fence_states(s, 0, None);
            let out = split_lines(normalized(s), 0);
            let body = eol_body(lines[i]);
            let eol = if has_eol(lines[i]) {
                seq!['\n']
            } else {
                Seq::<char>::empty()
            };
            &&& out.len() == lines.len() && fences.len() == lines.len()
            &&& i == 0 ==> fences[i] is None
            &&& i + 1 < lines.len() ==> fences[i + 1] == fence_after(lines[i], fences[i])
            &&& (fences[i] is Some || fence_open(body) is Some) ==> out[i] == lines[i]
            &&& (fences[i] is None && fence_open(body) is None && is_block_delimiter(body))
                ==> out[i] == seq!['$', '$'] + eol
            &&& (fences[i] is None && fence_open(body) is None && !is_block_delimiter(body))
                ==> match inline_math_rewrite(body) {
                Some(r) => out[i] == r + eol,
                None => out[i] == lines[i],
            }
        }),
{
    lemma_output_lines(s);
    lemma_fence_states_agree(s, 0, None);
    let lines = split_lines(s, 0);
    let fences = line_fences(s, 0, None);
    if i + 1 < lines.len() {
        assert(fences[i + 1] == process_line(lines[i], fences[i]).1);
        assert(process_line(lines[i], fences[i]).1 == fence_after(lines[i], fences[i]));
    }
}

} // verus!
