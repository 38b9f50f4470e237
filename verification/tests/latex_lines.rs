use std::borrow::Cow;

use mdrender::latex_delim::{
    detect_fence_open, is_fence_close, needs_normalization, normalize_latex_delimiters,
    rewrite_inline_math, split_eol,
};

#[test]
fn split_eol_strips_lf_and_crlf() {
    assert_eq!(split_eol("abc\r\n"), ("abc", true));
    assert_eq!(split_eol("abc\n"), ("abc", true));
    assert_eq!(split_eol("abc"), ("abc", false));
    assert_eq!(split_eol("\r"), ("\r", false));
    assert_eq!(split_eol("\n"), ("", true));
    assert_eq!(split_eol(""), ("", false));
}

#[test]
fn fence_openers_are_three_or_more_backticks_or_tildes() {
    assert_eq!(detect_fence_open("  ````rust"), Some(('`', 4)));
    assert_eq!(detect_fence_open("~~~"), Some(('~', 3)));
    assert_eq!(detect_fence_open("``"), None);
    assert_eq!(detect_fence_open("text"), None);
    assert_eq!(detect_fence_open(""), None);
    assert_eq!(detect_fence_open("   "), None);
}

#[test]
fn fence_closers_match_character_and_length() {
    assert!(is_fence_close("```", '`', 3));
    assert!(is_fence_close("  ````  ", '`', 3));
    assert!(!is_fence_close("``", '`', 3));
    assert!(!is_fence_close("```x", '`', 3));
    assert!(!is_fence_close("~~~", '`', 3));
    assert!(!is_fence_close("   ", '`', 3));
}

#[test]
fn inline_math_pairs_are_rewritten() {
    assert_eq!(rewrite_inline_math("a \\(x\\) b"), Some("a $x$ b".to_string()));
    assert_eq!(rewrite_inline_math("\\(a\\(b\\)"), Some("\\(a$b$".to_string()));
    assert_eq!(rewrite_inline_math("\\)x\\(y\\)"), Some("\\)x$y$".to_string()));
    assert_eq!(rewrite_inline_math("é \\(α\\) ü"), Some("é $α$ ü".to_string()));
}

#[test]
fn inline_math_without_pairs_is_left_alone() {
    assert_eq!(rewrite_inline_math("`\\(x\\)`"), None);
    assert_eq!(rewrite_inline_math("``a`\\(x\\)``"), None);
    assert_eq!(rewrite_inline_math("\\(open only"), None);
    assert_eq!(rewrite_inline_math("\\\\(x\\\\)"), None);
    assert_eq!(rewrite_inline_math("plain"), None);
}

#[test]
fn delimiter_prefix_detection() {
    assert!(needs_normalization("a\\(b"));
    assert!(needs_normalization("\\]"));
    assert!(!needs_normalization("plain"));
    assert!(!needs_normalization("\\"));
    assert!(!needs_normalization("\\x"));
    assert!(!needs_normalization(""));
}

#[test]
fn crlf_delimiter_lines_become_dollar_lines() {
    let out = normalize_latex_delimiters("\\[\r\nx\r\n\\]\r\n");
    assert_eq!(out, "$$\nx\r\n$$\n");
    assert!(matches!(out, Cow::Owned(_)));
}

#[test]
fn delimiter_line_without_newline() {
    assert_eq!(normalize_latex_delimiters("\\]"), "$$");
    assert_eq!(normalize_latex_delimiters("text \\(a\\)"), "text $a$");
}

#[test]
fn tilde_fence_is_closed_by_tildes() {
    let out = normalize_latex_delimiters("~~~\n\\[\n~~~\n\\[\n");
    assert_eq!(out, "~~~\n\\[\n~~~\n$$\n");
}

#[test]
fn shorter_fence_does_not_close_a_longer_one() {
    let src = "````\n```\n\\(a\\)\n````\n\\(b\\)";
    assert_eq!(normalize_latex_delimiters(src), "````\n```\n\\(a\\)\n````\n$b$");
}

#[test]
fn unclosed_fence_keeps_everything_after_it() {
    let src = "```\n\\[\n\\(a\\)\n";
    let out = normalize_latex_delimiters(src);
    assert!(matches!(out, Cow::Borrowed(s) if s == src));
}

#[test]
fn unchanged_source_is_borrowed() {
    let src = "see \\[A\\] and \\(x\n";
    let out = normalize_latex_delimiters(src);
    assert!(matches!(out, Cow::Borrowed(s) if s == src));
}

#[test]
fn rewrite_shortens_by_two_per_span() {
    let body = "We have \\(a\\) and \\(b\\) together.";
    let out = rewrite_inline_math(body).unwrap();
    assert_eq!(out.chars().count(), body.chars().count() - 4);
}

#[test]
fn lone_backtick_does_not_hide_inline_math() {
    assert_eq!(rewrite_inline_math("`a \\(x\\)"), Some("`a $x$".to_string()));
    assert_eq!(normalize_latex_delimiters("`a \\(x\\)\n"), "`a $x$\n");
    assert_eq!(rewrite_inline_math("``a` \\(x\\)"), Some("``a` $x$".to_string()));
    assert_eq!(rewrite_inline_math("`code` \\(x\\) `more`"), Some("`code` $x$ `more`".to_string()));
    assert_eq!(rewrite_inline_math("`a \\(x\\) `b"), None);
}

#[test]
fn closed_fence_block_is_verbatim_and_text_after_it_is_not() {
    let src = "```\n\\[\n\\(a\\)\n```\n\\(b\\)\n";
    assert_eq!(normalize_latex_delimiters(src), "```\n\\[\n\\(a\\)\n```\n$b$\n");
}

#[test]
fn line_structure_is_kept() {
    for src in ["a\r\n\\[\r\nx\r\n\\]", "\\(a\\)\n\n\\]\n", "no newline \\(a\\)"] {
        let out = normalize_latex_delimiters(src);
        assert_eq!(out.matches('\n').count(), src.matches('\n').count());
        assert_eq!(out.ends_with('\n'), src.ends_with('\n'));
    }
}

#[test]
fn owned_results_differ_from_the_source() {
    for src in ["\\[\n", "a \\(b\\)", "x\n\\]\ny \\(z\\)\n"] {
        let out = normalize_latex_delimiters(src);
        assert!(matches!(out, Cow::Owned(_)));
        assert_ne!(out, src);
    }
}

#[test]
fn rewrite_adds_two_dollars_per_span() {
    let body = "cost $5: \\(a\\) and \\(b\\)";
    let out = rewrite_inline_math(body).unwrap();
    assert_eq!(out.matches('$').count(), body.matches('$').count() + 4);
    assert_eq!(out.matches('\\').count() + 4, body.matches('\\').count());
    assert_eq!(out.len() + 4, body.len());
}

#[test]
fn output_lines_follow_source_lines() {
    let src = "text \\(a\\)\n```\n\\[\n```\n  \\]\r\nend";
    let out = normalize_latex_delimiters(src);
    let src_lines: Vec<&str> = src.split_inclusive('\n').collect();
    let out_lines: Vec<&str> = out.split_inclusive('\n').collect();
    assert_eq!(out_lines.len(), src_lines.len());
    assert_eq!(out_lines[0], "text $a$\n");
    assert_eq!(&out_lines[1..4], &src_lines[1..4]);
    assert_eq!(out_lines[4], "$$\n");
    assert_eq!(out_lines[5], "end");
}

#[test]
fn no_delimiters_means_no_line_is_rewritten() {
    let src = "```\n[x] (y)\n```\nplain \\ text\n";
    assert!(!needs_normalization(src));
    for line in src.split_inclusive('\n') {
        let (body, _) = split_eol(line);
        assert_eq!(rewrite_inline_math(body), None);
        assert!(body.trim() != "\\[" && body.trim() != "\\]");
    }
}
