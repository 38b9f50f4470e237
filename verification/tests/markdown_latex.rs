use std::borrow::Cow;

use mdrender::latex_delim::normalize_latex_delimiters;

fn non_empty_lines(text: &str) -> Vec<String> {
    text.lines()
        .filter(|l| !l.trim().is_empty())
        .map(|l| l.to_string())
        .collect()
}

/// Block-level LaTeX written with `\[ ... \]` becomes the dollar form.
#[test]
fn bracket_form_renders_identically_to_dollar_form() {
    let bracket = "Lead-in line.\n\n\\[\nx = y + z\n\\]\n\nTrailing line.\n";
    let dollar = "Lead-in line.\n\n$$\nx = y + z\n$$\n\nTrailing line.\n";

    let lhs = normalize_latex_delimiters(bracket);
    let rhs = normalize_latex_delimiters(dollar);

    assert_eq!(non_empty_lines(&lhs), non_empty_lines(&rhs));
    assert_eq!(lhs, dollar);
    // The display-math block is there: its delimiter lines are `$$`.
    assert!(
        non_empty_lines(&lhs).iter().filter(|l| l.as_str() == "$$").count() == 2,
        "expected a LaTeX block in the output, got: {lhs:#?}",
    );
}

/// Indented `\[` / `\]` delimiter lines still trigger the rewrite.
#[test]
fn indented_bracket_delimiters_are_recognised() {
    let src = "Intro.\n\n    \\[\n    a = b\n    \\]\n\nOutro.\n";
    let dollar = "Intro.\n\n$$\na = b\n$$\n\nOutro.\n";

    let lhs = normalize_latex_delimiters(src);
    let rhs = normalize_latex_delimiters(dollar);

    assert!(non_empty_lines(&lhs).iter().any(|l| l.as_str() == "$$"));
    assert!(non_empty_lines(&rhs).iter().any(|l| l.as_str() == "$$"));
    assert_eq!(lhs, "Intro.\n\n$$\n    a = b\n$$\n\nOutro.\n");
}

/// `\[` / `\]` shown as literal text inside a fenced code block are not
/// rewritten.
#[test]
fn fenced_code_block_protects_bracket_delimiters() {
    let src = "Example:\n\n```text\n\\[\nthis is shown as-is\n\\]\n```\n";

    let out = normalize_latex_delimiters(src);
    let joined = non_empty_lines(&out).join("\n");

    assert!(
        joined.contains("\\["),
        "expected literal \\[ to survive inside fenced code, got:\n{joined}",
    );
    assert!(
        joined.contains("\\]"),
        "expected literal \\] to survive inside fenced code, got:\n{joined}",
    );
    assert!(
        !joined.contains("$$"),
        "fenced code block should not be rewritten to a latex block; got:\n{joined}",
    );
    assert!(matches!(out, Cow::Borrowed(_)));
}

/// Inline `\[` and `\]` mid-paragraph are Markdown escapes, not LaTeX.
#[test]
fn inline_escaped_brackets_in_prose_are_untouched() {
    let src = "See appendix \\[A\\] for details.\n";

    let out = normalize_latex_delimiters(src);
    let joined = non_empty_lines(&out).join("\n");

    assert!(
        joined.contains("\\[A\\]"),
        "expected escaped brackets to stay as written, got:\n{joined}",
    );
    assert!(
        !joined.contains("$$"),
        "inline escaped brackets must not produce a latex block; got:\n{joined}",
    );
    assert_eq!(out, src);
}

/// Sources without any LaTeX delimiter come back unchanged.
#[test]
fn sources_without_latex_delimiters_are_unchanged() {
    let src = "# Title\n\nA paragraph with no math at all.\n";

    let out = normalize_latex_delimiters(src);
    let lines = non_empty_lines(&out);

    assert!(lines.iter().any(|l| l.contains("Title")));
    assert!(lines.iter().any(|l| l.contains("A paragraph with no math at all.")));
    assert!(matches!(out, Cow::Borrowed(s) if s == src));
}

/// Inline `\(...\)` becomes its dollar-delimited equivalent `$...$`.
#[test]
fn inline_paren_form_matches_dollar_form() {
    let paren = "Consider \\(x = y + z\\) in this case.\n";
    let dollar = "Consider $x = y + z$ in this case.\n";

    assert_eq!(normalize_latex_delimiters(paren), normalize_latex_delimiters(dollar));
}

/// Multiple inline math spans on one line are each rewritten.
#[test]
fn multiple_inline_spans_on_one_line() {
    let paren = "We have \\(a\\) and \\(b\\) together.\n";
    let dollar = "We have $a$ and $b$ together.\n";

    assert_eq!(normalize_latex_delimiters(paren), normalize_latex_delimiters(dollar));
}

/// `\(...\)` inside an inline-code span is kept verbatim.
#[test]
fn inline_paren_inside_code_span_is_untouched() {
    let src = "The literal text `\\(x\\)` is shown as-is.\n";

    let out = normalize_latex_delimiters(src);
    let joined = non_empty_lines(&out).join("\n");

    assert!(
        joined.contains("\\(x\\)"),
        "expected literal \\(x\\) inside inline code, got:\n{joined}",
    );
}

/// `\(...\)` inside a fenced code block is kept verbatim.
#[test]
fn inline_paren_inside_fenced_code_is_untouched() {
    let src = "```text\nuse \\(x\\) for inline math\n```\n";

    let out = normalize_latex_delimiters(src);
    let joined = non_empty_lines(&out).join("\n");

    assert!(
        joined.contains("\\(x\\)"),
        "expected literal \\(x\\) inside fenced code, got:\n{joined}",
    );
}

/// A `\(` with no matching `\)` on the same line is left untouched.
#[test]
fn unmatched_inline_opener_is_left_intact() {
    let src = "An opener with no closer: \\(x is fine.\n";

    let out = normalize_latex_delimiters(src);
    let joined = non_empty_lines(&out).join("\n");

    assert!(
        !joined.contains('$'),
        "unmatched opener must not introduce a stray $, got:\n{joined}",
    );
    assert!(joined.contains("(x is fine"));
}

/// An escaped backslash `\\(` is not a math opener.
#[test]
fn double_backslash_paren_is_not_a_math_opener() {
    let src = "Literal backslash-paren: \\\\(x\\\\) here.\n";

    let out = normalize_latex_delimiters(src);
    let joined = non_empty_lines(&out).join("\n");

    assert!(
        !joined.contains('$'),
        "escaped backslash must not yield a math span, got:\n{joined}",
    );
}

/// `\\\(` is an escaped backslash followed by a real math opener.
#[test]
fn triple_backslash_paren_is_a_math_opener() {
    let paren = "Edge: \\\\\\(x\\\\\\) end.\n";
    let dollar = "Edge: \\\\$x\\\\$ end.\n";

    assert_eq!(normalize_latex_delimiters(paren), normalize_latex_delimiters(dollar));
}
