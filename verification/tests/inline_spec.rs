use mdrender::inline::{
    is_inline_spec, lex_inline_spec, parse_gutter, parse_inline_spec, parse_width, render_width,
    resolve_format, InlineFormat, InlineSpec, ResolvedFormat, SpecError,
};

fn spec(format: InlineFormat, width: Option<usize>, gutter: usize) -> InlineSpec {
    InlineSpec { format, width, gutter }
}

#[test]
fn keyword_specs_parse() {
    assert_eq!(parse_inline_spec("ansi"), Ok(spec(InlineFormat::Ansi, None, 0)));
    assert_eq!(parse_inline_spec(" plain:100:4 "), Ok(spec(InlineFormat::Plain, Some(100), 4)));
    assert_eq!(parse_inline_spec("ANSI:10"), Ok(spec(InlineFormat::Ansi, Some(20), 0)));
}

#[test]
fn numeric_specs_parse() {
    assert_eq!(parse_inline_spec("120"), Ok(spec(InlineFormat::Auto, Some(120), 0)));
    assert_eq!(parse_inline_spec("80:2"), Ok(spec(InlineFormat::Auto, Some(80), 2)));
}

#[test]
fn empty_spec_is_refused() {
    assert_eq!(parse_inline_spec(""), Err(SpecError::Empty));
    assert_eq!(parse_inline_spec("   "), Err(SpecError::Empty));
    assert_eq!(SpecError::Empty.message(), "Empty inline spec");
}

#[test]
fn missing_head_is_refused() {
    let err = parse_inline_spec(":80").unwrap_err();
    assert_eq!(err, SpecError::InvalidSpec(":80".to_string()));
    assert_eq!(err.message(), "Invalid inline spec: :80 (expected [fmt][:width[:gutter]])");
}

#[test]
fn unknown_format_is_refused() {
    let err = parse_inline_spec("html").unwrap_err();
    assert_eq!(err, SpecError::UnknownFormat("html".to_string()));
    assert_eq!(err.message(), "Unknown inline format: html (expected 'ansi' or 'plain')");
}

#[test]
fn bad_width_is_refused() {
    let err = parse_inline_spec("ansi:abc").unwrap_err();
    assert_eq!(err, SpecError::InvalidWidth("abc".to_string()));
    assert_eq!(err.message(), "Invalid width: abc");
    assert_eq!(parse_inline_spec("ansi:"), Err(SpecError::InvalidWidth(String::new())));
    assert_eq!(
        parse_inline_spec("99999999999999999999999"),
        Err(SpecError::InvalidWidth("99999999999999999999999".to_string()))
    );
}

#[test]
fn bad_gutter_is_refused() {
    let err = parse_inline_spec("ansi:80:x").unwrap_err();
    assert_eq!(err, SpecError::InvalidGutter("x".to_string()));
    assert_eq!(err.message(), "Invalid gutter: x");
}

#[test]
fn too_many_segments_are_refused() {
    assert_eq!(
        parse_inline_spec("ansi:80:2:3"),
        Err(SpecError::InvalidSpec("ansi:80:2:3".to_string()))
    );
    assert_eq!(parse_inline_spec("80:2:3"), Err(SpecError::InvalidSpec("80:2:3".to_string())));
}

#[test]
fn zero_width_is_refused() {
    let err = parse_inline_spec("0").unwrap_err();
    assert_eq!(err, SpecError::ZeroWidth);
    assert_eq!(err.message(), "Width must be a positive integer");
}

#[test]
fn gutter_must_leave_room() {
    let err = parse_inline_spec("ansi:30:30").unwrap_err();
    assert_eq!(err, SpecError::GutterTooWide { gutter: 30, width: 30 });
    assert_eq!(err.message(), "gutter (30) must be smaller than width (30)");
    assert_eq!(
        parse_inline_spec("ansi:10:25"),
        Err(SpecError::GutterTooWide { gutter: 25, width: 20 })
    );
    assert_eq!(parse_inline_spec("ansi:30:29"), Ok(spec(InlineFormat::Ansi, Some(30), 29)));
}

#[test]
fn lexing_keeps_segments_unparsed() {
    assert_eq!(lex_inline_spec("plain:40"), Ok((InlineFormat::Plain, Some("40"), None)));
    assert_eq!(lex_inline_spec("7:1"), Ok((InlineFormat::Auto, Some("7"), Some("1"))));
    assert_eq!(lex_inline_spec("ansi"), Ok((InlineFormat::Ansi, None, None)));
    assert_eq!(lex_inline_spec(""), Err(SpecError::Empty));
}

#[test]
fn width_and_gutter_numbers() {
    assert_eq!(parse_width("+5"), Ok(20));
    assert_eq!(parse_width("150"), Ok(150));
    assert_eq!(parse_width("-5"), Err(SpecError::InvalidWidth("-5".to_string())));
    assert_eq!(parse_width("0"), Err(SpecError::ZeroWidth));
    assert_eq!(parse_gutter("007"), Ok(7));
    assert_eq!(parse_gutter(""), Err(SpecError::InvalidGutter(String::new())));
}

#[test]
fn spec_recognition() {
    assert!(is_inline_spec("ansi"));
    assert!(is_inline_spec("Plain:3"));
    assert!(is_inline_spec("12"));
    assert!(is_inline_spec("ansi:oops"));
    assert!(is_inline_spec(" 80"));
    assert!(!is_inline_spec("-ansi"));
    assert!(!is_inline_spec("readme.md"));
    assert!(!is_inline_spec(""));
    assert!(!is_inline_spec(":80"));
}

#[test]
fn accepted_specs_are_recognised() {
    for value in ["ansi", " plain:100:4 ", "120", "80:2", "ANSI:10"] {
        assert!(parse_inline_spec(value).is_ok());
        assert!(is_inline_spec(value));
    }
}

#[test]
fn width_choice() {
    let given = spec(InlineFormat::Auto, Some(10), 0);
    assert_eq!(render_width(&given, true, Some(200)), 20);
    let open = spec(InlineFormat::Auto, None, 0);
    assert_eq!(render_width(&open, true, Some(120)), 120);
    assert_eq!(render_width(&open, true, Some(5)), 20);
    assert_eq!(render_width(&open, true, None), 80);
    assert_eq!(render_width(&open, false, Some(120)), 80);
}

#[test]
fn format_choice() {
    let auto = spec(InlineFormat::Auto, None, 0);
    assert_eq!(resolve_format(&auto, true), ResolvedFormat::Ansi);
    assert_eq!(resolve_format(&auto, false), ResolvedFormat::Plain);
    let plain = spec(InlineFormat::Plain, None, 0);
    assert_eq!(resolve_format(&plain, true), ResolvedFormat::Plain);
    let ansi = spec(InlineFormat::Ansi, None, 0);
    assert_eq!(resolve_format(&ansi, false), ResolvedFormat::Ansi);
}

#[test]
fn lexer_accepts_only_the_spec_shapes() {
    for ok in ["ansi", "PLAIN:3", "Ansi:10:2", "42", "42:0"] {
        assert!(lex_inline_spec(ok).is_ok(), "{ok}");
    }
    for bad in ["", "ansi:", "ansi:1:2:3", "42:1:2", "ansi:x", "4a", ":1", "plain::1"] {
        assert!(lex_inline_spec(bad).is_err(), "{bad}");
    }
}
