# mdrender

Verified helpers of a terminal Markdown viewer.

- `src/latex_delim.rs`: rewrites LaTeX math delimiters (`\[ \]`, `\( \)`)
  into the dollar forms understood by the Markdown math extension, leaving
  fenced code, inline code and escaped backslashes alone.
- `src/inline.rs`: parses the `--inline` spec `[fmt][:width[:gutter]]` and
  picks the output format and width.
- `src/render.rs`: renders styled lines as plain or ANSI-styled text,
  soft-wrapped at a column width with a left gutter.
- `src/text.rs`: character helpers (whitespace, trimming, decimal numbers).
- `app/`: the terminal glue (terminal size, ratatui lines, the output stream).

Every function in `src/` carries a contract. Verus proves them all except
two trusted wrappers whose bodies are single outside calls and whose
contracts it takes on trust: `char_width` in `src/render.rs`, which calls
unicode-width's `UnicodeWidthChar::width`, and `push_char` in
`src/text.rs`, which calls `String::push`. The `lemma_*` proof functions
state properties of the library as a whole.
