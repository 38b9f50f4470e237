//! Terminal rendering helpers for a Markdown viewer: LaTeX delimiter
//! normalisation, `--inline` spec parsing and line rendering.

pub mod inline;
pub mod latex_delim;
pub mod render;
pub mod text;

