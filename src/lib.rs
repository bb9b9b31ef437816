//! Renders source text as syntax-highlighted HTML from a stream of
//! highlight events.
//!
//! The markup is fixed: a root `<code class="tree-sitter-code">` container;
//! each highlighted region a `<span>` whose classes are the dot-separated
//! segments of its capture name, each prefixed with `ts-`
//! (`function.call` gives `ts-function ts-call`); literal text with `&`, `<`,
//! `>` and `"` replaced by entities. Any refused event makes the whole
//! rendering fail; no partial markup is returned. A language that cannot be
//! resolved gives no result: there is no plain-text fallback.
pub mod escape;
pub mod markup;
pub mod laws;

pub use markup::{class_list_of, compile_markup, HighlightEvent, MarkupCompiler, RenderError};
