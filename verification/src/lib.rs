//! A compiler for a small nested-selector stylesheet language.
//!
//! Source text is scanned into a token sequence, parsed into a tree of
//! selector blocks, and flattened into ordinary rule-per-block style text.
//! Nested selectors are resolved against their parent: a `&` marker is
//! replaced by the parent's resolved selector, and any other nested selector
//! is joined to it with a single space (the descendant combinator).

pub mod compiler;
pub mod lexer;
pub mod parse;
pub mod types;
