//! Shell-style wildcard patterns.
//!
//! A pattern is compiled from text (`*`, `?`, `[abc]`, `[!abc]`, `[a-z]`)
//! into an immutable token sequence, which can then be matched against
//! subject strings or rendered back to canonical pattern text.

pub mod ast;
pub mod laws;
pub mod matcher;
pub mod parser;
pub mod render;
pub mod text;

pub use crate::ast::Wildcard;
pub use crate::parser::WildcardParseError;
