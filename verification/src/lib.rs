//! Parser for `@tag`-style documentation-comment annotations.
//!
//! The input text is first tokenized into a small alphabet of lexical
//! tokens (`lexer`), then a sliding-window grammar pass turns the token
//! stream into a flat sequence of structured items: recognized tags with
//! their metadata and arguments, literal text runs, and group delimiters
//! (`parser`).

pub mod lexer;
pub mod parser;
pub mod props;
