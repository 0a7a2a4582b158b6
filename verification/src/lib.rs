//! Markdown to HTML rendering, split into line chunks.
pub mod text;
pub mod chunker;
pub mod highlighter;
pub mod inline;
pub mod line_patterns;
pub mod list;
pub mod parser;
pub mod processor;
