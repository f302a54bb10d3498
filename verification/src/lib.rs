//! Parse and produce patch files (diffs) in the Unified Format.
//!
//! The parser attempts to be forgiving enough to be compatible with diffs
//! produced by programs like git, by ignoring the additional code context
//! and information those programs add to the diff.

pub mod ast;
pub mod grammar;
pub mod laws;
pub mod parser;
pub mod render;
pub mod text;
pub mod timestamp;

pub use ast::{
    File, FileMetadata, Hunk, Line, ParseError, ParseErrorKind, Patch, Range, Timestamp,
};
pub use parser::{
    bare, chunk, chunk_header, filename, header_line_content, headers, quoted, range,
    unescaped_str,
};
pub use render::{maybe_escape_quote, render_all};
