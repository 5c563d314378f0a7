//! Parser and serializer for a canvas document kept in one plaintext file.
//!
//! A file is a sequence of elements (text boxes, rectangles, lines), each
//! opened by a header line. The text of a text box is rich text: blocks made
//! of inline chunks. `parse` reads a file into a `Document`,
//! `Document::apply_update` takes an edit into it, and `Document::file_text`
//! writes it back, each text box with the text that was read for it.
//!
//! Texts are handled as `&str` and specified by their UTF-8 bytes. From the
//! leaves up:
//!
//! - `text`, `space`: searching, cutting and trimming; indentation and lines.
//! - `pattern`: the regular expressions of the format, applied by the
//!   `regex` crate; `math`: formulas, rendered by the `katex` crate.
//! - `tree`: blocks and chunks; `inline`: text into chunks; `block`: text
//!   into blocks.
//! - `number`, `entries`: numbers as the file writes them; a map in the
//!   order of its keys.
//! - `segment`, `element`, `document`: a file into its elements, an element
//!   into its text, and the document that holds them.
//! - `watch`: which changes of the file are the server's own.
//!
//! What holds of the library as a whole is stated at the end of `document`:
//! reading needs nothing but headers that are in order and formulas that
//! render, every element gets a key of its own, and the text of a text box
//! is written back as it was read.

pub mod block;
pub mod document;
pub mod element;
pub mod entries;
pub mod error;
pub mod inline;
pub mod math;
pub mod number;
pub mod pattern;
pub mod segment;
pub mod space;
pub mod text;
pub mod tree;
pub mod watch;

pub use block::{parse_text_block_precursors, parse_text_blocks, TextBlockPrecursor};
pub use document::{parse, parse_int, parse_number, parse_string, Document, DocumentUpdate, Stale};
pub use element::Element;
pub use entries::Entries;
pub use error::ParseError;
pub use inline::{
    chunk_breaks, chunk_code, chunk_links, chunk_math, chunk_style, chunk_text, split_break,
    split_code, split_link, split_math,
};
pub use pattern::Grammar;
pub use segment::ElementPrecursor;
pub use space::{count_indent, split_scope, trim, trim_end, trim_start};
pub use text::{split, split_or_end};
pub use tree::{TextBlock, TextChunk};
pub use watch::WriteGuard;
