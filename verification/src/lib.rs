//! A reader for a small sectioned markup: `[section]` headers, `key = value`
//! entries with nested arrays and dictionaries, `|`-delimited table rows and
//! `#` comments. Every function is specified against a mathematical model of
//! the grammar over `Seq<char>` and proved to compute what the model says.
//!
//! - `text`: character classes, runs, escapes, trimming, decimal digits.
//! - `offsets`: byte offsets of characters, and slices cut at them.
//! - `cursor`: the position in the input and the lexical primitives.
//! - `sorted`: vectors of pairs in ascending order of their keys.
//! - `value`, `document`, `element`: the document model and its views.
//! - `render`: how strings and integers are written.
//! - `grammar`: what each production reads, as mathematics.
//! - `parser`: the productions, the element stream, the assembly.
//! - `laws`: what holds of the grammar for every input.

pub mod cursor;
pub mod document;
pub mod element;
pub mod grammar;
pub mod laws;
pub mod offsets;
pub mod parser;
pub mod render;
pub mod sorted;
pub mod text;
pub mod value;

pub use cursor::Cursor;
pub use document::{Document, Section};
pub use element::{Element, ParserError};
pub use parser::Parser;
pub use value::{Dictionary, Value};
