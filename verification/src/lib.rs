//! A reader for AsciiDoc-like documents: it turns the syntax tree that the
//! grammar gives for a text into the document model that renderers consume.
//!
//! The reader is a function of what it is given. It runs no grammar and opens
//! no file: what the grammar gives for a text, and what a file holds, it finds
//! in [`AsciidocParser`] and [`Env`], and where it finds nothing it stops and
//! says what it needs ([`Halt`]). Whoever calls it gets that, records it, and
//! calls again.
//!
//! Every node of the document lies in the text of the document: its offsets,
//! lines and columns count from the start of that text, also where the node
//! comes from a document nested in an example or in a table cell. What is
//! wrong with an image whose file could not be had is not logged but said by
//! [`diagnostics`].

pub mod asking;
pub mod ast;
pub mod attributes;
pub mod cst;
pub mod dispatch;
pub mod element;
pub mod example;
pub mod fold;
pub mod image;
pub mod inline;
pub mod known;
pub mod reader;
pub mod rows;
pub mod source;
pub mod spans;
pub mod table;
pub mod text;
pub mod title;
pub mod unreadable;

pub use ast::{Attribute, AttributeValue, BlockType, Element, ElementSpan, ListType, AST};
pub use cst::{Pair, Rule};
pub use dispatch::process_element;
pub use known::{AsciidocParser, Env, Halt};
pub use reader::{diagnostics, AsciidocReader, Opts};
pub use table::{parse_row_format, CellFormat, CellKind};
