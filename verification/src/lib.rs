//! Conversion of a small markdown dialect into HTML.
//!
//! [`Parser::parse_str`] turns a document into HTML. What it returns is
//! stated over a model of the grammar: [`block::document`] gives the
//! pieces that a text is turned into, line by line, and
//! [`markup::render`] writes them out.
//!
//! Three properties of that model are proved for every document:
//! each element is opened as often as it is closed
//! ([`balance::lemma_document_balanced`]), block elements are closed in
//! the reverse of the order in which they were opened
//! ([`nesting::lemma_document_nests`]), and text that was written out
//! once is not changed by being written out again
//! ([`encoding::lemma_escaped_idempotent`]).

pub mod balance;
pub mod block;
pub mod encoding;
pub mod inline;
pub mod list;
pub mod markup;
pub mod nesting;
pub mod parser;
pub mod state;
pub mod table;
pub mod text;

pub use parser::Parser;
