//! A resumable tokenizer for source text, and a store of documents and views on them that
//! keeps, for every line, a table of token lengths from which the tokens' text is cut again
//! on demand.
//!
//! - [`tokenizer`]: the state machine that reads one token per call and carries open
//!   comments and strings from one line to the next.
//! - [`document`]: splitting text into lines, token tables, and tokenizing a whole document.
//! - [`state`]: documents, views, and the read path from a view to lines, tokens and
//!   selections.
//! - [`str_ext`]: cutting text into units and into runs of whitespace.
//! - [`encoding`]: byte lengths of text in UTF-8.
pub mod document;
pub mod encoding;
pub mod state;
pub mod str_ext;
pub mod tokenizer;
