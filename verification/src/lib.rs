//! A table-driven lexer construction library.
//!
//! A [`table::Table`] is built over a fixed alphabet of bytes. Patterns in a
//! small mini-language (literals, `[...]` character classes, and `+` for
//! one-or-more repetition) are compiled into a deterministic transition
//! automaton, which can then be queried for exact matches with
//! [`table::Table::get`] or used to tokenise input by maximal-munch scanning
//! with [`table::Table::lexer`].

pub mod error;
pub mod laws;
pub mod model;
pub mod scanner;
pub mod table;
