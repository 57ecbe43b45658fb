//! A front end for configurations of display outputs.
//!
//! A configuration names profiles; a profile names outputs; an output is told
//! to be on or off and what mode, position, scale, transform and adaptive
//! sync to have. [`parser::tokenize`] turns the text into tokens,
//! [`parser::parse_tokens`] turns the tokens into a tree, and
//! [`parser::parse_text`] does both. Nothing here reads a file or talks to a
//! compositor.
//!
//! Every function is verified against a contract. The contracts speak of
//! mathematical values: a text is a sequence of characters, a token or a tree
//! is its view, and what the lexer and the parser return is given by the spec
//! functions [`parser::lexer::tokens_of`] and [`parser::parse::config_of`].
pub mod error;
pub mod parser;

pub use error::{ConfigParseError, ParseResult};
