//! What can go wrong while a configuration is read.
use vstd::prelude::*;

use crate::parser::token::{Token, TokenView};

verus! {

/// The ways in which reading a configuration fails.
#[derive(Debug, PartialEq)]
pub enum ConfigParseError {
    /// There was nothing to parse.
    ParsedStringIsEmpty,
    /// The input as a whole does not have the form that was asked for.
    ParsedStringUnexpectedFormat(String),
    /// The token at index `position` cannot stand where it stands.
    UnexpectedToken { expected: String, found: Token, position: usize },
    /// A quoted string that opens on line `line` is never closed.
    UnterminatedString { line: usize },
    /// The text at byte offset `position` looks like a number and is none.
    InvalidNumber { value: String, position: usize },
    InvalidResolution { value: String, reason: String },
    InvalidPosition { value: String, reason: String },
    InvalidTransform { value: String },
    InvalidAdaptiveSync { value: String },
    /// The token at index `position` should be the name of a profile.
    MissingProfileName { position: usize },
    /// No token starts with `character`, found at byte offset `position`.
    UnexpectedCharacter { character: char, position: usize, line: usize },
}

/// An error as a mathematical value.
pub enum ConfigParseErrorView {
    ParsedStringIsEmpty,
    ParsedStringUnexpectedFormat(Seq<char>),
    UnexpectedToken { expected: Seq<char>, found: TokenView, position: int },
    UnterminatedString { line: int },
    InvalidNumber { value: Seq<char>, position: int },
    InvalidResolution { value: Seq<char>, reason: Seq<char> },
    InvalidPosition { value: Seq<char>, reason: Seq<char> },
    InvalidTransform { value: Seq<char> },
    InvalidAdaptiveSync { value: Seq<char> },
    MissingProfileName { position: int },
    UnexpectedCharacter { character: char, position: int, line: int },
}

impl View for ConfigParseError {
    type V = ConfigParseErrorView;

    open spec fn view(&self) -> ConfigParseErrorView {
        match self {
            ConfigParseError::ParsedStringIsEmpty => ConfigParseErrorView::ParsedStringIsEmpty,
            ConfigParseError::ParsedStringUnexpectedFormat(m) =>
                ConfigParseErrorView::ParsedStringUnexpectedFormat(m@),
            ConfigParseError::UnexpectedToken { expected, found, position } =>
                ConfigParseErrorView::UnexpectedToken {
                    expected: expected@,
                    found: found@,
                    position: *position as int,
                },
            ConfigParseError::UnterminatedString { line } => ConfigParseErrorView::UnterminatedString {
                line: *line as int,
            },
            ConfigParseError::InvalidNumber { value, position } => ConfigParseErrorView::InvalidNumber {
                value: value@,
                position: *position as int,
            },
            ConfigParseError::InvalidResolution { value, reason } =>
                ConfigParseErrorView::InvalidResolution { value: value@, reason: reason@ },
            ConfigParseError::InvalidPosition { value, reason } =>
                ConfigParseErrorView::InvalidPosition { value: value@, reason: reason@ },
            ConfigParseError::InvalidTransform { value } => ConfigParseErrorView::InvalidTransform {
                value: value@,
            },
            ConfigParseError::InvalidAdaptiveSync { value } =>
                ConfigParseErrorView::InvalidAdaptiveSync { value: value@ },
            ConfigParseError::MissingProfileName { position } =>
                ConfigParseErrorView::MissingProfileName { position: *position as int },
            ConfigParseError::UnexpectedCharacter { character, position, line } =>
                ConfigParseErrorView::UnexpectedCharacter {
                    character: *character,
                    position: *position as int,
                    line: *line as int,
                },
        }
    }
}

/// What the lexer and the parser return.
pub type ParseResult<T> = Result<T, ConfigParseError>;

} // verus!
