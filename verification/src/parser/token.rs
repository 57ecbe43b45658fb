//! The lexical symbols of a configuration.
use vstd::prelude::*;

use crate::parser::number::Numeral;

verus! {

/// One lexical symbol: a keyword, a brace, a literal with its text, or the
/// end of the input.
#[derive(Debug, PartialEq)]
pub enum Token {
    Profile,
    Output,
    Exec,
    Include,
    Enable,
    Disable,
    Mode,
    Position,
    Scale,
    Transform,
    AdaptiveSync,
    LeftBrace,
    RightBrace,
    /// A quoted string, without its quotes.
    String(String),
    /// A bare word that is no keyword, or a compound such as `1920x1080@60Hz`.
    Identifier(String),
    /// A number, as it was written.
    Number(Numeral),
    Eof,
}

/// A token as a mathematical value: texts are sequences of characters.
pub enum TokenView {
    Profile,
    Output,
    Exec,
    Include,
    Enable,
    Disable,
    Mode,
    Position,
    Scale,
    Transform,
    AdaptiveSync,
    LeftBrace,
    RightBrace,
    String(Seq<char>),
    Identifier(Seq<char>),
    Number(Seq<char>),
    Eof,
}

/// What sort of token a token is, without its text.
#[derive(Debug, Clone, Copy, PartialEq, Eq, Structural)]
pub enum TokenKind {
    Profile,
    Output,
    Exec,
    Include,
    Enable,
    Disable,
    Mode,
    Position,
    Scale,
    Transform,
    AdaptiveSync,
    LeftBrace,
    RightBrace,
    String,
    Identifier,
    Number,
    Eof,
}

impl TokenView {
    /// The sort of this token.
    pub open spec fn kind(self) -> TokenKind {
        match self {
            TokenView::Profile => TokenKind::Profile,
            TokenView::Output => TokenKind::Output,
            TokenView::Exec => TokenKind::Exec,
            TokenView::Include => TokenKind::Include,
            TokenView::Enable => TokenKind::Enable,
            TokenView::Disable => TokenKind::Disable,
            TokenView::Mode => TokenKind::Mode,
            TokenView::Position => TokenKind::Position,
            TokenView::Scale => TokenKind::Scale,
            TokenView::Transform => TokenKind::Transform,
            TokenView::AdaptiveSync => TokenKind::AdaptiveSync,
            TokenView::LeftBrace => TokenKind::LeftBrace,
            TokenView::RightBrace => TokenKind::RightBrace,
            TokenView::String(_) => TokenKind::String,
            TokenView::Identifier(_) => TokenKind::Identifier,
            TokenView::Number(_) => TokenKind::Number,
            TokenView::Eof => TokenKind::Eof,
        }
    }

    /// True for the seven keywords that start an output command.
    pub open spec fn is_command(self) -> bool {
        match self {
            TokenView::Enable
            | TokenView::Disable
            | TokenView::Mode
            | TokenView::Position
            | TokenView::Scale
            | TokenView::Transform
            | TokenView::AdaptiveSync => true,
            _ => false,
        }
    }
}

impl View for Token {
    type V = TokenView;

    open spec fn view(&self) -> TokenView {
        match self {
            Token::Profile => TokenView::Profile,
            Token::Output => TokenView::Output,
            Token::Exec => TokenView::Exec,
            Token::Include => TokenView::Include,
            Token::Enable => TokenView::Enable,
            Token::Disable => TokenView::Disable,
            Token::Mode => TokenView::Mode,
            Token::Position => TokenView::Position,
            Token::Scale => TokenView::Scale,
            Token::Transform => TokenView::Transform,
            Token::AdaptiveSync => TokenView::AdaptiveSync,
            Token::LeftBrace => TokenView::LeftBrace,
            Token::RightBrace => TokenView::RightBrace,
            Token::String(s) => TokenView::String(s@),
            Token::Identifier(s) => TokenView::Identifier(s@),
            Token::Number(n) => TokenView::Number(n@),
            Token::Eof => TokenView::Eof,
        }
    }
}

impl Clone for Token {
    fn clone(&self) -> (r: Self)
        ensures
            r@ == self@,
    {
        match self {
            Token::Profile => Token::Profile,
            Token::Output => Token::Output,
            Token::Exec => Token::Exec,
            Token::Include => Token::Include,
            Token::Enable => Token::Enable,
            Token::Disable => Token::Disable,
            Token::Mode => Token::Mode,
            Token::Position => Token::Position,
            Token::Scale => Token::Scale,
            Token::Transform => Token::Transform,
            Token::AdaptiveSync => Token::AdaptiveSync,
            Token::LeftBrace => Token::LeftBrace,
            Token::RightBrace => Token::RightBrace,
            Token::String(s) => Token::String(s.clone()),
            Token::Identifier(s) => Token::Identifier(s.clone()),
            Token::Number(n) => Token::Number(n.clone()),
            Token::Eof => Token::Eof,
        }
    }
}

impl Token {
    /// The sort of this token.
    pub fn kind(&self) -> (k: TokenKind)
        ensures
            k == self@.kind(),
    {
        match self {
            Token::Profile => TokenKind::Profile,
            Token::Output => TokenKind::Output,
            Token::Exec => TokenKind::Exec,
            Token::Include => TokenKind::Include,
            Token::Enable => TokenKind::Enable,
            Token::Disable => TokenKind::Disable,
            Token::Mode => TokenKind::Mode,
            Token::Position => TokenKind::Position,
            Token::Scale => TokenKind::Scale,
            Token::Transform => TokenKind::Transform,
            Token::AdaptiveSync => TokenKind::AdaptiveSync,
            Token::LeftBrace => TokenKind::LeftBrace,
            Token::RightBrace => TokenKind::RightBrace,
            Token::String(_) => TokenKind::String,
            Token::Identifier(_) => TokenKind::Identifier,
            Token::Number(_) => TokenKind::Number,
            Token::Eof => TokenKind::Eof,
        }
    }
}

/// The tokens of `tokens` as mathematical values, in order.
pub open spec fn token_views(tokens: Seq<Token>) -> Seq<TokenView> {
    tokens.map_values(|t: Token| t@)
}

} // verus!
