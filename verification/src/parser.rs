//! From text to tokens to a tree.
use vstd::prelude::*;
use vstd::utf8::*;

use crate::error::{ConfigParseError, ConfigParseErrorView, ParseResult};
use crate::parser::ast::{Config, ConfigView};
use crate::parser::lexer::{
    error_within,
    lemma_newlines_bounds,
    lemma_newlines_split,
    lemma_tokens_end_with_eof,
    newlines,
    tokens_of,
    Lexer,
};
use crate::parser::parse::{config_of, well_framed, Parser};
use crate::parser::token::{token_views, Token, TokenView};

pub mod ast;
pub mod geometry;
pub mod lexer;
pub mod number;
pub mod parse;
pub mod text;
pub mod token;

verus! {

/// What one step of reading gives: a value and a number that goes with it
/// (for the parser, the index of the first token after a construct; for the
/// lexer, the line count after the last token), or the error that the step
/// ran into.
pub type Step<T> = Result<(T, int), ConfigParseErrorView>;

/// `acc` put in front of what `r` holds, where `r` holds something.
pub open spec fn extend<T>(acc: Seq<T>, r: Step<Seq<T>>) -> Step<Seq<T>> {
    match r {
        Ok((rest, next)) => Ok((acc + rest, next)),
        Err(e) => Err(e),
    }
}

/// Putting one more element in front, then the rest, is putting all in front.
pub proof fn lemma_extend_push<T>(acc: Seq<T>, x: T, r: Step<Seq<T>>)
    ensures
        extend(acc, extend(seq![x], r)) == extend(acc.push(x), r),
{
    match r {
        Ok((rest, next)) => {
            assert(acc + (seq![x] + rest) =~= acc.push(x) + rest);
        },
        Err(_) => {},
    }
}

/// Putting nothing in front changes nothing, and putting something in front
/// of nothing leaves what was put.
pub proof fn lemma_extend_empty<T>(acc: Seq<T>, r: Step<Seq<T>>, n: int)
    ensures
        extend(Seq::empty(), r) == r,
        extend(acc, Ok::<(Seq<T>, int), ConfigParseErrorView>((Seq::empty(), n))) == Ok::<
            (Seq<T>, int),
            ConfigParseErrorView,
        >((acc, n)),
{
    match r {
        Ok((rest, next)) => {
            assert(Seq::<T>::empty() + rest =~= rest);
        },
        Err(_) => {},
    }
    assert(acc + Seq::<T>::empty() =~= acc);
}

/// The configuration that the text `s` is: its tokens, parsed. An error of
/// the lexer comes before any of the parser.
pub open spec fn config_of_text(s: Seq<char>) -> Result<ConfigView, ConfigParseErrorView> {
    match tokens_of(s) {
        Ok(tokens) => config_of(tokens),
        Err(e) => Err(e),
    }
}

/// What a result holds, as a mathematical value.
pub open spec fn result_view<T: View>(r: Result<T, ConfigParseError>) -> Result<
    T::V,
    ConfigParseErrorView,
> {
    match r {
        Ok(x) => Ok(x@),
        Err(e) => Err(e@),
    }
}

/// What a result of the lexer holds, as a mathematical value.
pub open spec fn tokens_result_view(r: Result<Vec<Token>, ConfigParseError>) -> Result<
    Seq<TokenView>,
    ConfigParseErrorView,
> {
    match r {
        Ok(tokens) => Ok(token_views(tokens@)),
        Err(e) => Err(e@),
    }
}

/// True when `r` is what `step` says: the same value with `next` as the
/// number that goes with it, or the same error.
pub open spec fn agrees<T: View>(r: Result<T, ConfigParseError>, next: int, step: Step<T::V>)
    -> bool {
    match r {
        Ok(x) => step == Ok::<(T::V, int), ConfigParseErrorView>((x@, next)),
        Err(e) => step == Err::<(T::V, int), ConfigParseErrorView>(e@),
    }
}

/// The tokens of `source`. The last is the end of input, and no other is.
///
/// An error names a place in `source`: a byte offset that is at most its
/// length in bytes, a line that is at most the number of its line feeds.
pub fn tokenize(source: String) -> (r: ParseResult<Vec<Token>>)
    ensures
        tokens_result_view(r) == tokens_of(source@),
        r matches Ok(tokens) ==> {
            &&& tokens@.len() >= 1
            &&& tokens@.last()@ is Eof
            &&& forall|k: int| 0 <= k < tokens@.len() - 1 ==> !(#[trigger] tokens@[k]@ is Eof)
        },
        r matches Err(e) ==> error_within(
            e@,
            encode_utf8(source@).len() as int,
            newlines(source@, 0, source@.len() as int),
        ),
{
    let mut lexer = Lexer::new(source);
    let r = lexer.tokenizer();
    proof {
        lemma_newlines_split(source@, 0, lexer.cursor(), source@.len() as int);
        lemma_newlines_bounds(source@, lexer.cursor(), source@.len() as int);
    }
    r
}

/// The configuration that `tokens` are, read from the first token on.
pub fn parse_tokens(tokens: Vec<Token>) -> (r: ParseResult<Config>)
    ensures
        result_view(r) == config_of(token_views(tokens@)),
{
    let mut parser = Parser::new(tokens);
    parser.parse()
}

/// Reads the text of a whole configuration.
pub fn parse_text(input: String) -> (r: ParseResult<Config>)
    ensures
        result_view(r) == config_of_text(input@),
{
    match tokenize(input) {
        Ok(tokens) => parse_tokens(tokens),
        Err(e) => Err(e),
    }
}

/// Lexing is repeatable: whatever `tokenize` returns for two strings that
/// hold the same text is the same, token for token or error for error.
pub proof fn lemma_tokenize_repeatable(
    a: String,
    b: String,
    ra: Result<Vec<Token>, ConfigParseError>,
    rb: Result<Vec<Token>, ConfigParseError>,
)
    requires
        a@ == b@,
        call_ensures(tokenize, (a,), ra),
        call_ensures(tokenize, (b,), rb),
    ensures
        tokens_result_view(ra) == tokens_result_view(rb),
{
}

/// Parsing is repeatable: whatever `parse_tokens` returns for two vectors
/// that hold the same tokens is the same, tree for tree or error for error.
pub proof fn lemma_parse_tokens_repeatable(
    a: Vec<Token>,
    b: Vec<Token>,
    ra: Result<Config, ConfigParseError>,
    rb: Result<Config, ConfigParseError>,
)
    requires
        token_views(a@) == token_views(b@),
        call_ensures(parse_tokens, (a,), ra),
        call_ensures(parse_tokens, (b,), rb),
    ensures
        result_view(ra) == result_view(rb),
{
}

/// Reading a configuration is repeatable: whatever `parse_text` returns for
/// two strings that hold the same text is the same.
pub proof fn lemma_parse_text_repeatable(
    a: String,
    b: String,
    ra: Result<Config, ConfigParseError>,
    rb: Result<Config, ConfigParseError>,
)
    requires
        a@ == b@,
        call_ensures(parse_text, (a,), ra),
        call_ensures(parse_text, (b,), rb),
    ensures
        result_view(ra) == result_view(rb),
{
}

/// The parser never refuses what the lexer gives for want of tokens or of
/// an end of input: only the first token can be out of place.
pub proof fn lemma_tokens_are_framed_but_for_the_first(s: Seq<char>)
    requires
        tokens_of(s) is Ok,
    ensures
        ({
            let ts = tokens_of(s)->Ok_0;
            &&& ts.len() > 0
            &&& ts.last() is Eof
            &&& well_framed(ts) <==> (ts[0] is Profile || ts[0] is Output || ts[0] is Eof)
        }),
{
    lemma_tokens_end_with_eof(s, 0, 0);
}

/// The empty text is the empty configuration: its only token is the end of
/// input, and that parses to no item.
pub proof fn lemma_empty_text()
    ensures
        tokens_of(Seq::empty()) == Ok::<Seq<TokenView>, ConfigParseErrorView>(
            seq![TokenView::Eof],
        ),
        config_of(seq![TokenView::Eof]) == Ok::<ConfigView, ConfigParseErrorView>(
            ConfigView { items: Seq::empty() },
        ),
        config_of_text(Seq::empty()) == Ok::<ConfigView, ConfigParseErrorView>(
            ConfigView { items: Seq::empty() },
        ),
{
    let ts = seq![TokenView::Eof];
    assert(well_framed(ts));
}

} // verus!
