//! The lexer: from the text of a configuration to its tokens.
//!
//! The spec functions of this module say what the tokens of a text are, as
//! functions of the text, an index into its characters and a line count. The
//! methods of [`Lexer`] compute the same with a cursor that counts bytes, and
//! their contracts say so.
use vstd::prelude::*;
use vstd::utf8::*;

use crate::error::{ConfigParseError, ConfigParseErrorView, ParseResult};
use crate::parser::number::{is_numeral, Numeral};
use crate::parser::text::{
    alphabetic,
    byte_len,
    char_at,
    chars_before,
    find_from,
    lemma_boundary_is_index,
    lemma_find_from_bounds,
    lemma_index_on_boundary,
    lemma_offset_next_ends,
    next_offset,
    numeric,
    offset_of,
    on_boundary,
    slice,
    str_eq,
    whitespace,
};
use crate::parser::token::{token_views, Token, TokenView};
use crate::parser::{extend, lemma_extend_empty, lemma_extend_push, Step};

verus! {

/// A token, the index of the first character after it, and the line count
/// there.
pub struct Lexeme {
    pub token: TokenView,
    pub next: int,
    pub line: int,
}

/// The character at index `i`; past the end, the character with code 0.
pub open spec fn char_or_nul(s: Seq<char>, i: int) -> char {
    if 0 <= i < s.len() {
        s[i]
    } else {
        '\0'
    }
}

/// How many line feeds stand in `s[from..to]`.
pub open spec fn newlines(s: Seq<char>, from: int, to: int) -> int
    decreases to - from,
{
    if 0 <= from < to <= s.len() {
        newlines(s, from, to - 1) + if s[to - 1] == '\n' {
            1int
        } else {
            0int
        }
    } else {
        0
    }
}

/// Where the text goes on after the whitespace and the comments that start
/// at index `i`, and the line count there. A comment runs from `#` to the
/// end of its line.
pub open spec fn skip_trivia(s: Seq<char>, i: int, line: int) -> (int, int)
    decreases s.len() - i,
{
    if !(0 <= i < s.len()) {
        (i, line)
    } else if s[i] == ' ' || s[i] == '\r' || s[i] == '\t' {
        skip_trivia(s, i + 1, line)
    } else if s[i] == '\n' {
        skip_trivia(s, i + 1, line + 1)
    } else if s[i] == '#' {
        proof {
            lemma_find_from_bounds(s, '\n', i + 1);
        }
        skip_trivia(s, find_from(s, '\n', i + 1), line)
    } else {
        (i, line)
    }
}

/// True for the characters that a word is made of.
pub open spec fn is_word_char(c: char) -> bool {
    alphabetic(c) || numeric(c) || c == '_' || c == '-' || c == '*' || c == '.' || c == ','
        || c == '@'
}

/// The first index at or after `i` that holds no character of a word.
pub open spec fn word_end(s: Seq<char>, i: int) -> int
    decreases s.len() - i,
{
    if 0 <= i < s.len() && is_word_char(s[i]) {
        word_end(s, i + 1)
    } else {
        i
    }
}

/// The first index at or after `i` that holds no numeric character.
pub open spec fn numeric_end(s: Seq<char>, i: int) -> int
    decreases s.len() - i,
{
    if 0 <= i < s.len() && numeric(s[i]) {
        numeric_end(s, i + 1)
    } else {
        i
    }
}

/// Whether an `x` or an `@` comes at or after index `i`, before any
/// whitespace or brace: what starts at `i` is then a mode.
pub open spec fn is_mode_str(s: Seq<char>, i: int) -> bool
    decreases s.len() - i,
{
    if !(0 <= i < s.len()) {
        false
    } else if s[i] == 'x' || s[i] == '@' {
        true
    } else if whitespace(s[i]) || s[i] == '{' || s[i] == '}' {
        false
    } else {
        is_mode_str(s, i + 1)
    }
}

/// Whether a `,` comes at or after index `i`, before any whitespace or
/// brace: what starts at `i` is then a position.
pub open spec fn is_position_str(s: Seq<char>, i: int) -> bool
    decreases s.len() - i,
{
    if !(0 <= i < s.len()) {
        false
    } else if s[i] == ',' {
        true
    } else if whitespace(s[i]) || s[i] == '{' || s[i] == '}' {
        false
    } else {
        is_position_str(s, i + 1)
    }
}

/// The token that a word is: one of the eleven keywords, or an identifier.
pub open spec fn word_token(text: Seq<char>) -> TokenView {
    if text == "profile"@ {
        TokenView::Profile
    } else if text == "output"@ {
        TokenView::Output
    } else if text == "exec"@ {
        TokenView::Exec
    } else if text == "include"@ {
        TokenView::Include
    } else if text == "enable"@ {
        TokenView::Enable
    } else if text == "disable"@ {
        TokenView::Disable
    } else if text == "mode"@ {
        TokenView::Mode
    } else if text == "position"@ {
        TokenView::Position
    } else if text == "scale"@ {
        TokenView::Scale
    } else if text == "transform"@ {
        TokenView::Transform
    } else if text == "adaptive_sync"@ {
        TokenView::AdaptiveSync
    } else {
        TokenView::Identifier(text)
    }
}

/// The word that starts at index `i`.
pub open spec fn word_at(s: Seq<char>, i: int, line: int) -> Lexeme {
    Lexeme { token: word_token(s.subrange(i, word_end(s, i))), next: word_end(s, i), line }
}

/// Where the text that is read as a number from index `i` on ends: behind
/// an optional `-`, numeric characters, an optional point, and more numeric
/// characters.
pub open spec fn number_end(s: Seq<char>, i: int) -> int {
    let a = if char_or_nul(s, i) == '-' { i + 1 } else { i };
    let b = numeric_end(s, a);
    let c = if char_or_nul(s, b) == '.' { b + 1 } else { b };
    numeric_end(s, c)
}

/// The number that starts at index `i`: the text up to `number_end`, if it
/// is a plain decimal.
pub open spec fn number_at(s: Seq<char>, i: int, line: int) -> Result<
    Lexeme,
    ConfigParseErrorView,
> {
    let text = s.subrange(i, number_end(s, i));
    if is_numeral(text) {
        Ok(Lexeme { token: TokenView::Number(text), next: number_end(s, i), line })
    } else {
        Err(ConfigParseErrorView::InvalidNumber { value: text, position: offset_of(s, i) })
    }
}

/// The quoted string whose opening quote is at index `i`. It ends at the
/// next quote, whatever stands between; the line feeds between are counted.
pub open spec fn quoted_at(s: Seq<char>, i: int, line: int) -> Result<
    Lexeme,
    ConfigParseErrorView,
> {
    let end = find_from(s, '"', i + 1);
    if end < s.len() {
        Ok(
            Lexeme {
                token: TokenView::String(s.subrange(i + 1, end)),
                next: end + 1,
                line: line + newlines(s, i + 1, end),
            },
        )
    } else {
        Err(ConfigParseErrorView::UnterminatedString { line })
    }
}

/// The token that starts at index `i`, where no whitespace and no comment
/// starts.
pub open spec fn lexeme_at(s: Seq<char>, i: int, line: int) -> Result<
    Lexeme,
    ConfigParseErrorView,
> {
    let c = char_or_nul(s, i);
    if c == '{' {
        Ok(Lexeme { token: TokenView::LeftBrace, next: i + 1, line })
    } else if c == '}' {
        Ok(Lexeme { token: TokenView::RightBrace, next: i + 1, line })
    } else if c == '"' {
        quoted_at(s, i, line)
    } else if alphabetic(c) || c == '*' {
        Ok(word_at(s, i, line))
    } else if numeric(c) || c == '-' {
        if is_mode_str(s, i) || is_position_str(s, i) {
            Ok(word_at(s, i, line))
        } else {
            number_at(s, i, line)
        }
    } else {
        Err(
            ConfigParseErrorView::UnexpectedCharacter {
                character: c,
                position: offset_of(s, i),
                line,
            },
        )
    }
}

/// The tokens of `s` from index `i` on, the end of input last, with the line
/// count at the end; or the first error.
pub open spec fn tokens_from(s: Seq<char>, i: int, line: int) -> Step<Seq<TokenView>>
    decreases s.len() - i,
{
    let (j, l) = skip_trivia(s, i, line);
    if !(0 <= i <= j < s.len()) {
        Ok((seq![TokenView::Eof], l))
    } else {
        match lexeme_at(s, j, l) {
            Ok(x) => {
                proof {
                    lemma_lexeme_advances(s, j, l);
                }
                extend(seq![x.token], tokens_from(s, x.next, x.line))
            },
            Err(e) => Err(e),
        }
    }
}

/// The tokens of `s`.
pub open spec fn tokens_of(s: Seq<char>) -> Result<Seq<TokenView>, ConfigParseErrorView> {
    match tokens_from(s, 0, 0) {
        Ok((tokens, _)) => Ok(tokens),
        Err(e) => Err(e),
    }
}

/// A run of word characters ends at or after its start, within the text.
pub proof fn lemma_word_end_bounds(s: Seq<char>, i: int)
    requires
        0 <= i <= s.len(),
    ensures
        i <= word_end(s, i) <= s.len(),
    decreases s.len() - i,
{
    if i < s.len() && is_word_char(s[i]) {
        lemma_word_end_bounds(s, i + 1);
    }
}

/// A run of numeric characters ends at or after its start, within the text.
pub proof fn lemma_numeric_end_bounds(s: Seq<char>, i: int)
    requires
        0 <= i <= s.len(),
    ensures
        i <= numeric_end(s, i) <= s.len(),
    decreases s.len() - i,
{
    if i < s.len() && numeric(s[i]) {
        lemma_numeric_end_bounds(s, i + 1);
    }
}

/// Whitespace and comments end at or after their start, within the text,
/// and the line count does not go down.
pub proof fn lemma_skip_bounds(s: Seq<char>, i: int, line: int)
    requires
        0 <= i <= s.len(),
    ensures
        i <= skip_trivia(s, i, line).0 <= s.len(),
        line <= skip_trivia(s, i, line).1,
    decreases s.len() - i,
{
    if i < s.len() {
        if s[i] == ' ' || s[i] == '\r' || s[i] == '\t' {
            lemma_skip_bounds(s, i + 1, line);
        } else if s[i] == '\n' {
            lemma_skip_bounds(s, i + 1, line + 1);
        } else if s[i] == '#' {
            lemma_find_from_bounds(s, '\n', i + 1);
            lemma_skip_bounds(s, find_from(s, '\n', i + 1), line);
        }
    }
}

/// No count of line feeds is negative.
pub proof fn lemma_newlines_bounds(s: Seq<char>, from: int, to: int)
    ensures
        0 <= newlines(s, from, to),
    decreases to - from,
{
    if 0 <= from < to <= s.len() {
        lemma_newlines_bounds(s, from, to - 1);
    }
}

/// A token is at least one character long, ends within the text, and is
/// never the end of input; the line count does not go down over it.
pub proof fn lemma_lexeme_advances(s: Seq<char>, i: int, line: int)
    requires
        0 <= i < s.len(),
        lexeme_at(s, i, line) is Ok,
    ensures
        i < lexeme_at(s, i, line)->Ok_0.next <= s.len(),
        line <= lexeme_at(s, i, line)->Ok_0.line,
        !(lexeme_at(s, i, line)->Ok_0.token is Eof),
{
    let c = s[i];
    lemma_word_end_bounds(s, i + 1);
    if c == '"' {
        lemma_find_from_bounds(s, '"', i + 1);
        lemma_newlines_bounds(s, i + 1, find_from(s, '"', i + 1));
    } else if c == '-' {
        lemma_numeric_end_bounds(s, i + 1);
        let b = numeric_end(s, i + 1);
        lemma_numeric_end_bounds(s, b);
        if b < s.len() {
            lemma_numeric_end_bounds(s, b + 1);
        }
    } else if numeric(c) {
        lemma_numeric_end_bounds(s, i + 1);
        let b = numeric_end(s, i);
        lemma_numeric_end_bounds(s, b);
        if b < s.len() {
            lemma_numeric_end_bounds(s, b + 1);
        }
    }
}

/// The tokens of a text end with the end of input, and hold it nowhere else.
pub proof fn lemma_tokens_end_with_eof(s: Seq<char>, i: int, line: int)
    requires
        tokens_from(s, i, line) is Ok,
    ensures
        ({
            let ts = tokens_from(s, i, line)->Ok_0.0;
            &&& ts.len() >= 1
            &&& ts.last() is Eof
            &&& forall|k: int| 0 <= k < ts.len() - 1 ==> !(#[trigger] ts[k] is Eof)
        }),
    decreases s.len() - i,
{
    let (j, l) = skip_trivia(s, i, line);
    if 0 <= i <= j < s.len() {
        let x = lexeme_at(s, j, l)->Ok_0;
        lemma_lexeme_advances(s, j, l);
        lemma_tokens_end_with_eof(s, x.next, x.line);
        let rest = tokens_from(s, x.next, x.line)->Ok_0.0;
        let ts = tokens_from(s, i, line)->Ok_0.0;
        assert(ts =~= seq![x.token] + rest);
        assert forall|k: int| 0 <= k < ts.len() - 1 implies !(#[trigger] ts[k] is Eof) by {
            if k > 0 {
                assert(ts[k] == rest[k - 1]);
            }
        }
    }
}

/// Line feeds are counted piece by piece.
pub proof fn lemma_newlines_split(s: Seq<char>, from: int, mid: int, to: int)
    requires
        0 <= from <= mid <= to <= s.len(),
    ensures
        newlines(s, from, to) == newlines(s, from, mid) + newlines(s, mid, to),
    decreases to - mid,
{
    if mid < to {
        lemma_newlines_split(s, from, mid, to - 1);
    }
}

/// What an error of the lexer points to lies in what was read: its byte
/// offset is at most `position`, its line at most `line`.
pub open spec fn error_within(e: ConfigParseErrorView, position: int, line: int) -> bool {
    match e {
        ConfigParseErrorView::UnterminatedString { line: l } => 0 <= l <= line,
        ConfigParseErrorView::InvalidNumber { position: p, .. } => 0 <= p <= position,
        ConfigParseErrorView::UnexpectedCharacter { position: p, line: l, .. } => 0 <= p
            <= position && 0 <= l <= line,
        _ => false,
    }
}

/// A lexer: the text, the byte offset of the character that is read next,
/// and the number of line feeds that were read.
pub struct Lexer {
    pub input: String,
    pub position: usize,
    pub line: usize,
}

impl Lexer {
    /// The index of the character that is read next.
    pub open spec fn cursor(&self) -> int {
        chars_before(self.input@, self.position as int)
    }

    /// The cursor stands between two characters of the text or at one of its
    /// ends, and the line count has room for every line feed still to come.
    pub open spec fn wf(&self) -> bool {
        &&& on_boundary(self.input@, self.position as int)
        &&& self.line + (encode_utf8(self.input@).len() - self.position) <= usize::MAX
    }

    /// `self` is what `before` has become by reading on: the same text, the
    /// cursor no further back, and the line count up by no more than the line
    /// feeds that were passed.
    pub open spec fn follows(&self, before: &Lexer) -> bool {
        &&& self.input == before.input
        &&& self.wf()
        &&& before.cursor() <= self.cursor() <= self.input@.len()
        &&& before.position <= self.position
        &&& before.line <= self.line <= before.line + newlines(
            self.input@,
            before.cursor(),
            self.cursor(),
        )
    }

    /// `r` is what `scan` says, and `self` is where the lexer stands after
    /// it: behind the token, or with the error within what was read.
    pub open spec fn has_read(
        &self,
        r: Result<Token, ConfigParseError>,
        scan: Result<Lexeme, ConfigParseErrorView>,
    ) -> bool {
        match r {
            Ok(token) => scan == Ok::<Lexeme, ConfigParseErrorView>(
                Lexeme { token: token@, next: self.cursor(), line: self.line as int },
            ),
            Err(e) => scan == Err::<Lexeme, ConfigParseErrorView>(e@) && error_within(
                e@,
                self.position as int,
                self.line as int,
            ),
        }
    }

    /// A lexer at the start of `input`.
    pub fn new(input: String) -> (lexer: Self)
        ensures
            lexer.input == input,
            lexer.position == 0,
            lexer.line == 0,
            lexer.cursor() == 0,
            lexer.wf(),
    {
        // The length is a `usize`, and so is every count of line feeds.
        let end = byte_len(input.as_str());
        proof {
            lemma_offset_next_ends(input@);
            lemma_index_on_boundary(input@, 0);
            assert(encode_utf8(input@).len() == end);
        }
        Self { input, position: 0, line: 0 }
    }

    /// Reads the rest of the text into tokens; the last is the end of input,
    /// and no other is.
    ///
    /// On failure, the byte offset and the line that the error names lie in
    /// what was read.
    pub fn tokenizer(&mut self) -> (r: ParseResult<Vec<Token>>)
        requires
            old(self).wf(),
        ensures
            final(self).follows(old(self)),
            match r {
                Ok(tokens) => {
                    &&& tokens_from(old(self).input@, old(self).cursor(), old(self).line as int)
                        == Ok::<(Seq<TokenView>, int), ConfigParseErrorView>(
                        (token_views(tokens@), final(self).line as int),
                    )
                    &&& final(self).cursor() == final(self).input@.len()
                    &&& tokens@.len() >= 1
                    &&& tokens@.last()@ is Eof
                    &&& forall|k: int|
                        0 <= k < tokens@.len() - 1 ==> !(#[trigger] tokens@[k]@ is Eof)
                },
                Err(e) => {
                    &&& tokens_from(old(self).input@, old(self).cursor(), old(self).line as int)
                        == Err::<(Seq<TokenView>, int), ConfigParseErrorView>(e@)
                    &&& error_within(e@, final(self).position as int, final(self).line as int)
                },
            },
    {
        let ghost s = self.input@;
        let ghost start = self.cursor();
        let ghost line = self.line as int;
        let mut tokens: Vec<Token> = Vec::new();
        proof {
            lemma_boundary_is_index(s, self.position as int);
            assert(token_views(tokens@) =~= Seq::empty());
            lemma_extend_empty(Seq::empty(), tokens_from(s, start, line), 0);
        }
        loop
            invariant_except_break
                tokens_from(s, start, line) == extend(
                    token_views(tokens@),
                    tokens_from(s, self.cursor(), self.line as int),
                ),
            invariant
                s == old(self).input@,
                start == old(self).cursor(),
                line == old(self).line,
                self.follows(old(self)),
            ensures
                self.follows(old(self)),
                self.cursor() == s.len(),
                tokens_from(s, start, line) == Ok::<(Seq<TokenView>, int), ConfigParseErrorView>(
                    (token_views(tokens@), self.line as int),
                ),
            decreases s.len() - self.cursor(),
        {
            let ghost before = *self;
            let ghost had = tokens@;
            self.skip_whitespace_and_comments();
            proof {
                lemma_newlines_split(s, start, before.cursor(), self.cursor());
            }
            if self.is_at_end() {
                tokens.push(Token::Eof);
                proof {
                    assert(token_views(tokens@) =~= token_views(had) + seq![TokenView::Eof]);
                }
                break ;
            }
            let ghost here = *self;
            match self.new_token() {
                Ok(token) => {
                    tokens.push(token);
                    proof {
                        lemma_lexeme_advances(s, here.cursor(), here.line as int);
                        lemma_newlines_split(s, start, here.cursor(), self.cursor());
                        assert(token_views(tokens@) =~= token_views(had).push(token@));
                        lemma_extend_push(
                            token_views(had),
                            token@,
                            tokens_from(s, self.cursor(), self.line as int),
                        );
                    }
                },
                Err(e) => {
                    proof {
                        lemma_newlines_split(s, start, here.cursor(), self.cursor());
                    }
                    return Err(e);
                },
            }
        }
        proof {
            lemma_tokens_end_with_eof(s, start, line);
            let ts = token_views(tokens@);
            assert(ts.last() == tokens@.last()@);
            assert forall|k: int| 0 <= k < tokens@.len() - 1 implies !(
            #[trigger] tokens@[k]@ is Eof) by {
                assert(ts[k] == tokens@[k]@);
            }
        }
        Ok(tokens)
    }

    /// Reads the token that starts under the cursor.
    pub fn new_token(&mut self) -> (r: ParseResult<Token>)
        requires
            old(self).wf(),
        ensures
            final(self).follows(old(self)),
            final(self).has_read(
                r,
                lexeme_at(old(self).input@, old(self).cursor(), old(self).line as int),
            ),
    {
        let ch = self.peek();
        proof {
            lemma_boundary_is_index(self.input@, self.position as int);
            lemma_newlines_bounds(self.input@, self.cursor(), self.cursor());
        }
        if ch == '{' {
            self.advance();
            Ok(Token::LeftBrace)
        } else if ch == '}' {
            self.advance();
            Ok(Token::RightBrace)
        } else if ch == '"' {
            self.read_quoted_string()
        } else if ch.is_alphabetic() || ch == '*' {
            self.read_identifier()
        } else if ch.is_numeric() || ch == '-' {
            if self.is_mode_str() {
                self.read_identifier()
            } else if self.is_position_str() {
                self.read_identifier()
            } else {
                self.read_number()
            }
        } else {
            Err(
                ConfigParseError::UnexpectedCharacter {
                    character: ch,
                    position: self.position,
                    line: self.line,
                },
            )
        }
    }

    /// Whether what starts under the cursor is a position: a `,` comes
    /// before any whitespace or brace.
    pub fn is_position_str(&self) -> (r: bool)
        requires
            self.wf(),
        ensures
            r == is_position_str(self.input@, self.cursor()),
    {
        let text = self.input.as_str();
        let n = byte_len(text);
        let mut pos: usize = self.position;
        while pos < n
            invariant
                text@ == self.input@,
                n == encode_utf8(text@).len(),
                on_boundary(text@, pos as int),
                is_position_str(self.input@, self.cursor()) == is_position_str(
                    text@,
                    chars_before(text@, pos as int),
                ),
            decreases n - pos,
        {
            match char_at(text, pos) {
                Some(ch) => {
                    if ch == ',' {
                        return true;
                    } else if ch.is_whitespace() || ch == '{' || ch == '}' {
                        return false;
                    }
                    pos = next_offset(text, pos, ch);
                },
                None => {
                    return false;
                },
            }
        }
        proof {
            lemma_boundary_is_index(text@, pos as int);
        }
        false
    }

    /// Whether what starts under the cursor is a mode: an `x` or an `@`
    /// comes before any whitespace or brace.
    pub fn is_mode_str(&self) -> (r: bool)
        requires
            self.wf(),
        ensures
            r == is_mode_str(self.input@, self.cursor()),
    {
        let text = self.input.as_str();
        let n = byte_len(text);
        let mut pos: usize = self.position;
        while pos < n
            invariant
                text@ == self.input@,
                n == encode_utf8(text@).len(),
                on_boundary(text@, pos as int),
                is_mode_str(self.input@, self.cursor()) == is_mode_str(
                    text@,
                    chars_before(text@, pos as int),
                ),
            decreases n - pos,
        {
            match char_at(text, pos) {
                Some(ch) => {
                    if ch == 'x' || ch == '@' {
                        return true;
                    } else if ch.is_whitespace() || ch == '{' || ch == '}' {
                        return false;
                    }
                    pos = next_offset(text, pos, ch);
                },
                None => {
                    return false;
                },
            }
        }
        proof {
            lemma_boundary_is_index(text@, pos as int);
        }
        false
    }

    /// Reads a number: an optional `-`, numeric characters, an optional
    /// point, more numeric characters. What was read must be a plain decimal.
    pub fn read_number(&mut self) -> (r: ParseResult<Token>)
        requires
            old(self).wf(),
        ensures
            final(self).follows(old(self)),
            final(self).line == old(self).line,
            final(self).cursor() == number_end(old(self).input@, old(self).cursor()),
            final(self).has_read(
                r,
                number_at(old(self).input@, old(self).cursor(), old(self).line as int),
            ),
    {
        let ghost s = self.input@;
        let ghost i = self.cursor();
        let start = self.position;
        proof {
            lemma_boundary_is_index(s, start as int);
        }
        if self.peek() == '-' {
            self.advance();
        }
        let ghost a = self.cursor();
        while !self.is_at_end() && self.peek().is_numeric()
            invariant
                self.input == old(self).input,
                self.line == old(self).line,
                self.wf(),
                s == self.input@,
                old(self).position <= self.position,
                0 <= a <= self.cursor() <= s.len(),
                numeric_end(s, a) == numeric_end(s, self.cursor()),
            decreases s.len() - self.cursor(),
        {
            self.advance();
        }
        let ghost b = self.cursor();
        if !self.is_at_end() && self.peek() == '.' {
            self.advance();
        }
        let ghost c = self.cursor();
        while !self.is_at_end() && self.peek().is_numeric()
            invariant
                self.input == old(self).input,
                self.line == old(self).line,
                self.wf(),
                s == self.input@,
                old(self).position <= self.position,
                0 <= c <= self.cursor() <= s.len(),
                numeric_end(s, c) == numeric_end(s, self.cursor()),
            decreases s.len() - self.cursor(),
        {
            self.advance();
        }
        proof {
            lemma_newlines_bounds(s, i, self.cursor());
        }
        let text = slice(self.input.as_str(), start, self.position);
        match Numeral::parse(text) {
            Some(n) => Ok(Token::Number(n)),
            None => Err(ConfigParseError::InvalidNumber { value: text.to_owned(), position: start }),
        }
    }

    /// Reads a quoted string. The cursor stands on its opening quote: the
    /// character under the cursor is passed over unread.
    pub fn read_quoted_string(&mut self) -> (r: ParseResult<Token>)
        requires
            old(self).wf(),
        ensures
            final(self).follows(old(self)),
            final(self).has_read(
                r,
                quoted_at(old(self).input@, old(self).cursor(), old(self).line as int),
            ),
    {
        let ghost s = self.input@;
        let ghost i = self.cursor();
        let start_line = self.line;
        if self.is_at_end() {
            proof {
                lemma_newlines_bounds(s, i, i);
            }
            return Err(ConfigParseError::UnterminatedString { line: start_line });
        }
        self.advance();
        let start = self.position;
        proof {
            lemma_newlines_bounds(s, i, i + 1);
            assert(newlines(s, i + 1, i + 1) == 0);
        }
        while !self.is_at_end() && self.peek() != '"'
            invariant
                self.input == old(self).input,
                self.wf(),
                s == self.input@,
                start <= self.position,
                i + 1 <= self.cursor() <= s.len(),
                start_line == old(self).line,
                i == old(self).cursor(),
                find_from(s, '"', i + 1) == find_from(s, '"', self.cursor()),
                self.line == start_line + newlines(s, i + 1, self.cursor()),
            decreases s.len() - self.cursor(),
        {
            let newline = self.peek() == '\n';
            self.advance();
            if newline {
                self.line += 1;
            }
        }
        proof {
            lemma_newlines_bounds(s, i, i + 1);
            lemma_newlines_bounds(s, i + 1, self.cursor());
            lemma_newlines_split(s, i, i + 1, self.cursor());
        }
        if self.is_at_end() {
            return Err(ConfigParseError::UnterminatedString { line: start_line });
        }
        let name_string = slice(self.input.as_str(), start, self.position).to_owned();
        let ghost end = self.cursor();
        self.advance();
        proof {
            lemma_newlines_split(s, i, end, end + 1);
            lemma_newlines_bounds(s, end, end + 1);
        }
        Ok(Token::String(name_string))
    }

    /// Reads a word: as many word characters as stand under the cursor.
    pub fn read_identifier(&mut self) -> (r: ParseResult<Token>)
        requires
            old(self).wf(),
        ensures
            final(self).follows(old(self)),
            r is Ok,
            final(self).has_read(
                r,
                Ok(word_at(old(self).input@, old(self).cursor(), old(self).line as int)),
            ),
    {
        let ghost s = self.input@;
        let ghost i = self.cursor();
        let start = self.position;
        proof {
            lemma_boundary_is_index(s, start as int);
        }
        while !self.is_at_end()
            invariant
                self.input == old(self).input,
                self.line == old(self).line,
                self.wf(),
                s == self.input@,
                start == old(self).position,
                start <= self.position,
                i == old(self).cursor(),
                0 <= i <= self.cursor() <= s.len(),
                word_end(s, i) == word_end(s, self.cursor()),
            ensures
                self.input == old(self).input,
                self.line == old(self).line,
                self.wf(),
                start <= self.position,
                i <= self.cursor() <= s.len(),
                self.cursor() == word_end(s, i),
            decreases s.len() - self.cursor(),
        {
            let ch = self.peek();
            if ch.is_alphanumeric() || ch == '_' || ch == '-' || ch == '*' || ch == '.' || ch
                == ',' || ch == '@' {
                self.advance();
            } else {
                break ;
            }
        }
        proof {
            lemma_newlines_bounds(s, i, self.cursor());
        }
        let name_string = slice(self.input.as_str(), start, self.position);
        Ok(keyword_or_identifier(name_string))
    }

    /// Moves the cursor past whitespace and comments, and counts the line
    /// feeds on the way.
    pub fn skip_whitespace_and_comments(&mut self)
        requires
            old(self).wf(),
        ensures
            final(self).follows(old(self)),
            (final(self).cursor(), final(self).line as int) == skip_trivia(
                old(self).input@,
                old(self).cursor(),
                old(self).line as int,
            ),
    {
        let ghost s = self.input@;
        let ghost i = self.cursor();
        proof {
            lemma_boundary_is_index(s, self.position as int);
            lemma_newlines_bounds(s, i, i);
        }
        while !self.is_at_end()
            invariant
                self.follows(old(self)),
                s == self.input@,
                i == old(self).cursor(),
                skip_trivia(s, i, old(self).line as int) == skip_trivia(
                    s,
                    self.cursor(),
                    self.line as int,
                ),
            ensures
                self.follows(old(self)),
                (self.cursor(), self.line as int) == skip_trivia(s, i, old(self).line as int),
            decreases s.len() - self.cursor(),
        {
            let ghost here = self.cursor();
            let ch = self.peek();
            if ch == ' ' || ch == '\r' || ch == '\t' {
                self.advance();
                proof {
                    lemma_newlines_split(s, i, here, here + 1);
                    lemma_newlines_bounds(s, here, here + 1);
                }
            } else if ch == '\n' {
                self.advance();
                self.line += 1;
                proof {
                    lemma_newlines_split(s, i, here, here + 1);
                }
            } else if ch == '#' {
                self.advance();
                proof {
                    lemma_newlines_split(s, i, here, here + 1);
                    lemma_newlines_bounds(s, here, here + 1);
                }
                while !self.is_at_end() && self.peek() != '\n'
                    invariant
                        self.follows(old(self)),
                        s == self.input@,
                        i == old(self).cursor(),
                        0 <= i <= here,
                        here + 1 <= self.cursor() <= s.len(),
                        find_from(s, '\n', here + 1) == find_from(s, '\n', self.cursor()),
                        skip_trivia(s, i, old(self).line as int) == skip_trivia(
                            s,
                            here,
                            self.line as int,
                        ),
                    decreases s.len() - self.cursor(),
                {
                    let ghost at = self.cursor();
                    self.advance();
                    proof {
                        lemma_newlines_split(s, i, at, at + 1);
                        lemma_newlines_bounds(s, at, at + 1);
                    }
                }
            } else {
                break ;
            }
        }
    }

    /// Moves the cursor past the character under it, if there is one.
    pub fn advance(&mut self)
        requires
            old(self).wf(),
        ensures
            final(self).input == old(self).input,
            final(self).line == old(self).line,
            final(self).wf(),
            final(self).cursor() == if old(self).cursor() < old(self).input@.len() {
                old(self).cursor() + 1
            } else {
                old(self).cursor()
            },
            old(self).position <= final(self).position,
            old(self).cursor() < old(self).input@.len() ==> old(self).position
                < final(self).position,
            0 <= old(self).cursor() <= old(self).input@.len(),
    {
        match char_at(self.input.as_str(), self.position) {
            Some(ch) => {
                self.position = next_offset(self.input.as_str(), self.position, ch);
            },
            None => {},
        }
    }

    /// Whether the cursor is behind the last character.
    pub fn is_at_end(&self) -> (r: bool)
        requires
            self.wf(),
        ensures
            r == (self.cursor() >= self.input@.len()),
            0 <= self.cursor() <= self.input@.len(),
    {
        proof {
            lemma_boundary_is_index(self.input@, self.position as int);
        }
        self.position >= byte_len(self.input.as_str())
    }

    /// The character under the cursor; behind the last, the character with
    /// code 0.
    pub fn peek(&self) -> (c: char)
        requires
            self.wf(),
        ensures
            c == char_or_nul(self.input@, self.cursor()),
    {
        match char_at(self.input.as_str(), self.position) {
            Some(c) => c,
            None => '\0',
        }
    }
}

/// The keyword that `name` is, or the identifier `name`.
fn keyword_or_identifier(name: &str) -> (token: Token)
    ensures
        token@ == word_token(name@),
{
    if str_eq(name, "profile") {
        Token::Profile
    } else if str_eq(name, "output") {
        Token::Output
    } else if str_eq(name, "exec") {
        Token::Exec
    } else if str_eq(name, "include") {
        Token::Include
    } else if str_eq(name, "enable") {
        Token::Enable
    } else if str_eq(name, "disable") {
        Token::Disable
    } else if str_eq(name, "mode") {
        Token::Mode
    } else if str_eq(name, "position") {
        Token::Position
    } else if str_eq(name, "scale") {
        Token::Scale
    } else if str_eq(name, "transform") {
        Token::Transform
    } else if str_eq(name, "adaptive_sync") {
        Token::AdaptiveSync
    } else {
        Token::Identifier(name.to_owned())
    }
}

} // verus!
