//! The parser: from a sequence of tokens to a configuration.
//!
//! The grammar is written down twice. The spec functions of this module say
//! what a sequence of tokens means, each as a function from the index of the
//! first token of a construct to the construct and the index of the token
//! after it. The methods of [`Parser`] compute the same with a cursor, and
//! their contracts say so.
use vstd::prelude::*;

use crate::error::{ConfigParseError, ConfigParseErrorView, ParseResult};
use crate::parser::ast::{
    command_views,
    item_views,
    Config,
    ConfigItem,
    ConfigItemView,
    ConfigView,
    OutputCommand,
    OutputCommandView,
    OutputConfig,
    OutputConfigView,
    OutputDesc,
    OutputDescView,
    Profile,
    ProfileView,
    Transform,
};
use crate::parser::geometry::{mode_of, mode_view, position_of, Mode, ModeView, Position};
use crate::parser::number::{unsigned_value, FloatLiteral};
use crate::parser::text::str_eq;
use crate::parser::token::{token_views, Token, TokenKind, TokenView};
use crate::parser::{agrees, extend, lemma_extend_empty, lemma_extend_push, Step};

verus! {

/// The token at index `i`. Past the end of the sequence, and before its
/// start, stands the end of input.
pub open spec fn token_at(ts: Seq<TokenView>, i: int) -> TokenView {
    if 0 <= i < ts.len() {
        ts[i]
    } else {
        TokenView::Eof
    }
}

/// The error for a token that cannot stand at index `i`.
pub open spec fn unexpected(expected: Seq<char>, ts: Seq<TokenView>, i: int)
    -> ConfigParseErrorView {
    ConfigParseErrorView::UnexpectedToken { expected, found: token_at(ts, i), position: i }
}

/// The rotation that a number asks for: 90, 180 or 270, and no other.
pub open spec fn transform_of_number(n: Seq<char>) -> Option<Transform> {
    match unsigned_value(n) {
        Some(v) => if v == 90 {
            Some(Transform::Rotate90)
        } else if v == 180 {
            Some(Transform::Rotate180)
        } else if v == 270 {
            Some(Transform::Rotate270)
        } else {
            None
        },
        None => None,
    }
}

/// The transform that a word names.
pub open spec fn transform_of_word(s: Seq<char>) -> Option<Transform> {
    if s == "normal"@ {
        Some(Transform::Normal)
    } else if s == "flipped"@ {
        Some(Transform::Flipped)
    } else if s == "flipped-90"@ {
        Some(Transform::Flipped90)
    } else if s == "flipped-180"@ {
        Some(Transform::Flipped180)
    } else if s == "flipped-270"@ {
        Some(Transform::Flipped270)
    } else {
        None
    }
}

/// The command `mode` whose argument is the token at index `i`.
pub open spec fn mode_at(ts: Seq<TokenView>, i: int) -> Step<OutputCommandView> {
    match token_at(ts, i) {
        TokenView::Identifier(s) => match mode_of(s) {
            Ok(m) => Ok((OutputCommandView::Mode(m), i + 1)),
            Err(e) => Err(e),
        },
        TokenView::Number(n) => Err(
            ConfigParseErrorView::InvalidResolution {
                value: n,
                reason: "expected format: WIDTHxHEIGHT (e.g., 1920x1080)"@,
            },
        ),
        _ => Err(unexpected("mode string (e.g., 1920x1080@60Hz)"@, ts, i)),
    }
}

/// The command `position` whose argument is the token at index `i`.
pub open spec fn position_at(ts: Seq<TokenView>, i: int) -> Step<OutputCommandView> {
    match token_at(ts, i) {
        TokenView::Identifier(s) => match position_of(s) {
            Ok(p) => Ok((OutputCommandView::Position(p), i + 1)),
            Err(e) => Err(e),
        },
        TokenView::Number(n) => Err(
            ConfigParseErrorView::InvalidPosition {
                value: n,
                reason: "expected format: X,Y (e.g., 1920,0)"@,
            },
        ),
        _ => Err(unexpected("position string (e.g., 1920,0)"@, ts, i)),
    }
}

/// The command `scale` whose argument is the token at index `i`.
pub open spec fn scale_at(ts: Seq<TokenView>, i: int) -> Step<OutputCommandView> {
    match token_at(ts, i) {
        TokenView::Number(n) => Ok((OutputCommandView::Scale(n), i + 1)),
        _ => Err(unexpected("scale number (e.g., 1.5)"@, ts, i)),
    }
}

/// The command `transform` whose argument is the token at index `i`.
pub open spec fn transform_at(ts: Seq<TokenView>, i: int) -> Step<OutputCommandView> {
    match token_at(ts, i) {
        TokenView::Number(n) => match transform_of_number(n) {
            Some(t) => Ok((OutputCommandView::Transform(t), i + 1)),
            None => Err(ConfigParseErrorView::InvalidTransform { value: n }),
        },
        TokenView::Identifier(s) => match transform_of_word(s) {
            Some(t) => Ok((OutputCommandView::Transform(t), i + 1)),
            None => Err(ConfigParseErrorView::InvalidTransform { value: s }),
        },
        _ => Err(
            unexpected(
                "transform value (normal, 90, 180, 270, flipped, flipped-90, etc.)"@,
                ts,
                i,
            ),
        ),
    }
}

/// The command `adaptive_sync` whose argument is the token at index `i`.
pub open spec fn adaptive_sync_at(ts: Seq<TokenView>, i: int) -> Step<OutputCommandView> {
    match token_at(ts, i) {
        TokenView::Identifier(s) => if s == "on"@ {
            Ok((OutputCommandView::AdaptiveSync(true), i + 1))
        } else if s == "off"@ {
            Ok((OutputCommandView::AdaptiveSync(false), i + 1))
        } else {
            Err(ConfigParseErrorView::InvalidAdaptiveSync { value: s })
        },
        _ => Err(unexpected("on or off"@, ts, i)),
    }
}

/// The output command that starts at index `i`.
pub open spec fn command_at(ts: Seq<TokenView>, i: int) -> Step<OutputCommandView> {
    match token_at(ts, i) {
        TokenView::Enable => Ok((OutputCommandView::Enable, i + 1)),
        TokenView::Disable => Ok((OutputCommandView::Disable, i + 1)),
        TokenView::Mode => mode_at(ts, i + 1),
        TokenView::Position => position_at(ts, i + 1),
        TokenView::Scale => scale_at(ts, i + 1),
        TokenView::Transform => transform_at(ts, i + 1),
        TokenView::AdaptiveSync => adaptive_sync_at(ts, i + 1),
        _ => Err(unexpected("output command"@, ts, i)),
    }
}

/// The commands from index `i` up to the closing brace of their block; the
/// brace is read too.
pub open spec fn block_commands(ts: Seq<TokenView>, i: int) -> Step<Seq<OutputCommandView>>
    decreases ts.len() - i,
{
    if token_at(ts, i) is RightBrace {
        Ok((Seq::empty(), i + 1))
    } else {
        match command_at(ts, i) {
            Ok((c, next)) => extend(seq![c], block_commands(ts, next)),
            Err(e) => Err(e),
        }
    }
}

/// The commands from index `i` up to the first token that starts none.
pub open spec fn inline_commands(ts: Seq<TokenView>, i: int) -> Step<Seq<OutputCommandView>>
    decreases ts.len() - i,
{
    if token_at(ts, i).is_command() {
        match command_at(ts, i) {
            Ok((c, next)) => extend(seq![c], inline_commands(ts, next)),
            Err(e) => Err(e),
        }
    } else {
        Ok((Seq::empty(), i))
    }
}

/// True for the tokens after which an output has no command: a closing
/// brace, the end of input, and the keywords that start something else.
pub open spec fn ends_output(t: TokenView) -> bool {
    match t {
        TokenView::RightBrace
        | TokenView::Eof
        | TokenView::Exec
        | TokenView::Include
        | TokenView::Output
        | TokenView::Profile => true,
        _ => false,
    }
}

/// The commands of an output, the first token after its name being at
/// index `i`: a block in braces, or commands in a row, or none.
pub open spec fn output_body(ts: Seq<TokenView>, i: int) -> Step<Seq<OutputCommandView>> {
    let t = token_at(ts, i);
    if t is LeftBrace {
        block_commands(ts, i + 1)
    } else if t.is_command() {
        inline_commands(ts, i)
    } else if ends_output(t) {
        Ok((Seq::empty(), i))
    } else {
        Err(unexpected("output command"@, ts, i))
    }
}

/// The output whose keyword is at index `i`.
pub open spec fn output_at(ts: Seq<TokenView>, i: int) -> Step<OutputConfigView> {
    match token_at(ts, i + 1) {
        TokenView::Identifier(name) => match output_body(ts, i + 2) {
            Ok((commands, next)) => Ok(
                (OutputConfigView { desc: OutputDescView::Name(name), commands }, next),
            ),
            Err(e) => Err(e),
        },
        _ => Err(unexpected("output name"@, ts, i + 1)),
    }
}

/// The outputs of a profile from index `i` up to the closing brace of the
/// profile; the brace is read too.
pub open spec fn profile_outputs(ts: Seq<TokenView>, i: int) -> Step<Seq<OutputConfigView>>
    decreases ts.len() - i,
{
    match token_at(ts, i) {
        TokenView::Output => match output_at(ts, i) {
            Ok((o, next)) => {
                proof {
                    lemma_output_advances(ts, i);
                }
                extend(seq![o], profile_outputs(ts, next))
            },
            Err(e) => Err(e),
        },
        TokenView::RightBrace => Ok((Seq::empty(), i + 1)),
        TokenView::Exec => Err(unexpected("output or }"@, ts, i)),
        _ => Err(unexpected("output, exec, or }"@, ts, i)),
    }
}

/// The profile whose keyword is at index `i`.
pub open spec fn profile_at(ts: Seq<TokenView>, i: int) -> Step<ProfileView> {
    match profile_name(token_at(ts, i + 1)) {
        Some(name) => if token_at(ts, i + 2) is LeftBrace {
            match profile_outputs(ts, i + 3) {
                Ok((outputs, next)) => Ok(
                    (ProfileView { name: Some(name), outputs, execs: Seq::empty() }, next),
                ),
                Err(e) => Err(e),
            }
        } else {
            Err(unexpected("{"@, ts, i + 2))
        },
        None => Err(ConfigParseErrorView::MissingProfileName { position: i + 1 }),
    }
}

/// The name that a token gives a profile: the text of a string or of an
/// identifier.
pub open spec fn profile_name(t: TokenView) -> Option<Seq<char>> {
    match t {
        TokenView::String(s) => Some(s),
        TokenView::Identifier(s) => Some(s),
        _ => None,
    }
}

/// The profile whose keyword is at index `i`, as an item of a configuration.
pub open spec fn profile_item_at(ts: Seq<TokenView>, i: int) -> Step<ConfigItemView> {
    match profile_at(ts, i) {
        Ok((p, next)) => Ok((ConfigItemView::Profile(p), next)),
        Err(e) => Err(e),
    }
}

/// The output whose keyword is at index `i`, as an item of a configuration.
pub open spec fn output_item_at(ts: Seq<TokenView>, i: int) -> Step<ConfigItemView> {
    match output_at(ts, i) {
        Ok((o, next)) => Ok((ConfigItemView::Output(o), next)),
        Err(e) => Err(e),
    }
}

/// The item that starts at index `i`: a profile or an output.
pub open spec fn item_at(ts: Seq<TokenView>, i: int) -> Step<ConfigItemView> {
    match token_at(ts, i) {
        TokenView::Profile => profile_item_at(ts, i),
        TokenView::Output => output_item_at(ts, i),
        _ => Err(unexpected("profile or output"@, ts, i)),
    }
}

/// The profiles and outputs from index `i` up to the end of input; the end
/// of input is not read.
pub open spec fn items_from(ts: Seq<TokenView>, i: int) -> Step<Seq<ConfigItemView>>
    decreases ts.len() - i,
{
    if token_at(ts, i) is Eof {
        Ok((Seq::empty(), i))
    } else {
        match item_at(ts, i) {
            Ok((item, next)) => {
                proof {
                    lemma_item_advances(ts, i);
                }
                extend(seq![item], items_from(ts, next))
            },
            Err(e) => Err(e),
        }
    }
}

/// What the parser asks of a sequence of tokens before it reads it: there is
/// a token, the first starts a profile or an output or is the end of input,
/// and the last is the end of input.
pub open spec fn well_framed(ts: Seq<TokenView>) -> bool {
    &&& ts.len() > 0
    &&& (ts[0] is Profile || ts[0] is Output || ts[0] is Eof)
    &&& ts.last() is Eof
}

/// The error for a sequence of tokens that is not well framed.
pub open spec fn framing_error(ts: Seq<TokenView>) -> ConfigParseErrorView {
    if ts.len() == 0 {
        ConfigParseErrorView::ParsedStringIsEmpty
    } else if !(ts[0] is Profile || ts[0] is Output || ts[0] is Eof) {
        ConfigParseErrorView::ParsedStringUnexpectedFormat(
            "the first token must be profile, output or the end of input"@,
        )
    } else {
        ConfigParseErrorView::ParsedStringUnexpectedFormat(
            "the last token must be the end of input"@,
        )
    }
}

/// What parsing `ts` from index `i` on gives.
pub open spec fn config_from(ts: Seq<TokenView>, i: int) -> Step<ConfigView> {
    if !well_framed(ts) {
        Err(framing_error(ts))
    } else {
        match items_from(ts, i) {
            Ok((items, next)) => Ok((ConfigView { items }, next)),
            Err(e) => Err(e),
        }
    }
}

/// The configuration that `ts` is, read from its first token.
pub open spec fn config_of(ts: Seq<TokenView>) -> Result<ConfigView, ConfigParseErrorView> {
    match config_from(ts, 0) {
        Ok((config, _)) => Ok(config),
        Err(e) => Err(e),
    }
}

/// A command is one or two tokens long.
pub proof fn lemma_command_advances(ts: Seq<TokenView>, i: int)
    requires
        command_at(ts, i) is Ok,
    ensures
        0 <= i < command_at(ts, i)->Ok_0.1 <= ts.len(),
        forall|j: int| i <= j < command_at(ts, i)->Ok_0.1 ==> !(#[trigger] ts[j] is Eof),
{
}

/// A block of commands ends after its start, within the tokens; none of the
/// tokens it reads is the end of input.
pub proof fn lemma_block_advances(ts: Seq<TokenView>, i: int)
    requires
        block_commands(ts, i) is Ok,
    ensures
        0 <= i < block_commands(ts, i)->Ok_0.1 <= ts.len(),
        forall|j: int| i <= j < block_commands(ts, i)->Ok_0.1 ==> !(#[trigger] ts[j] is Eof),
    decreases ts.len() - i,
{
    if !(token_at(ts, i) is RightBrace) {
        lemma_command_advances(ts, i);
        lemma_block_advances(ts, command_at(ts, i)->Ok_0.1);
    }
}

/// Commands in a row end at or after their start, within the tokens; none of
/// the tokens they read is the end of input.
pub proof fn lemma_inline_advances(ts: Seq<TokenView>, i: int)
    requires
        inline_commands(ts, i) is Ok,
        0 <= i <= ts.len(),
    ensures
        i <= inline_commands(ts, i)->Ok_0.1 <= ts.len(),
        forall|j: int| i <= j < inline_commands(ts, i)->Ok_0.1 ==> !(#[trigger] ts[j] is Eof),
    decreases ts.len() - i,
{
    if token_at(ts, i).is_command() {
        lemma_command_advances(ts, i);
        lemma_inline_advances(ts, command_at(ts, i)->Ok_0.1);
    }
}

/// An output ends after its start, within the tokens; none of the tokens it
/// reads is the end of input.
pub proof fn lemma_output_advances(ts: Seq<TokenView>, i: int)
    requires
        token_at(ts, i) is Output,
        output_at(ts, i) is Ok,
    ensures
        0 <= i < output_at(ts, i)->Ok_0.1 <= ts.len(),
        forall|j: int| i <= j < output_at(ts, i)->Ok_0.1 ==> !(#[trigger] ts[j] is Eof),
{
    let t = token_at(ts, i + 2);
    if t is LeftBrace {
        lemma_block_advances(ts, i + 3);
    } else if t.is_command() {
        lemma_inline_advances(ts, i + 2);
    }
}

/// The outputs of a profile end after their start, within the tokens; none of
/// the tokens they read is the end of input.
pub proof fn lemma_profile_outputs_advance(ts: Seq<TokenView>, i: int)
    requires
        profile_outputs(ts, i) is Ok,
    ensures
        0 <= i < profile_outputs(ts, i)->Ok_0.1 <= ts.len(),
        forall|j: int| i <= j < profile_outputs(ts, i)->Ok_0.1 ==> !(#[trigger] ts[j] is Eof),
    decreases ts.len() - i,
{
    if token_at(ts, i) is Output {
        lemma_output_advances(ts, i);
        lemma_profile_outputs_advance(ts, output_at(ts, i)->Ok_0.1);
    }
}

/// A profile ends after its start, within the tokens; none of the tokens it
/// reads is the end of input.
pub proof fn lemma_profile_advances(ts: Seq<TokenView>, i: int)
    requires
        token_at(ts, i) is Profile,
        profile_at(ts, i) is Ok,
    ensures
        0 <= i < profile_at(ts, i)->Ok_0.1 <= ts.len(),
        forall|j: int| i <= j < profile_at(ts, i)->Ok_0.1 ==> !(#[trigger] ts[j] is Eof),
{
    lemma_profile_outputs_advance(ts, i + 3);
}

/// An item ends after its start, within the tokens; none of the tokens it
/// reads is the end of input.
pub proof fn lemma_item_advances(ts: Seq<TokenView>, i: int)
    requires
        item_at(ts, i) is Ok,
    ensures
        0 <= i < item_at(ts, i)->Ok_0.1 <= ts.len(),
        forall|j: int| i <= j < item_at(ts, i)->Ok_0.1 ==> !(#[trigger] ts[j] is Eof),
{
    if token_at(ts, i) is Profile {
        lemma_profile_advances(ts, i);
    } else {
        lemma_output_advances(ts, i);
    }
}

/// Reading stops at the first end of input: none of the tokens that the
/// items are made of is one, and the token after them is.
pub proof fn lemma_items_stop_at_eof(ts: Seq<TokenView>, i: int)
    requires
        items_from(ts, i) is Ok,
    ensures
        i <= items_from(ts, i)->Ok_0.1,
        i <= ts.len() ==> items_from(ts, i)->Ok_0.1 <= ts.len(),
        token_at(ts, items_from(ts, i)->Ok_0.1) is Eof,
        forall|j: int| i <= j < items_from(ts, i)->Ok_0.1 ==> !(#[trigger] ts[j] is Eof),
    decreases ts.len() - i,
{
    if !(token_at(ts, i) is Eof) {
        lemma_item_advances(ts, i);
        lemma_items_stop_at_eof(ts, item_at(ts, i)->Ok_0.1);
    }
}

/// Where the end of input is the last token and no other, as the lexer
/// leaves it, reading the items stops on the last token.
pub proof fn lemma_items_stop_at_last_token(ts: Seq<TokenView>, i: int)
    requires
        items_from(ts, i) is Ok,
        0 <= i < ts.len(),
        ts.last() is Eof,
        forall|k: int| 0 <= k < ts.len() - 1 ==> !(#[trigger] ts[k] is Eof),
    ensures
        items_from(ts, i)->Ok_0.1 == ts.len() - 1,
{
    lemma_items_stop_at_eof(ts, i);
    let next = items_from(ts, i)->Ok_0.1;
    if next == ts.len() {
        assert(!(ts[ts.len() - 1] is Eof));
    }
}

/// True of a tree without any of the reserved constructs: it holds no
/// include, every profile has a name and no exec, and every output is named.
pub open spec fn holds_no_reserved(config: ConfigView) -> bool {
    forall|k: int|
        0 <= k < config.items.len() ==> match #[trigger] config.items[k] {
            ConfigItemView::Profile(p) => {
                &&& p.name is Some
                &&& p.execs.len() == 0
                &&& forall|j: int| 0 <= j < p.outputs.len() ==> (#[trigger] p.outputs[j]).desc is Name
            },
            ConfigItemView::Output(o) => o.desc is Name,
            ConfigItemView::Include(_) => false,
        }
}

/// Every output of a profile is named.
pub proof fn lemma_profile_outputs_named(ts: Seq<TokenView>, i: int)
    requires
        profile_outputs(ts, i) is Ok,
    ensures
        forall|j: int|
            0 <= j < profile_outputs(ts, i)->Ok_0.0.len() ==> (#[trigger] profile_outputs(
                ts,
                i,
            )->Ok_0.0[j]).desc is Name,
    decreases ts.len() - i,
{
    if token_at(ts, i) is Output {
        let (o, next) = output_at(ts, i)->Ok_0;
        lemma_output_advances(ts, i);
        lemma_profile_outputs_named(ts, next);
        let rest = profile_outputs(ts, next)->Ok_0.0;
        let all = profile_outputs(ts, i)->Ok_0.0;
        assert(all =~= seq![o] + rest);
        assert forall|j: int| 0 <= j < all.len() implies (#[trigger] all[j]).desc is Name by {
            if j > 0 {
                assert(all[j] == rest[j - 1]);
            }
        }
    }
}

/// The parser builds none of the reserved constructs.
pub proof fn lemma_items_hold_no_reserved(ts: Seq<TokenView>, i: int)
    requires
        items_from(ts, i) is Ok,
    ensures
        holds_no_reserved(ConfigView { items: items_from(ts, i)->Ok_0.0 }),
    decreases ts.len() - i,
{
    if !(token_at(ts, i) is Eof) {
        let all = items_from(ts, i)->Ok_0.0;
        let (item, next) = item_at(ts, i)->Ok_0;
        lemma_item_advances(ts, i);
        if token_at(ts, i) is Profile {
            lemma_profile_outputs_named(ts, i + 3);
        }
        lemma_items_hold_no_reserved(ts, next);
        let rest = items_from(ts, next)->Ok_0.0;
        assert(all =~= seq![item] + rest);
        assert forall|k: int| 0 <= k < all.len() implies match #[trigger] all[k] {
            ConfigItemView::Profile(p) => {
                &&& p.name is Some
                &&& p.execs.len() == 0
                &&& forall|j: int|
                    0 <= j < p.outputs.len() ==> (#[trigger] p.outputs[j]).desc is Name
            },
            ConfigItemView::Output(o) => o.desc is Name,
            ConfigItemView::Include(_) => false,
        } by {
            if k > 0 {
                assert(all[k] == rest[k - 1]);
            }
        }
    }
}

/// What parses, parses to a tree without reserved constructs.
pub proof fn lemma_config_holds_no_reserved(ts: Seq<TokenView>)
    requires
        config_of(ts) is Ok,
    ensures
        holds_no_reserved(config_of(ts)->Ok_0),
{
    lemma_items_hold_no_reserved(ts, 0);
}

/// A mode string fails as a resolution, a position string as a position.
pub proof fn lemma_command_errors(ts: Seq<TokenView>, i: int)
    requires
        command_at(ts, i) is Err,
    ensures
        is_content_error(command_at(ts, i)->Err_0),
{
}

/// True for the errors that say what is wrong with what a configuration
/// holds; false for those that say that the tokens are not well framed.
pub open spec fn is_content_error(e: ConfigParseErrorView) -> bool {
    !(e is ParsedStringIsEmpty || e is ParsedStringUnexpectedFormat)
}

/// A block of commands fails with a content error.
pub proof fn lemma_block_errors(ts: Seq<TokenView>, i: int)
    requires
        block_commands(ts, i) is Err,
    ensures
        is_content_error(block_commands(ts, i)->Err_0),
    decreases ts.len() - i,
{
    if command_at(ts, i) is Ok {
        lemma_command_advances(ts, i);
        lemma_block_errors(ts, command_at(ts, i)->Ok_0.1);
    } else {
        lemma_command_errors(ts, i);
    }
}

/// Commands in a row fail with a content error.
pub proof fn lemma_inline_errors(ts: Seq<TokenView>, i: int)
    requires
        inline_commands(ts, i) is Err,
    ensures
        is_content_error(inline_commands(ts, i)->Err_0),
    decreases ts.len() - i,
{
    if command_at(ts, i) is Ok {
        lemma_command_advances(ts, i);
        lemma_inline_errors(ts, command_at(ts, i)->Ok_0.1);
    } else {
        lemma_command_errors(ts, i);
    }
}

/// An output fails with a content error.
pub proof fn lemma_output_errors(ts: Seq<TokenView>, i: int)
    requires
        output_at(ts, i) is Err,
    ensures
        is_content_error(output_at(ts, i)->Err_0),
{
    if token_at(ts, i + 1) is Identifier {
        let t = token_at(ts, i + 2);
        if t is LeftBrace {
            lemma_block_errors(ts, i + 3);
        } else if t.is_command() {
            lemma_inline_errors(ts, i + 2);
        }
    }
}

/// The outputs of a profile fail with a content error.
pub proof fn lemma_profile_outputs_errors(ts: Seq<TokenView>, i: int)
    requires
        profile_outputs(ts, i) is Err,
    ensures
        is_content_error(profile_outputs(ts, i)->Err_0),
    decreases ts.len() - i,
{
    if token_at(ts, i) is Output {
        if output_at(ts, i) is Ok {
            lemma_output_advances(ts, i);
            lemma_profile_outputs_errors(ts, output_at(ts, i)->Ok_0.1);
        } else {
            lemma_output_errors(ts, i);
        }
    }
}

/// The items of a configuration fail with a content error.
pub proof fn lemma_content_errors(ts: Seq<TokenView>, i: int)
    requires
        items_from(ts, i) is Err,
    ensures
        is_content_error(items_from(ts, i)->Err_0),
    decreases ts.len() - i,
{
    if item_at(ts, i) is Ok {
        lemma_item_advances(ts, i);
        lemma_content_errors(ts, item_at(ts, i)->Ok_0.1);
    } else if token_at(ts, i) is Output {
        lemma_output_errors(ts, i);
    } else if token_at(ts, i) is Profile && profile_name(token_at(ts, i + 1)) is Some && token_at(
        ts,
        i + 2,
    ) is LeftBrace {
        lemma_profile_outputs_errors(ts, i + 3);
    }
}

/// A parser: the tokens, and the index of the one that is read next.
#[derive(Debug, Clone)]
pub struct Parser {
    pub tokens: Vec<Token>,
    pub current: usize,
}

impl Parser {
    /// The tokens as mathematical values.
    pub open spec fn views(&self) -> Seq<TokenView> {
        token_views(self.tokens@)
    }

    /// A parser that is about to read the first of `tokens`.
    pub fn new(tokens: Vec<Token>) -> (p: Self)
        ensures
            p.tokens == tokens,
            p.current == 0,
    {
        Self { tokens, current: 0 }
    }

    /// Reads the whole configuration, from the cursor to the end of input.
    ///
    /// The tokens must be well framed; where they are not, the error says
    /// so, and it is one that no content gives. On success the cursor stands
    /// on the first end of input at or after where it stood, which is a
    /// token of the sequence.
    pub fn parse(&mut self) -> (r: ParseResult<Config>)
        ensures
            final(self).tokens == old(self).tokens,
            old(self).current <= final(self).current,
            agrees(
                r,
                final(self).current as int,
                config_from(old(self).views(), old(self).current as int),
            ),
            r is Ok ==> token_at(old(self).views(), final(self).current as int) is Eof,
            r is Ok && old(self).current < old(self).tokens@.len() ==> final(self).current
                < old(self).tokens@.len(),
            r is Ok ==> forall|j: int|
                old(self).current <= j < final(self).current ==> !(
                #[trigger] old(self).views()[j] is Eof),
            !well_framed(old(self).views()) <==> (r matches Err(e) && (e
                is ParsedStringIsEmpty || e is ParsedStringUnexpectedFormat)),
    {
        let ghost ts = self.views();
        let ghost start = self.current as int;
        let n = self.tokens.len();
        if n == 0 {
            return Err(ConfigParseError::ParsedStringIsEmpty);
        }
        let first = self.tokens[0].kind();
        if !(first == TokenKind::Profile || first == TokenKind::Output || first == TokenKind::Eof) {
            return Err(
                ConfigParseError::ParsedStringUnexpectedFormat(
                    "the first token must be profile, output or the end of input".to_owned(),
                ),
            );
        }
        if self.tokens[n - 1].kind() != TokenKind::Eof {
            return Err(
                ConfigParseError::ParsedStringUnexpectedFormat(
                    "the last token must be the end of input".to_owned(),
                ),
            );
        }
        assert(well_framed(ts));
        let mut config = Config { items: Vec::new() };
        proof {
            assert(item_views(config.items@) =~= Seq::empty());
            lemma_extend_empty(Seq::empty(), items_from(ts, start), 0);
        }
        loop
            invariant
                self.tokens == old(self).tokens,
                self.views() == ts,
                ts == old(self).views(),
                start == old(self).current,
                well_framed(ts),
                start <= self.current,
                items_from(ts, start) == extend(
                    item_views(config.items@),
                    items_from(ts, self.current as int),
                ),
            ensures
                self.tokens == old(self).tokens,
                start <= self.current,
                items_from(ts, start) == Ok::<(Seq<ConfigItemView>, int), ConfigParseErrorView>(
                    (item_views(config.items@), self.current as int),
                ),
            decreases self.tokens@.len() - self.current,
        {
            let ghost here = self.current as int;
            let ghost before = config.items@;
            let item = match self.kind_here() {
                TokenKind::Profile => match self.parse_profile() {
                    Ok(item) => {
                        proof {
                            lemma_item_advances(ts, here);
                        }
                        item
                    },
                    Err(e) => {
                        proof {
                            lemma_content_errors(ts, start);
                        }
                        return Err(e);
                    },
                },
                TokenKind::Output => match self.parse_output() {
                    Ok(o) => {
                        proof {
                            lemma_item_advances(ts, here);
                        }
                        ConfigItem::Output(o)
                    },
                    Err(e) => {
                        proof {
                            lemma_content_errors(ts, start);
                        }
                        return Err(e);
                    },
                },
                TokenKind::Eof => {
                    proof {
                        lemma_extend_empty(item_views(config.items@), items_from(ts, here), here);
                    }
                    break ;
                },
                _ => {
                    proof {
                        lemma_content_errors(ts, start);
                    }
                    return Err(self.unexpected("profile or output"));
                },
            };
            config.items.push(item);
            proof {
                assert(item_views(config.items@) =~= item_views(before).push(item@));
                lemma_extend_push(
                    item_views(before),
                    item@,
                    items_from(ts, self.current as int),
                );
            }
        }
        proof {
            lemma_items_stop_at_eof(ts, start);
        }
        Ok(config)
    }

    /// Reads one profile: its keyword, its name, and its outputs in braces.
    pub fn parse_profile(&mut self) -> (r: ParseResult<ConfigItem>)
        requires
            token_at(old(self).views(), old(self).current as int) is Profile,
        ensures
            final(self).tokens == old(self).tokens,
            old(self).current <= final(self).current,
            agrees(
                r,
                final(self).current as int,
                profile_item_at(old(self).views(), old(self).current as int),
            ),
    {
        let ghost ts = self.views();
        let ghost start = self.current as int;
        self.advance();
        let name = if self.current < self.tokens.len() {
            match &self.tokens[self.current] {
                Token::String(s) => s.clone(),
                Token::Identifier(s) => s.clone(),
                _ => {
                    return Err(ConfigParseError::MissingProfileName { position: self.current });
                },
            }
        } else {
            return Err(ConfigParseError::MissingProfileName { position: self.current });
        };
        let ghost name_view = name@;
        let mut profile = Profile::new(name);
        self.advance();
        if !self.check(&Token::LeftBrace) {
            return Err(self.unexpected("{"));
        }
        self.advance();
        proof {
            lemma_extend_empty(Seq::empty(), profile_outputs(ts, start + 3), 0);
        }
        loop
            invariant_except_break
                profile_outputs(ts, start + 3) == extend(
                    profile@.outputs,
                    profile_outputs(ts, self.current as int),
                ),
            invariant
                self.tokens == old(self).tokens,
                self.views() == ts,
                ts == old(self).views(),
                start == old(self).current,
                profile_name(token_at(ts, start + 1)) == Some(name_view),
                token_at(ts, start + 2) is LeftBrace,
                start + 3 <= self.current <= self.tokens@.len(),
                profile@.name == Some(name_view),
                profile@.execs == Seq::<Seq<char>>::empty(),
            ensures
                self.tokens == old(self).tokens,
                start + 3 <= self.current <= self.tokens@.len(),
                profile@.name == Some(name_view),
                profile@.execs == Seq::<Seq<char>>::empty(),
                profile_outputs(ts, start + 3) == Ok::<
                    (Seq<OutputConfigView>, int),
                    ConfigParseErrorView,
                >((profile@.outputs, self.current as int)),
            decreases self.tokens@.len() - self.current,
        {
            let ghost here = self.current as int;
            let ghost before = profile@.outputs;
            match self.kind_here() {
                TokenKind::Output => match self.parse_output() {
                    Ok(o) => {
                        profile.outputs.push(o);
                        proof {
                            lemma_output_advances(ts, here);
                            assert(profile@.outputs =~= before.push(o@));
                            lemma_extend_push(before, o@, profile_outputs(ts, self.current as int));
                        }
                    },
                    Err(e) => {
                        return Err(e);
                    },
                },
                TokenKind::RightBrace => {
                    self.advance();
                    proof {
                        lemma_extend_empty(before, profile_outputs(ts, here), here + 1);
                    }
                    break ;
                },
                TokenKind::Exec => {
                    return Err(self.unexpected("output or }"));
                },
                _ => {
                    return Err(self.unexpected("output, exec, or }"));
                },
            }
        }
        Ok(ConfigItem::Profile(profile))
    }

    /// Reads one output: its keyword, its name, and its commands, in braces
    /// or in a row.
    pub fn parse_output(&mut self) -> (r: ParseResult<OutputConfig>)
        requires
            token_at(old(self).views(), old(self).current as int) is Output,
        ensures
            final(self).tokens == old(self).tokens,
            old(self).current <= final(self).current,
            agrees(
                r,
                final(self).current as int,
                output_at(old(self).views(), old(self).current as int),
            ),
    {
        let ghost ts = self.views();
        let ghost start = self.current as int;
        self.advance();
        let ghost name_view = token_at(ts, start + 1)->Identifier_0;
        let desc = if self.current < self.tokens.len() {
            match &self.tokens[self.current] {
                Token::Identifier(name) => OutputDesc::Name(name.clone()),
                _ => {
                    return Err(self.unexpected("output name"));
                },
            }
        } else {
            return Err(self.unexpected("output name"));
        };
        self.advance();
        let mut commands: Vec<OutputCommand> = Vec::new();
        let kind = self.kind_here();
        if kind == TokenKind::LeftBrace {
            self.advance();
            proof {
                assert(command_views(commands@) =~= Seq::empty());
                lemma_extend_empty(Seq::empty(), block_commands(ts, start + 3), 0);
            }
            while !self.is_at_end() && !self.check(&Token::RightBrace)
                invariant
                    self.tokens == old(self).tokens,
                    self.views() == ts,
                    ts == old(self).views(),
                    start == old(self).current,
                    token_at(ts, start + 1) == TokenView::Identifier(name_view),
                    desc@ == OutputDescView::Name(name_view),
                    token_at(ts, start + 2) is LeftBrace,
                    start + 3 <= self.current <= self.tokens@.len(),
                    block_commands(ts, start + 3) == extend(
                        command_views(commands@),
                        block_commands(ts, self.current as int),
                    ),
                decreases self.tokens@.len() - self.current,
            {
                let ghost before = commands@;
                match self.parse_output_command() {
                    Ok(c) => {
                        commands.push(c);
                        self.advance();
                        proof {
                            assert(command_views(commands@) =~= command_views(before).push(c@));
                            lemma_extend_push(
                                command_views(before),
                                c@,
                                block_commands(ts, self.current as int),
                            );
                        }
                    },
                    Err(e) => {
                        return Err(e);
                    },
                }
            }
            if self.is_at_end() {
                return Err(self.unexpected("output command"));
            }
            proof {
                lemma_extend_empty(
                    command_views(commands@),
                    block_commands(ts, self.current as int),
                    self.current + 1,
                );
            }
            self.advance();
        } else if is_command_kind(kind) {
            proof {
                assert(command_views(commands@) =~= Seq::empty());
                lemma_extend_empty(Seq::empty(), inline_commands(ts, start + 2), 0);
            }
            while is_command_kind(self.kind_here())
                invariant
                    self.tokens == old(self).tokens,
                    self.views() == ts,
                    ts == old(self).views(),
                    start == old(self).current,
                    token_at(ts, start + 1) == TokenView::Identifier(name_view),
                    desc@ == OutputDescView::Name(name_view),
                    token_at(ts, start + 2).is_command(),
                    start + 2 <= self.current <= self.tokens@.len(),
                    inline_commands(ts, start + 2) == extend(
                        command_views(commands@),
                        inline_commands(ts, self.current as int),
                    ),
                decreases self.tokens@.len() - self.current,
            {
                let ghost before = commands@;
                match self.parse_output_command() {
                    Ok(c) => {
                        commands.push(c);
                        self.advance();
                        proof {
                            assert(command_views(commands@) =~= command_views(before).push(c@));
                            lemma_extend_push(
                                command_views(before),
                                c@,
                                inline_commands(ts, self.current as int),
                            );
                        }
                    },
                    Err(e) => {
                        return Err(e);
                    },
                }
            }
            proof {
                lemma_extend_empty(
                    command_views(commands@),
                    inline_commands(ts, self.current as int),
                    self.current as int,
                );
            }
        } else if kind == TokenKind::RightBrace || kind == TokenKind::Eof || kind
            == TokenKind::Exec || kind == TokenKind::Include || kind == TokenKind::Output || kind
            == TokenKind::Profile {
            proof {
                assert(command_views(commands@) =~= Seq::empty());
            }
        } else {
            return Err(self.unexpected("output command"));
        }
        Ok(OutputConfig { desc, commands })
    }

    /// Reads one output command. The cursor is left on the last token of the
    /// command, not behind it.
    pub fn parse_output_command(&mut self) -> (r: ParseResult<OutputCommand>)
        ensures
            final(self).tokens == old(self).tokens,
            old(self).current <= final(self).current,
            agrees(
                r,
                final(self).current + 1,
                command_at(old(self).views(), old(self).current as int),
            ),
            r is Ok ==> final(self).current < final(self).tokens@.len(),
    {
        match self.kind_here() {
            TokenKind::Enable => self.parse_able(),
            TokenKind::Disable => self.parse_able(),
            TokenKind::Mode => self.parse_mode(),
            TokenKind::Position => self.parse_position(),
            TokenKind::Scale => self.parse_scale(),
            TokenKind::Transform => self.parse_transform(),
            TokenKind::AdaptiveSync => self.parse_adaptive_sync(),
            _ => Err(self.unexpected("output command")),
        }
    }

    /// Reads `enable` or `disable`, on which the cursor stands.
    pub fn parse_able(&self) -> (r: ParseResult<OutputCommand>)
        requires
            token_at(self.views(), self.current as int) is Enable || token_at(
                self.views(),
                self.current as int,
            ) is Disable,
        ensures
            agrees(r, self.current + 1, command_at(self.views(), self.current as int)),
            r is Ok,
    {
        if self.check(&Token::Enable) {
            Ok(OutputCommand::Enable)
        } else {
            Ok(OutputCommand::Disable)
        }
    }

    /// Reads the argument of `mode`, on which the cursor stands.
    pub fn parse_mode(&mut self) -> (r: ParseResult<OutputCommand>)
        requires
            token_at(old(self).views(), old(self).current as int) is Mode,
        ensures
            final(self).tokens == old(self).tokens,
            final(self).current == old(self).current + 1,
            agrees(r, old(self).current + 2, mode_at(old(self).views(), old(self).current + 1)),
            r is Ok ==> final(self).current < final(self).tokens@.len(),
    {
        self.advance();
        if self.current < self.tokens.len() {
            match &self.tokens[self.current] {
                Token::Identifier(mode_str) => match self.parse_mode_str(mode_str.as_str()) {
                    Ok((width, height, frequency)) => Ok(
                        OutputCommand::Mode { width, height, frequency },
                    ),
                    Err(e) => Err(e),
                },
                Token::Number(n) => Err(
                    ConfigParseError::InvalidResolution {
                        value: n.as_str().to_owned(),
                        reason: "expected format: WIDTHxHEIGHT (e.g., 1920x1080)".to_owned(),
                    },
                ),
                _ => Err(self.unexpected("mode string (e.g., 1920x1080@60Hz)")),
            }
        } else {
            Err(self.unexpected("mode string (e.g., 1920x1080@60Hz)"))
        }
    }

    /// Reads a mode string: the width, the height, and the refresh rate
    /// where one is written.
    pub fn parse_mode_str(&self, s: &str) -> (r: ParseResult<(u32, u32, Option<FloatLiteral>)>)
        ensures
            match r {
                Ok((width, height, frequency)) => mode_of(s@) == Ok::<
                    ModeView,
                    ConfigParseErrorView,
                >(mode_view(width, height, frequency)),
                Err(e) => mode_of(s@) == Err::<ModeView, ConfigParseErrorView>(e@),
            },
    {
        match Mode::from_line(s) {
            Ok(m) => Ok((m.width, m.height, m.frequency)),
            Err(e) => Err(e),
        }
    }

    /// Reads the argument of `position`, on which the cursor stands.
    pub fn parse_position(&mut self) -> (r: ParseResult<OutputCommand>)
        requires
            token_at(old(self).views(), old(self).current as int) is Position,
        ensures
            final(self).tokens == old(self).tokens,
            final(self).current == old(self).current + 1,
            agrees(r, old(self).current + 2, position_at(old(self).views(), old(self).current + 1)),
            r is Ok ==> final(self).current < final(self).tokens@.len(),
    {
        self.advance();
        if self.current < self.tokens.len() {
            match &self.tokens[self.current] {
                Token::Identifier(position_str) => match self.parse_position_str(
                    position_str.as_str(),
                ) {
                    Ok((x, y)) => Ok(OutputCommand::Position { x, y }),
                    Err(e) => Err(e),
                },
                Token::Number(n) => Err(
                    ConfigParseError::InvalidPosition {
                        value: n.as_str().to_owned(),
                        reason: "expected format: X,Y (e.g., 1920,0)".to_owned(),
                    },
                ),
                _ => Err(self.unexpected("position string (e.g., 1920,0)")),
            }
        } else {
            Err(self.unexpected("position string (e.g., 1920,0)"))
        }
    }

    /// Reads a position string: the two coordinates.
    pub fn parse_position_str(&self, s: &str) -> (r: ParseResult<(i32, i32)>)
        ensures
            match r {
                Ok((x, y)) => position_of(s@) == Ok::<Position, ConfigParseErrorView>(
                    Position { x, y },
                ),
                Err(e) => position_of(s@) == Err::<Position, ConfigParseErrorView>(e@),
            },
    {
        match Position::from_line(s) {
            Ok(p) => Ok((p.x, p.y)),
            Err(e) => Err(e),
        }
    }

    /// Reads the argument of `scale`, on which the cursor stands.
    pub fn parse_scale(&mut self) -> (r: ParseResult<OutputCommand>)
        requires
            token_at(old(self).views(), old(self).current as int) is Scale,
        ensures
            final(self).tokens == old(self).tokens,
            final(self).current == old(self).current + 1,
            agrees(r, old(self).current + 2, scale_at(old(self).views(), old(self).current + 1)),
            r is Ok ==> final(self).current < final(self).tokens@.len(),
    {
        self.advance();
        if self.current < self.tokens.len() {
            match &self.tokens[self.current] {
                Token::Number(n) => Ok(OutputCommand::Scale(n.clone())),
                _ => Err(self.unexpected("scale number (e.g., 1.5)")),
            }
        } else {
            Err(self.unexpected("scale number (e.g., 1.5)"))
        }
    }

    /// Reads the argument of `transform`, on which the cursor stands.
    pub fn parse_transform(&mut self) -> (r: ParseResult<OutputCommand>)
        requires
            token_at(old(self).views(), old(self).current as int) is Transform,
        ensures
            final(self).tokens == old(self).tokens,
            final(self).current == old(self).current + 1,
            agrees(r, old(self).current + 2, transform_at(old(self).views(), old(self).current + 1)),
            r is Ok ==> final(self).current < final(self).tokens@.len(),
    {
        self.advance();
        if self.current >= self.tokens.len() {
            return Err(
                self.unexpected(
                    "transform value (normal, 90, 180, 270, flipped, flipped-90, etc.)",
                ),
            );
        }
        let transform = match &self.tokens[self.current] {
            Token::Number(n) => {
                let value = n.as_unsigned();
                if value == Some(90) {
                    Transform::Rotate90
                } else if value == Some(180) {
                    Transform::Rotate180
                } else if value == Some(270) {
                    Transform::Rotate270
                } else {
                    return Err(
                        ConfigParseError::InvalidTransform { value: n.as_str().to_owned() },
                    );
                }
            },
            Token::Identifier(s) => {
                if str_eq(s.as_str(), "normal") {
                    Transform::Normal
                } else if str_eq(s.as_str(), "flipped") {
                    Transform::Flipped
                } else if str_eq(s.as_str(), "flipped-90") {
                    Transform::Flipped90
                } else if str_eq(s.as_str(), "flipped-180") {
                    Transform::Flipped180
                } else if str_eq(s.as_str(), "flipped-270") {
                    Transform::Flipped270
                } else {
                    return Err(ConfigParseError::InvalidTransform { value: s.clone() });
                }
            },
            _ => {
                return Err(
                    self.unexpected(
                        "transform value (normal, 90, 180, 270, flipped, flipped-90, etc.)",
                    ),
                );
            },
        };
        Ok(OutputCommand::Transform(transform))
    }

    /// Reads the argument of `adaptive_sync`, on which the cursor stands.
    pub fn parse_adaptive_sync(&mut self) -> (r: ParseResult<OutputCommand>)
        requires
            token_at(old(self).views(), old(self).current as int) is AdaptiveSync,
        ensures
            final(self).tokens == old(self).tokens,
            final(self).current == old(self).current + 1,
            agrees(r, old(self).current + 2, adaptive_sync_at(old(self).views(), old(self).current + 1)),
            r is Ok ==> final(self).current < final(self).tokens@.len(),
    {
        self.advance();
        if self.current < self.tokens.len() {
            match &self.tokens[self.current] {
                Token::Identifier(a) => {
                    if str_eq(a.as_str(), "on") {
                        Ok(OutputCommand::AdaptiveSync(true))
                    } else if str_eq(a.as_str(), "off") {
                        Ok(OutputCommand::AdaptiveSync(false))
                    } else {
                        Err(ConfigParseError::InvalidAdaptiveSync { value: a.clone() })
                    }
                },
                _ => Err(self.unexpected("on or off")),
            }
        } else {
            Err(self.unexpected("on or off"))
        }
    }

    /// Whether the token under the cursor is of the same sort as `token`,
    /// whatever text either holds.
    pub fn check(&self, token: &Token) -> (r: bool)
        ensures
            r == (token_at(self.views(), self.current as int).kind() == token@.kind()),
    {
        self.kind_here() == token.kind()
    }

    /// Whether the cursor is behind the last token.
    pub fn is_at_end(&self) -> (r: bool)
        ensures
            r == (self.current >= self.tokens@.len()),
    {
        self.current >= self.tokens.len()
    }

    /// Moves the cursor from the token under it to the next.
    pub fn advance(&mut self)
        requires
            old(self).current < old(self).tokens.len(),
        ensures
            final(self).tokens == old(self).tokens,
            final(self).current == old(self).current + 1,
    {
        self.current += 1;
    }

    /// The sort of the token under the cursor.
    fn kind_here(&self) -> (k: TokenKind)
        ensures
            k == token_at(self.views(), self.current as int).kind(),
    {
        if self.current < self.tokens.len() {
            self.tokens[self.current].kind()
        } else {
            TokenKind::Eof
        }
    }

    /// The error for the token under the cursor, which cannot stand there.
    fn unexpected(&self, expected: &str) -> (e: ConfigParseError)
        ensures
            e@ == unexpected(expected@, self.views(), self.current as int),
    {
        let found = if self.current < self.tokens.len() {
            self.tokens[self.current].clone()
        } else {
            Token::Eof
        };
        ConfigParseError::UnexpectedToken {
            expected: expected.to_owned(),
            found,
            position: self.current,
        }
    }
}

/// Whether a token of sort `kind` starts an output command.
fn is_command_kind(kind: TokenKind) -> (r: bool)
    ensures
        forall|t: TokenView| t.kind() == kind ==> t.is_command() == r,
{
    match kind {
        TokenKind::Enable
        | TokenKind::Disable
        | TokenKind::Mode
        | TokenKind::Position
        | TokenKind::Scale
        | TokenKind::Transform
        | TokenKind::AdaptiveSync => true,
        _ => false,
    }
}

} // verus!
