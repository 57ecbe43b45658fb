// The parser, from tokens to a configuration.

use kanske_lib::error::ConfigParseError;
use kanske_lib::parser::ast::{
    Config, ConfigItem, OutputCommand, OutputConfig, OutputDesc, Profile, Transform,
};
use kanske_lib::parser::number::{FloatLiteral, Numeral};
use kanske_lib::parser::parse::Parser;
use kanske_lib::parser::token::Token;
use kanske_lib::parser::{parse_text, parse_tokens, tokenize};

fn parse(text: &str) -> Result<Config, ConfigParseError> {
    parse_text(text.to_string())
}

fn ident(text: &str) -> Token {
    Token::Identifier(text.to_string())
}

fn number(text: &str) -> Token {
    Token::Number(Numeral::parse(text).unwrap())
}

fn output(name: &str, commands: Vec<OutputCommand>) -> OutputConfig {
    OutputConfig { desc: OutputDesc::Name(name.to_string()), commands }
}

fn profile(name: &str, outputs: Vec<OutputConfig>) -> ConfigItem {
    ConfigItem::Profile(Profile { name: Some(name.to_string()), outputs, execs: Vec::new() })
}

fn mode(width: u32, height: u32, frequency: Option<&str>) -> OutputCommand {
    OutputCommand::Mode {
        width,
        height,
        frequency: frequency.map(|f| FloatLiteral::parse(f).unwrap()),
    }
}

fn unexpected(expected: &str, found: Token, position: usize) -> ConfigParseError {
    ConfigParseError::UnexpectedToken { expected: expected.to_string(), found, position }
}

#[test]
fn a_profile_with_outputs_in_both_forms() {
    let text = "\
# the desk
profile \"at my desk\" {
    output DP-1 enable mode 2560x1440@144Hz position 0,0 scale 1.5 transform 90 adaptive_sync on
    output eDP-1 disable
    output HDMI-A-1 {
        mode 1920x1080
        position -1920,0
        transform flipped-180
        adaptive_sync off
    }
    output DP-2
}
output DP-3 { }
";
    let config = parse(text).unwrap();
    assert_eq!(
        config.items,
        vec![
            profile(
                "at my desk",
                vec![
                    output(
                        "DP-1",
                        vec![
                            OutputCommand::Enable,
                            mode(2560, 1440, Some("144")),
                            OutputCommand::Position { x: 0, y: 0 },
                            OutputCommand::Scale(Numeral::parse("1.5").unwrap()),
                            OutputCommand::Transform(Transform::Rotate90),
                            OutputCommand::AdaptiveSync(true),
                        ]
                    ),
                    output("eDP-1", vec![OutputCommand::Disable]),
                    output(
                        "HDMI-A-1",
                        vec![
                            mode(1920, 1080, None),
                            OutputCommand::Position { x: -1920, y: 0 },
                            OutputCommand::Transform(Transform::Flipped180),
                            OutputCommand::AdaptiveSync(false),
                        ]
                    ),
                    output("DP-2", vec![]),
                ]
            ),
            ConfigItem::Output(output("DP-3", vec![])),
        ]
    );
}

#[test]
fn items_keep_their_order() {
    let config = parse("output B enable profile a { } output A disable profile b { }").unwrap();
    assert_eq!(
        config.items,
        vec![
            ConfigItem::Output(output("B", vec![OutputCommand::Enable])),
            profile("a", vec![]),
            ConfigItem::Output(output("A", vec![OutputCommand::Disable])),
            profile("b", vec![]),
        ]
    );
}

#[test]
fn every_transform_has_its_spelling() {
    let cases = [
        ("normal", Transform::Normal),
        ("90", Transform::Rotate90),
        ("180", Transform::Rotate180),
        ("270", Transform::Rotate270),
        ("flipped", Transform::Flipped),
        ("flipped-90", Transform::Flipped90),
        ("flipped-180", Transform::Flipped180),
        ("flipped-270", Transform::Flipped270),
        ("90.0", Transform::Rotate90),
        ("0270.", Transform::Rotate270),
    ];
    for (text, transform) in cases {
        let config = parse(&format!("output X transform {}", text)).unwrap();
        assert_eq!(
            config.items,
            vec![ConfigItem::Output(output("X", vec![OutputCommand::Transform(transform)]))]
        );
    }
}

#[test]
fn a_transform_is_a_quarter_turn_or_a_name() {
    for text in ["45", "0", "360", "-90", "90.5", "89.9999999", "4294967386", "rotate", "Normal"] {
        assert_eq!(
            parse(&format!("output X transform {}", text)).unwrap_err(),
            ConfigParseError::InvalidTransform { value: text.to_string() }
        );
    }
    assert_eq!(
        parse("output X transform \"normal\"").unwrap_err(),
        unexpected(
            "transform value (normal, 90, 180, 270, flipped, flipped-90, etc.)",
            Token::String("normal".to_string()),
            3
        )
    );
}

#[test]
fn adaptive_sync_is_on_or_off() {
    assert_eq!(
        parse("output X adaptive_sync On").unwrap_err(),
        ConfigParseError::InvalidAdaptiveSync { value: "On".to_string() }
    );
    assert_eq!(
        parse("output X adaptive_sync 1").unwrap_err(),
        unexpected("on or off", number("1"), 3)
    );
}

#[test]
fn scale_takes_a_number() {
    let config = parse("output X scale -0.50").unwrap();
    match &config.items[0] {
        ConfigItem::Output(o) => match &o.commands[0] {
            OutputCommand::Scale(n) => {
                assert_eq!(n.as_str(), "-0.50");
                assert_eq!(n.as_str().parse::<f32>().unwrap(), -0.5);
            }
            other => panic!("unexpected command: {:?}", other),
        },
        other => panic!("unexpected item: {:?}", other),
    }
    assert_eq!(
        parse("output X scale big").unwrap_err(),
        unexpected("scale number (e.g., 1.5)", ident("big"), 3)
    );
    assert_eq!(
        parse("output X scale").unwrap_err(),
        unexpected("scale number (e.g., 1.5)", Token::Eof, 3)
    );
}

#[test]
fn mode_and_position_take_one_identifier() {
    assert_eq!(
        parse("output X mode \"1920x1080\"").unwrap_err(),
        unexpected(
            "mode string (e.g., 1920x1080@60Hz)",
            Token::String("1920x1080".to_string()),
            3
        )
    );
    assert_eq!(
        parse("output X position }").unwrap_err(),
        unexpected("position string (e.g., 1920,0)", Token::RightBrace, 3)
    );
    assert_eq!(
        parse("output X mode 1920").unwrap_err(),
        ConfigParseError::InvalidResolution {
            value: "1920".to_string(),
            reason: "expected format: WIDTHxHEIGHT (e.g., 1920x1080)".to_string(),
        }
    );
    assert_eq!(
        parse("output X position 1,b").unwrap_err(),
        ConfigParseError::InvalidPosition {
            value: "1,b".to_string(),
            reason: "invalid Y coordinate: b".to_string(),
        }
    );
}

#[test]
fn an_output_needs_a_bare_name() {
    assert_eq!(parse("output { }").unwrap_err(), unexpected("output name", Token::LeftBrace, 1));
    assert_eq!(
        parse("output \"DP-1\" enable").unwrap_err(),
        unexpected("output name", Token::String("DP-1".to_string()), 1)
    );
    assert_eq!(parse("output").unwrap_err(), unexpected("output name", Token::Eof, 1));
}

#[test]
fn what_follows_the_name_of_an_output() {
    assert_eq!(
        parse("output X 5").unwrap_err(),
        unexpected("output command", number("5"), 2)
    );
    assert_eq!(
        parse("output X y").unwrap_err(),
        unexpected("output command", ident("y"), 2)
    );
    assert_eq!(
        parse("output X { enable y }").unwrap_err(),
        unexpected("output command", ident("y"), 4)
    );
    assert_eq!(
        parse("output X { enable").unwrap_err(),
        unexpected("output command", Token::Eof, 4)
    );
    assert_eq!(
        parse("output X { output Y }").unwrap_err(),
        unexpected("output command", Token::Output, 3)
    );
}

#[test]
fn commands_in_a_row_end_at_the_first_token_that_starts_none() {
    assert_eq!(
        parse("output X enable y").unwrap_err(),
        unexpected("profile or output", ident("y"), 3)
    );
    assert_eq!(
        parse("output X enable { disable }").unwrap_err(),
        unexpected("profile or output", Token::LeftBrace, 3)
    );
    assert_eq!(
        parse("profile p { output X enable 5 }").unwrap_err(),
        unexpected("output, exec, or }", number("5"), 6)
    );
}

#[test]
fn a_profile_needs_a_name_and_braces() {
    assert_eq!(
        parse("profile { }").unwrap_err(),
        ConfigParseError::MissingProfileName { position: 1 }
    );
    assert_eq!(parse("profile").unwrap_err(), ConfigParseError::MissingProfileName { position: 1 });
    assert_eq!(
        parse("profile 5 { }").unwrap_err(),
        ConfigParseError::MissingProfileName { position: 1 }
    );
    assert_eq!(parse("profile p output X").unwrap_err(), unexpected("{", Token::Output, 2));
    assert_eq!(parse("profile p").unwrap_err(), unexpected("{", Token::Eof, 2));
    assert_eq!(
        parse("profile p { output X").unwrap_err(),
        unexpected("output, exec, or }", Token::Eof, 5)
    );
    assert_eq!(
        parse("profile p { enable }").unwrap_err(),
        unexpected("output, exec, or }", Token::Enable, 3)
    );
    assert_eq!(
        parse("profile p { profile q { } }").unwrap_err(),
        unexpected("output, exec, or }", Token::Profile, 3)
    );
}

#[test]
fn a_profile_is_named_by_a_string_or_an_identifier() {
    assert_eq!(parse("profile \"a b\" { }").unwrap().items, vec![profile("a b", vec![])]);
    assert_eq!(parse("profile a-b { }").unwrap().items, vec![profile("a-b", vec![])]);
    assert_eq!(parse("profile 1,2 { }").unwrap().items, vec![profile("1,2", vec![])]);
}

#[test]
fn the_reserved_keywords_are_refused() {
    assert_eq!(
        parse("profile p { exec notify-send hi }").unwrap_err(),
        unexpected("output or }", Token::Exec, 3)
    );
    assert_eq!(
        parse("profile p { include other }").unwrap_err(),
        unexpected("output, exec, or }", Token::Include, 3)
    );
    assert_eq!(
        parse("output X enable include other").unwrap_err(),
        unexpected("profile or output", Token::Include, 3)
    );
    assert_eq!(
        parse("output X exec y").unwrap_err(),
        unexpected("profile or output", Token::Exec, 2)
    );
}

#[test]
fn after_the_first_item_a_stray_token_is_unexpected() {
    assert_eq!(
        parse("output X enable }").unwrap_err(),
        unexpected("profile or output", Token::RightBrace, 3)
    );
    assert_eq!(
        parse("profile p { } \"q\"").unwrap_err(),
        unexpected("profile or output", Token::String("q".to_string()), 4)
    );
}

#[test]
fn tokens_must_be_well_framed() {
    assert_eq!(parse_tokens(vec![]).unwrap_err(), ConfigParseError::ParsedStringIsEmpty);
    assert_eq!(
        parse_tokens(vec![Token::Enable, Token::Eof]).unwrap_err(),
        ConfigParseError::ParsedStringUnexpectedFormat(
            "the first token must be profile, output or the end of input".to_string()
        )
    );
    assert_eq!(
        parse("enable").unwrap_err(),
        ConfigParseError::ParsedStringUnexpectedFormat(
            "the first token must be profile, output or the end of input".to_string()
        )
    );
    assert_eq!(
        parse_tokens(vec![Token::Output, ident("X")]).unwrap_err(),
        ConfigParseError::ParsedStringUnexpectedFormat(
            "the last token must be the end of input".to_string()
        )
    );
    assert_eq!(parse_tokens(vec![Token::Eof]).unwrap(), Config { items: vec![] });
}

#[test]
fn parsing_stops_on_the_end_of_input() {
    let tokens = tokenize("profile p { output X enable }\noutput Y".to_string()).unwrap();
    let last = tokens.len() - 1;
    let mut parser = Parser::new(tokens);
    assert_eq!(parser.current, 0);
    let config = parser.parse().unwrap();
    assert_eq!(config.items.len(), 2);
    assert_eq!(parser.current, last);
    assert_eq!(parser.tokens[parser.current], Token::Eof);
    assert!(!parser.is_at_end());
}

#[test]
fn parsing_stops_on_the_first_end_of_input() {
    let tokens = vec![Token::Output, ident("X"), Token::Eof, Token::Profile, Token::Eof];
    let mut parser = Parser::new(tokens);
    let config = parser.parse().unwrap();
    assert_eq!(config.items, vec![ConfigItem::Output(output("X", vec![]))]);
    assert_eq!(parser.current, 2);
}

#[test]
fn the_parser_reads_one_construct_at_a_time() {
    let tokens = tokenize("output X { mode 800x600 } profile p { }".to_string()).unwrap();
    let mut parser = Parser::new(tokens);
    assert!(parser.check(&Token::Output));
    assert!(!parser.check(&Token::Profile));
    assert_eq!(parser.parse_output().unwrap(), output("X", vec![mode(800, 600, None)]));
    assert_eq!(parser.current, 6);
    assert_eq!(parser.parse_profile().unwrap(), profile("p", vec![]));
    assert_eq!(parser.current, 10);
    assert!(parser.check(&Token::Eof));
    parser.advance();
    assert!(parser.is_at_end());
    assert!(parser.check(&Token::Eof));
}

#[test]
fn a_command_leaves_the_cursor_on_its_last_token() {
    let tokens = tokenize("enable mode 800x600@75Hz position 1,2 x".to_string()).unwrap();
    let mut parser = Parser::new(tokens);
    assert_eq!(parser.parse_able().unwrap(), OutputCommand::Enable);
    assert_eq!(parser.parse_output_command().unwrap(), OutputCommand::Enable);
    assert_eq!(parser.current, 0);
    parser.advance();
    assert_eq!(parser.parse_output_command().unwrap(), mode(800, 600, Some("75")));
    assert_eq!(parser.current, 2);
    parser.advance();
    assert_eq!(parser.parse_position().unwrap(), OutputCommand::Position { x: 1, y: 2 });
    assert_eq!(parser.current, 4);
    parser.advance();
    assert_eq!(
        parser.parse_output_command().unwrap_err(),
        unexpected("output command", ident("x"), 5)
    );
    assert_eq!(parser.current, 5);
}

#[test]
fn check_compares_the_kind_alone() {
    let parser = Parser::new(vec![ident("a"), number("1"), Token::Eof]);
    assert!(parser.check(&ident("b")));
    assert!(!parser.check(&Token::String("a".to_string())));
    assert!(!parser.check(&number("1")));
}

#[test]
fn mode_and_position_strings_by_the_parser() {
    let parser = Parser::new(vec![Token::Eof]);
    let (width, height, frequency) = parser.parse_mode_str("3440x1440@99.98Hz").unwrap();
    assert_eq!((width, height), (3440, 1440));
    assert_eq!(frequency.unwrap().as_str().parse::<f32>().unwrap(), 99.98);
    assert_eq!(parser.parse_position_str("-5,7").unwrap(), (-5, 7));
    assert!(parser.parse_position_str("5").is_err());
}

#[test]
fn parsing_twice_gives_the_same() {
    let text = "profile a { output DP-1 mode 1x1@1 } output B transform 270";
    assert_eq!(parse(text).unwrap(), parse(text).unwrap());
    let broken = "profile a { output DP-1 mode 1x1@1 } output B transform 27";
    assert_eq!(parse(broken).unwrap_err(), parse(broken).unwrap_err());
}
