// Whole configurations, from text to tree or error.

use kanske_lib::error::ConfigParseError;
use kanske_lib::parser::ast::{Config, ConfigItem, OutputCommand, OutputConfig, OutputDesc};
use kanske_lib::parser::lexer::Lexer;
use kanske_lib::parser::number::Numeral;
use kanske_lib::parser::parse::Parser;
use kanske_lib::parser::parse_text;
use kanske_lib::parser::token::Token;

fn run(text: &str) -> Result<Config, ConfigParseError> {
    let mut lexer = Lexer::new(text.to_string());
    let tokens = lexer.tokenizer()?;
    let mut parser = Parser::new(tokens);
    parser.parse()
}

#[test]
fn empty_input_is_the_empty_configuration() {
    let mut lexer = Lexer::new(String::new());
    let tokens = lexer.tokenizer().unwrap();
    assert_eq!(tokens, vec![Token::Eof]);
    let mut parser = Parser::new(tokens);
    assert_eq!(parser.parse().unwrap(), Config { items: vec![] });
    assert_eq!(parse_text(String::new()).unwrap(), Config { items: vec![] });
}

#[test]
fn an_output_with_a_mode() {
    let config = run("output DP-1 mode 1920x1080@60Hz").unwrap();
    assert_eq!(config.items.len(), 1);
    match &config.items[0] {
        ConfigItem::Output(OutputConfig { desc, commands }) => {
            assert_eq!(*desc, OutputDesc::Name("DP-1".to_string()));
            assert_eq!(commands.len(), 1);
            match &commands[0] {
                OutputCommand::Mode { width, height, frequency } => {
                    assert_eq!(*width, 1920);
                    assert_eq!(*height, 1080);
                    let hertz = frequency.as_ref().map(|f| f.as_str().parse::<f32>().unwrap());
                    assert_eq!(hertz, Some(60.0));
                }
                other => panic!("unexpected command: {:?}", other),
            }
        }
        other => panic!("unexpected item: {:?}", other),
    }
}

#[test]
fn an_invalid_transform() {
    assert_eq!(
        run("profile test { output DP-1 transform 45 }").unwrap_err(),
        ConfigParseError::InvalidTransform { value: "45".to_string() }
    );
}

#[test]
fn an_invalid_adaptive_sync() {
    assert_eq!(
        run("profile test { output DP-1 adaptive_sync maybe }").unwrap_err(),
        ConfigParseError::InvalidAdaptiveSync { value: "maybe".to_string() }
    );
}

#[test]
fn a_quote_that_is_never_closed() {
    let mut lexer = Lexer::new("profile \"test\n    output DP-1 enable\n}".to_string());
    assert_eq!(lexer.tokenizer().unwrap_err(), ConfigParseError::UnterminatedString { line: 0 });
}

#[test]
fn a_position_without_a_comma() {
    assert_eq!(
        run("profile test { output DP-1 position 1920 }").unwrap_err(),
        ConfigParseError::InvalidPosition {
            value: "1920".to_string(),
            reason: "expected format: X,Y (e.g., 1920,0)".to_string(),
        }
    );
}

#[test]
fn a_resolution_without_an_x_as_one_token() {
    let tokens = vec![
        Token::Profile,
        Token::Identifier("test".to_string()),
        Token::LeftBrace,
        Token::Output,
        Token::Identifier("DP-1".to_string()),
        Token::Mode,
        Token::Identifier("1920-1080".to_string()),
        Token::RightBrace,
        Token::Eof,
    ];
    let mut parser = Parser::new(tokens);
    assert_eq!(
        parser.parse().unwrap_err(),
        ConfigParseError::InvalidResolution {
            value: "1920-1080".to_string(),
            reason: "expected format: WIDTHxHEIGHT (e.g., 1920x1080)".to_string(),
        }
    );
}

#[test]
fn a_resolution_without_an_x_as_text() {
    let mut lexer = Lexer::new("profile test { output DP-1 mode 1920-1080 }".to_string());
    let tokens = lexer.tokenizer().unwrap();
    assert_eq!(tokens[6], Token::Number(Numeral::parse("1920").unwrap()));
    assert_eq!(tokens[7], Token::Number(Numeral::parse("-1080").unwrap()));
    let mut parser = Parser::new(tokens);
    assert_eq!(
        parser.parse().unwrap_err(),
        ConfigParseError::InvalidResolution {
            value: "1920".to_string(),
            reason: "expected format: WIDTHxHEIGHT (e.g., 1920x1080)".to_string(),
        }
    );
}

#[test]
fn a_lexical_error_comes_before_any_other() {
    assert_eq!(
        parse_text("enable transform 45 !".to_string()).unwrap_err(),
        ConfigParseError::UnexpectedCharacter { character: '!', position: 20, line: 0 }
    );
}
