// Whole files, as a user would write them.

use kanske_lib::error::ConfigParseError;
use kanske_lib::parser::ast::{Config, ConfigItem, OutputCommand, OutputConfig, OutputDesc};
use kanske_lib::parser::parse_text;

fn test_config_parse(content: &str) -> Result<Config, ConfigParseError> {
    parse_text(content.to_string())
}

fn output_of(item: &ConfigItem) -> &OutputConfig {
    match item {
        ConfigItem::Output(output) => output,
        other => panic!("Expected an output, got {:?}", other),
    }
}

fn assert_output_name(item: &ConfigItem, expected_name: &str) {
    assert_eq!(output_of(item).desc, OutputDesc::Name(expected_name.to_string()));
}

fn assert_mode(
    item: &ConfigItem,
    expected_width: u32,
    expected_height: u32,
    expected_freq: Option<f32>,
) {
    let mode = output_of(item)
        .commands
        .iter()
        .find_map(|c| match c {
            OutputCommand::Mode { width, height, frequency } => Some((
                *width,
                *height,
                frequency.as_ref().map(|f| f.as_str().parse::<f32>().unwrap()),
            )),
            _ => None,
        })
        .expect("Mode should be present");
    assert_eq!(mode.0, expected_width, "Width mismatch");
    assert_eq!(mode.1, expected_height, "Height mismatch");
    assert_eq!(mode.2, expected_freq, "Frequency mismatch");
}

#[test]
fn test_simple_mode_parsing() {
    let config = r#"
output DP-1 mode 1920x1080@60Hz
"#;
    let result = test_config_parse(config);

    match result {
        Ok(config) => {
            assert_eq!(config.items.len(), 1, "Should have exactly one directive");
            let item = &config.items[0];
            assert_output_name(item, "DP-1");
            assert_mode(item, 1920, 1080, Some(60.0));
        }
        Err(e) => {
            panic!("Should parse simple mode directive. Error: {:?}", e);
        }
    }
}

#[test]
fn parser_tests_test_mode_high_refresh_rate() {
    let config = "output DP-1 mode 2560x1440@165Hz";
    let result = test_config_parse(config);

    if let Ok(config) = result {
        assert_eq!(config.items.len(), 1);
        assert_mode(&config.items[0], 2560, 1440, Some(165.0));
    } else {
        panic!("Should parse high refresh rate. Error: {:?}", result);
    }
}

#[test]
fn parser_tests_test_mode_4k_resolution() {
    let config = "output HDMI-1 mode 3840x2160@60Hz";
    let config = test_config_parse(config).unwrap();
    assert_eq!(config.items.len(), 1);
    assert_mode(&config.items[0], 3840, 2160, Some(60.0));
}

#[test]
fn test_mode_fractional_refresh_rate() {
    let config = "output eDP-1 mode 1920x1080@59.94Hz";
    let config = test_config_parse(config).unwrap();
    assert_eq!(config.items.len(), 1);
    assert_mode(&config.items[0], 1920, 1080, Some(59.94));
}

#[test]
fn test_invalid_mode_missing_x_separator() {
    let config = "output DP-1 mode 1920-1080@60Hz";
    let result = test_config_parse(config);

    assert!(result.is_err(), "Should fail: mode format missing 'x' separator");
    assert_eq!(
        result.unwrap_err(),
        ConfigParseError::InvalidResolution {
            value: "1920-1080@60Hz".to_string(),
            reason: "expected format: WIDTHxHEIGHT (e.g., 1920x1080)".to_string(),
        }
    );
}

#[test]
fn test_invalid_mode_non_numeric_width() {
    let config = "output DP-1 mode ABCDx1080@60Hz";
    let result = test_config_parse(config);

    assert!(result.is_err(), "Should fail: width is not a number");
}

#[test]
fn test_invalid_mode_non_numeric_height() {
    let config = "output DP-1 mode 1920xABCD@60Hz";
    let result = test_config_parse(config);

    assert!(result.is_err(), "Should fail: height is not a number");
}

#[test]
fn test_invalid_mode_non_numeric_refresh() {
    let config = "output DP-1 mode 1920x1080@ABCHz";
    let result = test_config_parse(config);

    assert!(result.is_err(), "Should fail: refresh rate is not a number");
}

#[test]
fn test_mismatched_braces_extra_open() {
    let config = r#"
profile test {
    output eDP-1 mode 1920x1080
    {
"#;
    let result = test_config_parse(config);

    assert!(result.is_err(), "Should fail: mismatched opening braces");
}

#[test]
fn test_mismatched_braces_extra_close() {
    let config = r#"
profile test {
    output eDP-1 mode 1920x1080
}
}
"#;
    let result = test_config_parse(config);

    assert!(result.is_err(), "Should fail: extra closing braces");
}

#[test]
fn test_multiple_braces_same_line() {
    let config = r#"
output test {
    mode {{ 1920x1080
}
"#;
    let result = test_config_parse(config);

    assert!(result.is_err(), "Should fail: multiple braces on same line");
}

#[test]
fn test_empty_config_file() {
    let config = "";
    let result = test_config_parse(config);

    match result {
        Ok(config) => assert_eq!(config.items.len(), 0, "Empty config should have no directives"),
        Err(e) => panic!("Should parse the empty file. Error: {:?}", e),
    }
}

#[test]
fn test_simple_block_with_children() {
    let config = r#"
output DP-1 {
    mode 1920x1080@60Hz
}
"#;
    let result = test_config_parse(config);

    match result {
        Ok(config) => {
            assert_eq!(config.items.len(), 1, "Should have one top-level directive");
            assert_output_name(&config.items[0], "DP-1");

            let children = &output_of(&config.items[0]).commands;
            assert_eq!(children.len(), 1, "Should have one child directive");
        }
        Err(e) => panic!("Should parse block with children. Error: {:?}", e),
    }
}

#[test]
fn test_multiple_top_level_directives() {
    let config = r#"
output DP-1 mode 1920x1080@60Hz
output HDMI-1 mode 2560x1440@144Hz
"#;
    let result = test_config_parse(config);

    match result {
        Ok(config) => {
            assert_eq!(config.items.len(), 2, "Should have two top-level directives");
            assert_output_name(&config.items[0], "DP-1");
            assert_output_name(&config.items[1], "HDMI-1");
        }
        Err(e) => panic!("Should parse multiple directives. Error: {:?}", e),
    }
}

#[test]
fn an_output_does_not_nest() {
    let config = r#"
output DP-1 {
    output DP-2 {
        mode 1920x1080@60Hz
    }
}
"#;
    assert!(test_config_parse(config).is_err());
}
