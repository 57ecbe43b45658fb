// Mode strings, one at a time.

use kanske_lib::error::ConfigParseError;
use kanske_lib::parser::geometry::{Mode, Position};

fn hertz(mode: &Mode) -> Option<f32> {
    mode.frequency.as_ref().map(|f| f.as_str().parse::<f32>().unwrap())
}

#[test]
fn test_mode_with_refresh_and_hz() {
    let mode = Mode::from_line("1920x1080@60Hz").unwrap();
    assert_eq!(mode.width, 1920);
    assert_eq!(mode.height, 1080);
    assert_eq!(hertz(&mode), Some(60.0));
}

#[test]
fn test_mode_with_refresh_no_hz() {
    let result = Mode::from_line("1920x1080@60");
    assert!(result.is_ok());
}

#[test]
fn test_mode_without_refresh() {
    let result = Mode::from_line("1920x1080");
    assert!(result.is_ok());
    let mode = result.unwrap();
    assert_eq!(mode.width, 1920);
    assert_eq!(mode.height, 1080);
    assert_eq!(hertz(&mode), None);
}

#[test]
fn unit_tests_test_mode_high_refresh_rate() {
    let result = Mode::from_line("2560x1440@165Hz");
    assert!(result.is_ok());
    let mode = result.unwrap();
    assert_eq!(mode.width, 2560);
    assert_eq!(mode.height, 1440);
    assert_eq!(hertz(&mode), Some(165.0));
}

#[test]
fn unit_tests_test_mode_4k_resolution() {
    let result = Mode::from_line("3840x2160@60Hz");
    assert!(result.is_ok());
    let mode = result.unwrap();
    assert_eq!(mode.width, 3840);
    assert_eq!(mode.height, 2160);
}

#[test]
fn test_mode_ultrawide() {
    let result = Mode::from_line("3440x1440@100Hz");
    assert!(result.is_ok());
    let mode = result.unwrap();
    assert_eq!(mode.width, 3440);
    assert_eq!(mode.height, 1440);
}

#[test]
fn test_mode_fractional_refresh() {
    let result = Mode::from_line("1920x1080@59.94Hz");
    assert!(result.is_ok());
    let mode = result.unwrap();
    assert_eq!(hertz(&mode), Some(59.94));
}

#[test]
fn test_mode_missing_x_separator() {
    let result = Mode::from_line("1920-1080@60Hz");
    assert!(result.is_err());
}

#[test]
fn test_mode_invalid_width() {
    let result = Mode::from_line("ABCDx1080@60Hz");
    assert!(result.is_err());
}

#[test]
fn test_mode_invalid_height() {
    let result = Mode::from_line("1920xABCD@60Hz");
    assert!(result.is_err());
}

#[test]
fn test_mode_invalid_refresh() {
    let result = Mode::from_line("1920x1080@ABCHz");
    assert!(result.is_err());
}

#[test]
fn test_mode_missing_hz_in_refresh() {
    let result = Mode::from_line("1920x1080@60H");
    assert!(result.is_err());
}

#[test]
fn test_mode_empty_string() {
    let result = Mode::from_line("");
    assert!(result.is_err());
}

#[test]
fn test_mode_only_width() {
    let result = Mode::from_line("1920");
    assert!(result.is_err());
}

#[test]
fn test_mode_negative_dimensions() {
    let result = Mode::from_line("-1920x1080");
    assert!(result.is_err());
}

#[test]
fn test_mode_zero_width() {
    let mode = Mode::from_line("0x1080").unwrap();
    assert_eq!(mode.width, 0);
    assert_eq!(mode.height, 1080);
}

#[test]
fn test_mode_zero_height() {
    let mode = Mode::from_line("1920x0").unwrap();
    assert_eq!(mode.width, 1920);
    assert_eq!(mode.height, 0);
}

#[test]
fn test_mode_very_large_resolution() {
    let result = Mode::from_line("7680x4320@60Hz");
    assert!(result.is_ok());
    let mode = result.unwrap();
    assert_eq!(mode.width, 7680);
    assert_eq!(mode.height, 4320);
}

#[test]
fn test_mode_very_small_resolution() {
    let result = Mode::from_line("640x480@60Hz");
    assert!(result.is_ok());
    let mode = result.unwrap();
    assert_eq!(mode.width, 640);
    assert_eq!(mode.height, 480);
}

#[test]
fn test_mode_portrait_orientation() {
    let result = Mode::from_line("1080x1920@60Hz");
    assert!(result.is_ok());
    let mode = result.unwrap();
    assert_eq!(mode.width, 1080);
    assert_eq!(mode.height, 1920);
}

#[test]
fn test_mode_whitespace_trimming() {
    let result = Mode::from_line("  1920x1080@60Hz  ");
    assert!(result.is_ok());
}

#[test]
fn test_mode_custom_resolution() {
    let result = Mode::from_line("1234x567@89Hz");
    assert!(result.is_ok());
    let mode = result.unwrap();
    assert_eq!(mode.width, 1234);
    assert_eq!(mode.height, 567);
    assert_eq!(hertz(&mode), Some(89.0));
}

#[test]
fn mode_keeps_the_frequency_as_written() {
    let mode = Mode::from_line("1920x1080@ 59.940Hz ").unwrap();
    assert_eq!(mode.frequency.unwrap().as_str(), "59.940");
}

#[test]
fn mode_strips_every_trailing_hz() {
    let mode = Mode::from_line("1920x1080@75HzHz").unwrap();
    assert_eq!(mode.frequency.unwrap().as_str(), "75");
}

#[test]
fn mode_hz_is_case_sensitive() {
    let err = Mode::from_line("1920x1080@60hz").unwrap_err();
    assert_eq!(
        err,
        ConfigParseError::InvalidResolution {
            value: "1920x1080@60hz".to_string(),
            reason: "invalid frequency: 60hz".to_string(),
        }
    );
}

#[test]
fn mode_whitespace_before_hz_is_not_a_number() {
    assert!(Mode::from_line("1920x1080@60 Hz").is_err());
}

#[test]
fn mode_reads_only_the_first_frequency() {
    let mode = Mode::from_line("1920x1080@60@75").unwrap();
    assert_eq!(hertz(&mode), Some(60.0));
}

#[test]
fn mode_accepts_what_the_float_parser_accepts() {
    for text in ["6e1", "+60", ".5", "5.", "inf", "NaN", "-0", "1E-3", "Infinity"] {
        let line = format!("800x600@{}", text);
        let mode = Mode::from_line(&line).unwrap();
        let literal = mode.frequency.unwrap();
        assert_eq!(literal.as_str(), text);
        assert!(literal.as_str().parse::<f32>().is_ok());
    }
}

#[test]
fn mode_error_reasons() {
    let format = ConfigParseError::InvalidResolution {
        value: "1920x1080x3".to_string(),
        reason: "expected format: WIDTHxHEIGHT (e.g., 1920x1080)".to_string(),
    };
    assert_eq!(Mode::from_line("1920x1080x3").unwrap_err(), format);
    assert_eq!(
        Mode::from_line(" a x1080").unwrap_err(),
        ConfigParseError::InvalidResolution {
            value: " a x1080".to_string(),
            reason: "invalid width:  a ".to_string(),
        }
    );
    assert_eq!(
        Mode::from_line("1920x").unwrap_err(),
        ConfigParseError::InvalidResolution {
            value: "1920x".to_string(),
            reason: "invalid height: ".to_string(),
        }
    );
    assert_eq!(
        Mode::from_line("1920x1080@").unwrap_err(),
        ConfigParseError::InvalidResolution {
            value: "1920x1080@".to_string(),
            reason: "invalid frequency: ".to_string(),
        }
    );
}

#[test]
fn mode_reports_the_format_before_the_frequency_and_the_frequency_before_the_width() {
    match Mode::from_line("abc@xyz").unwrap_err() {
        ConfigParseError::InvalidResolution { reason, .. } => {
            assert_eq!(reason, "expected format: WIDTHxHEIGHT (e.g., 1920x1080)")
        }
        other => panic!("unexpected error: {:?}", other),
    }
    match Mode::from_line("axb@xyz").unwrap_err() {
        ConfigParseError::InvalidResolution { reason, .. } => {
            assert_eq!(reason, "invalid frequency: xyz")
        }
        other => panic!("unexpected error: {:?}", other),
    }
}

#[test]
fn mode_width_limits() {
    assert_eq!(Mode::from_line("4294967295x1").unwrap().width, u32::MAX);
    assert!(Mode::from_line("4294967296x1").is_err());
    assert_eq!(Mode::from_line("+0007x+1").unwrap().width, 7);
    assert!(Mode::from_line("+x1").is_err());
    assert!(Mode::from_line("99999999999999999999999999999x1").is_err());
}

#[test]
fn position_reads_two_signed_integers() {
    assert_eq!(Position::from_line("1920,0").unwrap(), Position { x: 1920, y: 0 });
    assert_eq!(Position::from_line("-1920,+7").unwrap(), Position { x: -1920, y: 7 });
    assert_eq!(Position::from_line(" 3 ,\t5 ").unwrap(), Position { x: 3, y: 5 });
    assert_eq!(
        Position::from_line("-2147483648,2147483647").unwrap(),
        Position { x: i32::MIN, y: i32::MAX }
    );
}

#[test]
fn position_errors() {
    assert_eq!(
        Position::from_line("1920").unwrap_err(),
        ConfigParseError::InvalidPosition {
            value: "1920".to_string(),
            reason: "expected format: X,Y (e.g., 1920,0)".to_string(),
        }
    );
    assert_eq!(
        Position::from_line("1,2,3").unwrap_err(),
        ConfigParseError::InvalidPosition {
            value: "1,2,3".to_string(),
            reason: "expected format: X,Y (e.g., 1920,0)".to_string(),
        }
    );
    assert_eq!(
        Position::from_line("a,2").unwrap_err(),
        ConfigParseError::InvalidPosition {
            value: "a,2".to_string(),
            reason: "invalid X coordinate: a".to_string(),
        }
    );
    assert_eq!(
        Position::from_line("1,2147483648").unwrap_err(),
        ConfigParseError::InvalidPosition {
            value: "1,2147483648".to_string(),
            reason: "invalid Y coordinate: 2147483648".to_string(),
        }
    );
    assert!(Position::from_line("-2147483649,0").is_err());
    assert!(Position::from_line("-,0").is_err());
}
