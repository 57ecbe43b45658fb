//! The two compound values of an output: its mode, written `WxH@FHz`, and
//! its position, written `X,Y`.
use vstd::prelude::*;
use vstd::slice::*;

use crate::error::{ConfigParseError, ConfigParseErrorView, ParseResult};
use crate::parser::number::{
    i32_of,
    is_float_literal,
    parse_i32,
    parse_u32,
    u32_of,
    FloatLiteral,
};
use crate::parser::result_view;
use crate::parser::text::{contents, join, split, split_at_char, to_chars, trim, trimmed};

verus! {

/// A resolution, and the refresh rate where one was written.
#[derive(Debug, PartialEq)]
pub struct Mode {
    pub width: u32,
    pub height: u32,
    pub frequency: Option<FloatLiteral>,
}

/// A mode as a mathematical value.
pub struct ModeView {
    pub width: u32,
    pub height: u32,
    pub frequency: Option<Seq<char>>,
}

/// The mode with this width, height and refresh rate, as a mathematical
/// value.
pub open spec fn mode_view(width: u32, height: u32, frequency: Option<FloatLiteral>) -> ModeView {
    ModeView {
        width,
        height,
        frequency: match frequency {
            Some(f) => Some(f@),
            None => None,
        },
    }
}

impl View for Mode {
    type V = ModeView;

    open spec fn view(&self) -> ModeView {
        mode_view(self.width, self.height, self.frequency)
    }
}

impl Clone for Mode {
    fn clone(&self) -> (r: Self)
        ensures
            r@ == self@,
    {
        Mode {
            width: self.width,
            height: self.height,
            frequency: match &self.frequency {
                Some(f) => Some(f.clone()),
                None => None,
            },
        }
    }
}

/// Where the top left corner of an output lies.
#[derive(Debug, Clone, Copy, PartialEq, Eq, Structural)]
pub struct Position {
    pub x: i32,
    pub y: i32,
}

impl View for Position {
    type V = Position;

    open spec fn view(&self) -> Position {
        *self
    }
}

/// `s` without `Hz` at its end, however often it stands there.
pub open spec fn strip_hz(s: Seq<char>) -> Seq<char>
    decreases s.len(),
{
    if s.len() >= 2 && s[s.len() - 2] == 'H' && s[s.len() - 1] == 'z' {
        strip_hz(s.take(s.len() - 2))
    } else {
        s
    }
}

/// The text of a refresh rate, as it is handed to the number parser:
/// whitespace at both ends goes first, then `Hz` at the end.
pub open spec fn frequency_text(part: Seq<char>) -> Seq<char> {
    strip_hz(trimmed(part))
}

/// What a mode string means.
///
/// The resolution is what stands before the first `@`; it must have exactly
/// one `x`, with a `u32` on either side. The refresh rate is what stands
/// between the first `@` and the second, if there is a first. A bad
/// resolution format is reported first, then a bad refresh rate, then a bad
/// width, then a bad height.
pub open spec fn mode_of(s: Seq<char>) -> Result<ModeView, ConfigParseErrorView> {
    let parts = split(s, '@');
    let sides = split(parts[0], 'x');
    if sides.len() != 2 {
        Err(
            ConfigParseErrorView::InvalidResolution {
                value: s,
                reason: "expected format: WIDTHxHEIGHT (e.g., 1920x1080)"@,
            },
        )
    } else if parts.len() > 1 && !is_float_literal(frequency_text(parts[1])) {
        Err(
            ConfigParseErrorView::InvalidResolution {
                value: s,
                reason: "invalid frequency: "@ + parts[1],
            },
        )
    } else if u32_of(trimmed(sides[0])) is None {
        Err(
            ConfigParseErrorView::InvalidResolution {
                value: s,
                reason: "invalid width: "@ + sides[0],
            },
        )
    } else if u32_of(trimmed(sides[1])) is None {
        Err(
            ConfigParseErrorView::InvalidResolution {
                value: s,
                reason: "invalid height: "@ + sides[1],
            },
        )
    } else {
        Ok(
            ModeView {
                width: u32_of(trimmed(sides[0]))->0,
                height: u32_of(trimmed(sides[1]))->0,
                frequency: if parts.len() > 1 {
                    Some(frequency_text(parts[1]))
                } else {
                    None
                },
            },
        )
    }
}

/// What a position string means: exactly one `,`, with an `i32` on either
/// side. A bad format is reported first, then a bad X, then a bad Y.
pub open spec fn position_of(s: Seq<char>) -> Result<Position, ConfigParseErrorView> {
    let parts = split(s, ',');
    if parts.len() != 2 {
        Err(
            ConfigParseErrorView::InvalidPosition {
                value: s,
                reason: "expected format: X,Y (e.g., 1920,0)"@,
            },
        )
    } else if i32_of(trimmed(parts[0])) is None {
        Err(
            ConfigParseErrorView::InvalidPosition {
                value: s,
                reason: "invalid X coordinate: "@ + parts[0],
            },
        )
    } else if i32_of(trimmed(parts[1])) is None {
        Err(
            ConfigParseErrorView::InvalidPosition {
                value: s,
                reason: "invalid Y coordinate: "@ + parts[1],
            },
        )
    } else {
        Ok(Position { x: i32_of(trimmed(parts[0]))->0, y: i32_of(trimmed(parts[1]))->0 })
    }
}

/// `chars` without `Hz` at its end, however often it stands there.
pub fn without_hz(chars: &[char]) -> (r: &[char])
    ensures
        r@ == strip_hz(chars@),
{
    let mut end: usize = chars.len();
    assert(chars@.take(end as int) =~= chars@);
    while end >= 2 && chars[end - 2] == 'H' && chars[end - 1] == 'z'
        invariant
            end <= chars@.len(),
            strip_hz(chars@) == strip_hz(chars@.take(end as int)),
        decreases end,
    {
        assert(chars@.take(end as int).take(end - 2) =~= chars@.take(end - 2));
        end = end - 2;
    }
    slice_subrange(chars, 0, end)
}

impl Mode {
    /// Reads a mode string such as `1920x1080@60Hz`.
    pub fn from_line(line: &str) -> (r: ParseResult<Mode>)
        ensures
            result_view(r) == mode_of(line@),
    {
        let chars = to_chars(line);
        let parts = split_at_char(chars.as_slice(), '@');
        let sides = split_at_char(parts[0], 'x');
        assert(contents(parts@)[0] == parts@[0]@);
        if sides.len() != 2 {
            return Err(
                ConfigParseError::InvalidResolution {
                    value: line.to_owned(),
                    reason: "expected format: WIDTHxHEIGHT (e.g., 1920x1080)".to_owned(),
                },
            );
        }
        assert(contents(sides@)[0] == sides@[0]@);
        assert(contents(sides@)[1] == sides@[1]@);
        let frequency = if parts.len() > 1 {
            assert(contents(parts@)[1] == parts@[1]@);
            match FloatLiteral::from_chars(without_hz(trim(parts[1]))) {
                Some(f) => Some(f),
                None => {
                    return Err(
                        ConfigParseError::InvalidResolution {
                            value: line.to_owned(),
                            reason: join("invalid frequency: ", parts[1]),
                        },
                    );
                },
            }
        } else {
            None
        };
        let width = match parse_u32(trim(sides[0])) {
            Some(w) => w,
            None => {
                return Err(
                    ConfigParseError::InvalidResolution {
                        value: line.to_owned(),
                        reason: join("invalid width: ", sides[0]),
                    },
                );
            },
        };
        let height = match parse_u32(trim(sides[1])) {
            Some(h) => h,
            None => {
                return Err(
                    ConfigParseError::InvalidResolution {
                        value: line.to_owned(),
                        reason: join("invalid height: ", sides[1]),
                    },
                );
            },
        };
        Ok(Mode { width, height, frequency })
    }
}

impl Position {
    /// Reads a position string such as `1920,0`.
    pub fn from_line(line: &str) -> (r: ParseResult<Position>)
        ensures
            result_view(r) == position_of(line@),
    {
        let chars = to_chars(line);
        let parts = split_at_char(chars.as_slice(), ',');
        if parts.len() != 2 {
            return Err(
                ConfigParseError::InvalidPosition {
                    value: line.to_owned(),
                    reason: "expected format: X,Y (e.g., 1920,0)".to_owned(),
                },
            );
        }
        assert(contents(parts@)[0] == parts@[0]@);
        assert(contents(parts@)[1] == parts@[1]@);
        let x = match parse_i32(trim(parts[0])) {
            Some(x) => x,
            None => {
                return Err(
                    ConfigParseError::InvalidPosition {
                        value: line.to_owned(),
                        reason: join("invalid X coordinate: ", parts[0]),
                    },
                );
            },
        };
        let y = match parse_i32(trim(parts[1])) {
            Some(y) => y,
            None => {
                return Err(
                    ConfigParseError::InvalidPosition {
                        value: line.to_owned(),
                        reason: join("invalid Y coordinate: ", parts[1]),
                    },
                );
            },
        };
        Ok(Position { x, y })
    }
}

} // verus!
