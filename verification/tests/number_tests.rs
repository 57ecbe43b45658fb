// Numbers as text, held against the float parser of the standard library.

use kanske_lib::parser::number::{FloatLiteral, Numeral};

const SAMPLES: [&str; 64] = [
    "", " ", "0", "1", "-1", "+1", "--1", "+-1", "1.", ".1", "-.1", "+.1", ".", "-.", "+", "-",
    "1.5", "01.50", "1.5.2", "1e5", "1E5", "1e+5", "1e-5", "1e", "1e+", "e5", ".e5", "1.e5",
    "1e5.0", "1e5e5", "1_000", "1,5", " 1", "1 ", "inf", "INF", "Inf", "+inf", "-inf", "infinity",
    "INFINITY", "-Infinity", "infinit", "infinityy", "in", "nan", "NaN", "-nan", "+NAN", "na",
    "nane", "0x10", "1f32", "٣", "１", "½", "1e999999999999999999999", "-0", "-0.0",
    "00000000000000000000000000000000000000001", "179769313486231570000000000000000000000000",
    "0.000000000000000000000000000000000000000000000000000001", "1e1", "ⅷ",
];

#[test]
fn float_literals_are_what_the_float_parser_reads() {
    for text in SAMPLES {
        assert_eq!(
            FloatLiteral::parse(text).is_some(),
            text.parse::<f32>().is_ok(),
            "text: {:?}",
            text
        );
    }
}

#[test]
fn numerals_are_float_literals_without_plus_exponent_or_name() {
    for text in SAMPLES {
        let plain = !text.is_empty()
            && text.parse::<f32>().is_ok()
            && text.chars().all(|c| c.is_ascii_digit() || c == '.' || c == '-');
        assert_eq!(Numeral::parse(text).is_some(), plain, "text: {:?}", text);
    }
}

#[test]
fn literals_keep_their_text() {
    assert_eq!(Numeral::parse("-012.340").unwrap().as_str(), "-012.340");
    assert_eq!(FloatLiteral::parse("+1.5E-3").unwrap().as_str(), "+1.5E-3");
    assert_eq!(FloatLiteral::parse("1.5").unwrap().clone().as_str(), "1.5");
    let chars: Vec<char> = "6e1".chars().collect();
    assert_eq!(FloatLiteral::from_chars(&chars).unwrap().as_str(), "6e1");
}

#[test]
fn a_numeral_is_an_unsigned_integer_where_it_is_written_as_one() {
    assert_eq!(Numeral::parse("90").unwrap().as_unsigned(), Some(90));
    assert_eq!(Numeral::parse("090.000").unwrap().as_unsigned(), Some(90));
    assert_eq!(Numeral::parse("90.").unwrap().as_unsigned(), Some(90));
    assert_eq!(Numeral::parse("0").unwrap().as_unsigned(), Some(0));
    assert_eq!(Numeral::parse(".0").unwrap().as_unsigned(), Some(0));
    assert_eq!(Numeral::parse("4294967295").unwrap().as_unsigned(), Some(u32::MAX));
    assert_eq!(Numeral::parse("4294967296").unwrap().as_unsigned(), None);
    assert_eq!(Numeral::parse("99999999999999999999999").unwrap().as_unsigned(), None);
    assert_eq!(Numeral::parse("90.5").unwrap().as_unsigned(), None);
    assert_eq!(Numeral::parse("90.0001").unwrap().as_unsigned(), None);
    assert_eq!(Numeral::parse("-90").unwrap().as_unsigned(), None);
    assert_eq!(Numeral::parse("-0").unwrap().as_unsigned(), None);
}
