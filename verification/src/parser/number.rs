//! Numbers as they are written in a configuration.
//!
//! The parser never computes with binary floating point. A number keeps the
//! text it was written with, and this module says which texts are numbers:
//! [`Numeral`] is a plain decimal, [`FloatLiteral`] is anything that Rust's
//! parser for floating-point numbers accepts. Integers (widths, heights,
//! coordinates) are read here too.
use vstd::prelude::*;

use crate::parser::text::{from_chars, to_chars};

verus! {

/// True for the ten ASCII digits.
pub open spec fn is_digit(c: char) -> bool {
    '0' <= c <= '9'
}

/// The number that an ASCII digit stands for.
pub open spec fn digit_value(c: char) -> nat
    recommends
        is_digit(c),
{
    (c as int - '0' as int) as nat
}

/// The first index at or after `i` that holds no digit; `s.len()` if the
/// digits run to the end.
pub open spec fn digits_end(s: Seq<char>, i: int) -> int
    decreases s.len() - i,
{
    if 0 <= i < s.len() && is_digit(s[i]) {
        digits_end(s, i + 1)
    } else {
        i
    }
}

/// The value of a run of digits read as a decimal number; 0 for the empty run.
pub open spec fn decimal_value(s: Seq<char>) -> nat
    decreases s.len(),
{
    if s.len() == 0 {
        0
    } else {
        decimal_value(s.drop_last()) * 10 + digit_value(s.last())
    }
}

/// True when every element of `s` is the digit zero.
pub open spec fn all_zero(s: Seq<char>) -> bool {
    forall|i: int| 0 <= i < s.len() ==> s[i] == '0'
}

/// Where the digits before the point of a numeral end.
pub open spec fn whole_end(s: Seq<char>) -> int {
    digits_end(s, if s.len() > 0 && s[0] == '-' { 1int } else { 0int })
}

/// Where the digits after the point of a numeral start.
pub open spec fn fraction_start(s: Seq<char>) -> int {
    let b = whole_end(s);
    if b < s.len() && s[b] == '.' {
        b + 1
    } else {
        b
    }
}

/// A plain decimal: an optional `-`, digits, an optional point, digits, with
/// a digit on at least one side of the point.
pub open spec fn is_numeral(s: Seq<char>) -> bool {
    let a = if s.len() > 0 && s[0] == '-' { 1int } else { 0int };
    let b = whole_end(s);
    let c = fraction_start(s);
    let d = digits_end(s, c);
    d == s.len() && (b - a) + (d - c) >= 1
}

/// The value of a numeral that is written without a sign and has no digit
/// other than zero after its point; `None` for every other text.
pub open spec fn unsigned_value(s: Seq<char>) -> Option<nat> {
    if is_numeral(s) && s[0] != '-' && all_zero(s.subrange(fraction_start(s), s.len() as int)) {
        Some(decimal_value(s.subrange(0, whole_end(s))))
    } else {
        None
    }
}

/// What parsing `s` as a `u32` gives: an optional `+`, then digits only, at
/// least one, whose value fits.
pub open spec fn u32_of(s: Seq<char>) -> Option<u32> {
    let a = if s.len() > 0 && s[0] == '+' { 1int } else { 0int };
    let digits = s.subrange(a, s.len() as int);
    if a < s.len() && digits_end(s, a) == s.len() && decimal_value(digits) <= u32::MAX {
        Some(decimal_value(digits) as u32)
    } else {
        None
    }
}

/// What parsing `s` as an `i32` gives: an optional `+` or `-`, then digits
/// only, at least one, whose signed value fits.
pub open spec fn i32_of(s: Seq<char>) -> Option<i32> {
    let a = if s.len() > 0 && (s[0] == '+' || s[0] == '-') { 1int } else { 0int };
    let digits = s.subrange(a, s.len() as int);
    let m = decimal_value(digits);
    if a < s.len() && digits_end(s, a) == s.len() {
        if s[0] == '-' {
            if m <= 0x8000_0000 {
                Some((-m) as i32)
            } else {
                None
            }
        } else if m <= 0x7fff_ffff {
            Some(m as i32)
        } else {
            None
        }
    } else {
        None
    }
}

/// True when `s` and `word` have the same length and agree letter by letter,
/// upper and lower case of the ASCII letters taken as the same. `word` is in
/// lower case.
pub open spec fn is_word_ignoring_case(s: Seq<char>, word: Seq<char>) -> bool {
    &&& s.len() == word.len()
    &&& forall|i: int| 0 <= i < s.len() ==> ascii_lower(s[i]) == #[trigger] word[i]
}

/// The lower-case form of an ASCII capital; any other character unchanged.
pub open spec fn ascii_lower(c: char) -> char {
    if 'A' <= c <= 'Z' {
        ((c as u8) + 32) as char
    } else {
        c
    }
}

/// A decimal with an optional exponent: digits, an optional point, digits,
/// with a digit on at least one side of the point; then nothing more, or `e`
/// or `E`, an optional sign, and at least one digit.
pub open spec fn is_decimal_with_exponent(s: Seq<char>) -> bool {
    let b = digits_end(s, 0);
    let c = if b < s.len() && s[b] == '.' { b + 1 } else { b };
    let d = digits_end(s, c);
    &&& b + (d - c) >= 1
    &&& (d == s.len() || {
        let e = d + 1;
        let f = if e < s.len() && (s[e] == '+' || s[e] == '-') { e + 1 } else { e };
        &&& (s[d] == 'e' || s[d] == 'E')
        &&& f < s.len()
        &&& digits_end(s, f) == s.len()
    })
}

/// The texts that Rust reads as a floating-point number: an optional sign,
/// then `inf`, `infinity` or `nan` in any mix of cases, or a decimal with an
/// optional exponent.
pub open spec fn is_float_literal(s: Seq<char>) -> bool {
    let a = if s.len() > 0 && (s[0] == '+' || s[0] == '-') { 1int } else { 0int };
    let body = s.subrange(a, s.len() as int);
    ||| is_word_ignoring_case(body, seq!['i', 'n', 'f'])
    ||| is_word_ignoring_case(body, seq!['i', 'n', 'f', 'i', 'n', 'i', 't', 'y'])
    ||| is_word_ignoring_case(body, seq!['n', 'a', 'n'])
    ||| is_decimal_with_exponent(body)
}

/// A run of digits ends at or after its start, and within the text.
pub proof fn lemma_digits_end_bounds(s: Seq<char>, i: int)
    requires
        0 <= i <= s.len(),
    ensures
        i <= digits_end(s, i) <= s.len(),
        forall|j: int| i <= j < digits_end(s, i) ==> is_digit(#[trigger] s[j]),
        digits_end(s, i) < s.len() ==> !is_digit(s[digits_end(s, i)]),
    decreases s.len() - i,
{
    if i < s.len() && is_digit(s[i]) {
        lemma_digits_end_bounds(s, i + 1);
    }
}

/// A run of digits is cut off where the text is.
pub proof fn lemma_digits_end_of_part(s: Seq<char>, from: int, to: int, i: int)
    requires
        0 <= from <= i <= to <= s.len(),
    ensures
        digits_end(s.subrange(from, to), i - from) + from == if digits_end(s, i) < to {
            digits_end(s, i)
        } else {
            to
        },
    decreases to - i,
{
    let part = s.subrange(from, to);
    lemma_digits_end_bounds(s, i);
    if i < to && is_digit(s[i]) {
        assert(part[i - from] == s[i]);
        lemma_digits_end_of_part(s, from, to, i + 1);
    }
}

/// Reading one more digit never makes the value smaller.
pub proof fn lemma_decimal_value_grows(s: Seq<char>, i: int, j: int)
    requires
        0 <= i <= j <= s.len(),
    ensures
        decimal_value(s.take(i)) <= decimal_value(s.take(j)),
    decreases j - i,
{
    if i < j {
        lemma_decimal_value_grows(s, i, j - 1);
        assert(s.take(j).drop_last() =~= s.take(j - 1));
    }
}

/// Whether `c` is one of the ten ASCII digits.
fn is_ascii_digit(c: char) -> (r: bool)
    ensures
        r == is_digit(c),
{
    '0' <= c && c <= '9'
}

/// The index at which the digits that start at `from` end.
fn digit_run(chars: &[char], from: usize) -> (to: usize)
    requires
        from <= chars@.len(),
    ensures
        to == digits_end(chars@, from as int),
        from <= to <= chars@.len(),
{
    let mut i: usize = from;
    while i < chars.len() && is_ascii_digit(chars[i])
        invariant
            from <= i <= chars@.len(),
            digits_end(chars@, from as int) == digits_end(chars@, i as int),
        decreases chars@.len() - i,
    {
        i = i + 1;
    }
    i
}

/// The value of the digits `chars[from..to]`, unless it is above `max`.
fn digits_value(chars: &[char], from: usize, to: usize, max: u64) -> (r: Option<u64>)
    requires
        from <= to <= chars@.len(),
        forall|j: int| from <= j < to ==> is_digit(#[trigger] chars@[j]),
        max <= 0xffff_ffff_ffff,
    ensures
        r == if decimal_value(chars@.subrange(from as int, to as int)) <= max {
            Some(decimal_value(chars@.subrange(from as int, to as int)) as u64)
        } else {
            None
        },
{
    let ghost digits = chars@.subrange(from as int, to as int);
    let mut value: u64 = 0;
    let mut i: usize = from;
    assert(digits.take(0) =~= Seq::<char>::empty());
    while i < to
        invariant
            from <= i <= to <= chars@.len(),
            digits == chars@.subrange(from as int, to as int),
            forall|j: int| from <= j < to ==> is_digit(#[trigger] chars@[j]),
            value == decimal_value(digits.take(i - from)),
            value <= max <= 0xffff_ffff_ffff,
        decreases to - i,
    {
        let c = chars[i];
        assert(is_digit(chars@[i as int]));
        let d: u64 = (c as u32 - '0' as u32) as u64;
        proof {
            assert(digits.take(i - from + 1).drop_last() =~= digits.take(i - from));
            assert(digits.take(i - from + 1).last() == c);
        }
        value = value * 10 + d;
        i = i + 1;
        if value > max {
            proof {
                lemma_decimal_value_grows(digits, i - from, to - from);
                assert(digits.take(to - from) =~= digits);
            }
            return None;
        }
    }
    assert(digits.take(to - from) =~= digits);
    Some(value)
}

/// Reads `chars` as a `u32`, as `str::parse` does.
pub fn parse_u32(chars: &[char]) -> (r: Option<u32>)
    ensures
        r == u32_of(chars@),
{
    let n = chars.len();
    let a: usize = if n > 0 && chars[0] == '+' { 1 } else { 0 };
    if a >= n {
        return None;
    }
    let b = digit_run(chars, a);
    if b != n {
        return None;
    }
    proof {
        lemma_digits_end_bounds(chars@, a as int);
    }
    match digits_value(chars, a, n, 0xffff_ffff) {
        Some(v) => Some(v as u32),
        None => None,
    }
}

/// Reads `chars` as an `i32`, as `str::parse` does.
pub fn parse_i32(chars: &[char]) -> (r: Option<i32>)
    ensures
        r == i32_of(chars@),
{
    let n = chars.len();
    let a: usize = if n > 0 && (chars[0] == '+' || chars[0] == '-') { 1 } else { 0 };
    if a >= n {
        return None;
    }
    let b = digit_run(chars, a);
    if b != n {
        return None;
    }
    proof {
        lemma_digits_end_bounds(chars@, a as int);
    }
    if chars[0] == '-' {
        match digits_value(chars, a, n, 0x8000_0000) {
            Some(v) => {
                let m: i64 = v as i64;
                Some((0 - m) as i32)
            },
            None => None,
        }
    } else {
        match digits_value(chars, a, n, 0x7fff_ffff) {
            Some(v) => Some(v as i32),
            None => None,
        }
    }
}

/// Whether `chars` is a plain decimal.
pub fn numeral_shape(chars: &[char]) -> (r: bool)
    ensures
        r == is_numeral(chars@),
{
    let n = chars.len();
    let a: usize = if n > 0 && chars[0] == '-' { 1 } else { 0 };
    let b = digit_run(chars, a);
    let c: usize = if b < n && chars[b] == '.' { b + 1 } else { b };
    let d = digit_run(chars, c);
    d == n && (b - a) + (d - c) >= 1
}

/// Whether the characters of `chars` from `from` on spell `word`, in any mix
/// of cases.
fn spells(chars: &[char], from: usize, word: &[char]) -> (r: bool)
    requires
        from <= chars@.len(),
    ensures
        r == is_word_ignoring_case(chars@.subrange(from as int, chars@.len() as int), word@),
{
    let ghost body = chars@.subrange(from as int, chars@.len() as int);
    if chars.len() - from != word.len() {
        return false;
    }
    let mut i: usize = 0;
    while i < word.len()
        invariant
            from <= chars@.len() <= usize::MAX,
            chars@.len() - from == word@.len(),
            body == chars@.subrange(from as int, chars@.len() as int),
            i <= word@.len(),
            forall|j: int| 0 <= j < i ==> ascii_lower(body[j]) == #[trigger] word@[j],
        decreases word@.len() - i,
    {
        let c = chars[from + i];
        assert(body[i as int] == c);
        let lower: char = if 'A' <= c && c <= 'Z' {
            ((c as u8) + 32) as char
        } else {
            c
        };
        if lower != word[i] {
            return false;
        }
        i = i + 1;
    }
    true
}

/// Whether `chars` is a floating-point literal.
pub fn float_shape(chars: &[char]) -> (r: bool)
    ensures
        r == is_float_literal(chars@),
{
    let n = chars.len();
    let a: usize = if n > 0 && (chars[0] == '+' || chars[0] == '-') { 1 } else { 0 };
    let ghost body = chars@.subrange(a as int, n as int);
    let inf: [char; 3] = ['i', 'n', 'f'];
    let infinity: [char; 8] = ['i', 'n', 'f', 'i', 'n', 'i', 't', 'y'];
    let nan: [char; 3] = ['n', 'a', 'n'];
    assert(inf@ =~= seq!['i', 'n', 'f']);
    assert(infinity@ =~= seq!['i', 'n', 'f', 'i', 'n', 'i', 't', 'y']);
    assert(nan@ =~= seq!['n', 'a', 'n']);
    if spells(chars, a, inf.as_slice()) || spells(chars, a, infinity.as_slice()) || spells(
        chars,
        a,
        nan.as_slice(),
    ) {
        return true;
    }
    let b = digit_run(chars, a);
    let c: usize = if b < n && chars[b] == '.' { b + 1 } else { b };
    let d = digit_run(chars, c);
    proof {
        lemma_digits_end_of_part(chars@, a as int, n as int, a as int);
        let bb = digits_end(body, 0);
        assert(bb + a == b);
        if b < n {
            assert(body[bb] == chars@[b as int]);
        }
        lemma_digits_end_of_part(chars@, a as int, n as int, c as int);
    }
    if (b - a) + (d - c) < 1 {
        return false;
    }
    if d == n {
        return true;
    }
    if chars[d] != 'e' && chars[d] != 'E' {
        assert(body[d - a] == chars@[d as int]);
        return false;
    }
    assert(body[d - a] == chars@[d as int]);
    let e: usize = d + 1;
    let f: usize = if e < n && (chars[e] == '+' || chars[e] == '-') { e + 1 } else { e };
    proof {
        if e < n {
            assert(body[e - a] == chars@[e as int]);
        }
    }
    if f >= n {
        return false;
    }
    let g = digit_run(chars, f);
    proof {
        lemma_digits_end_of_part(chars@, a as int, n as int, f as int);
    }
    g == n
}

/// A number written as a plain decimal, kept as it was written.
///
/// The text is an optional `-`, digits, an optional point and more digits,
/// with at least one digit in all. Rust's floating-point parser accepts every
/// such text.
#[derive(Debug, PartialEq, Eq)]
pub struct Numeral {
    text: String,
}

impl View for Numeral {
    type V = Seq<char>;

    closed spec fn view(&self) -> Seq<char> {
        self.text@
    }
}

impl Clone for Numeral {
    fn clone(&self) -> (r: Self)
        ensures
            r@ == self@,
    {
        proof {
            use_type_invariant(self);
        }
        Numeral { text: self.text.clone() }
    }
}

impl Numeral {
    #[verifier::type_invariant]
    spec fn well_formed(self) -> bool {
        is_numeral(self.text@)
    }

    /// The numeral written as `text`, if `text` is a plain decimal.
    pub fn parse(text: &str) -> (r: Option<Numeral>)
        ensures
            r is Some <==> is_numeral(text@),
            r matches Some(n) ==> n@ == text@,
    {
        let chars = to_chars(text);
        if numeral_shape(chars.as_slice()) {
            Some(Numeral { text: text.to_owned() })
        } else {
            None
        }
    }

    /// The numeral as it was written.
    pub fn as_str(&self) -> (r: &str)
        ensures
            r@ == self@,
            is_numeral(self@),
    {
        proof {
            use_type_invariant(self);
        }
        self.text.as_str()
    }

    /// The numeral as an unsigned integer, where it is one that fits: it is
    /// written without a sign, and after its point stand zeros only.
    pub fn as_unsigned(&self) -> (r: Option<u32>)
        ensures
            r == match unsigned_value(self@) {
                Some(n) => if n <= u32::MAX {
                    Some(n as u32)
                } else {
                    None
                },
                None => None,
            },
    {
        proof {
            use_type_invariant(self);
        }
        let chars = to_chars(self.text.as_str());
        let n = chars.len();
        if chars[0] == '-' {
            return None;
        }
        let b = digit_run(chars.as_slice(), 0);
        let c: usize = if b < n && chars[b] == '.' { b + 1 } else { b };
        let mut i: usize = c;
        proof {
            lemma_digits_end_bounds(chars@, 0);
            lemma_digits_end_bounds(chars@, c as int);
        }
        while i < n
            invariant
                c <= i <= n == chars@.len(),
                chars@ == self@,
                c == fraction_start(chars@),
                forall|j: int| c <= j < i ==> chars@[j] == '0',
            decreases n - i,
        {
            if chars[i] != '0' {
                assert(chars@.subrange(c as int, n as int)[i - c] == chars@[i as int]);
                return None;
            }
            i = i + 1;
        }
        assert(all_zero(chars@.subrange(c as int, n as int)));
        match digits_value(chars.as_slice(), 0, b, 0xffff_ffff) {
            Some(v) => Some(v as u32),
            None => None,
        }
    }
}

/// A floating-point number, kept as it was written.
///
/// The text is one that Rust's floating-point parser accepts: a decimal with
/// an optional sign and exponent, or an infinity or a NaN by name.
#[derive(Debug, PartialEq, Eq)]
pub struct FloatLiteral {
    text: String,
}

impl View for FloatLiteral {
    type V = Seq<char>;

    closed spec fn view(&self) -> Seq<char> {
        self.text@
    }
}

impl Clone for FloatLiteral {
    fn clone(&self) -> (r: Self)
        ensures
            r@ == self@,
    {
        proof {
            use_type_invariant(self);
        }
        FloatLiteral { text: self.text.clone() }
    }
}

impl FloatLiteral {
    #[verifier::type_invariant]
    spec fn well_formed(self) -> bool {
        is_float_literal(self.text@)
    }

    /// The literal written as `text`, if `text` is a floating-point literal.
    pub fn parse(text: &str) -> (r: Option<FloatLiteral>)
        ensures
            r is Some <==> is_float_literal(text@),
            r matches Some(n) ==> n@ == text@,
    {
        let chars = to_chars(text);
        FloatLiteral::from_chars(chars.as_slice())
    }

    /// The literal written as `chars`, if `chars` is a floating-point literal.
    pub fn from_chars(chars: &[char]) -> (r: Option<FloatLiteral>)
        ensures
            r is Some <==> is_float_literal(chars@),
            r matches Some(n) ==> n@ == chars@,
    {
        if float_shape(chars) {
            Some(FloatLiteral { text: from_chars(chars) })
        } else {
            None
        }
    }

    /// The literal as it was written.
    pub fn as_str(&self) -> (r: &str)
        ensures
            r@ == self@,
            is_float_literal(self@),
    {
        proof {
            use_type_invariant(self);
        }
        self.text.as_str()
    }
}

} // verus!
