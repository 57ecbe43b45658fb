//! Text as characters and as bytes.
//!
//! A string is a sequence of characters to the contracts of this crate and a
//! sequence of UTF-8 bytes to the machine. This module ties the two together:
//! it says at which byte offset each character starts, reads the character
//! at an offset, and cuts a string at offsets. It also holds the few
//! operations on sequences of characters that the parsers share.
use vstd::prelude::*;
use vstd::slice::*;
use vstd::string::*;
use vstd::utf8::*;

verus! {

/// Byte offset at which character number `index` of `text` starts in the UTF-8
/// form of `text`; for `index == text.len()`, the length of that form.
pub open spec fn offset_of(text: Seq<char>, index: int) -> int {
    encode_utf8(text.take(index)).len() as int
}

/// True when byte offset `pos` lies between two characters of `text`, or at
/// one of its ends.
pub open spec fn on_boundary(text: Seq<char>, pos: int) -> bool {
    0 <= pos <= encode_utf8(text).len() && is_char_boundary(encode_utf8(text), pos)
}

/// Number of characters of `text` that lie wholly before byte offset `pos`.
pub open spec fn chars_before(text: Seq<char>, pos: int) -> int {
    decode_utf8(encode_utf8(text).subrange(0, pos)).len() as int
}

/// Number of bytes that `c` takes in UTF-8.
pub open spec fn width(c: char) -> int {
    encode_scalar(c as u32).len() as int
}

/// What `char::is_alphabetic` returns for `c`: whether `c` has the Unicode
/// property Alphabetic. The tables that decide it are the standard
/// library's; nothing is claimed of any single character.
pub uninterp spec fn alphabetic(c: char) -> bool;

/// What `char::is_numeric` returns for `c`: whether `c` is in one of the
/// Unicode categories of numbers. The tables that decide it are the standard
/// library's; nothing is claimed of any single character.
pub uninterp spec fn numeric(c: char) -> bool;

/// What `char::is_whitespace` returns for `c`: whether `c` has the Unicode
/// property White_Space. The tables that decide it are the standard
/// library's; nothing is claimed of any single character.
pub uninterp spec fn whitespace(c: char) -> bool;

/// Believed, not proved, of `char::is_alphabetic`: its result depends on the
/// character alone, and is called `alphabetic` here.
pub assume_specification[ char::is_alphabetic ](c: char) -> (r: bool)
    ensures
        r == alphabetic(c),
;

/// Believed, not proved, of `char::is_numeric`: its result depends on the
/// character alone, and is called `numeric` here.
pub assume_specification[ char::is_numeric ](c: char) -> (r: bool)
    ensures
        r == numeric(c),
;

/// Believed, not proved, of `char::is_alphanumeric`: it is true of exactly
/// the characters of which `is_alphabetic` or `is_numeric` is.
pub assume_specification[ char::is_alphanumeric ](c: char) -> (r: bool)
    ensures
        r == (alphabetic(c) || numeric(c)),
;

/// Believed, not proved, of `char::is_whitespace`: its result depends on the
/// character alone, and is called `whitespace` here.
pub assume_specification[ char::is_whitespace ](c: char) -> (r: bool)
    ensures
        r == whitespace(c),
;

/// Believed, not proved, of `String::push`: it puts the character at the end
/// of the string and changes nothing else.
pub assume_specification[ std::string::String::push ](s: &mut std::string::String, c: char)
    ensures
        final(s)@ == old(s)@.push(c),
;

/// Believed, not proved, of `char::len_utf8`: it returns the number of bytes
/// that the character takes when it is encoded in UTF-8.
pub assume_specification[ char::len_utf8 ](c: char) -> (n: usize)
    ensures
        n as int == width(c),
;

/// The UTF-8 form of two texts put together is their UTF-8 forms put
/// together.
pub proof fn lemma_encode_concat(a: Seq<char>, b: Seq<char>)
    ensures
        encode_utf8(a + b) =~= encode_utf8(a) + encode_utf8(b),
    decreases a.len(),
{
    if a.len() == 0 {
        assert(a + b =~= b);
    } else {
        assert((a + b).drop_first() =~= a.drop_first() + b);
        lemma_encode_concat(a.drop_first(), b);
    }
}

/// A character takes between one and four bytes.
pub proof fn lemma_width_bounds(c: char)
    ensures
        1 <= width(c) <= 4,
{
}

/// The next character starts where this one ends.
pub proof fn lemma_offset_next(text: Seq<char>, index: int)
    requires
        0 <= index < text.len(),
    ensures
        offset_of(text, index + 1) == offset_of(text, index) + width(text[index]),
{
    assert(text.take(index + 1) =~= text.take(index) + seq![text[index]]);
    lemma_encode_concat(text.take(index), seq![text[index]]);
    assert(seq![text[index]].drop_first() =~= Seq::<char>::empty());
    assert(encode_utf8(seq![text[index]]) =~= encode_scalar(text[index] as u32)) by {
        reveal_with_fuel(encode_utf8, 2);
    }
}

/// The first character starts at offset 0, and the end is the length in bytes.
pub proof fn lemma_offset_next_ends(text: Seq<char>)
    ensures
        offset_of(text, 0) == 0,
        offset_of(text, text.len() as int) == encode_utf8(text).len(),
{
    assert(text.take(0) =~= Seq::<char>::empty());
    assert(text.take(text.len() as int) =~= text);
}

/// Every character index of `text` is a boundary of its UTF-8 form.
pub proof fn lemma_index_on_boundary(text: Seq<char>, index: int)
    requires
        0 <= index <= text.len(),
    ensures
        on_boundary(text, offset_of(text, index)),
        chars_before(text, offset_of(text, index)) == index,
        encode_utf8(text).subrange(0, offset_of(text, index)) =~= encode_utf8(text.take(index)),
        encode_utf8(text).subrange(offset_of(text, index), encode_utf8(text).len() as int)
            =~= encode_utf8(text.skip(index)),
{
    broadcast use group_utf8_lib;

    let bytes = encode_utf8(text);
    assert(text =~= text.take(index) + text.skip(index));
    lemma_encode_concat(text.take(index), text.skip(index));
    lemma_boundary_rec(text, index);
    let head = bytes.subrange(0, offset_of(text, index));
    assert(head =~= encode_utf8(text.take(index)));
    assert(decode_utf8(encode_utf8(text.take(index))) == text.take(index));
}

proof fn lemma_boundary_rec(text: Seq<char>, index: int)
    requires
        0 <= index <= text.len(),
    ensures
        is_char_boundary(encode_utf8(text), offset_of(text, index)),
    decreases index,
{
    broadcast use group_utf8_lib;

    if index == 0 {
        assert(text.take(0) =~= Seq::<char>::empty());
    } else {
        let bytes = encode_utf8(text);
        let rest = text.drop_first();
        encode_utf8_first_scalar(text);
        assert(pop_first_scalar(bytes) =~= encode_utf8(rest));
        assert(text.take(index).drop_first() =~= rest.take(index - 1));
        lemma_boundary_rec(rest, index - 1);
        assert(offset_of(text, index) == width(text[0]) + offset_of(rest, index - 1));
        lemma_width_bounds(text[0]);
    }
}

/// A boundary of the UTF-8 form of `text` is where one of its characters
/// starts, or its end.
pub proof fn lemma_boundary_is_index(text: Seq<char>, pos: int)
    requires
        on_boundary(text, pos),
    ensures
        0 <= chars_before(text, pos) <= text.len(),
        offset_of(text, chars_before(text, pos)) == pos,
        pos == encode_utf8(text).len() <==> chars_before(text, pos) == text.len(),
{
    broadcast use group_utf8_lib;

    let bytes = encode_utf8(text);
    let head = bytes.subrange(0, pos);
    let tail = bytes.subrange(pos, bytes.len() as int);
    decode_utf8_split(bytes, pos);
    valid_utf8_split(bytes, pos);
    let k = chars_before(text, pos);
    assert(text =~= decode_utf8(head) + decode_utf8(tail));
    assert(text.take(k) =~= decode_utf8(head));
    assert(encode_utf8(decode_utf8(head)) == head);
    if k == text.len() {
        assert(text.take(k) =~= text);
    }
    if pos == bytes.len() {
        assert(head =~= bytes);
    }
}

/// Length of `s` in bytes.
pub fn byte_len(s: &str) -> (n: usize)
    ensures
        n == encode_utf8(s@).len(),
{
    s.as_bytes().len()
}

/// The character of `s` that starts at byte offset `pos`, if `pos` is not the end.
pub fn char_at(s: &str, pos: usize) -> (r: Option<char>)
    requires
        on_boundary(s@, pos as int),
    ensures
        r == if chars_before(s@, pos as int) < s@.len() {
            Some(s@[chars_before(s@, pos as int)])
        } else {
            None
        },
        r is None <==> pos == encode_utf8(s@).len(),
        0 <= chars_before(s@, pos as int) <= s@.len(),
        offset_of(s@, chars_before(s@, pos as int)) == pos,
{
    broadcast use group_utf8_lib;

    proof {
        lemma_boundary_is_index(s@, pos as int);
        lemma_index_on_boundary(s@, chars_before(s@, pos as int));
    }
    let (_, rest) = s.split_at(pos);
    assert(rest@ == s@.skip(chars_before(s@, pos as int))) by {
        assert(rest.spec_bytes() == encode_utf8(s@.skip(chars_before(s@, pos as int))));
        assert(decode_utf8(encode_utf8(rest@)) == rest@);
    }
    let mut it = rest.chars();
    it.next()
}

/// The offset just behind the character `c` of `s`, which starts at `pos`.
pub fn next_offset(s: &str, pos: usize, c: char) -> (r: usize)
    requires
        on_boundary(s@, pos as int),
        chars_before(s@, pos as int) < s@.len(),
        s@[chars_before(s@, pos as int)] == c,
    ensures
        r == pos + width(c),
        pos < r <= encode_utf8(s@).len(),
        on_boundary(s@, r as int),
        chars_before(s@, r as int) == chars_before(s@, pos as int) + 1,
{
    // The length is a `usize`, and so the sum below fits one.
    let end = byte_len(s);
    proof {
        let k = chars_before(s@, pos as int);
        lemma_boundary_is_index(s@, pos as int);
        lemma_offset_next(s@, k);
        lemma_index_on_boundary(s@, k + 1);
        lemma_width_bounds(c);
        assert(pos + width(c) <= end);
    }
    pos + c.len_utf8()
}

/// The part of `s` between byte offsets `from` and `to`.
pub fn slice<'a>(s: &'a str, from: usize, to: usize) -> (r: &'a str)
    requires
        on_boundary(s@, from as int),
        on_boundary(s@, to as int),
        from <= to,
    ensures
        r@ == s@.subrange(chars_before(s@, from as int), chars_before(s@, to as int)),
        chars_before(s@, from as int) <= chars_before(s@, to as int),
{
    broadcast use group_utf8_lib;

    let ghost a = chars_before(s@, from as int);
    let ghost b = chars_before(s@, to as int);
    proof {
        lemma_boundary_is_index(s@, from as int);
        lemma_boundary_is_index(s@, to as int);
        lemma_index_on_boundary(s@, a);
        lemma_index_on_boundary(s@, b);
    }
    let (head, _) = s.split_at(to);
    proof {
        assert(head.spec_bytes() == encode_utf8(s@.take(b)));
        assert(decode_utf8(encode_utf8(head@)) == head@);
        assert(head@ == s@.take(b));
        if a > b {
            lemma_offset_monotonic(s@, b, a);
        }
        assert(s@.take(b).take(a) =~= s@.take(a));
        lemma_index_on_boundary(head@, a);
    }
    let (_, mid) = head.split_at(from);
    proof {
        assert(mid.spec_bytes() == encode_utf8(head@.skip(a)));
        assert(decode_utf8(encode_utf8(mid@)) == mid@);
        assert(head@.skip(a) =~= s@.subrange(a, b));
    }
    mid
}

/// Later characters start at later offsets.
pub proof fn lemma_offset_monotonic(text: Seq<char>, i: int, j: int)
    requires
        0 <= i < j <= text.len(),
    ensures
        offset_of(text, i) < offset_of(text, j),
    decreases j - i,
{
    lemma_offset_next(text, j - 1);
    lemma_width_bounds(text[j - 1]);
    if i < j - 1 {
        lemma_offset_monotonic(text, i, j - 1);
    }
}

/// The characters of `s`, one element each.
pub fn to_chars(s: &str) -> (v: Vec<char>)
    ensures
        v@ == s@,
{
    let mut v: Vec<char> = Vec::new();
    let n = byte_len(s);
    let mut pos: usize = 0;
    proof {
        lemma_offset_next_ends(s@);
        lemma_index_on_boundary(s@, 0);
    }
    while pos < n
        invariant
            n == encode_utf8(s@).len(),
            on_boundary(s@, pos as int),
            v@ == s@.take(chars_before(s@, pos as int)),
        decreases n - pos,
    {
        let ghost k = chars_before(s@, pos as int);
        proof {
            lemma_boundary_is_index(s@, pos as int);
        }
        match char_at(s, pos) {
            Some(c) => {
                proof {
                    lemma_offset_next(s@, k);
                    lemma_index_on_boundary(s@, k + 1);
                    assert(s@.take(k + 1) =~= s@.take(k).push(c));
                }
                v.push(c);
                pos = pos + c.len_utf8();
            },
            None => {
                proof {
                    assert(false);
                }
            },
        }
    }
    proof {
        lemma_boundary_is_index(s@, pos as int);
        assert(s@.take(s@.len() as int) =~= s@);
    }
    v
}

/// A string made of `chars`, in order.
pub fn from_chars(chars: &[char]) -> (s: String)
    ensures
        s@ == chars@,
{
    let mut s = String::new();
    let mut i: usize = 0;
    while i < chars.len()
        invariant
            i <= chars@.len(),
            s@ == chars@.take(i as int),
        decreases chars@.len() - i,
    {
        s.push(chars[i]);
        assert(chars@.take(i + 1) =~= chars@.take(i as int).push(chars@[i as int]));
        i = i + 1;
    }
    assert(chars@.take(chars@.len() as int) =~= chars@);
    s
}

/// Whether `a` and `b` hold the same characters.
pub fn str_eq(a: &str, b: &str) -> (r: bool)
    ensures
        r == (a@ == b@),
{
    broadcast use group_utf8_lib;

    let x = a.as_bytes();
    let y = b.as_bytes();
    assert(decode_utf8(encode_utf8(a@)) == a@);
    assert(decode_utf8(encode_utf8(b@)) == b@);
    if x.len() != y.len() {
        return false;
    }
    let mut i: usize = 0;
    while i < x.len()
        invariant
            i <= x@.len(),
            x@.len() == y@.len(),
            x@.take(i as int) == y@.take(i as int),
            x@ == encode_utf8(a@),
            y@ == encode_utf8(b@),
            decode_utf8(encode_utf8(a@)) == a@,
            decode_utf8(encode_utf8(b@)) == b@,
        decreases x@.len() - i,
    {
        if x[i] != y[i] {
            return false;
        }
        assert(x@.take(i + 1) =~= x@.take(i as int).push(x@[i as int]));
        assert(y@.take(i + 1) =~= y@.take(i as int).push(y@[i as int]));
        i = i + 1;
    }
    assert(x@.take(x@.len() as int) =~= x@);
    assert(y@.take(y@.len() as int) =~= y@);
    true
}

/// `prefix` followed by `chars`.
pub fn join(prefix: &str, chars: &[char]) -> (s: String)
    ensures
        s@ == prefix@ + chars@,
{
    let mut s = prefix.to_owned();
    let mut i: usize = 0;
    assert(chars@.take(0) =~= Seq::<char>::empty());
    assert(prefix@ + Seq::<char>::empty() =~= prefix@);
    while i < chars.len()
        invariant
            i <= chars@.len(),
            s@ == prefix@ + chars@.take(i as int),
        decreases chars@.len() - i,
    {
        s.push(chars[i]);
        assert(chars@.take(i + 1) =~= chars@.take(i as int).push(chars@[i as int]));
        assert(prefix@ + chars@.take(i + 1) =~= (prefix@ + chars@.take(i as int)).push(
            chars@[i as int],
        ));
        i = i + 1;
    }
    assert(chars@.take(chars@.len() as int) =~= chars@);
    s
}

/// The first index at or after `i` that holds no whitespace; `s.len()` if
/// there is none.
pub open spec fn trim_start_index(s: Seq<char>, i: int) -> int
    decreases s.len() - i,
{
    if 0 <= i < s.len() && whitespace(s[i]) {
        trim_start_index(s, i + 1)
    } else {
        i
    }
}

/// The least index `k` with `from <= k <= j` such that `s[k..j]` is all
/// whitespace.
pub open spec fn trim_end_index(s: Seq<char>, from: int, j: int) -> int
    decreases j,
{
    if 0 <= from < j <= s.len() && whitespace(s[j - 1]) {
        trim_end_index(s, from, j - 1)
    } else {
        j
    }
}

/// `s` without the whitespace at its start and at its end.
pub open spec fn trimmed(s: Seq<char>) -> Seq<char> {
    let a = trim_start_index(s, 0);
    s.subrange(a, trim_end_index(s, a, s.len() as int))
}

/// The part of `chars` that is left when the whitespace at both ends is
/// taken away.
pub fn trim(chars: &[char]) -> (r: &[char])
    ensures
        r@ == trimmed(chars@),
{
    let n = chars.len();
    let mut a: usize = 0;
    while a < n && chars[a].is_whitespace()
        invariant
            a <= n == chars@.len(),
            trim_start_index(chars@, 0) == trim_start_index(chars@, a as int),
        decreases n - a,
    {
        a = a + 1;
    }
    let mut b: usize = n;
    while a < b && chars[b - 1].is_whitespace()
        invariant
            a <= b <= n == chars@.len(),
            trim_end_index(chars@, a as int, n as int) == trim_end_index(
                chars@,
                a as int,
                b as int,
            ),
        decreases b,
    {
        b = b - 1;
    }
    slice_subrange(chars, a, b)
}

/// The first index at or after `i` that holds `c`; `s.len()` if there is none.
pub open spec fn find_from(s: Seq<char>, c: char, i: int) -> int
    decreases s.len() - i,
{
    if 0 <= i < s.len() && s[i] != c {
        find_from(s, c, i + 1)
    } else {
        i
    }
}

/// The pieces of `s[i..]` between the occurrences of `c`, in order. There is
/// one piece more than there are occurrences; a piece may be empty.
pub open spec fn split_from(s: Seq<char>, c: char, i: int) -> Seq<Seq<char>>
    decreases s.len() - i,
{
    let j = find_from(s, c, i);
    if 0 <= i <= j < s.len() {
        seq![s.subrange(i, j)] + split_from(s, c, j + 1)
    } else {
        seq![s.subrange(i, s.len() as int)]
    }
}

/// The pieces of `s` between the occurrences of `c`.
pub open spec fn split(s: Seq<char>, c: char) -> Seq<Seq<char>> {
    split_from(s, c, 0)
}

/// What each slice of `parts` holds.
pub open spec fn contents(parts: Seq<&[char]>) -> Seq<Seq<char>> {
    parts.map_values(|p: &[char]| p@)
}

/// A search that starts at or before the end stays within the text.
pub proof fn lemma_find_from_bounds(s: Seq<char>, c: char, i: int)
    requires
        0 <= i <= s.len(),
    ensures
        i <= find_from(s, c, i) <= s.len(),
    decreases s.len() - i,
{
    if i < s.len() && s[i] != c {
        lemma_find_from_bounds(s, c, i + 1);
    }
}

/// The pieces of `chars` between the occurrences of `sep`.
pub fn split_at_char<'a>(chars: &'a [char], sep: char) -> (parts: Vec<&'a [char]>)
    ensures
        contents(parts@) == split(chars@, sep),
        parts@.len() >= 1,
{
    let n = chars.len();
    let mut parts: Vec<&'a [char]> = Vec::new();
    let mut start: usize = 0;
    let mut i: usize = 0;
    assert(contents(parts@) + split_from(chars@, sep, 0) =~= split(chars@, sep));
    while i < n
        invariant
            start <= i <= n == chars@.len(),
            find_from(chars@, sep, start as int) == find_from(chars@, sep, i as int),
            contents(parts@) + split_from(chars@, sep, start as int) == split(chars@, sep),
        decreases n - i,
    {
        if chars[i] == sep {
            let ghost before = parts@;
            parts.push(slice_subrange(chars, start, i));
            proof {
                assert(contents(parts@) =~= contents(before).push(
                    chars@.subrange(start as int, i as int),
                ));
                assert(contents(parts@) + split_from(chars@, sep, i + 1) =~= contents(before)
                    + split_from(chars@, sep, start as int));
            }
            start = i + 1;
        }
        i = i + 1;
    }
    let ghost before = parts@;
    parts.push(slice_subrange(chars, start, n));
    proof {
        assert(contents(parts@) =~= contents(before).push(chars@.subrange(start as int, n as int)));
        assert(contents(parts@) =~= contents(before) + split_from(chars@, sep, start as int));
    }
    parts
}

} // verus!
