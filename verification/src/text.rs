//! Characters as the lexer sees them: the classes a character can fall in,
//! and where a character stands in the UTF-8 encoding of its source.

use vstd::prelude::*;
use vstd::utf8::*;

verus! {

/// Whether `char::is_alphabetic` holds of `c`: the Unicode `Alphabetic`
/// property, as the standard library's tables have it.
pub uninterp spec fn alphabetic(c: char) -> bool;

/// Whether `char::is_whitespace` holds of `c`: the Unicode `White_Space`
/// property, as the standard library's tables have it.
pub uninterp spec fn whitespace(c: char) -> bool;

/// `char::is_alphabetic` is a table lookup on the character alone; its
/// answer is what [`alphabetic`] names. Nothing else is claimed of it.
pub assume_specification[ char::is_alphabetic ](c: char) -> (b: bool)
    ensures
        b == alphabetic(c),
;

/// `char::is_whitespace` is a table lookup on the character alone; its
/// answer is what [`whitespace`] names. Nothing else is claimed of it.
pub assume_specification[ char::is_whitespace ](c: char) -> (b: bool)
    ensures
        b == whitespace(c),
;

/// `String::push` appends the given character to the end of the string and
/// leaves the characters before it as they were.
pub assume_specification[ std::string::String::push ](s: &mut std::string::String, c: char)
    ensures
        final(s)@ == old(s)@.push(c),
;

/// The class that decides what the lexer does with a character that it meets
/// between two tokens.
#[derive(Clone, Copy, Debug, PartialEq, Eq)]
pub enum CharClass {
    /// `0` to `9`.
    Digit,
    /// White space, which separates tokens and belongs to none.
    Space,
    /// One of `+ - % / = *`.
    Operator,
    /// `(`.
    LeftParen,
    /// `)`.
    RightParen,
    /// `{`.
    LeftBrace,
    /// `}`.
    RightBrace,
    /// A letter or `_`: the first character of an identifier.
    Letter,
    /// `;`.
    Semicolon,
    /// `"`.
    Quote,
    /// Anything else.
    Other,
}

/// One of the ten digits `0` to `9`.
pub open spec fn is_digit(c: char) -> bool {
    '0' <= c <= '9'
}

/// A character that operators are written with.
pub open spec fn is_operator_char(c: char) -> bool {
    c == '+' || c == '-' || c == '%' || c == '/' || c == '=' || c == '*'
}

/// A character that may follow the first one of an identifier.
pub open spec fn continues_ident(c: char) -> bool {
    alphabetic(c) || is_digit(c) || c == '_'
}

/// The class of `c`. Where two descriptions fit one character, the earlier
/// one in this list wins.
pub open spec fn class_of(c: char) -> CharClass {
    if is_digit(c) {
        CharClass::Digit
    } else if whitespace(c) {
        CharClass::Space
    } else if is_operator_char(c) {
        CharClass::Operator
    } else if c == '(' {
        CharClass::LeftParen
    } else if c == ')' {
        CharClass::RightParen
    } else if c == '{' {
        CharClass::LeftBrace
    } else if c == '}' {
        CharClass::RightBrace
    } else if alphabetic(c) || c == '_' {
        CharClass::Letter
    } else if c == ';' {
        CharClass::Semicolon
    } else if c == '"' {
        CharClass::Quote
    } else {
        CharClass::Other
    }
}

/// What a backslash followed by `c` stands for inside a string literal, if
/// the pair is an escape at all.
pub open spec fn escape_of(c: char) -> Option<char> {
    if c == '\\' {
        Some('\\')
    } else if c == '"' {
        Some('"')
    } else if c == 'n' {
        Some('\n')
    } else if c == 't' {
        Some('\t')
    } else if c == 'v' {
        Some('\x0B')
    } else if c == 'r' {
        Some('\r')
    } else {
        None
    }
}

/// The number of bytes that `c` takes in UTF-8.
pub open spec fn utf8_width(c: char) -> nat {
    if (c as u32) < 0x80 {
        1
    } else if (c as u32) < 0x800 {
        2
    } else if (c as u32) < 0x10000 {
        3
    } else {
        4
    }
}

/// The offset in bytes, within the UTF-8 encoding of `src`, of the character
/// at index `i`: the length of the encoding of the characters before it.
pub open spec fn byte_offset(src: Seq<char>, i: int) -> nat {
    encode_utf8(src.take(i)).len()
}

/// Whether `c` is one of the ten digits `0` to `9`.
pub fn is_ascii_digit(c: char) -> (b: bool)
    ensures
        b == is_digit(c),
{
    '0' <= c && c <= '9'
}

/// Whether `c` may follow the first character of an identifier.
pub fn is_ident_continue(c: char) -> (b: bool)
    ensures
        b == continues_ident(c),
{
    c.is_alphabetic() || is_ascii_digit(c) || c == '_'
}

/// The class of `c`.
pub fn classify(c: char) -> (k: CharClass)
    ensures
        k == class_of(c),
{
    if is_ascii_digit(c) {
        CharClass::Digit
    } else if c.is_whitespace() {
        CharClass::Space
    } else if c == '+' || c == '-' || c == '%' || c == '/' || c == '=' || c == '*' {
        CharClass::Operator
    } else if c == '(' {
        CharClass::LeftParen
    } else if c == ')' {
        CharClass::RightParen
    } else if c == '{' {
        CharClass::LeftBrace
    } else if c == '}' {
        CharClass::RightBrace
    } else if c.is_alphabetic() || c == '_' {
        CharClass::Letter
    } else if c == ';' {
        CharClass::Semicolon
    } else if c == '"' {
        CharClass::Quote
    } else {
        CharClass::Other
    }
}

/// What a backslash followed by `c` stands for inside a string literal, or
/// nothing if the pair is no escape.
pub fn unescape(c: char) -> (r: Option<char>)
    ensures
        r == escape_of(c),
{
    if c == '\\' {
        Some('\\')
    } else if c == '"' {
        Some('"')
    } else if c == 'n' {
        Some('\n')
    } else if c == 't' {
        Some('\t')
    } else if c == 'v' {
        Some('\x0B')
    } else if c == 'r' {
        Some('\r')
    } else {
        None
    }
}

/// The number of bytes that `c` takes in UTF-8.
pub fn char_width(c: char) -> (w: usize)
    ensures
        w == utf8_width(c),
{
    let code: u32 = c as u32;
    if code < 0x80 {
        1
    } else if code < 0x800 {
        2
    } else if code < 0x10000 {
        3
    } else {
        4
    }
}

/// Whether `text` is the word `word`, character for character.
pub fn keyword_matches(text: &String, word: &str) -> (b: bool)
    ensures
        b == (text@ == word@),
{
    let given = text.as_str();
    let length = given.unicode_len();
    if length != word.unicode_len() {
        return false;
    }
    let mut i: usize = 0;
    while i < length
        invariant
            i <= length,
            given@ == text@,
            length == given@.len(),
            length == word@.len(),
            forall|j: int| 0 <= j < i ==> given@[j] == word@[j],
        decreases length - i,
    {
        if given.get_char(i) != word.get_char(i) {
            assert(given@[i as int] != word@[i as int]);
            return false;
        }
        i += 1;
    }
    assert(given@ =~= word@);
    true
}

/// The character that the digit `d` is written with.
pub open spec fn digit_char(d: int) -> char {
    if d == 0 {
        '0'
    } else if d == 1 {
        '1'
    } else if d == 2 {
        '2'
    } else if d == 3 {
        '3'
    } else if d == 4 {
        '4'
    } else if d == 5 {
        '5'
    } else if d == 6 {
        '6'
    } else if d == 7 {
        '7'
    } else if d == 8 {
        '8'
    } else {
        '9'
    }
}

/// The number `n` written in decimal, without leading zeros.
pub open spec fn decimal(n: nat) -> Seq<char>
    decreases n,
{
    if n < 10 {
        seq![digit_char(n as int)]
    } else {
        decimal(n / 10).push(digit_char(n as int % 10))
    }
}

fn digit_to_char(d: usize) -> (c: char)
    requires
        d < 10,
    ensures
        c == digit_char(d as int),
{
    if d == 0 {
        '0'
    } else if d == 1 {
        '1'
    } else if d == 2 {
        '2'
    } else if d == 3 {
        '3'
    } else if d == 4 {
        '4'
    } else if d == 5 {
        '5'
    } else if d == 6 {
        '6'
    } else if d == 7 {
        '7'
    } else if d == 8 {
        '8'
    } else {
        '9'
    }
}

/// The number `n` written in decimal.
pub fn to_decimal(n: usize) -> (text: String)
    ensures
        text@ == decimal(n as nat),
    decreases n,
{
    if n < 10 {
        let mut text = String::new();
        text.push(digit_to_char(n));
        assert(text@ =~= seq![digit_char(n as int)]);
        text
    } else {
        let mut text = to_decimal(n / 10);
        text.push(digit_to_char(n % 10));
        text
    }
}

/// The encoding of one character has the width that [`utf8_width`] gives.
pub proof fn lemma_encode_scalar_width(c: char)
    ensures
        encode_scalar(c as u32).len() == utf8_width(c),
{
    char_is_scalar(c);
}

/// Encoding a sequence with one more character at its end appends that
/// character's bytes.
pub proof fn lemma_encode_push(s: Seq<char>, c: char)
    ensures
        encode_utf8(s.push(c)) == encode_utf8(s) + encode_scalar(c as u32),
    decreases s.len(),
{
    if s.len() == 0 {
        assert(s.push(c).drop_first() =~= s);
        assert(encode_utf8(s) =~= Seq::<u8>::empty());
        assert(encode_utf8(s.push(c)) =~= encode_scalar(c as u32) + encode_utf8(s));
        assert(encode_utf8(s.push(c)) =~= encode_utf8(s) + encode_scalar(c as u32));
    } else {
        lemma_encode_push(s.drop_first(), c);
        assert(s.push(c).drop_first() =~= s.drop_first().push(c));
        assert(encode_utf8(s.push(c)) =~= encode_utf8(s) + encode_scalar(c as u32));
    }
}

/// Stepping over the character at `i` moves the offset by its width.
pub proof fn lemma_offset_step(src: Seq<char>, i: int)
    requires
        0 <= i < src.len(),
    ensures
        byte_offset(src, i + 1) == byte_offset(src, i) + utf8_width(src[i]),
{
    assert(src.take(i + 1) =~= src.take(i).push(src[i]));
    lemma_encode_push(src.take(i), src[i]);
    lemma_encode_scalar_width(src[i]);
}

/// Offsets grow with the index, by at least one byte for each character.
pub proof fn lemma_offset_monotonic(src: Seq<char>, i: int, j: int)
    requires
        0 <= i <= j <= src.len(),
    ensures
        byte_offset(src, i) + (j - i) <= byte_offset(src, j),
    decreases j - i,
{
    if i < j {
        lemma_offset_monotonic(src, i, j - 1);
        lemma_offset_step(src, j - 1);
    }
}

/// The first character stands at offset 0.
pub proof fn lemma_offset_zero(src: Seq<char>)
    ensures
        byte_offset(src, 0) == 0,
{
    assert(src.take(0) =~= Seq::<char>::empty());
}

/// The offset of the end of a text is the length of its encoding.
pub proof fn lemma_offset_end(src: Seq<char>)
    ensures
        byte_offset(src, src.len() as int) == encode_utf8(src).len(),
{
    assert(src.take(src.len() as int) =~= src);
}

} // verus!
