//! The lexer: from source text to a sequence of tokens that ends in the
//! end-of-input token.
//!
//! What the tokens of a text are is said by [`lex`], a function on the text's
//! characters. [`Tokenizer`] is the scanner that produces them one at a time,
//! reading each character once.

use crate::text::{
    byte_offset, char_width, class_of, classify, continues_ident, escape_of, is_ascii_digit,
    is_digit, is_ident_continue, lemma_offset_end, lemma_offset_monotonic, lemma_offset_step,
    lemma_offset_zero, unescape, CharClass,
};
use vstd::prelude::*;
use vstd::utf8::*;

verus! {

/// One lexical unit, with the byte offset in the source at which it begins.
#[derive(Debug, PartialEq, Eq)]
pub enum Token {
    /// A name: a letter or `_`, then letters, digits and `_`.
    Ident(String, usize),
    /// A number, held as its digits: one or more digits, then optionally a
    /// `.` and further digits.
    Numb(String, usize),
    /// An operator: one of `+ - % / = *`, or `**`.
    Operator(String, usize),
    /// `;`.
    Delim(usize),
    /// `(`.
    LParen(usize),
    /// `)`.
    RParen(usize),
    /// The end of the input. Its offset is the length of the source.
    EOF(usize),
    /// A string literal, with its escapes already replaced.
    String(String, usize),
    /// `{`.
    StartBlock(usize),
    /// `}`.
    EndBlock(usize),
    /// A character that begins no token.
    Unknown(char, usize),
}

/// A [`Token`] as a mathematical value.
pub enum TokenView {
    Ident(Seq<char>, nat),
    Numb(Seq<char>, nat),
    Operator(Seq<char>, nat),
    Delim(nat),
    LParen(nat),
    RParen(nat),
    EOF(nat),
    String(Seq<char>, nat),
    StartBlock(nat),
    EndBlock(nat),
    Unknown(char, nat),
}

impl View for Token {
    type V = TokenView;

    open spec fn view(&self) -> TokenView {
        match self {
            Token::Ident(s, at) => TokenView::Ident(s@, *at as nat),
            Token::Numb(s, at) => TokenView::Numb(s@, *at as nat),
            Token::Operator(s, at) => TokenView::Operator(s@, *at as nat),
            Token::Delim(at) => TokenView::Delim(*at as nat),
            Token::LParen(at) => TokenView::LParen(*at as nat),
            Token::RParen(at) => TokenView::RParen(*at as nat),
            Token::EOF(at) => TokenView::EOF(*at as nat),
            Token::String(s, at) => TokenView::String(s@, *at as nat),
            Token::StartBlock(at) => TokenView::StartBlock(*at as nat),
            Token::EndBlock(at) => TokenView::EndBlock(*at as nat),
            Token::Unknown(c, at) => TokenView::Unknown(*c, *at as nat),
        }
    }
}

impl TokenView {
    /// The byte offset at which the token begins.
    pub open spec fn offset(self) -> nat {
        match self {
            TokenView::Ident(_, at) => at,
            TokenView::Numb(_, at) => at,
            TokenView::Operator(_, at) => at,
            TokenView::Delim(at) => at,
            TokenView::LParen(at) => at,
            TokenView::RParen(at) => at,
            TokenView::EOF(at) => at,
            TokenView::String(_, at) => at,
            TokenView::StartBlock(at) => at,
            TokenView::EndBlock(at) => at,
            TokenView::Unknown(_, at) => at,
        }
    }
}

impl Clone for Token {
    fn clone(&self) -> (r: Self)
        ensures
            r@ == self@,
    {
        match self {
            Token::Ident(s, at) => Token::Ident(s.clone(), *at),
            Token::Numb(s, at) => Token::Numb(s.clone(), *at),
            Token::Operator(s, at) => Token::Operator(s.clone(), *at),
            Token::Delim(at) => Token::Delim(*at),
            Token::LParen(at) => Token::LParen(*at),
            Token::RParen(at) => Token::RParen(*at),
            Token::EOF(at) => Token::EOF(*at),
            Token::String(s, at) => Token::String(s.clone(), *at),
            Token::StartBlock(at) => Token::StartBlock(*at),
            Token::EndBlock(at) => Token::EndBlock(*at),
            Token::Unknown(c, at) => Token::Unknown(*c, *at),
        }
    }
}

impl Token {
    /// Whether this is the end-of-input token.
    pub fn is_end(&self) -> (b: bool)
        ensures
            b == (self@ is EOF),
    {
        match self {
            Token::EOF(_) => true,
            _ => false,
        }
    }

    /// The byte offset at which the token begins.
    pub fn offset(&self) -> (at: usize)
        ensures
            at == self@.offset(),
    {
        match self {
            Token::Ident(_, at) => *at,
            Token::Numb(_, at) => *at,
            Token::Operator(_, at) => *at,
            Token::Delim(at) => *at,
            Token::LParen(at) => *at,
            Token::RParen(at) => *at,
            Token::EOF(at) => *at,
            Token::String(_, at) => *at,
            Token::StartBlock(at) => *at,
            Token::EndBlock(at) => *at,
            Token::Unknown(_, at) => *at,
        }
    }
}

/// The views of a sequence of tokens, one for one.
pub open spec fn token_views(tokens: Seq<Token>) -> Seq<TokenView> {
    tokens.map_values(|t: Token| t@)
}

/// Why a text has no tokens.
#[derive(Clone, Copy, Debug, PartialEq, Eq)]
pub enum LexError {
    /// A number with a second `.` in it. `offset` is where the number begins.
    MalformedNumber { offset: usize },
    /// A string literal that the input ends in. `offset` is where its opening
    /// quote stands.
    UnterminatedString { offset: usize },
    /// A backslash in a string literal, followed by a character that no
    /// escape is written with. `offset` is where that character stands.
    UnknownEscape { character: char, offset: usize },
    /// A character that begins no token, met where a token was needed.
    /// `offset` is where it stands.
    UnknownCharacter { character: char, offset: usize },
}

/// A [`LexError`] as a mathematical value.
pub enum LexErrorView {
    MalformedNumber { offset: nat },
    UnterminatedString { offset: nat },
    UnknownEscape { character: char, offset: nat },
    UnknownCharacter { character: char, offset: nat },
}

impl View for LexError {
    type V = LexErrorView;

    open spec fn view(&self) -> LexErrorView {
        match self {
            LexError::MalformedNumber { offset } => LexErrorView::MalformedNumber {
                offset: *offset as nat,
            },
            LexError::UnterminatedString { offset } => LexErrorView::UnterminatedString {
                offset: *offset as nat,
            },
            LexError::UnknownEscape { character, offset } => LexErrorView::UnknownEscape {
                character: *character,
                offset: *offset as nat,
            },
            LexError::UnknownCharacter { character, offset } => LexErrorView::UnknownCharacter {
                character: *character,
                offset: *offset as nat,
            },
        }
    }
}

/// The first index at or after `i` whose character is not white space.
pub open spec fn blank_end(src: Seq<char>, i: int) -> int
    decreases src.len() - i,
{
    if 0 <= i < src.len() && class_of(src[i]) == CharClass::Space {
        blank_end(src, i + 1)
    } else {
        i
    }
}

/// The first index at or after `i` whose character is not a digit.
pub open spec fn digits_end(src: Seq<char>, i: int) -> int
    decreases src.len() - i,
{
    if 0 <= i < src.len() && is_digit(src[i]) {
        digits_end(src, i + 1)
    } else {
        i
    }
}

/// The first index at or after `i` whose character cannot continue an
/// identifier.
pub open spec fn ident_end(src: Seq<char>, i: int) -> int
    decreases src.len() - i,
{
    if 0 <= i < src.len() && continues_ident(src[i]) {
        ident_end(src, i + 1)
    } else {
        i
    }
}

/// What reading a string literal comes to.
pub enum StringScan {
    /// The closing quote was found: the literal's characters, and the index
    /// after the quote.
    Closed(Seq<char>, int),
    /// The input ended first.
    Unterminated,
    /// A backslash was followed by this character, at this index, which no
    /// escape is written with.
    BadEscape(char, int),
}

/// Reads a string literal from index `i`, which lies after its opening quote,
/// with `acc` the characters read so far.
pub open spec fn scan_string(src: Seq<char>, i: int, acc: Seq<char>) -> StringScan
    decreases src.len() - i,
{
    if !(0 <= i < src.len()) {
        StringScan::Unterminated
    } else if src[i] == '\\' {
        if i + 1 >= src.len() {
            StringScan::Unterminated
        } else {
            match escape_of(src[i + 1]) {
                Some(c) => scan_string(src, i + 2, acc.push(c)),
                None => StringScan::BadEscape(src[i + 1], i + 1),
            }
        }
    } else if src[i] == '"' {
        StringScan::Closed(acc, i + 1)
    } else {
        scan_string(src, i + 1, acc.push(src[i]))
    }
}

/// A token and the index after it, or the reason why there is none.
pub type Scan = Result<(TokenView, int), LexErrorView>;

/// The number that begins at `i`, where a digit stands.
pub open spec fn number_at(src: Seq<char>, i: int) -> Scan {
    let whole = digits_end(src, i);
    if 0 <= whole < src.len() && src[whole] == '.' {
        let end = digits_end(src, whole + 1);
        if 0 <= end < src.len() && src[end] == '.' {
            Err(LexErrorView::MalformedNumber { offset: byte_offset(src, i) })
        } else {
            Ok((TokenView::Numb(src.subrange(i, end), byte_offset(src, i)), end))
        }
    } else {
        Ok((TokenView::Numb(src.subrange(i, whole), byte_offset(src, i)), whole))
    }
}

/// The operator that begins at `i`, where an operator character stands: `**`
/// where two stars meet, else the character alone.
pub open spec fn operator_at(src: Seq<char>, i: int) -> Scan {
    if src[i] == '*' && i + 1 < src.len() && src[i + 1] == '*' {
        Ok((TokenView::Operator(seq!['*', '*'], byte_offset(src, i)), i + 2))
    } else {
        Ok((TokenView::Operator(seq![src[i]], byte_offset(src, i)), i + 1))
    }
}

/// The string literal whose opening quote stands at `i`.
pub open spec fn string_at(src: Seq<char>, i: int) -> Scan {
    match scan_string(src, i + 1, Seq::empty()) {
        StringScan::Closed(text, end) => Ok((TokenView::String(text, byte_offset(src, i)), end)),
        StringScan::Unterminated => Err(
            LexErrorView::UnterminatedString { offset: byte_offset(src, i) },
        ),
        StringScan::BadEscape(c, at) => Err(
            LexErrorView::UnknownEscape { character: c, offset: byte_offset(src, at) },
        ),
    }
}

/// The token that begins at `i`, and the index after it. At the end of the
/// text this is the end-of-input token, and the index stays.
pub open spec fn token_at(src: Seq<char>, i: int) -> Scan {
    let at = byte_offset(src, i);
    if !(0 <= i < src.len()) {
        Ok((TokenView::EOF(at), i))
    } else {
        match class_of(src[i]) {
            CharClass::Digit => number_at(src, i),
            CharClass::Operator => operator_at(src, i),
            CharClass::LeftParen => Ok((TokenView::LParen(at), i + 1)),
            CharClass::RightParen => Ok((TokenView::RParen(at), i + 1)),
            CharClass::LeftBrace => Ok((TokenView::StartBlock(at), i + 1)),
            CharClass::RightBrace => Ok((TokenView::EndBlock(at), i + 1)),
            CharClass::Letter => {
                let end = ident_end(src, i + 1);
                Ok((TokenView::Ident(src.subrange(i, end), at), end))
            },
            CharClass::Semicolon => Ok((TokenView::Delim(at), i + 1)),
            CharClass::Quote => string_at(src, i),
            CharClass::Space | CharClass::Other => Ok((TokenView::Unknown(src[i], at), i + 1)),
        }
    }
}

/// The next token at or after `i`, white space skipped, and the index after
/// it.
pub open spec fn next_token_at(src: Seq<char>, i: int) -> Scan {
    token_at(src, blank_end(src, i))
}

/// The tokens of `src` from index `i` on, the end-of-input token last.
pub open spec fn lex_from(src: Seq<char>, i: int) -> Result<Seq<TokenView>, LexErrorView>
    decreases src.len() - i,
{
    match next_token_at(src, i) {
        Err(e) => Err(e),
        Ok((token, next)) => {
            if token is EOF || i < 0 {
                Ok(seq![token])
            } else {
                proof {
                    lemma_next_token_advances(src, i);
                }
                match lex_from(src, next) {
                    Err(e) => Err(e),
                    Ok(rest) => Ok(seq![token] + rest),
                }
            }
        },
    }
}

/// The tokens of `src`: every token in order, then the end-of-input token; or
/// the first lexical error.
pub open spec fn lex(src: Seq<char>) -> Result<Seq<TokenView>, LexErrorView> {
    lex_from(src, 0)
}

proof fn lemma_blank_end_bounds(src: Seq<char>, i: int)
    requires
        0 <= i <= src.len(),
    ensures
        i <= blank_end(src, i) <= src.len(),
        blank_end(src, i) < src.len() ==> class_of(src[blank_end(src, i)]) != CharClass::Space,
    decreases src.len() - i,
{
    if i < src.len() && class_of(src[i]) == CharClass::Space {
        lemma_blank_end_bounds(src, i + 1);
    }
}

proof fn lemma_digits_end_bounds(src: Seq<char>, i: int)
    requires
        0 <= i <= src.len(),
    ensures
        i <= digits_end(src, i) <= src.len(),
    decreases src.len() - i,
{
    if i < src.len() && is_digit(src[i]) {
        lemma_digits_end_bounds(src, i + 1);
    }
}

proof fn lemma_ident_end_bounds(src: Seq<char>, i: int)
    requires
        0 <= i <= src.len(),
    ensures
        i <= ident_end(src, i) <= src.len(),
    decreases src.len() - i,
{
    if i < src.len() && continues_ident(src[i]) {
        lemma_ident_end_bounds(src, i + 1);
    }
}

proof fn lemma_scan_string_bounds(src: Seq<char>, i: int, acc: Seq<char>)
    requires
        0 <= i <= src.len(),
    ensures
        match scan_string(src, i, acc) {
            StringScan::Closed(_, end) => i < end <= src.len(),
            StringScan::Unterminated => true,
            StringScan::BadEscape(_, at) => i < at < src.len(),
        },
    decreases src.len() - i,
{
    if i < src.len() {
        if src[i] == '\\' {
            if i + 1 < src.len() {
                match escape_of(src[i + 1]) {
                    Some(c) => lemma_scan_string_bounds(src, i + 2, acc.push(c)),
                    None => {},
                }
            }
        } else if src[i] != '"' {
            lemma_scan_string_bounds(src, i + 1, acc.push(src[i]));
        }
    }
}

/// A token that is not the end of input takes at least one character, and
/// none ends beyond the text.
pub proof fn lemma_token_at_advances(src: Seq<char>, i: int)
    requires
        0 <= i <= src.len(),
    ensures
        match token_at(src, i) {
            Ok((token, next)) => {
                &&& i <= next <= src.len()
                &&& !(token is EOF) ==> i < next
                &&& token is EOF <==> i == src.len()
                &&& token.offset() == byte_offset(src, i)
            },
            Err(_) => true,
        },
{
    if i < src.len() {
        lemma_digits_end_bounds(src, i);
        let whole = digits_end(src, i);
        if whole < src.len() {
            lemma_digits_end_bounds(src, whole + 1);
        }
        lemma_ident_end_bounds(src, i + 1);
        lemma_scan_string_bounds(src, i + 1, Seq::empty());
        if is_digit(src[i]) {
            assert(digits_end(src, i) == digits_end(src, i + 1));
            lemma_digits_end_bounds(src, i + 1);
        }
    }
}

/// The next token after `i` ends after `i`, unless it is the end of input.
pub proof fn lemma_next_token_advances(src: Seq<char>, i: int)
    requires
        0 <= i,
    ensures
        match next_token_at(src, i) {
            Ok((token, next)) => !(token is EOF) ==> i < next <= src.len(),
            Err(_) => true,
        },
{
    if i <= src.len() {
        lemma_blank_end_bounds(src, i);
        lemma_token_at_advances(src, blank_end(src, i));
    }
}

/// What the scanner is in the middle of.
#[derive(Clone, Copy, Debug, PartialEq, Eq)]
enum State {
    /// Between tokens.
    Start,
    /// In the digits before a number's `.`.
    NumberWhole,
    /// In the digits after a number's `.`.
    NumberDecimal,
    /// In an identifier.
    Ident,
    /// In a string literal.
    String,
    /// In a string literal, after a backslash.
    StringEscape,
}

/// Holds of the scanner's state while it reads the token that begins at
/// `start` and has come to index `i`, with `current` what it has gathered:
/// the token that `goal` names is still the one that the rest of the text
/// completes.
spec fn scanning(
    src: Seq<char>,
    goal: Scan,
    state: State,
    start: int,
    dot: int,
    i: int,
    current: Seq<char>,
) -> bool {
    match state {
        State::Start => {
            &&& start == i
            &&& current == Seq::<char>::empty()
            &&& goal == next_token_at(src, i)
        },
        State::NumberWhole => {
            &&& 0 <= start < i <= src.len()
            &&& goal == number_at(src, start)
            &&& digits_end(src, start) == digits_end(src, i)
            &&& current == src.subrange(start, i)
        },
        State::NumberDecimal => {
            &&& 0 <= start < dot < i <= src.len()
            &&& goal == number_at(src, start)
            &&& digits_end(src, start) == dot
            &&& src[dot] == '.'
            &&& digits_end(src, dot + 1) == digits_end(src, i)
            &&& current == src.subrange(start, i)
        },
        State::Ident => {
            &&& 0 <= start < i <= src.len()
            &&& goal == Ok::<(TokenView, int), LexErrorView>(
                (
                    TokenView::Ident(
                        src.subrange(start, ident_end(src, start + 1)),
                        byte_offset(src, start),
                    ),
                    ident_end(src, start + 1),
                ),
            )
            &&& ident_end(src, start + 1) == ident_end(src, i)
            &&& current == src.subrange(start, i)
        },
        State::String => {
            &&& 0 <= start < i <= src.len()
            &&& goal == string_at(src, start)
            &&& scan_string(src, start + 1, Seq::empty()) == scan_string(src, i, current)
        },
        State::StringEscape => {
            &&& 0 <= start < i - 1 < src.len()
            &&& goal == string_at(src, start)
            &&& src[i - 1] == '\\'
            &&& scan_string(src, start + 1, Seq::empty()) == scan_string(src, i - 1, current)
        },
    }
}

/// A scanner over a text, which hands out its tokens one at a time.
pub struct Tokenizer {
    input: Vec<char>,
    cursor: usize,
    position: usize,
}

impl Tokenizer {
    /// The text that is read.
    pub closed spec fn source(&self) -> Seq<char> {
        self.input@
    }

    /// The index of the next character to read.
    pub closed spec fn cursor(&self) -> int {
        self.cursor as int
    }

    /// The scanner stands inside its text, knows the byte offset of the
    /// character it stands at, and the text's encoding has a length that a
    /// `usize` holds.
    pub closed spec fn wf(&self) -> bool {
        &&& self.cursor <= self.input.len()
        &&& self.position == byte_offset(self.input@, self.cursor as int)
        &&& byte_offset(self.input@, self.input.len() as int) <= usize::MAX
    }

    /// A scanner at the beginning of `input`.
    pub fn new(input: &str) -> (t: Tokenizer)
        ensures
            t.wf(),
            t.source() == input@,
            t.cursor() == 0,
    {
        let mut chars: Vec<char> = Vec::new();
        for c in it: input.chars()
            invariant
                chars@ == it.seq().take(it.index()),
                it.seq() == input@,
        {
            chars.push(c);
        }
        let bytes = input.as_bytes();
        let length = bytes.len();
        proof {
            lemma_offset_zero(chars@);
            lemma_offset_end(chars@);
            broadcast use vstd::slice::axiom_spec_len;

            assert(chars@ =~= input@);
            assert(bytes@ == encode_utf8(input@));
            assert(encode_utf8(chars@).len() == length);
        }
        Tokenizer { input: chars, cursor: 0, position: 0 }
    }

    /// The byte offset of the next character to read.
    pub fn position(&self) -> (at: usize)
        requires
            self.wf(),
        ensures
            at == byte_offset(self.source(), self.cursor()),
    {
        self.position
    }

    /// Whether every character has been read.
    pub fn at_end(&self) -> (b: bool)
        requires
            self.wf(),
        ensures
            b == (self.cursor() == self.source().len()),
    {
        self.cursor >= self.input.len()
    }

    /// Reads one character and steps over it.
    pub fn consume_char(&mut self) -> (c: char)
        requires
            old(self).wf(),
            old(self).cursor() < old(self).source().len(),
        ensures
            final(self).wf(),
            final(self).source() == old(self).source(),
            final(self).cursor() == old(self).cursor() + 1,
            c == old(self).source()[old(self).cursor()],
    {
        let c = self.input[self.cursor];
        proof {
            lemma_offset_step(self.input@, self.cursor as int);
            lemma_offset_monotonic(self.input@, self.cursor as int + 1, self.input.len() as int);
        }
        self.position = self.position + char_width(c);
        self.cursor = self.cursor + 1;
        c
    }

    /// Reads the next token: skips white space, then reads characters for as
    /// long as they continue the token that the first one began. At the end of
    /// the text the token is the end of input, however often it is asked for.
    /// A failed call leaves the scanner where it stood.
    pub fn next_token(&mut self) -> (r: Result<Token, LexError>)
        requires
            old(self).wf(),
        ensures
            final(self).wf(),
            final(self).source() == old(self).source(),
            match next_token_at(old(self).source(), old(self).cursor()) {
                Ok((token, next)) => r is Ok && r->Ok_0@ == token && final(self).cursor() == next,
                Err(e) => r is Err && r->Err_0@ == e && final(self).cursor() == old(self).cursor(),
            },
    {
        let ghost src = self.input@;
        let ghost goal = next_token_at(src, self.cursor as int);
        let entry_cursor = self.cursor;
        let entry_position = self.position;
        let mut state = State::Start;
        let mut current = String::new();
        let mut start_pos: usize = self.position;
        let ghost mut start: int = self.cursor as int;
        let ghost mut dot: int = 0;
        while self.cursor < self.input.len()
            invariant
                self.wf(),
                self.input@ == src,
                src == old(self).source(),
                entry_cursor == old(self).cursor(),
                entry_cursor <= src.len(),
                entry_position == byte_offset(src, entry_cursor as int),
                start_pos == byte_offset(src, start),
                goal == next_token_at(src, entry_cursor as int),
                scanning(src, goal, state, start, dot, self.cursor as int, current@),
            decreases self.input.len() - self.cursor,
        {
            let ghost i = self.cursor as int;
            let c = self.input[self.cursor];
            match state {
                State::Start => {
                    let class = classify(c);
                    assert(class != CharClass::Space ==> blank_end(src, i) == i);
                    match class {
                        CharClass::Digit => {
                            self.consume_char();
                            current.push(c);
                            state = State::NumberWhole;
                            assert(current@ =~= src.subrange(i, i + 1));
                        },
                        CharClass::Space => {
                            self.consume_char();
                            start_pos = self.position;
                            proof {
                                start = i + 1;
                            }
                        },
                        CharClass::Operator => {
                            self.consume_char();
                            let mut text = String::new();
                            text.push(c);
                            assert(text@ =~= seq![src[i]]);
                            let doubled = c == '*' && self.cursor < self.input.len()
                                && self.input[self.cursor] == '*';
                            if doubled {
                                self.consume_char();
                                text.push('*');
                                assert(text@ =~= seq!['*', '*']);
                            }
                            return Ok(Token::Operator(text, start_pos));
                        },
                        CharClass::LeftParen => {
                            self.consume_char();
                            return Ok(Token::LParen(start_pos));
                        },
                        CharClass::RightParen => {
                            self.consume_char();
                            return Ok(Token::RParen(start_pos));
                        },
                        CharClass::LeftBrace => {
                            self.consume_char();
                            return Ok(Token::StartBlock(start_pos));
                        },
                        CharClass::RightBrace => {
                            self.consume_char();
                            return Ok(Token::EndBlock(start_pos));
                        },
                        CharClass::Letter => {
                            self.consume_char();
                            current.push(c);
                            state = State::Ident;
                            assert(current@ =~= src.subrange(i, i + 1));
                        },
                        CharClass::Semicolon => {
                            self.consume_char();
                            return Ok(Token::Delim(start_pos));
                        },
                        CharClass::Quote => {
                            self.consume_char();
                            state = State::String;
                        },
                        CharClass::Other => {
                            self.consume_char();
                            return Ok(Token::Unknown(c, start_pos));
                        },
                    }
                },
                State::NumberWhole => {
                    if is_ascii_digit(c) {
                        self.consume_char();
                        current.push(c);
                        assert(current@ =~= src.subrange(start, i + 1));
                    } else if c == '.' {
                        self.consume_char();
                        current.push(c);
                        state = State::NumberDecimal;
                        proof {
                            dot = i;
                        }
                        assert(current@ =~= src.subrange(start, i + 1));
                    } else {
                        return Ok(Token::Numb(current, start_pos));
                    }
                },
                State::NumberDecimal => {
                    if is_ascii_digit(c) {
                        self.consume_char();
                        current.push(c);
                        assert(current@ =~= src.subrange(start, i + 1));
                    } else if c == '.' {
                        self.cursor = entry_cursor;
                        self.position = entry_position;
                        return Err(LexError::MalformedNumber { offset: start_pos });
                    } else {
                        return Ok(Token::Numb(current, start_pos));
                    }
                },
                State::Ident => {
                    if is_ident_continue(c) {
                        self.consume_char();
                        current.push(c);
                        assert(current@ =~= src.subrange(start, i + 1));
                    } else {
                        return Ok(Token::Ident(current, start_pos));
                    }
                },
                State::String => {
                    if c == '\\' {
                        self.consume_char();
                        state = State::StringEscape;
                    } else if c == '"' {
                        self.consume_char();
                        return Ok(Token::String(current, start_pos));
                    } else {
                        self.consume_char();
                        current.push(c);
                    }
                },
                State::StringEscape => {
                    match unescape(c) {
                        Some(plain) => {
                            self.consume_char();
                            current.push(plain);
                            state = State::String;
                        },
                        None => {
                            let at = self.position;
                            self.cursor = entry_cursor;
                            self.position = entry_position;
                            return Err(LexError::UnknownEscape { character: c, offset: at });
                        },
                    }
                },
            }
        }
        match state {
            State::Start => Ok(Token::EOF(self.position)),
            State::NumberWhole | State::NumberDecimal => Ok(Token::Numb(current, start_pos)),
            State::Ident => Ok(Token::Ident(current, start_pos)),
            State::String | State::StringEscape => {
                self.cursor = entry_cursor;
                self.position = entry_position;
                Err(LexError::UnterminatedString { offset: start_pos })
            },
        }
    }
}

/// What holds of every token sequence that a text has: the end-of-input
/// token closes it and stands nowhere else, and no token begins before the
/// one in front of it.
pub open spec fn well_formed_tokens(tokens: Seq<TokenView>) -> bool {
    &&& tokens.len() > 0
    &&& tokens.last() is EOF
    &&& forall|i: int| 0 <= i < tokens.len() - 1 ==> !(#[trigger] tokens[i] is EOF)
    &&& forall|i: int, j: int|
        0 <= i <= j < tokens.len() ==> #[trigger] tokens[i].offset()
            <= #[trigger] tokens[j].offset()
}

proof fn lemma_lex_from_well_formed(src: Seq<char>, i: int)
    requires
        0 <= i <= src.len(),
    ensures
        lex_from(src, i) matches Ok(tokens) ==> {
            &&& well_formed_tokens(tokens)
            &&& tokens.last() == TokenView::EOF(byte_offset(src, src.len() as int))
            &&& forall|k: int|
                0 <= k < tokens.len() ==> byte_offset(src, i) <= #[trigger] tokens[k].offset()
        },
    decreases src.len() - i,
{
    let at = blank_end(src, i);
    lemma_blank_end_bounds(src, i);
    lemma_token_at_advances(src, at);
    lemma_offset_monotonic(src, i, at);
    match next_token_at(src, i) {
        Err(_) => {},
        Ok((token, next)) => {
            if !(token is EOF) {
                lemma_lex_from_well_formed(src, next);
                lemma_offset_monotonic(src, at, next);
                match lex_from(src, next) {
                    Err(_) => {},
                    Ok(rest) => {
                        let tokens = seq![token] + rest;
                        assert(lex_from(src, i) == Ok::<Seq<TokenView>, LexErrorView>(tokens));
                        assert(tokens.last() == rest.last());
                        assert forall|k: int| 0 <= k < tokens.len() - 1 implies !(
                        #[trigger] tokens[k] is EOF) by {
                            if k > 0 {
                                assert(tokens[k] == rest[k - 1]);
                            }
                        }
                        assert forall|k: int| 0 <= k < tokens.len() implies byte_offset(src, i)
                            <= #[trigger] tokens[k].offset() by {
                            if k > 0 {
                                assert(tokens[k] == rest[k - 1]);
                            }
                        }
                        assert forall|a: int, b: int| 0 <= a <= b < tokens.len() implies
                            #[trigger] tokens[a].offset() <= #[trigger] tokens[b].offset() by {
                            if b > 0 {
                                assert(tokens[b] == rest[b - 1]);
                            }
                            if a > 0 {
                                assert(tokens[a] == rest[a - 1]);
                            }
                        }
                    },
                }
            }
        },
    }
}

/// The tokens of a text are well formed, and the end-of-input token carries
/// the length of the text's encoding.
pub proof fn lemma_lex_well_formed(src: Seq<char>)
    ensures
        lex(src) matches Ok(tokens) ==> well_formed_tokens(tokens) && tokens.last()
            == TokenView::EOF(encode_utf8(src).len()),
{
    lemma_lex_from_well_formed(src, 0);
    lemma_offset_end(src);
}

/// `text` is digits up to index `whole`, and after that nothing, or a `.`
/// and digits.
pub open spec fn digits_and_fraction(text: Seq<char>, whole: int) -> bool {
    &&& 1 <= whole <= text.len()
    &&& forall|i: int| 0 <= i < whole ==> is_digit(#[trigger] text[i])
    &&& whole < text.len() ==> text[whole] == '.'
    &&& forall|i: int| whole < i < text.len() ==> is_digit(#[trigger] text[i])
}

/// A number as it is written: one or more digits, then optionally a `.` and
/// digits. Such a text always reads as a floating-point number.
pub open spec fn is_number_text(text: Seq<char>) -> bool {
    exists|whole: int| #[trigger] digits_and_fraction(text, whole)
}

/// Every number among the tokens is written as numbers are.
pub open spec fn numbers_well_written(tokens: Seq<TokenView>) -> bool {
    forall|k: int|
        0 <= k < tokens.len() ==> (#[trigger] tokens[k] matches TokenView::Numb(text, _)
            ==> is_number_text(text))
}

proof fn lemma_digits_before_end(src: Seq<char>, i: int, j: int)
    requires
        0 <= i <= j < digits_end(src, i),
    ensures
        j < src.len(),
        is_digit(src[j]),
    decreases j - i,
{
    if i < j {
        lemma_digits_before_end(src, i + 1, j);
    }
}

proof fn lemma_number_at_text(src: Seq<char>, i: int)
    requires
        0 <= i < src.len(),
        is_digit(src[i]),
    ensures
        number_at(src, i) matches Ok((TokenView::Numb(text, _), _)) ==> is_number_text(text),
{
    let whole = digits_end(src, i);
    lemma_digits_end_bounds(src, i + 1);
    assert(whole == digits_end(src, i + 1));
    let end = if whole < src.len() && src[whole] == '.' {
        digits_end(src, whole + 1)
    } else {
        whole
    };
    if whole < src.len() {
        lemma_digits_end_bounds(src, whole + 1);
    }
    let text = src.subrange(i, end);
    assert forall|k: int| 0 <= k < whole - i implies is_digit(#[trigger] text[k]) by {
        lemma_digits_before_end(src, i, i + k);
    }
    assert forall|k: int| whole - i < k < text.len() implies is_digit(#[trigger] text[k]) by {
        lemma_digits_before_end(src, whole + 1, i + k);
    }
    assert(digits_and_fraction(text, whole - i));
}

proof fn lemma_lex_from_numbers(src: Seq<char>, i: int)
    requires
        0 <= i <= src.len(),
    ensures
        lex_from(src, i) matches Ok(tokens) ==> numbers_well_written(tokens),
    decreases src.len() - i,
{
    let at = blank_end(src, i);
    lemma_blank_end_bounds(src, i);
    lemma_token_at_advances(src, at);
    match next_token_at(src, i) {
        Err(_) => {},
        Ok((token, next)) => {
            if at < src.len() && is_digit(src[at]) {
                lemma_number_at_text(src, at);
            }
            if !(token is EOF) {
                lemma_lex_from_numbers(src, next);
                match lex_from(src, next) {
                    Err(_) => {},
                    Ok(rest) => {
                        let tokens = seq![token] + rest;
                        assert forall|k: int| 0 <= k < tokens.len() implies (
                        #[trigger] tokens[k] matches TokenView::Numb(text, _) ==> is_number_text(
                            text,
                        )) by {
                            if k > 0 {
                                assert(tokens[k] == rest[k - 1]);
                            }
                        }
                    },
                }
            }
        },
    }
}

/// Every number among the tokens of a text is written as numbers are, so
/// that reading it as a floating-point number cannot fail.
pub proof fn lemma_lex_numbers(src: Seq<char>)
    ensures
        lex(src) matches Ok(tokens) ==> numbers_well_written(tokens),
{
    lemma_lex_from_numbers(src, 0);
}

/// The tokens of `input`, the end-of-input token last, or the first lexical
/// error in it.
pub fn tokenize(input: &str) -> (r: Result<Vec<Token>, LexError>)
    ensures
        match lex(input@) {
            Ok(tokens) => r is Ok && token_views(r->Ok_0@) == tokens,
            Err(e) => r is Err && r->Err_0@ == e,
        },
        r matches Ok(tokens) ==> well_formed_tokens(token_views(tokens@)) && numbers_well_written(
            token_views(tokens@),
        ),
{
    let mut tokenizer = Tokenizer::new(input);
    let mut out: Vec<Token> = Vec::new();
    let ghost src = input@;
    proof {
        lemma_lex_well_formed(src);
        lemma_lex_numbers(src);
        assert(token_views(out@) + lex_from(src, 0)->Ok_0 =~= lex_from(src, 0)->Ok_0);
    }
    loop
        invariant
            tokenizer.wf(),
            tokenizer.source() == src,
            src == input@,
            0 <= tokenizer.cursor() <= src.len(),
            lex(src) matches Ok(tokens) ==> well_formed_tokens(tokens) && numbers_well_written(
                tokens,
            ),
            match lex_from(src, tokenizer.cursor()) {
                Ok(rest) => lex(src) == Ok::<Seq<TokenView>, LexErrorView>(
                    token_views(out@) + rest,
                ),
                Err(e) => lex(src) == Err::<Seq<TokenView>, LexErrorView>(e),
            },
        decreases src.len() - tokenizer.cursor(),
    {
        let ghost before = tokenizer.cursor();
        let ghost seen = token_views(out@);
        proof {
            lemma_next_token_advances(src, before);
        }
        match tokenizer.next_token() {
            Err(e) => {
                return Err(e);
            },
            Ok(token) => {
                let done = token.is_end();
                out.push(token);
                assert(token_views(out@) =~= seen.push(token@));
                if done {
                    assert(seen + seq![token@] =~= seen.push(token@));
                    return Ok(out);
                }
                proof {
                    match lex_from(src, tokenizer.cursor()) {
                        Ok(rest) => {
                            assert(seen + (seq![token@] + rest) =~= seen.push(token@) + rest);
                        },
                        Err(_) => {},
                    }
                }
            },
        }
    }
}

} // verus!
