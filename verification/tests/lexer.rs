use minilang::text::{char_width, classify, keyword_matches, to_decimal, unescape, CharClass};
use minilang::tokenizer::{tokenize, LexError, Token, Tokenizer};

fn ident(text: &str, at: usize) -> Token {
    Token::Ident(text.to_string(), at)
}

fn numb(text: &str, at: usize) -> Token {
    Token::Numb(text.to_string(), at)
}

fn op(text: &str, at: usize) -> Token {
    Token::Operator(text.to_string(), at)
}

#[test]
fn tokenize_one_plus_two() {
    let tokens = tokenize("1+2").unwrap();
    assert_eq!(tokens, vec![numb("1", 0), op("+", 1), numb("2", 2), Token::EOF(3)]);
}

#[test]
fn tokenize_empty_text_is_end_of_input_alone() {
    assert_eq!(tokenize("").unwrap(), vec![Token::EOF(0)]);
}

#[test]
fn tokenize_blank_text_is_end_of_input_alone() {
    assert_eq!(tokenize(" \t\r\n ").unwrap(), vec![Token::EOF(5)]);
}

#[test]
fn tokenize_flushes_a_number_at_the_end() {
    assert_eq!(tokenize("42").unwrap(), vec![numb("42", 0), Token::EOF(2)]);
    assert_eq!(tokenize("4.25").unwrap(), vec![numb("4.25", 0), Token::EOF(4)]);
    assert_eq!(tokenize("7.").unwrap(), vec![numb("7.", 0), Token::EOF(2)]);
}

#[test]
fn tokenize_flushes_an_identifier_at_the_end() {
    assert_eq!(tokenize("abc").unwrap(), vec![ident("abc", 0), Token::EOF(3)]);
}

#[test]
fn tokenize_skips_white_space_and_keeps_offsets() {
    let tokens = tokenize("  let  x =\n 5 ;").unwrap();
    assert_eq!(
        tokens,
        vec![
            ident("let", 2),
            ident("x", 7),
            op("=", 9),
            numb("5", 12),
            Token::Delim(14),
            Token::EOF(15),
        ]
    );
}

#[test]
fn tokenize_structural_tokens() {
    let tokens = tokenize("(){};").unwrap();
    assert_eq!(
        tokens,
        vec![
            Token::LParen(0),
            Token::RParen(1),
            Token::StartBlock(2),
            Token::EndBlock(3),
            Token::Delim(4),
            Token::EOF(5),
        ]
    );
}

#[test]
fn tokenize_every_operator() {
    let tokens = tokenize("+ - % / = * **").unwrap();
    assert_eq!(
        tokens,
        vec![
            op("+", 0),
            op("-", 2),
            op("%", 4),
            op("/", 6),
            op("=", 8),
            op("*", 10),
            op("**", 12),
            Token::EOF(14),
        ]
    );
}

#[test]
fn tokenize_three_stars_is_power_then_times() {
    assert_eq!(tokenize("***").unwrap(), vec![op("**", 0), op("*", 2), Token::EOF(3)]);
}

#[test]
fn tokenize_a_number_ends_at_a_letter() {
    assert_eq!(tokenize("12ab").unwrap(), vec![numb("12", 0), ident("ab", 2), Token::EOF(4)]);
}

#[test]
fn tokenize_identifier_with_digits_and_underscores() {
    assert_eq!(tokenize("_a1_b2 ").unwrap(), vec![ident("_a1_b2", 0), Token::EOF(7)]);
}

#[test]
fn tokenize_identifier_of_letters_beyond_ascii() {
    // 'é' takes two bytes, so the `+` stands at byte 5 and not at character 4.
    assert_eq!(
        tokenize("été+1").unwrap(),
        vec![ident("été", 0), op("+", 5), numb("1", 6), Token::EOF(7)]
    );
}

#[test]
fn tokenize_no_break_space_is_white_space() {
    assert_eq!(tokenize("1\u{a0}2").unwrap(), vec![numb("1", 0), numb("2", 3), Token::EOF(4)]);
}

#[test]
fn tokenize_string_literal() {
    assert_eq!(
        tokenize("\"hi there\"").unwrap(),
        vec![Token::String("hi there".to_string(), 0), Token::EOF(10)]
    );
}

#[test]
fn tokenize_string_escapes() {
    let tokens = tokenize("\"a\\\\b\\\"c\\nd\\te\\vf\\rg\"").unwrap();
    assert_eq!(
        tokens,
        vec![Token::String("a\\b\"c\nd\te\u{b}f\rg".to_string(), 0), Token::EOF(21)]
    );
}

#[test]
fn tokenize_empty_string_literal() {
    assert_eq!(tokenize("\"\"").unwrap(), vec![Token::String(String::new(), 0), Token::EOF(2)]);
}

#[test]
fn tokenize_unknown_character_is_a_token() {
    assert_eq!(
        tokenize("1 $ 2").unwrap(),
        vec![numb("1", 0), Token::Unknown('$', 2), numb("2", 4), Token::EOF(5)]
    );
}

#[test]
fn tokenize_second_dot_is_malformed() {
    assert_eq!(tokenize("x = 1.2.3"), Err(LexError::MalformedNumber { offset: 4 }));
    assert_eq!(tokenize("1.."), Err(LexError::MalformedNumber { offset: 0 }));
}

#[test]
fn tokenize_unterminated_string() {
    assert_eq!(tokenize("1 \"abc"), Err(LexError::UnterminatedString { offset: 2 }));
    assert_eq!(tokenize("\"abc\\"), Err(LexError::UnterminatedString { offset: 0 }));
}

#[test]
fn tokenize_unknown_escape() {
    assert_eq!(
        tokenize("\"a\\qb\""),
        Err(LexError::UnknownEscape { character: 'q', offset: 3 })
    );
}

#[test]
fn token_offsets_never_decrease_and_one_end_of_input() {
    let tokens = tokenize("fun f(a b) { a + b; } f(1 2); \"s\" 3.5 ** x").unwrap();
    let mut last = 0;
    for (i, token) in tokens.iter().enumerate() {
        assert!(last <= token.offset());
        last = token.offset();
        assert_eq!(token.is_end(), i == tokens.len() - 1);
    }
}

#[test]
fn every_number_token_reads_as_a_number() {
    let tokens = tokenize("0 7. 3.25 00012 1.50 9999999999999999999999999999.0001 5x 6.y").unwrap();
    let mut seen = 0;
    for token in &tokens {
        if let Token::Numb(digits, _) = token {
            assert!(digits.parse::<f64>().is_ok());
            seen += 1;
        }
    }
    assert_eq!(seen, 8);
}

#[test]
fn tokenizer_hands_out_tokens_one_at_a_time() {
    let mut tokenizer = Tokenizer::new("a 1");
    assert_eq!(tokenizer.position(), 0);
    assert!(!tokenizer.at_end());
    assert_eq!(tokenizer.next_token(), Ok(ident("a", 0)));
    assert_eq!(tokenizer.position(), 1);
    assert_eq!(tokenizer.next_token(), Ok(numb("1", 2)));
    assert!(tokenizer.at_end());
    assert_eq!(tokenizer.next_token(), Ok(Token::EOF(3)));
    assert_eq!(tokenizer.next_token(), Ok(Token::EOF(3)));
}

#[test]
fn tokenizer_consume_char_steps_by_the_width() {
    let mut tokenizer = Tokenizer::new("é1");
    assert_eq!(tokenizer.consume_char(), 'é');
    assert_eq!(tokenizer.position(), 2);
    assert_eq!(tokenizer.consume_char(), '1');
    assert_eq!(tokenizer.position(), 3);
    assert!(tokenizer.at_end());
}

#[test]
fn tokenizer_stays_where_it_stood_on_error() {
    let mut tokenizer = Tokenizer::new("1 \"open");
    assert_eq!(tokenizer.next_token(), Ok(numb("1", 0)));
    assert_eq!(tokenizer.position(), 1);
    assert_eq!(tokenizer.next_token(), Err(LexError::UnterminatedString { offset: 2 }));
    assert_eq!(tokenizer.position(), 1);
    assert_eq!(tokenizer.next_token(), Err(LexError::UnterminatedString { offset: 2 }));
}

#[test]
fn classes_of_characters() {
    assert_eq!(classify('7'), CharClass::Digit);
    assert_eq!(classify(' '), CharClass::Space);
    assert_eq!(classify('%'), CharClass::Operator);
    assert_eq!(classify('('), CharClass::LeftParen);
    assert_eq!(classify(')'), CharClass::RightParen);
    assert_eq!(classify('{'), CharClass::LeftBrace);
    assert_eq!(classify('}'), CharClass::RightBrace);
    assert_eq!(classify('_'), CharClass::Letter);
    assert_eq!(classify('λ'), CharClass::Letter);
    assert_eq!(classify(';'), CharClass::Semicolon);
    assert_eq!(classify('"'), CharClass::Quote);
    assert_eq!(classify('#'), CharClass::Other);
}

#[test]
fn escapes_of_characters() {
    assert_eq!(unescape('n'), Some('\n'));
    assert_eq!(unescape('t'), Some('\t'));
    assert_eq!(unescape('v'), Some('\u{b}'));
    assert_eq!(unescape('r'), Some('\r'));
    assert_eq!(unescape('\\'), Some('\\'));
    assert_eq!(unescape('"'), Some('"'));
    assert_eq!(unescape('x'), None);
}

#[test]
fn widths_of_characters() {
    let samples =
        ['a', '\u{7f}', '\u{80}', 'é', '\u{7ff}', '\u{800}', '€', '\u{ffff}', '\u{10000}', '😀'];
    for c in samples {
        assert_eq!(char_width(c), c.len_utf8());
    }
}

#[test]
fn decimal_numbers() {
    assert_eq!(to_decimal(0), "0");
    assert_eq!(to_decimal(9), "9");
    assert_eq!(to_decimal(10), "10");
    assert_eq!(to_decimal(1234567890), "1234567890");
    assert_eq!(to_decimal(usize::MAX), usize::MAX.to_string());
}

#[test]
fn keywords_match_character_for_character() {
    assert!(keyword_matches(&"let".to_string(), "let"));
    assert!(!keyword_matches(&"le".to_string(), "let"));
    assert!(!keyword_matches(&"lets".to_string(), "let"));
    assert!(!keyword_matches(&"lot".to_string(), "let"));
    assert!(keyword_matches(&String::new(), ""));
}
