use minilang::parser::{parse, precedence_of, Expected, ParseError, AST};
use minilang::tokenizer::{tokenize, LexError, Token};

fn number(text: &str) -> AST {
    AST::Number(text.to_string())
}

fn variable(name: &str) -> AST {
    AST::Variable(name.to_string())
}

fn binary(op: &str, left: AST, right: AST) -> AST {
    AST::BinaryOp(op.to_string(), Box::new(left), Box::new(right))
}

fn unary(op: &str, operand: AST) -> AST {
    AST::UnaryOp(op.to_string(), Box::new(operand))
}

fn trees(source: &str) -> Result<Vec<AST>, ParseError> {
    parse(&tokenize(source).unwrap())
}

#[test]
fn precedence_table() {
    assert_eq!(precedence_of(&"=".to_string()), 1);
    assert_eq!(precedence_of(&"+".to_string()), 10);
    assert_eq!(precedence_of(&"-".to_string()), 10);
    assert_eq!(precedence_of(&"*".to_string()), 20);
    assert_eq!(precedence_of(&"/".to_string()), 20);
    assert_eq!(precedence_of(&"%".to_string()), 20);
    assert_eq!(precedence_of(&"**".to_string()), 30);
    assert_eq!(precedence_of(&"==".to_string()), -1);
    assert_eq!(precedence_of(&"!".to_string()), -1);
    assert_eq!(precedence_of(&String::new()), -1);
    assert_eq!(precedence_of(&"***".to_string()), -1);
}

#[test]
fn parse_nothing() {
    assert_eq!(trees(""), Ok(vec![]));
    assert_eq!(trees(";;;"), Ok(vec![]));
}

#[test]
fn parse_multiplication_binds_tighter_than_addition() {
    assert_eq!(
        trees("2+3*4"),
        Ok(vec![binary("+", number("2"), binary("*", number("3"), number("4")))])
    );
    assert_eq!(
        trees("2*3+4"),
        Ok(vec![binary("+", binary("*", number("2"), number("3")), number("4"))])
    );
}

#[test]
fn parse_subtraction_groups_from_the_left() {
    assert_eq!(
        trees("1-2-3"),
        Ok(vec![binary("-", binary("-", number("1"), number("2")), number("3"))])
    );
}

#[test]
fn parse_power_groups_from_the_right() {
    assert_eq!(
        trees("2**3**2"),
        Ok(vec![binary("**", number("2"), binary("**", number("3"), number("2")))])
    );
    assert_eq!(
        trees("a**b**c**d"),
        Ok(vec![binary(
            "**",
            variable("a"),
            binary("**", variable("b"), binary("**", variable("c"), variable("d")))
        )])
    );
}

#[test]
fn parse_power_binds_tighter_than_multiplication() {
    assert_eq!(
        trees("2*3**2*5"),
        Ok(vec![binary(
            "*",
            binary("*", number("2"), binary("**", number("3"), number("2"))),
            number("5")
        )])
    );
}

#[test]
fn parse_parentheses_group() {
    assert_eq!(
        trees("(2+3)*4"),
        Ok(vec![binary("*", binary("+", number("2"), number("3")), number("4"))])
    );
}

#[test]
fn parse_parenthesized_expression_is_the_expression() {
    let sources =
        ["1", "x", "2+3*4", "2**3**2", "-x", "f(1 2)", "let x = 1 + 2", "\"s\"", "((1))"];
    for source in sources {
        let wrapped = format!("({})", source);
        assert_eq!(trees(&wrapped), trees(source));
        assert_eq!(trees(source).unwrap().len(), 1);
    }
}

#[test]
fn parse_statements_with_and_without_semicolons() {
    let expected = Ok(vec![number("1"), variable("x"), number("2")]);
    assert_eq!(trees("1; x; 2"), expected);
    assert_eq!(trees("1; x; 2;"), expected);
    assert_eq!(trees(";1;; x 2"), expected);
}

#[test]
fn parse_let_is_an_assignment() {
    let expected = Ok(vec![binary("=", variable("x"), binary("+", number("5"), number("1")))]);
    assert_eq!(trees("let x = 5 + 1"), expected);
    assert_eq!(trees("x = 5 + 1"), expected);
}

#[test]
fn parse_assignments_group_from_the_left() {
    assert_eq!(
        trees("a = b = c"),
        Ok(vec![binary("=", binary("=", variable("a"), variable("b")), variable("c"))])
    );
}

#[test]
fn parse_unary_operator_takes_a_primary() {
    assert_eq!(
        trees("-2**2"),
        Ok(vec![binary("**", unary("-", number("2")), number("2"))])
    );
    assert_eq!(trees("2*-3"), Ok(vec![binary("*", number("2"), unary("-", number("3")))]));
    assert_eq!(trees("- - x"), Ok(vec![unary("-", unary("-", variable("x")))]));
    assert_eq!(trees("*x"), Ok(vec![unary("*", variable("x"))]));
}

#[test]
fn parse_string_literal() {
    assert_eq!(trees("\"a b\""), Ok(vec![AST::String("a b".to_string())]));
}

#[test]
fn parse_call_takes_primaries() {
    assert_eq!(trees("f()"), Ok(vec![AST::Call("f".to_string(), vec![])]));
    assert_eq!(
        trees("f(1 x -2 (3+4) g(5))"),
        Ok(vec![AST::Call(
            "f".to_string(),
            vec![
                number("1"),
                variable("x"),
                unary("-", number("2")),
                binary("+", number("3"), number("4")),
                AST::Call("g".to_string(), vec![number("5")]),
            ]
        )])
    );
    assert_eq!(
        trees("f(1) + 2"),
        Ok(vec![binary("+", AST::Call("f".to_string(), vec![number("1")]), number("2"))])
    );
}

#[test]
fn parse_call_argument_is_no_full_expression() {
    assert_eq!(
        trees("f(1 + 2)"),
        Ok(vec![AST::Call(
            "f".to_string(),
            vec![number("1"), unary("+", number("2"))]
        )])
    );
}

#[test]
fn parse_function_definition() {
    assert_eq!(
        trees("fun add(a b) { a + b; } add"),
        Ok(vec![
            AST::Function(
                "add".to_string(),
                vec![variable("a"), variable("b")],
                vec![binary("+", variable("a"), variable("b"))]
            ),
            variable("add"),
        ])
    );
    assert_eq!(
        trees("fun nothing() {}"),
        Ok(vec![AST::Function("nothing".to_string(), vec![], vec![])])
    );
}

#[test]
fn parse_nested_function_definition() {
    assert_eq!(
        trees("fun outer() { fun inner(x) { x } 1 }"),
        Ok(vec![AST::Function(
            "outer".to_string(),
            vec![],
            vec![
                AST::Function("inner".to_string(), vec![variable("x")], vec![variable("x")]),
                number("1"),
            ]
        )])
    );
}

#[test]
fn parse_stops_at_a_closing_brace() {
    assert_eq!(trees("1; } 2"), Ok(vec![number("1")]));
}

#[test]
fn parse_missing_operand() {
    assert_eq!(
        trees("1 +"),
        Err(ParseError::Unexpected {
            expected: Expected::Expression,
            found: Some(Token::EOF(3)),
            index: 2,
        })
    );
}

#[test]
fn parse_unmatched_parentheses() {
    assert_eq!(
        trees("(1 + 2"),
        Err(ParseError::Unexpected {
            expected: Expected::ClosingParen,
            found: Some(Token::EOF(6)),
            index: 4,
        })
    );
    assert_eq!(
        trees("(1 2)"),
        Err(ParseError::Unexpected {
            expected: Expected::ClosingParen,
            found: Some(Token::Numb("2".to_string(), 3)),
            index: 2,
        })
    );
    assert_eq!(
        trees(")"),
        Err(ParseError::Unexpected {
            expected: Expected::Expression,
            found: Some(Token::RParen(0)),
            index: 0,
        })
    );
}

#[test]
fn parse_let_needs_a_name_and_an_equals_sign() {
    assert_eq!(
        trees("let 5 = 1"),
        Err(ParseError::Unexpected {
            expected: Expected::Identifier,
            found: Some(Token::Numb("5".to_string(), 4)),
            index: 1,
        })
    );
    assert_eq!(
        trees("let x"),
        Err(ParseError::Unexpected {
            expected: Expected::Assignment,
            found: Some(Token::EOF(5)),
            index: 2,
        })
    );
    assert_eq!(
        trees("let x + 1"),
        Err(ParseError::Unexpected {
            expected: Expected::Assignment,
            found: Some(Token::Operator("+".to_string(), 6)),
            index: 2,
        })
    );
}

#[test]
fn parse_function_definition_needs_its_parts() {
    assert_eq!(
        trees("fun (a) {}"),
        Err(ParseError::Unexpected {
            expected: Expected::FunctionName,
            found: Some(Token::LParen(4)),
            index: 1,
        })
    );
    assert_eq!(
        trees("fun f a {}"),
        Err(ParseError::Unexpected {
            expected: Expected::OpeningParen,
            found: Some(Token::Ident("a".to_string(), 6)),
            index: 2,
        })
    );
    assert_eq!(
        trees("fun f(a 1) {}"),
        Err(ParseError::Unexpected {
            expected: Expected::ClosingParen,
            found: Some(Token::Numb("1".to_string(), 8)),
            index: 4,
        })
    );
    assert_eq!(
        trees("fun f(a) 1"),
        Err(ParseError::Unexpected {
            expected: Expected::OpeningBrace,
            found: Some(Token::Numb("1".to_string(), 9)),
            index: 5,
        })
    );
    assert_eq!(
        trees("fun f(a) { a"),
        Err(ParseError::Unexpected {
            expected: Expected::ClosingBrace,
            found: Some(Token::EOF(12)),
            index: 7,
        })
    );
}

#[test]
fn parse_call_needs_its_closing_parenthesis() {
    assert_eq!(
        trees("f(1"),
        Err(ParseError::Unexpected {
            expected: Expected::Expression,
            found: Some(Token::EOF(3)),
            index: 3,
        })
    );
}

#[test]
fn parse_unknown_character_is_a_lexical_error() {
    assert_eq!(
        trees("1 + $"),
        Err(ParseError::Lexical(LexError::UnknownCharacter { character: '$', offset: 4 }))
    );
    assert_eq!(
        trees("1 $"),
        Err(ParseError::Lexical(LexError::UnknownCharacter { character: '$', offset: 2 }))
    );
}

#[test]
fn parse_tokens_without_end_of_input() {
    assert_eq!(parse(&vec![]), Ok(vec![]));
    assert_eq!(parse(&vec![Token::Numb("1".to_string(), 0)]), Ok(vec![number("1")]));
    assert_eq!(
        parse(&vec![Token::Numb("1".to_string(), 0), Token::Operator("+".to_string(), 1)]),
        Err(ParseError::Unexpected { expected: Expected::Expression, found: None, index: 2 })
    );
    assert_eq!(
        parse(&vec![Token::LParen(0), Token::Numb("1".to_string(), 1)]),
        Err(ParseError::Unexpected { expected: Expected::ClosingParen, found: None, index: 2 })
    );
}

#[test]
fn parse_unknown_operator_ends_the_expression() {
    let tokens = vec![
        Token::Numb("1".to_string(), 0),
        Token::Operator("==".to_string(), 1),
        Token::Numb("2".to_string(), 3),
        Token::EOF(4),
    ];
    assert_eq!(parse(&tokens), Ok(vec![number("1"), unary("==", number("2"))]));
}

#[test]
fn trees_can_be_copied() {
    let all = trees("fun f(a) { a + 1; g(a \"s\") } -x").unwrap();
    assert_eq!(all.clone(), all);
    assert_eq!(minilang::parser::clone_trees(&all), all);
}
