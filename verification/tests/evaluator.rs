use minilang::interpret::{
    binary_operator, evaluate, run, Binary, Context, Error, EvalError, Number, Object, Operation,
    Rendering, Report, Shape,
};
use minilang::parser::{parse, ParseError, AST};
use minilang::tokenizer::{tokenize, LexError};

fn literal(text: &str) -> Number {
    Number::Literal(text.to_string())
}

fn float(text: &str) -> Object {
    Object::Float(literal(text))
}

fn text(s: &str) -> Object {
    Object::String(s.to_string())
}

fn name(s: &str) -> String {
    s.to_string()
}

/// Works a number out in floating point.
fn value_of(number: &Number) -> f64 {
    match number {
        Number::Literal(digits) => digits.parse().unwrap(),
        Number::Neg(a) => -value_of(a),
        Number::Add(a, b) => value_of(a) + value_of(b),
        Number::Mult(a, b) => value_of(a) * value_of(b),
        Number::Div(a, b) => value_of(a) / value_of(b),
        Number::Modu(a, b) => value_of(a) % value_of(b),
        Number::Pow(a, b) => value_of(a).powf(value_of(b)),
    }
}

fn written(rendering: &Rendering) -> String {
    match &rendering.number {
        Some(number) => format!("{}{}", rendering.text, value_of(number)),
        None => rendering.text.clone(),
    }
}

fn number_in(value: &Object) -> f64 {
    match value {
        Object::Float(number) => value_of(number),
        other => panic!("no number: {:?}", other),
    }
}

fn one(source: &str, context: &mut Context) -> Result<Object, EvalError> {
    let trees = parse(&tokenize(source).unwrap()).unwrap();
    assert_eq!(trees.len(), 1);
    trees[0].execute(context)
}

#[test]
fn evaluate_multiplication_before_addition() {
    let mut context = Context::new();
    let report = evaluate("2+3*4", &mut context);
    assert_eq!(report.error, None);
    assert_eq!(
        report.values,
        vec![Object::Float(Number::Add(
            Box::new(literal("2")),
            Box::new(Number::Mult(Box::new(literal("3")), Box::new(literal("4"))))
        ))]
    );
    assert_eq!(number_in(&report.values[0]), 14.0);
    assert_eq!(written(&report.values[0].line(0)), "0: 14");
}

#[test]
fn evaluate_power_from_the_right() {
    let mut context = Context::new();
    let report = evaluate("2**3**2", &mut context);
    assert_eq!(report.error, None);
    assert_eq!(
        report.values,
        vec![Object::Float(Number::Pow(
            Box::new(literal("2")),
            Box::new(Number::Pow(Box::new(literal("3")), Box::new(literal("2"))))
        ))]
    );
    assert_eq!(number_in(&report.values[0]), 512.0);
}

#[test]
fn evaluate_binding_then_use() {
    let mut context = Context::new();
    let report = evaluate("let x = 5; x + 1", &mut context);
    assert_eq!(report.error, None);
    assert_eq!(report.values.len(), 2);
    assert_eq!(report.values[0], Object::Variable(name("x"), Box::new(float("5"))));
    assert_eq!(written(&report.values[0].line(0)), "0: x = 5");
    assert_eq!(number_in(&report.values[1]), 6.0);
    assert_eq!(written(&report.values[1].line(1)), "1: 6");
    assert_eq!(context.get(&name("x")), Some(&float("5")));
    let later = evaluate("x", &mut context);
    assert_eq!(later.error, None);
    assert_eq!(later.values, vec![float("5")]);
    assert_eq!(number_in(&later.values[0]), 5.0);
}

#[test]
fn evaluate_undefined_name_is_an_error() {
    let mut context = Context::new();
    let report = evaluate("y", &mut context);
    assert_eq!(report.values, vec![]);
    assert_eq!(report.error, Some(Error::Eval(EvalError::UnboundVariable(name("y")))));
    assert!(!context.contains(&name("y")));
}

#[test]
fn evaluate_division_by_zero_is_no_error() {
    let mut context = Context::new();
    let report = evaluate("5/0; 0/0; -5/0", &mut context);
    assert_eq!(report.error, None);
    assert_eq!(number_in(&report.values[0]), f64::INFINITY);
    assert!(number_in(&report.values[1]).is_nan());
    assert_eq!(number_in(&report.values[2]), f64::NEG_INFINITY);
    assert_eq!(written(&report.values[0].render()), "inf");
    assert_eq!(written(&report.values[1].render()), "NaN");
}

#[test]
fn evaluate_every_arithmetic_operator() {
    let mut context = Context::new();
    let report = evaluate("7+2; 7-2; 7*2; 7/2; 7%2; 7**2; -7; +7; 1.5+0.25", &mut context);
    assert_eq!(report.error, None);
    let numbers: Vec<f64> = report.values.iter().map(number_in).collect();
    assert_eq!(numbers, vec![9.0, 5.0, 14.0, 3.5, 1.0, 49.0, -7.0, 7.0, 1.75]);
}

#[test]
fn subtraction_adds_the_negation() {
    let mut context = Context::new();
    assert_eq!(
        one("7-2", &mut context),
        Ok(Object::Float(Number::Add(
            Box::new(literal("7")),
            Box::new(Number::Neg(Box::new(literal("2"))))
        )))
    );
}

#[test]
fn evaluate_lexical_error() {
    let mut context = Context::new();
    context.insert(name("x"), float("1"));
    let report = evaluate("x = 2; \"open", &mut context);
    assert_eq!(report.values, vec![]);
    assert_eq!(report.error, Some(Error::Lex(LexError::UnterminatedString { offset: 7 })));
    assert_eq!(context.get(&name("x")), Some(&float("1")));
}

#[test]
fn evaluate_unknown_character_is_a_lexical_error() {
    let mut context = Context::new();
    let report = evaluate("x = 2; #", &mut context);
    assert_eq!(report.values, vec![]);
    assert_eq!(
        report.error,
        Some(Error::Lex(LexError::UnknownCharacter { character: '#', offset: 7 }))
    );
    assert!(!context.contains(&name("x")));
}

#[test]
fn evaluate_parse_error_evaluates_nothing() {
    let mut context = Context::new();
    let report = evaluate("x = 2; (3", &mut context);
    assert_eq!(report.values, vec![]);
    assert!(matches!(report.error, Some(Error::Parse(ParseError::Unexpected { .. }))));
    assert!(!context.contains(&name("x")));
}

#[test]
fn run_keeps_the_values_before_the_failure() {
    let mut context = Context::new();
    let trees = parse(&tokenize("a = 1; b; c = 3").unwrap()).unwrap();
    let report = run(trees, &mut context);
    assert_eq!(
        report,
        Report {
            values: vec![Object::Variable(name("a"), Box::new(float("1")))],
            error: Some(Error::Eval(EvalError::UnboundVariable(name("b")))),
        }
    );
    assert!(context.contains(&name("a")));
    assert!(!context.contains(&name("c")));
}

#[test]
fn report_has_one_line_for_each_value() {
    let mut context = Context::new();
    let report = evaluate("let a = 2; a * 4; \"text\"; fun f() {}; nowhere; 5", &mut context);
    let lines: Vec<String> = report.lines().iter().map(written).collect();
    assert_eq!(lines, vec!["0: a = 2", "1: 8", "2: text", "3: Function f"]);
    assert_eq!(report.error, Some(Error::Eval(EvalError::UnboundVariable(name("nowhere")))));
}

#[test]
fn run_of_nothing() {
    let mut context = Context::new();
    assert_eq!(run(vec![], &mut context), Report { values: vec![], error: None });
}

#[test]
fn mismatched_operands_name_the_operation_and_both_shapes() {
    let mut context = Context::new();
    assert_eq!(
        one("1 + \"a\"", &mut context),
        Err(EvalError::TypeMismatch {
            operation: Operation::Add,
            left: Shape::Float,
            right: Shape::String,
        })
    );
    assert_eq!(
        one("\"a\" * \"b\"", &mut context),
        Err(EvalError::TypeMismatch {
            operation: Operation::Mult,
            left: Shape::String,
            right: Shape::String,
        })
    );
    assert_eq!(
        one("(fun f() {}) / 2", &mut context),
        Err(EvalError::TypeMismatch {
            operation: Operation::Div,
            left: Shape::Function,
            right: Shape::Float,
        })
    );
    assert_eq!(
        one("1 % (x = 2)", &mut context),
        Err(EvalError::TypeMismatch {
            operation: Operation::Modu,
            left: Shape::Float,
            right: Shape::Variable,
        })
    );
    assert_eq!(
        one("\"a\" ** 2", &mut context),
        Err(EvalError::TypeMismatch {
            operation: Operation::Pow,
            left: Shape::String,
            right: Shape::Float,
        })
    );
}

#[test]
fn subtraction_fails_as_its_parts_do() {
    let mut context = Context::new();
    assert_eq!(
        one("1 - \"a\"", &mut context),
        Err(EvalError::UnsupportedOperand { operation: Operation::Neg, operand: Shape::String })
    );
    assert_eq!(
        one("\"a\" - 1", &mut context),
        Err(EvalError::TypeMismatch {
            operation: Operation::Add,
            left: Shape::String,
            right: Shape::Float,
        })
    );
}

#[test]
fn negation_of_what_is_no_number() {
    let mut context = Context::new();
    assert_eq!(
        one("-\"a\"", &mut context),
        Err(EvalError::UnsupportedOperand { operation: Operation::Neg, operand: Shape::String })
    );
    assert_eq!(one("+\"a\"", &mut context), Ok(text("a")));
}

#[test]
fn operators_without_meaning() {
    let mut context = Context::new();
    assert_eq!(one("*2", &mut context), Err(EvalError::UnknownUnaryOperator(name("*"))));
    let odd = AST::BinaryOp(
        name("//"),
        Box::new(AST::Variable(name("nowhere"))),
        Box::new(AST::Number(name("1"))),
    );
    assert_eq!(odd.execute(&mut context), Err(EvalError::UnknownBinaryOperator(name("//"))));
}

#[test]
fn assignment_to_what_is_no_variable() {
    let mut context = Context::new();
    assert_eq!(one("1 = nowhere", &mut context), Err(EvalError::InvalidAssignmentTarget));
    assert_eq!(one("a = b = 1", &mut context), Err(EvalError::InvalidAssignmentTarget));
}

#[test]
fn calls_have_no_meaning_yet() {
    let mut context = Context::new();
    let report = evaluate("fun f(a) { a }; f(1)", &mut context);
    assert_eq!(report.values.len(), 1);
    assert_eq!(
        report.values[0],
        Object::Function(name("f"), vec![AST::Variable(name("a"))], vec![AST::Variable(name("a"))])
    );
    assert_eq!(written(&report.values[0].render()), "Function f");
    assert_eq!(report.error, Some(Error::Eval(EvalError::CallUnsupported(name("f")))));
    assert!(!context.contains(&name("f")));
}

#[test]
fn assignment_does_not_see_itself() {
    let mut context = Context::new();
    assert_eq!(one("x = x", &mut context), Err(EvalError::UnboundVariable(name("x"))));
    assert!(!context.contains(&name("x")));
    context.insert(name("x"), float("1"));
    assert!(one("x = x + 1", &mut context).is_ok());
    assert_eq!(number_in(context.get(&name("x")).unwrap()), 2.0);
}

#[test]
fn assignment_drops_what_its_right_side_binds() {
    let mut context = Context::new();
    let value = one("x = (y = 1)", &mut context).unwrap();
    let inner = Object::Variable(name("y"), Box::new(float("1")));
    assert_eq!(value, Object::Variable(name("x"), Box::new(inner.clone())));
    assert_eq!(written(&value.render()), "x = y = 1");
    assert_eq!(context.get(&name("x")), Some(&inner));
    assert!(!context.contains(&name("y")));
}

#[test]
fn left_operand_is_evaluated_first() {
    let mut context = Context::new();
    // The left operand binds `x`, so the right one finds it, and the sum
    // fails on the shapes and not on the name.
    assert_eq!(
        one("(x = 1) + x", &mut context),
        Err(EvalError::TypeMismatch {
            operation: Operation::Add,
            left: Shape::Variable,
            right: Shape::Float,
        })
    );
    assert_eq!(context.get(&name("x")), Some(&float("1")));
    let mut fresh = Context::new();
    assert_eq!(one("z + (z = 1)", &mut fresh), Err(EvalError::UnboundVariable(name("z"))));
    assert!(!fresh.contains(&name("z")));
}

#[test]
fn failed_right_side_leaves_the_environment() {
    let mut context = Context::new();
    context.insert(name("x"), float("1"));
    assert_eq!(one("x = nowhere", &mut context), Err(EvalError::UnboundVariable(name("nowhere"))));
    assert_eq!(context.get(&name("x")), Some(&float("1")));
}

#[test]
fn unknown_unary_operator_leaves_its_operand_alone() {
    let mut context = Context::new();
    assert_eq!(one("*(x = 1)", &mut context), Err(EvalError::UnknownUnaryOperator(name("*"))));
    assert!(!context.contains(&name("x")));
}

#[test]
fn operations_on_values() {
    let a = float("6");
    let b = float("3");
    assert_eq!(number_in(&a.add(&b).unwrap()), 9.0);
    assert_eq!(number_in(&a.mult(&b).unwrap()), 18.0);
    assert_eq!(number_in(&a.div(&b).unwrap()), 2.0);
    assert_eq!(number_in(&a.modu(&b).unwrap()), 0.0);
    assert_eq!(number_in(&a.pow(&b).unwrap()), 216.0);
    assert_eq!(number_in(&a.neg().unwrap()), -6.0);
    assert_eq!(
        a.add(&b),
        Ok(Object::Float(Number::Add(Box::new(literal("6")), Box::new(literal("3")))))
    );
    assert_eq!(
        text("s").neg(),
        Err(EvalError::UnsupportedOperand { operation: Operation::Neg, operand: Shape::String })
    );
    assert_eq!(
        a.pow(&text("s")),
        Err(EvalError::TypeMismatch {
            operation: Operation::Pow,
            left: Shape::Float,
            right: Shape::String,
        })
    );
}

#[test]
fn shapes_of_values() {
    assert_eq!(float("1").shape(), Shape::Float);
    assert_eq!(text("s").shape(), Shape::String);
    assert_eq!(Object::Variable(name("x"), Box::new(float("1"))).shape(), Shape::Variable);
    assert_eq!(Object::Function(name("f"), vec![], vec![]).shape(), Shape::Function);
}

#[test]
fn symbols_of_binary_operators() {
    assert_eq!(binary_operator(&name("+")), Some(Binary::Plus));
    assert_eq!(binary_operator(&name("-")), Some(Binary::Minus));
    assert_eq!(binary_operator(&name("*")), Some(Binary::Times));
    assert_eq!(binary_operator(&name("/")), Some(Binary::Over));
    assert_eq!(binary_operator(&name("%")), Some(Binary::Remainder));
    assert_eq!(binary_operator(&name("**")), Some(Binary::Power));
    assert_eq!(binary_operator(&name("=")), None);
    assert_eq!(binary_operator(&name("^")), None);
}

#[test]
fn context_binds_and_rebinds() {
    let mut context = Context::new();
    assert_eq!(context.get(&name("a")), None);
    context.insert(name("a"), float("1"));
    context.insert(name("b"), text("two"));
    assert_eq!(context.get(&name("a")), Some(&float("1")));
    assert_eq!(context.get(&name("b")), Some(&text("two")));
    context.insert(name("a"), float("3"));
    assert_eq!(context.get(&name("a")), Some(&float("3")));
    assert_eq!(context.get(&name("b")), Some(&text("two")));
    let copy = context.clone();
    context.insert(name("b"), float("4"));
    assert_eq!(copy.get(&name("b")), Some(&text("two")));
    assert_eq!(context.get(&name("b")), Some(&float("4")));
}

#[test]
fn context_with_pi() {
    let mut context = Context::seeded();
    let report = evaluate("pi; 2 * pi", &mut context);
    assert_eq!(report.error, None);
    assert_eq!(number_in(&report.values[0]), std::f64::consts::PI);
    assert_eq!(number_in(&report.values[1]), 2.0 * std::f64::consts::PI);
}

#[test]
fn rendering_of_values() {
    assert_eq!(
        float("2.5").render(),
        Rendering { text: String::new(), number: Some(literal("2.5")) }
    );
    assert_eq!(text("hi").render(), Rendering { text: name("hi"), number: None });
    assert_eq!(
        Object::Function(name("f"), vec![], vec![]).render(),
        Rendering { text: name("Function f"), number: None }
    );
    assert_eq!(
        Object::Variable(name("s"), Box::new(text("hi"))).render(),
        Rendering { text: name("s = hi"), number: None }
    );
    assert_eq!(
        Object::Variable(name("x"), Box::new(float("1"))).line(12),
        Rendering { text: name("12: x = "), number: Some(literal("1")) }
    );
}

#[test]
fn values_and_errors_can_be_copied() {
    let values = vec![
        float("1"),
        text("s"),
        Object::Variable(name("x"), Box::new(float("1"))),
        Object::Function(name("f"), vec![AST::Variable(name("a"))], vec![AST::Number(name("1"))]),
    ];
    for value in &values {
        assert_eq!(&value.clone(), value);
    }
    let errors = vec![
        EvalError::InvalidAssignmentTarget,
        EvalError::UnboundVariable(name("x")),
        EvalError::CallUnsupported(name("f")),
        EvalError::UnknownUnaryOperator(name("*")),
        EvalError::UnknownBinaryOperator(name("//")),
        EvalError::UnsupportedOperand { operation: Operation::Neg, operand: Shape::String },
        EvalError::TypeMismatch {
            operation: Operation::Add,
            left: Shape::Float,
            right: Shape::String,
        },
    ];
    for error in &errors {
        assert_eq!(&error.clone(), error);
    }
}
