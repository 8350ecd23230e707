//! The evaluator: walks a syntax tree against an environment of variables.
//!
//! What a tree evaluates to, and what it does to the environment, is said by
//! [`eval`]. No step of the evaluation depends on the value of a number, so a
//! number is carried as the arithmetic that defines it ([`Number`]), over the
//! literals as they were written; working it out in floating point is left
//! to the caller.

use crate::parser::{
    all_numbers_written, ast_views, clone_trees, parse, parse_tokens, AstView, ParseError,
    ParseErrorView, AST,
};
use crate::text::{decimal, keyword_matches, to_decimal};
use crate::tokenizer::{
    digits_and_fraction, is_number_text, lex, tokenize, LexError, LexErrorView,
};
use vstd::prelude::*;

verus! {

/// A number: a literal, or the arithmetic on numbers that gives it.
#[derive(Debug, PartialEq, Eq)]
pub enum Number {
    /// A decimal literal, as it was written.
    Literal(String),
    /// The negation of a number.
    Neg(Box<Number>),
    /// The sum of two numbers.
    Add(Box<Number>, Box<Number>),
    /// The product of two numbers.
    Mult(Box<Number>, Box<Number>),
    /// The first number divided by the second.
    Div(Box<Number>, Box<Number>),
    /// The remainder of the first number divided by the second.
    Modu(Box<Number>, Box<Number>),
    /// The first number raised to the power of the second.
    Pow(Box<Number>, Box<Number>),
}

/// A [`Number`] as a mathematical value.
pub enum NumberView {
    Literal(Seq<char>),
    Neg(Box<NumberView>),
    Add(Box<NumberView>, Box<NumberView>),
    Mult(Box<NumberView>, Box<NumberView>),
    Div(Box<NumberView>, Box<NumberView>),
    Modu(Box<NumberView>, Box<NumberView>),
    Pow(Box<NumberView>, Box<NumberView>),
}

impl View for Number {
    type V = NumberView;

    open spec fn view(&self) -> NumberView
        decreases self,
    {
        match self {
            Number::Literal(text) => NumberView::Literal(text@),
            Number::Neg(a) => NumberView::Neg(Box::new((**a).view())),
            Number::Add(a, b) => NumberView::Add(
                Box::new((**a).view()),
                Box::new((**b).view()),
            ),
            Number::Mult(a, b) => NumberView::Mult(
                Box::new((**a).view()),
                Box::new((**b).view()),
            ),
            Number::Div(a, b) => NumberView::Div(
                Box::new((**a).view()),
                Box::new((**b).view()),
            ),
            Number::Modu(a, b) => NumberView::Modu(
                Box::new((**a).view()),
                Box::new((**b).view()),
            ),
            Number::Pow(a, b) => NumberView::Pow(
                Box::new((**a).view()),
                Box::new((**b).view()),
            ),
        }
    }
}

impl Clone for Number {
    fn clone(&self) -> (r: Self)
        ensures
            r@ == self@,
        decreases self,
    {
        match self {
            Number::Literal(text) => Number::Literal(text.clone()),
            Number::Neg(a) => Number::Neg(Box::new((&**a).clone())),
            Number::Add(a, b) => Number::Add(Box::new((&**a).clone()), Box::new((&**b).clone())),
            Number::Mult(a, b) => Number::Mult(
                Box::new((&**a).clone()),
                Box::new((&**b).clone()),
            ),
            Number::Div(a, b) => Number::Div(Box::new((&**a).clone()), Box::new((&**b).clone())),
            Number::Modu(a, b) => Number::Modu(
                Box::new((&**a).clone()),
                Box::new((&**b).clone()),
            ),
            Number::Pow(a, b) => Number::Pow(Box::new((&**a).clone()), Box::new((&**b).clone())),
        }
    }
}

/// The result of evaluating a syntax tree.
#[derive(Debug, PartialEq, Eq)]
pub enum Object {
    /// A number.
    Float(Number),
    /// A string.
    String(String),
    /// A binding, which an assignment gives: the variable's name and the
    /// value that it had in the environment when the assignment was made.
    Variable(String, Box<Object>),
    /// A function: its name, its parameters and its body.
    Function(String, Vec<AST>, Vec<AST>),
}

/// An [`Object`] as a mathematical value.
pub enum ObjectView {
    Float(NumberView),
    String(Seq<char>),
    Variable(Seq<char>, Box<ObjectView>),
    Function(Seq<char>, Seq<AstView>, Seq<AstView>),
}

impl View for Object {
    type V = ObjectView;

    open spec fn view(&self) -> ObjectView
        decreases self,
    {
        match self {
            Object::Float(number) => ObjectView::Float(number@),
            Object::String(text) => ObjectView::String(text@),
            Object::Variable(name, value) => ObjectView::Variable(
                name@,
                Box::new((**value).view()),
            ),
            Object::Function(name, params, body) => ObjectView::Function(
                name@,
                ast_views(params@),
                ast_views(body@),
            ),
        }
    }
}

impl Clone for Object {
    fn clone(&self) -> (r: Self)
        ensures
            r@ == self@,
        decreases self,
    {
        match self {
            Object::Float(number) => Object::Float(number.clone()),
            Object::String(text) => Object::String(text.clone()),
            Object::Variable(name, value) => Object::Variable(
                name.clone(),
                Box::new((&**value).clone()),
            ),
            Object::Function(name, params, body) => Object::Function(
                name.clone(),
                clone_trees(params),
                clone_trees(body),
            ),
        }
    }
}

/// Which kind of value an [`Object`] is.
#[derive(Clone, Copy, Debug, PartialEq, Eq)]
pub enum Shape {
    Float,
    String,
    Variable,
    Function,
}

/// An arithmetic operation of the evaluator.
#[derive(Clone, Copy, Debug, PartialEq, Eq)]
pub enum Operation {
    Add,
    Neg,
    Mult,
    Div,
    Modu,
    Pow,
}

impl ObjectView {
    /// Which kind of value this is.
    pub open spec fn shape(self) -> Shape {
        match self {
            ObjectView::Float(_) => Shape::Float,
            ObjectView::String(_) => Shape::String,
            ObjectView::Variable(_, _) => Shape::Variable,
            ObjectView::Function(_, _, _) => Shape::Function,
        }
    }
}

/// Why a tree has no value.
#[derive(Debug, PartialEq, Eq)]
pub enum EvalError {
    /// A binary operation on two values that are not both numbers.
    TypeMismatch { operation: Operation, left: Shape, right: Shape },
    /// A unary operation on a value that is no number.
    UnsupportedOperand { operation: Operation, operand: Shape },
    /// A binary operator that has no meaning.
    UnknownBinaryOperator(String),
    /// A unary operator that has no meaning.
    UnknownUnaryOperator(String),
    /// An assignment to what is no variable.
    InvalidAssignmentTarget,
    /// A reference to a name that the environment does not bind.
    UnboundVariable(String),
    /// A call of the function of this name. Calls have no meaning yet.
    CallUnsupported(String),
}

/// An [`EvalError`] as a mathematical value.
pub enum EvalErrorView {
    TypeMismatch { operation: Operation, left: Shape, right: Shape },
    UnsupportedOperand { operation: Operation, operand: Shape },
    UnknownBinaryOperator(Seq<char>),
    UnknownUnaryOperator(Seq<char>),
    InvalidAssignmentTarget,
    UnboundVariable(Seq<char>),
    CallUnsupported(Seq<char>),
}

impl View for EvalError {
    type V = EvalErrorView;

    open spec fn view(&self) -> EvalErrorView {
        match self {
            EvalError::TypeMismatch { operation, left, right } => EvalErrorView::TypeMismatch {
                operation: *operation,
                left: *left,
                right: *right,
            },
            EvalError::UnsupportedOperand { operation, operand } => {
                EvalErrorView::UnsupportedOperand { operation: *operation, operand: *operand }
            },
            EvalError::UnknownBinaryOperator(op) => EvalErrorView::UnknownBinaryOperator(op@),
            EvalError::UnknownUnaryOperator(op) => EvalErrorView::UnknownUnaryOperator(op@),
            EvalError::InvalidAssignmentTarget => EvalErrorView::InvalidAssignmentTarget,
            EvalError::UnboundVariable(name) => EvalErrorView::UnboundVariable(name@),
            EvalError::CallUnsupported(name) => EvalErrorView::CallUnsupported(name@),
        }
    }
}

impl Clone for EvalError {
    fn clone(&self) -> (r: Self)
        ensures
            r@ == self@,
    {
        match self {
            EvalError::TypeMismatch { operation, left, right } => EvalError::TypeMismatch {
                operation: *operation,
                left: *left,
                right: *right,
            },
            EvalError::UnsupportedOperand { operation, operand } => EvalError::UnsupportedOperand {
                operation: *operation,
                operand: *operand,
            },
            EvalError::UnknownBinaryOperator(op) => EvalError::UnknownBinaryOperator(op.clone()),
            EvalError::UnknownUnaryOperator(op) => EvalError::UnknownUnaryOperator(op.clone()),
            EvalError::InvalidAssignmentTarget => EvalError::InvalidAssignmentTarget,
            EvalError::UnboundVariable(name) => EvalError::UnboundVariable(name.clone()),
            EvalError::CallUnsupported(name) => EvalError::CallUnsupported(name.clone()),
        }
    }
}

/// A value or an error, as a mathematical value.
pub type Evaluated = Result<ObjectView, EvalErrorView>;

/// What an evaluating function returned, as a mathematical value.
pub open spec fn evaluated_view(r: Result<Object, EvalError>) -> Evaluated {
    match r {
        Ok(value) => Ok(value@),
        Err(e) => Err(e@),
    }
}

/// The number that a binary operation on two numbers gives. Negation, which
/// is no binary operation, has no use for `b`.
pub open spec fn combine(operation: Operation, a: NumberView, b: NumberView) -> NumberView {
    match operation {
        Operation::Add => NumberView::Add(Box::new(a), Box::new(b)),
        Operation::Mult => NumberView::Mult(Box::new(a), Box::new(b)),
        Operation::Div => NumberView::Div(Box::new(a), Box::new(b)),
        Operation::Modu => NumberView::Modu(Box::new(a), Box::new(b)),
        Operation::Pow => NumberView::Pow(Box::new(a), Box::new(b)),
        Operation::Neg => NumberView::Neg(Box::new(a)),
    }
}

/// A binary operation on two values: on two numbers it gives a number, and on
/// anything else the error that names the operation and both shapes.
pub open spec fn arithmetic(
    operation: Operation,
    left: ObjectView,
    right: ObjectView,
) -> Evaluated {
    match (left, right) {
        (ObjectView::Float(a), ObjectView::Float(b)) => Ok(
            ObjectView::Float(combine(operation, a, b)),
        ),
        _ => Err(
            EvalErrorView::TypeMismatch { operation, left: left.shape(), right: right.shape() },
        ),
    }
}

/// The negation of a value: of a number it is a number, and of anything else
/// an error.
pub open spec fn negation(operand: ObjectView) -> Evaluated {
    match operand {
        ObjectView::Float(a) => Ok(ObjectView::Float(NumberView::Neg(Box::new(a)))),
        _ => Err(
            EvalErrorView::UnsupportedOperand {
                operation: Operation::Neg,
                operand: operand.shape(),
            },
        ),
    }
}

/// The difference of two values: the sum of the first and the negation of
/// the second.
pub open spec fn subtraction(left: ObjectView, right: ObjectView) -> Evaluated {
    match negation(right) {
        Ok(negated) => arithmetic(Operation::Add, left, negated),
        Err(e) => Err(e),
    }
}

/// A binary operator that works on values.
#[derive(Clone, Copy, Debug, PartialEq, Eq)]
pub enum Binary {
    Plus,
    Minus,
    Times,
    Over,
    Remainder,
    Power,
}

/// The binary operator that a symbol stands for, `=` apart.
pub open spec fn binary_of(op: Seq<char>) -> Option<Binary> {
    if op == seq!['+'] {
        Some(Binary::Plus)
    } else if op == seq!['-'] {
        Some(Binary::Minus)
    } else if op == seq!['*'] {
        Some(Binary::Times)
    } else if op == seq!['/'] {
        Some(Binary::Over)
    } else if op == seq!['%'] {
        Some(Binary::Remainder)
    } else if op == seq!['*', '*'] {
        Some(Binary::Power)
    } else {
        None
    }
}

/// What a binary operator makes of two values.
pub open spec fn apply(operator: Binary, left: ObjectView, right: ObjectView) -> Evaluated {
    match operator {
        Binary::Plus => arithmetic(Operation::Add, left, right),
        Binary::Minus => subtraction(left, right),
        Binary::Times => arithmetic(Operation::Mult, left, right),
        Binary::Over => arithmetic(Operation::Div, left, right),
        Binary::Remainder => arithmetic(Operation::Modu, left, right),
        Binary::Power => arithmetic(Operation::Pow, left, right),
    }
}

/// An environment as a mathematical value: the variables' names and what
/// they are bound to.
pub type Bindings = Map<Seq<char>, ObjectView>;

/// The environment after `tree` has been evaluated in `env`, and the value or
/// the error that came of it.
///
/// Operands are evaluated from left to right, each in the environment that
/// the one before it left, and the first error ends the evaluation. An
/// assignment evaluates its right side apart: what that side binds is
/// dropped, and only the assigned name is bound in the environment.
pub open spec fn eval(tree: AstView, env: Bindings) -> (Bindings, Evaluated)
    decreases tree,
{
    match tree {
        AstView::Number(text) => (env, Ok(ObjectView::Float(NumberView::Literal(text)))),
        AstView::String(text) => (env, Ok(ObjectView::String(text))),
        AstView::Variable(name) => if env.contains_key(name) {
            (env, Ok(env[name]))
        } else {
            (env, Err(EvalErrorView::UnboundVariable(name)))
        },
        AstView::Function(name, params, body) => (
            env,
            Ok(ObjectView::Function(name, params, body)),
        ),
        AstView::Call(name, _) => (env, Err(EvalErrorView::CallUnsupported(name))),
        AstView::UnaryOp(op, operand) => if op == seq!['+'] {
            eval(*operand, env)
        } else if op == seq!['-'] {
            let (next, value) = eval(*operand, env);
            match value {
                Ok(v) => (next, negation(v)),
                Err(e) => (next, Err(e)),
            }
        } else {
            (env, Err(EvalErrorView::UnknownUnaryOperator(op)))
        },
        AstView::BinaryOp(op, left, right) => if op == seq!['='] {
            match *left {
                AstView::Variable(name) => match eval(*right, env).1 {
                    Ok(value) => (
                        env.insert(name, value),
                        Ok(ObjectView::Variable(name, Box::new(value))),
                    ),
                    Err(e) => (env, Err(e)),
                },
                _ => (env, Err(EvalErrorView::InvalidAssignmentTarget)),
            }
        } else {
            match binary_of(op) {
                None => (env, Err(EvalErrorView::UnknownBinaryOperator(op))),
                Some(operator) => {
                    let (middle, first) = eval(*left, env);
                    match first {
                        Err(e) => (middle, Err(e)),
                        Ok(a) => {
                            let (last, second) = eval(*right, middle);
                            match second {
                                Err(e) => (last, Err(e)),
                                Ok(b) => (last, apply(operator, a, b)),
                            }
                        },
                    }
                },
            }
        },
    }
}

impl NumberView {
    /// Every literal of the number is written as numbers are: digits, then
    /// optionally a `.` and digits. Such a number can be worked out in
    /// floating point without fail.
    pub open spec fn written(self) -> bool
        decreases self,
    {
        match self {
            NumberView::Literal(text) => is_number_text(text),
            NumberView::Neg(a) => a.written(),
            NumberView::Add(a, b) => a.written() && b.written(),
            NumberView::Mult(a, b) => a.written() && b.written(),
            NumberView::Div(a, b) => a.written() && b.written(),
            NumberView::Modu(a, b) => a.written() && b.written(),
            NumberView::Pow(a, b) => a.written() && b.written(),
        }
    }
}

impl ObjectView {
    /// Every number in the value is written as numbers are.
    pub open spec fn written(self) -> bool
        decreases self,
    {
        match self {
            ObjectView::Float(n) => n.written(),
            ObjectView::String(_) => true,
            ObjectView::Variable(_, bound) => bound.written(),
            ObjectView::Function(_, params, body) => all_numbers_written(params)
                && all_numbers_written(body),
        }
    }
}

/// Every number in every value of the sequence is written as numbers are.
pub open spec fn all_written(values: Seq<ObjectView>) -> bool {
    forall|i: int| 0 <= i < values.len() ==> (#[trigger] values[i]).written()
}

/// Every number that the environment binds a name to, or holds inside such
/// a value, is written as numbers are.
pub open spec fn bindings_written(env: Bindings) -> bool {
    forall|name: Seq<char>| env.contains_key(name) ==> (#[trigger] env[name]).written()
}

/// Evaluation makes no number that is not written as numbers are: where
/// those of the tree and of the environment are, so are those of the value
/// and of the environment afterwards.
pub proof fn lemma_eval_written(tree: AstView, env: Bindings)
    requires
        tree.numbers_written(),
        bindings_written(env),
    ensures
        bindings_written(eval(tree, env).0),
        eval(tree, env).1 matches Ok(value) ==> value.written(),
    decreases tree,
{
    match tree {
        AstView::UnaryOp(op, operand) => {
            lemma_eval_written(*operand, env);
        },
        AstView::BinaryOp(op, left, right) => {
            if op == seq!['='] {
                lemma_eval_written(*right, env);
            } else {
                lemma_eval_written(*left, env);
                lemma_eval_written(*right, eval(*left, env).0);
                if eval(tree, env).1 is Ok {
                    let b = eval(*right, eval(*left, env).0).1->Ok_0->Float_0;
                    assert(NumberView::Neg(Box::new(b)).written());
                }
            }
        },
        AstView::Function(name, params, body) => {
            assert(all_numbers_written(params));
            assert(all_numbers_written(body));
        },
        _ => {},
    }
}

/// What [`lemma_eval_written`] says of one statement holds of a sequence of
/// them.
pub proof fn lemma_run_written(trees: Seq<AstView>, env: Bindings)
    requires
        all_numbers_written(trees),
        bindings_written(env),
    ensures
        bindings_written(run_all(trees, env).0),
        all_written(run_all(trees, env).1.values),
    decreases trees.len(),
{
    if trees.len() > 0 {
        lemma_eval_written(trees[0], env);
        let (next, first) = eval(trees[0], env);
        if first is Ok {
            let rest = trees.drop_first();
            assert forall|i: int| 0 <= i < rest.len() implies (
            #[trigger] rest[i]).numbers_written() by {
                assert(rest[i] == trees[i + 1]);
            }
            lemma_run_written(rest, next);
            let values = run_all(trees, env).1.values;
            let tail = run_all(rest, next).1.values;
            assert forall|i: int| 0 <= i < values.len() implies (
            #[trigger] values[i]).written() by {
                if i > 0 {
                    assert(values[i] == tail[i - 1]);
                }
            }
        }
    }
}

/// The number that a value is written out with is written as numbers are,
/// where those of the value are.
pub proof fn lemma_rendering_written(value: ObjectView)
    requires
        value.written(),
    ensures
        rendering_of(value).number matches Some(n) ==> n.written(),
    decreases value,
{
    match value {
        ObjectView::Variable(_, bound) => lemma_rendering_written(*bound),
        _ => {},
    }
}

/// A reference to a name that the environment does not bind fails with the
/// error that names it, and leaves the environment as it was.
pub proof fn lemma_unbound_reference(name: Seq<char>, env: Bindings)
    requires
        !env.contains_key(name),
    ensures
        eval(AstView::Variable(name), env) == (
            env,
            Err::<ObjectView, EvalErrorView>(EvalErrorView::UnboundVariable(name)),
        ),
{
}

/// The tree of the assignment `name = right`.
pub open spec fn assignment_of(name: Seq<char>, right: AstView) -> AstView {
    AstView::BinaryOp(seq!['='], Box::new(AstView::Variable(name)), Box::new(right))
}

/// After an assignment has succeeded, a reference to the assigned name gives
/// the value that was assigned. The assignment's own value is the binding of
/// the name to that value, and no other name is bound anew or differently.
pub proof fn lemma_assignment_then_reference(name: Seq<char>, right: AstView, env: Bindings)
    requires
        eval(assignment_of(name, right), env).1 is Ok,
    ensures
        ({
            let (after, result) = eval(assignment_of(name, right), env);
            let value = eval(right, env).1->Ok_0;
            &&& eval(right, env).1 is Ok
            &&& result == Ok::<ObjectView, EvalErrorView>(
                ObjectView::Variable(name, Box::new(value)),
            )
            &&& after == env.insert(name, value)
            &&& eval(AstView::Variable(name), after) == (
                after,
                Ok::<ObjectView, EvalErrorView>(value),
            )
        }),
{
}

/// Arithmetic on two numbers never fails, whatever the numbers are: division
/// and remainder by zero are numbers too.
pub proof fn lemma_arithmetic_on_numbers(operation: Operation, a: NumberView, b: NumberView)
    ensures
        arithmetic(operation, ObjectView::Float(a), ObjectView::Float(b)) is Ok,
        subtraction(ObjectView::Float(a), ObjectView::Float(b)) is Ok,
        negation(ObjectView::Float(a)) is Ok,
{
}

/// An operation on a value that is no number fails, whatever the other
/// value is: nothing is converted to a number.
pub proof fn lemma_arithmetic_needs_numbers(
    operation: Operation,
    left: ObjectView,
    right: ObjectView,
)
    requires
        !(left is Float) || !(right is Float),
    ensures
        arithmetic(operation, left, right) == Err::<ObjectView, EvalErrorView>(
            EvalErrorView::TypeMismatch { operation, left: left.shape(), right: right.shape() },
        ),
{
}

impl Object {
    /// Which kind of value this is.
    pub fn shape(&self) -> (s: Shape)
        ensures
            s == self@.shape(),
    {
        match self {
            Object::Float(_) => Shape::Float,
            Object::String(_) => Shape::String,
            Object::Variable(_, _) => Shape::Variable,
            Object::Function(_, _, _) => Shape::Function,
        }
    }

    /// The sum of two numbers.
    pub fn add(&self, other: &Self) -> (r: Result<Object, EvalError>)
        ensures
            evaluated_view(r) == arithmetic(Operation::Add, self@, other@),
    {
        match (self, other) {
            (Object::Float(a), Object::Float(b)) => Ok(
                Object::Float(Number::Add(Box::new(a.clone()), Box::new(b.clone()))),
            ),
            _ => Err(
                EvalError::TypeMismatch {
                    operation: Operation::Add,
                    left: self.shape(),
                    right: other.shape(),
                },
            ),
        }
    }

    /// The negation of a number.
    pub fn neg(&self) -> (r: Result<Object, EvalError>)
        ensures
            evaluated_view(r) == negation(self@),
    {
        match self {
            Object::Float(a) => Ok(Object::Float(Number::Neg(Box::new(a.clone())))),
            _ => Err(
                EvalError::UnsupportedOperand { operation: Operation::Neg, operand: self.shape() },
            ),
        }
    }

    /// The product of two numbers.
    pub fn mult(&self, other: &Self) -> (r: Result<Object, EvalError>)
        ensures
            evaluated_view(r) == arithmetic(Operation::Mult, self@, other@),
    {
        match (self, other) {
            (Object::Float(a), Object::Float(b)) => Ok(
                Object::Float(Number::Mult(Box::new(a.clone()), Box::new(b.clone()))),
            ),
            _ => Err(
                EvalError::TypeMismatch {
                    operation: Operation::Mult,
                    left: self.shape(),
                    right: other.shape(),
                },
            ),
        }
    }

    /// The quotient of two numbers.
    pub fn div(&self, other: &Self) -> (r: Result<Object, EvalError>)
        ensures
            evaluated_view(r) == arithmetic(Operation::Div, self@, other@),
    {
        match (self, other) {
            (Object::Float(a), Object::Float(b)) => Ok(
                Object::Float(Number::Div(Box::new(a.clone()), Box::new(b.clone()))),
            ),
            _ => Err(
                EvalError::TypeMismatch {
                    operation: Operation::Div,
                    left: self.shape(),
                    right: other.shape(),
                },
            ),
        }
    }

    /// The remainder of one number divided by another.
    pub fn modu(&self, other: &Self) -> (r: Result<Object, EvalError>)
        ensures
            evaluated_view(r) == arithmetic(Operation::Modu, self@, other@),
    {
        match (self, other) {
            (Object::Float(a), Object::Float(b)) => Ok(
                Object::Float(Number::Modu(Box::new(a.clone()), Box::new(b.clone()))),
            ),
            _ => Err(
                EvalError::TypeMismatch {
                    operation: Operation::Modu,
                    left: self.shape(),
                    right: other.shape(),
                },
            ),
        }
    }

    /// One number raised to the power of another.
    pub fn pow(&self, other: &Self) -> (r: Result<Object, EvalError>)
        ensures
            evaluated_view(r) == arithmetic(Operation::Pow, self@, other@),
    {
        match (self, other) {
            (Object::Float(a), Object::Float(b)) => Ok(
                Object::Float(Number::Pow(Box::new(a.clone()), Box::new(b.clone()))),
            ),
            _ => Err(
                EvalError::TypeMismatch {
                    operation: Operation::Pow,
                    left: self.shape(),
                    right: other.shape(),
                },
            ),
        }
    }
}

/// A value as it is written out: the text up to the place where a number has
/// to be written, and that number, if the value ends in one. The number's
/// digits are for the caller to work out.
#[derive(Debug, PartialEq, Eq)]
pub struct Rendering {
    pub text: String,
    pub number: Option<Number>,
}

/// A [`Rendering`] as a mathematical value.
pub struct RenderingView {
    pub text: Seq<char>,
    pub number: Option<NumberView>,
}

impl View for Rendering {
    type V = RenderingView;

    open spec fn view(&self) -> RenderingView {
        RenderingView {
            text: self.text@,
            number: match self.number {
                Some(n) => Some(n@),
                None => None,
            },
        }
    }
}

/// How a value is written out: a number as itself, a string as its
/// characters, a binding as the name, ` = ` and the value that was bound,
/// and a function as `Function ` and its name.
pub open spec fn rendering_of(value: ObjectView) -> RenderingView
    decreases value,
{
    match value {
        ObjectView::Float(n) => RenderingView { text: Seq::empty(), number: Some(n) },
        ObjectView::String(text) => RenderingView { text, number: None },
        ObjectView::Variable(name, bound) => {
            let tail = rendering_of(*bound);
            RenderingView { text: name + " = "@ + tail.text, number: tail.number }
        },
        ObjectView::Function(name, _, _) => RenderingView {
            text: "Function "@ + name,
            number: None,
        },
    }
}

/// The line that reports the value of the statement with the given index:
/// the index, `: `, and the value.
pub open spec fn line_of(index: nat, value: ObjectView) -> RenderingView {
    let tail = rendering_of(value);
    RenderingView { text: decimal(index) + ": "@ + tail.text, number: tail.number }
}

impl Object {
    /// Writes the value out.
    pub fn render(&self) -> (r: Rendering)
        ensures
            r@ == rendering_of(self@),
            self@.written() ==> (r@.number matches Some(n) ==> n.written()),
        decreases self,
    {
        proof {
            if self@.written() {
                lemma_rendering_written(self@);
            }
        }
        match self {
            Object::Float(n) => Rendering { text: String::new(), number: Some(n.clone()) },
            Object::String(text) => Rendering { text: text.clone(), number: None },
            Object::Variable(name, bound) => {
                let tail = (&**bound).render();
                let mut text = name.clone();
                text.append(" = ");
                text.append(tail.text.as_str());
                Rendering { text, number: tail.number }
            },
            Object::Function(name, _, _) => {
                let mut text = String::from_str("Function ");
                text.append(name.as_str());
                Rendering { text, number: None }
            },
        }
    }

    /// Writes out the line that reports this value as the value of the
    /// statement with the given index.
    pub fn line(&self, index: usize) -> (r: Rendering)
        ensures
            r@ == line_of(index as nat, self@),
            self@.written() ==> (r@.number matches Some(n) ==> n.written()),
    {
        let tail = self.render();
        let mut text = to_decimal(index);
        text.append(": ");
        text.append(tail.text.as_str());
        Rendering { text, number: tail.number }
    }
}

/// The bindings that a list of entries holds. Where a name stands twice, the
/// entry nearer the front counts.
pub open spec fn bindings_of(entries: Seq<(String, Object)>) -> Bindings
    decreases entries.len(),
{
    if entries.len() == 0 {
        Map::empty()
    } else {
        bindings_of(entries.drop_first()).insert(entries[0].0@, entries[0].1@)
    }
}

/// The first entry with a name decides what the name is bound to.
pub proof fn lemma_bindings_first(entries: Seq<(String, Object)>, name: Seq<char>, at: int)
    requires
        0 <= at < entries.len(),
        entries[at].0@ == name,
        forall|j: int| 0 <= j < at ==> (#[trigger] entries[j]).0@ != name,
    ensures
        bindings_of(entries).contains_key(name),
        bindings_of(entries)[name] == entries[at].1@,
    decreases entries.len(),
{
    if at > 0 {
        let rest = entries.drop_first();
        assert(rest[at - 1] == entries[at]);
        assert forall|j: int| 0 <= j < at - 1 implies (#[trigger] rest[j]).0@ != name by {
            assert(rest[j] == entries[j + 1]);
        }
        lemma_bindings_first(rest, name, at - 1);
        assert(entries[0].0@ != name);
    }
}

/// A name that no entry has is not bound.
pub proof fn lemma_bindings_absent(entries: Seq<(String, Object)>, name: Seq<char>)
    requires
        forall|j: int| 0 <= j < entries.len() ==> (#[trigger] entries[j]).0@ != name,
    ensures
        !bindings_of(entries).contains_key(name),
    decreases entries.len(),
{
    if entries.len() > 0 {
        let rest = entries.drop_first();
        assert forall|j: int| 0 <= j < rest.len() implies (#[trigger] rest[j]).0@ != name by {
            assert(rest[j] == entries[j + 1]);
        }
        lemma_bindings_absent(rest, name);
        assert(entries[0].0@ != name);
    }
}

/// Replacing the first entry of a name binds the name anew and nothing else.
pub proof fn lemma_bindings_replace(
    entries: Seq<(String, Object)>,
    at: int,
    entry: (String, Object),
)
    requires
        0 <= at < entries.len(),
        entries[at].0@ == entry.0@,
        forall|j: int| 0 <= j < at ==> (#[trigger] entries[j]).0@ != entry.0@,
    ensures
        bindings_of(entries.update(at, entry)) == bindings_of(entries).insert(entry.0@, entry.1@),
    decreases entries.len(),
{
    let rest = entries.drop_first();
    if at == 0 {
        assert(entries.update(at, entry).drop_first() =~= rest);
        assert(bindings_of(entries.update(at, entry)) =~= bindings_of(entries).insert(
            entry.0@,
            entry.1@,
        ));
    } else {
        assert(rest[at - 1] == entries[at]);
        assert forall|j: int| 0 <= j < at - 1 implies (#[trigger] rest[j]).0@ != entry.0@ by {
            assert(rest[j] == entries[j + 1]);
        }
        lemma_bindings_replace(rest, at - 1, entry);
        assert(entries.update(at, entry).drop_first() =~= rest.update(at - 1, entry));
        assert(entries[0].0@ != entry.0@);
        assert(bindings_of(entries.update(at, entry)) =~= bindings_of(entries).insert(
            entry.0@,
            entry.1@,
        ));
    }
}

/// Adding an entry for a name that no entry has binds the name and nothing
/// else.
pub proof fn lemma_bindings_push(entries: Seq<(String, Object)>, entry: (String, Object))
    requires
        forall|j: int| 0 <= j < entries.len() ==> (#[trigger] entries[j]).0@ != entry.0@,
    ensures
        bindings_of(entries.push(entry)) == bindings_of(entries).insert(entry.0@, entry.1@),
    decreases entries.len(),
{
    if entries.len() == 0 {
        assert(entries.push(entry).drop_first() =~= entries);
        assert(bindings_of(entries.push(entry)) =~= bindings_of(entries).insert(
            entry.0@,
            entry.1@,
        ));
    } else {
        let rest = entries.drop_first();
        assert forall|j: int| 0 <= j < rest.len() implies (#[trigger] rest[j]).0@ != entry.0@ by {
            assert(rest[j] == entries[j + 1]);
        }
        lemma_bindings_push(rest, entry);
        assert(entries.push(entry).drop_first() =~= rest.push(entry));
        assert(entries[0].0@ != entry.0@);
        assert(bindings_of(entries.push(entry)) =~= bindings_of(entries).insert(
            entry.0@,
            entry.1@,
        ));
    }
}

/// Entries with the same names and values hold the same bindings.
pub proof fn lemma_bindings_same(a: Seq<(String, Object)>, b: Seq<(String, Object)>)
    requires
        a.len() == b.len(),
        forall|j: int|
            0 <= j < a.len() ==> (#[trigger] a[j]).0@ == b[j].0@ && a[j].1@ == (#[trigger] b[j]).1@,
    ensures
        bindings_of(a) == bindings_of(b),
    decreases a.len(),
{
    if a.len() > 0 {
        let x = a.drop_first();
        let y = b.drop_first();
        assert forall|j: int| 0 <= j < x.len() implies (#[trigger] x[j]).0@ == y[j].0@ && x[j].1@
            == (#[trigger] y[j]).1@ by {
            assert(x[j] == a[j + 1]);
            assert(y[j] == b[j + 1]);
        }
        lemma_bindings_same(x, y);
        assert(a[0].0@ == b[0].0@ && a[0].1@ == b[0].1@);
    }
}

/// The environment: the variables and what they are bound to.
#[derive(Debug)]
pub struct Context {
    variables: Vec<(String, Object)>,
}

impl View for Context {
    type V = Bindings;

    closed spec fn view(&self) -> Bindings {
        bindings_of(self.variables@)
    }
}

impl Clone for Context {
    fn clone(&self) -> (r: Self)
        ensures
            r@ == self@,
    {
        let mut copies: Vec<(String, Object)> = Vec::new();
        let mut i: usize = 0;
        while i < self.variables.len()
            invariant
                i <= self.variables.len(),
                copies.len() == i,
                forall|j: int|
                    0 <= j < i ==> (#[trigger] copies[j]).0@ == self.variables[j].0@ && copies[j].1@
                        == self.variables[j].1@,
            decreases self.variables.len() - i,
        {
            let entry = &self.variables[i];
            copies.push((entry.0.clone(), entry.1.clone()));
            i += 1;
        }
        proof {
            lemma_bindings_same(copies@, self.variables@);
        }
        Context { variables: copies }
    }
}

impl Context {
    /// An environment that binds nothing.
    pub fn new() -> (context: Context)
        ensures
            context@ == Map::<Seq<char>, ObjectView>::empty(),
    {
        Context { variables: Vec::new() }
    }

    /// An environment that binds the constant `pi` and nothing else. The
    /// constant is a literal of 36 digits, more than double precision tells
    /// apart.
    pub fn seeded() -> (context: Context)
        ensures
            context@ == Map::<Seq<char>, ObjectView>::empty().insert(
                "pi"@,
                ObjectView::Float(NumberView::Literal("3.14159265358979323846264338327950288"@)),
            ),
            bindings_written(context@),
    {
        proof {
            reveal_strlit("3.14159265358979323846264338327950288");
            assert(digits_and_fraction("3.14159265358979323846264338327950288"@, 1));
        }
        let mut context = Context::new();
        let digits = String::from_str("3.14159265358979323846264338327950288");
        context.insert(String::from_str("pi"), Object::Float(Number::Literal(digits)));
        context
    }

    /// The index of the first entry for `name`, or the number of entries
    /// where there is none.
    fn find(&self, name: &String) -> (at: usize)
        ensures
            at <= self.variables.len(),
            at < self.variables.len() ==> self.variables[at as int].0@ == name@,
            forall|j: int| 0 <= j < at ==> (#[trigger] self.variables[j]).0@ != name@,
    {
        let mut i: usize = 0;
        while i < self.variables.len()
            invariant
                i <= self.variables.len(),
                forall|j: int| 0 <= j < i ==> (#[trigger] self.variables[j]).0@ != name@,
            decreases self.variables.len() - i,
        {
            if self.variables[i].0 == *name {
                return i;
            }
            i += 1;
        }
        i
    }

    /// What `name` is bound to, if it is bound.
    pub fn get(&self, name: &String) -> (value: Option<&Object>)
        ensures
            match value {
                Some(found) => self@.contains_key(name@) && found@ == self@[name@],
                None => !self@.contains_key(name@),
            },
    {
        let at = self.find(name);
        if at < self.variables.len() {
            proof {
                lemma_bindings_first(self.variables@, name@, at as int);
            }
            Some(&self.variables[at].1)
        } else {
            proof {
                lemma_bindings_absent(self.variables@, name@);
            }
            None
        }
    }

    /// Whether `name` is bound.
    pub fn contains(&self, name: &String) -> (bound: bool)
        ensures
            bound == self@.contains_key(name@),
    {
        self.get(name).is_some()
    }

    /// Binds `name` to `value`, in place of what it was bound to, if it was
    /// bound.
    pub fn insert(&mut self, name: String, value: Object)
        ensures
            final(self)@ == old(self)@.insert(name@, value@),
    {
        let at = self.find(&name);
        let ghost entry = (name, value);
        if at < self.variables.len() {
            proof {
                lemma_bindings_replace(self.variables@, at as int, entry);
            }
            self.variables.set(at, (name, value));
        } else {
            proof {
                lemma_bindings_push(self.variables@, entry);
            }
            self.variables.push((name, value));
        }
    }
}

impl AST {
    /// Evaluates the tree in `context`.
    pub fn execute(&self, context: &mut Context) -> (r: Result<Object, EvalError>)
        ensures
            (final(context)@, evaluated_view(r)) == eval(self@, old(context)@),
            self@.numbers_written() && bindings_written(old(context)@) ==> bindings_written(
                final(context)@,
            ) && (r matches Ok(value) ==> value@.written()),
        decreases self,
    {
        proof {
            if self@.numbers_written() && bindings_written(context@) {
                lemma_eval_written(self@, context@);
            }
        }
        match self {
            AST::Number(text) => Ok(Object::Float(Number::Literal(text.clone()))),
            AST::String(text) => Ok(Object::String(text.clone())),
            AST::Variable(name) => match context.get(name) {
                Some(value) => Ok(value.clone()),
                None => Err(EvalError::UnboundVariable(name.clone())),
            },
            AST::Function(name, params, body) => {
                proof {
                    assert(self@->Function_1 =~= ast_views(params@));
                    assert(self@->Function_2 =~= ast_views(body@));
                }
                Ok(Object::Function(name.clone(), clone_trees(params), clone_trees(body)))
            },
            AST::Call(name, _) => Err(EvalError::CallUnsupported(name.clone())),
            AST::UnaryOp(op, operand) => {
                proof {
                    reveal_strlit("+");
                    reveal_strlit("-");
                    assert("+"@ =~= seq!['+']);
                    assert("-"@ =~= seq!['-']);
                }
                if keyword_matches(op, "+") {
                    (&**operand).execute(context)
                } else if keyword_matches(op, "-") {
                    match (&**operand).execute(context) {
                        Ok(value) => value.neg(),
                        Err(e) => Err(e),
                    }
                } else {
                    Err(EvalError::UnknownUnaryOperator(op.clone()))
                }
            },
            AST::BinaryOp(op, left, right) => {
                proof {
                    reveal_strlit("=");
                    assert("="@ =~= seq!['=']);
                }
                if keyword_matches(op, "=") {
                    match &**left {
                        AST::Variable(name) => {
                            let mut scratch = context.clone();
                            match (&**right).execute(&mut scratch) {
                                Ok(value) => {
                                    let bound = value.clone();
                                    context.insert(name.clone(), value);
                                    Ok(Object::Variable(name.clone(), Box::new(bound)))
                                },
                                Err(e) => Err(e),
                            }
                        },
                        _ => Err(EvalError::InvalidAssignmentTarget),
                    }
                } else {
                    match binary_operator(op) {
                        None => Err(EvalError::UnknownBinaryOperator(op.clone())),
                        Some(operator) => {
                            let a = match (&**left).execute(context) {
                                Ok(value) => value,
                                Err(e) => {
                                    return Err(e);
                                },
                            };
                            let b = match (&**right).execute(context) {
                                Ok(value) => value,
                                Err(e) => {
                                    return Err(e);
                                },
                            };
                            match operator {
                                Binary::Plus => a.add(&b),
                                Binary::Minus => match b.neg() {
                                    Ok(negated) => a.add(&negated),
                                    Err(e) => Err(e),
                                },
                                Binary::Times => a.mult(&b),
                                Binary::Over => a.div(&b),
                                Binary::Remainder => a.modu(&b),
                                Binary::Power => a.pow(&b),
                            }
                        },
                    }
                }
            },
        }
    }
}

/// Why a text could not be evaluated to its end: the stage that failed, and
/// its error.
#[derive(Debug, PartialEq, Eq)]
pub enum Error {
    /// The text has a lexical error.
    Lex(LexError),
    /// The tokens do not fit the grammar.
    Parse(ParseError),
    /// A statement could not be evaluated.
    Eval(EvalError),
}

/// An [`Error`] as a mathematical value.
pub enum ErrorView {
    Lex(LexErrorView),
    Parse(ParseErrorView),
    Eval(EvalErrorView),
}

impl View for Error {
    type V = ErrorView;

    open spec fn view(&self) -> ErrorView {
        match self {
            Error::Lex(e) => ErrorView::Lex(e@),
            Error::Parse(e) => ErrorView::Parse(e@),
            Error::Eval(e) => ErrorView::Eval(e@),
        }
    }
}

/// What evaluating a sequence of statements came to: the values of the
/// statements that were evaluated, in their order, and the error that ended
/// the evaluation, if one did.
#[derive(Debug, PartialEq, Eq)]
pub struct Report {
    pub values: Vec<Object>,
    pub error: Option<Error>,
}

/// A [`Report`] as a mathematical value.
pub struct ReportView {
    pub values: Seq<ObjectView>,
    pub error: Option<ErrorView>,
}

/// The views of a sequence of values, one for one.
pub open spec fn object_views(values: Seq<Object>) -> Seq<ObjectView> {
    Seq::new(values.len(), |i: int| values[i].view())
}

impl View for Report {
    type V = ReportView;

    open spec fn view(&self) -> ReportView {
        ReportView {
            values: object_views(self.values@),
            error: match self.error {
                Some(e) => Some(e@),
                None => None,
            },
        }
    }
}

impl Report {
    /// The lines that report the values: one for each statement that was
    /// evaluated, in their order, each with the statement's index.
    pub fn lines(&self) -> (lines: Vec<Rendering>)
        ensures
            lines.len() == self.values.len(),
            forall|i: int|
                0 <= i < lines.len() ==> (#[trigger] lines[i])@ == line_of(
                    i as nat,
                    self.values[i]@,
                ),
    {
        let mut lines: Vec<Rendering> = Vec::new();
        let mut i: usize = 0;
        while i < self.values.len()
            invariant
                i <= self.values.len(),
                lines.len() == i,
                forall|j: int|
                    0 <= j < i ==> (#[trigger] lines[j])@ == line_of(j as nat, self.values[j]@),
            decreases self.values.len() - i,
        {
            lines.push(self.values[i].line(i));
            i += 1;
        }
        lines
    }
}

/// The environment after the statements `trees` have been evaluated in
/// `env`, one after the other and each in the environment that the one
/// before it left, with the values that they gave. The first statement that
/// fails ends the evaluation: the values of those before it stay, and so
/// does what they and the failing one did to the environment.
pub open spec fn run_all(trees: Seq<AstView>, env: Bindings) -> (Bindings, ReportView)
    decreases trees.len(),
{
    if trees.len() == 0 {
        (env, ReportView { values: Seq::empty(), error: None })
    } else {
        let (next, first) = eval(trees[0], env);
        match first {
            Err(e) => (next, ReportView { values: Seq::empty(), error: Some(ErrorView::Eval(e)) }),
            Ok(value) => {
                let (last, rest) = run_all(trees.drop_first(), next);
                (last, ReportView { values: seq![value] + rest.values, error: rest.error })
            },
        }
    }
}

/// Evaluates the statements `ast` in `context`, in their order.
pub fn run(ast: Vec<AST>, context: &mut Context) -> (report: Report)
    ensures
        (final(context)@, report@) == run_all(ast_views(ast@), old(context)@),
        all_numbers_written(ast_views(ast@)) && bindings_written(old(context)@)
            ==> bindings_written(final(context)@) && all_written(report@.values),
{
    let ghost trees = ast_views(ast@);
    proof {
        if all_numbers_written(trees) && bindings_written(context@) {
            lemma_run_written(trees, context@);
        }
    }
    let ghost goal = run_all(trees, context@);
    let mut values: Vec<Object> = Vec::new();
    let mut i: usize = 0;
    proof {
        assert(trees.skip(0) =~= trees);
        assert(object_views(values@) + run_all(trees, context@).1.values =~= run_all(
            trees,
            context@,
        ).1.values);
    }
    while i < ast.len()
        invariant
            i <= ast.len(),
            trees == ast_views(ast@),
            goal == run_all(trees, old(context)@),
            all_numbers_written(trees) && bindings_written(old(context)@) ==> bindings_written(
                goal.0,
            ) && all_written(goal.1.values),
            goal.0 == run_all(trees.skip(i as int), context@).0,
            goal.1.values == object_views(values@) + run_all(
                trees.skip(i as int),
                context@,
            ).1.values,
            goal.1.error == run_all(trees.skip(i as int), context@).1.error,
        decreases ast.len() - i,
    {
        let ghost rest = trees.skip(i as int);
        let ghost seen = object_views(values@);
        proof {
            assert(rest[0] == ast[i as int]@);
            assert(rest.drop_first() =~= trees.skip(i + 1));
        }
        match ast[i].execute(context) {
            Err(e) => {
                let report = Report { values, error: Some(Error::Eval(e)) };
                proof {
                    assert(seen + Seq::<ObjectView>::empty() =~= seen);
                    assert(report@.values =~= goal.1.values);
                }
                return report;
            },
            Ok(value) => {
                let ghost first = value@;
                values.push(value);
                proof {
                    let tail = run_all(trees.skip(i + 1), context@).1.values;
                    assert(object_views(values@) =~= seen.push(first));
                    assert(seen + (seq![first] + tail) =~= seen.push(first) + tail);
                }
                i += 1;
            },
        }
    }
    let report = Report { values, error: None };
    proof {
        assert(trees.skip(i as int).len() == 0);
        assert(object_views(report.values@) + Seq::<ObjectView>::empty() =~= object_views(
            report.values@,
        ));
    }
    report
}

/// What evaluating the text `source` in `env` comes to: its tokens are
/// parsed, and the statements that they hold are evaluated in their order.
/// A text that has no tokens or no trees leaves the environment as it was.
pub open spec fn evaluation(source: Seq<char>, env: Bindings) -> (Bindings, ReportView) {
    match lex(source) {
        Err(e) => (env, ReportView { values: Seq::empty(), error: Some(ErrorView::Lex(e)) }),
        Ok(tokens) => match parse_tokens(tokens) {
            Err(ParseErrorView::Lexical(e)) => (
                env,
                ReportView { values: Seq::empty(), error: Some(ErrorView::Lex(e)) },
            ),
            Err(e) => (env, ReportView { values: Seq::empty(), error: Some(ErrorView::Parse(e)) }),
            Ok(trees) => run_all(trees, env),
        },
    }
}

/// Evaluates the text `source` in `context`: the whole way from characters
/// to values.
pub fn evaluate(source: &str, context: &mut Context) -> (report: Report)
    ensures
        (final(context)@, report@) == evaluation(source@, old(context)@),
        bindings_written(old(context)@) ==> bindings_written(final(context)@) && all_written(
            report@.values,
        ),
{
    let tokens = match tokenize(source) {
        Ok(tokens) => tokens,
        Err(e) => {
            let report = Report { values: Vec::new(), error: Some(Error::Lex(e)) };
            assert(report@.values =~= Seq::<ObjectView>::empty());
            return report;
        },
    };
    let trees = match parse(&tokens) {
        Ok(trees) => trees,
        Err(ParseError::Lexical(e)) => {
            let report = Report { values: Vec::new(), error: Some(Error::Lex(e)) };
            assert(report@.values =~= Seq::<ObjectView>::empty());
            return report;
        },
        Err(e) => {
            let report = Report { values: Vec::new(), error: Some(Error::Parse(e)) };
            assert(report@.values =~= Seq::<ObjectView>::empty());
            return report;
        },
    };
    run(trees, context)
}

/// The binary operator that a symbol stands for, `=` apart.
pub fn binary_operator(op: &String) -> (r: Option<Binary>)
    ensures
        r == binary_of(op@),
{
    proof {
        reveal_strlit("+");
        reveal_strlit("-");
        reveal_strlit("*");
        reveal_strlit("/");
        reveal_strlit("%");
        reveal_strlit("**");
        assert("+"@ =~= seq!['+']);
        assert("-"@ =~= seq!['-']);
        assert("*"@ =~= seq!['*']);
        assert("/"@ =~= seq!['/']);
        assert("%"@ =~= seq!['%']);
        assert("**"@ =~= seq!['*', '*']);
    }
    if keyword_matches(op, "+") {
        Some(Binary::Plus)
    } else if keyword_matches(op, "-") {
        Some(Binary::Minus)
    } else if keyword_matches(op, "*") {
        Some(Binary::Times)
    } else if keyword_matches(op, "/") {
        Some(Binary::Over)
    } else if keyword_matches(op, "%") {
        Some(Binary::Remainder)
    } else if keyword_matches(op, "**") {
        Some(Binary::Power)
    } else {
        None
    }
}

} // verus!
