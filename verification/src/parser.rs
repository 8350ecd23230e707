//! The parser: from tokens to syntax trees, by precedence climbing.
//!
//! The grammar is written down once, as functions on a sequence of token
//! views and an index into it ([`primary`], [`expression`], [`climb`],
//! [`block`]). The parsing functions walk a token vector with a cursor and
//! return what the grammar gives.

use crate::text::keyword_matches;
use crate::tokenizer::{
    is_number_text, numbers_well_written, token_views, LexError, LexErrorView, Token, TokenView,
};
use vstd::prelude::*;

verus! {

/// A syntax tree.
#[derive(Debug, PartialEq, Eq)]
pub enum AST {
    /// A number, held as the digits it was written with.
    Number(String),
    /// A reference to a variable.
    Variable(String),
    /// An operator in front of its operand.
    UnaryOp(String, Box<AST>),
    /// An operator between its operands.
    BinaryOp(String, Box<AST>, Box<AST>),
    /// A call: the function's name and the arguments.
    Call(String, Vec<AST>),
    /// A function definition: its name, its parameters, each a
    /// [`AST::Variable`], and the statements of its body.
    Function(String, Vec<AST>, Vec<AST>),
    /// A string literal.
    String(String),
}

/// An [`AST`] as a mathematical value.
pub enum AstView {
    Number(Seq<char>),
    Variable(Seq<char>),
    UnaryOp(Seq<char>, Box<AstView>),
    BinaryOp(Seq<char>, Box<AstView>, Box<AstView>),
    Call(Seq<char>, Seq<AstView>),
    Function(Seq<char>, Seq<AstView>, Seq<AstView>),
    String(Seq<char>),
}

/// The views of a sequence of trees, one for one.
pub open spec fn ast_views(trees: Seq<AST>) -> Seq<AstView> {
    Seq::new(trees.len(), |i: int| trees[i].view())
}

impl View for AST {
    type V = AstView;

    open spec fn view(&self) -> AstView
        decreases self,
    {
        match self {
            AST::Number(text) => AstView::Number(text@),
            AST::Variable(name) => AstView::Variable(name@),
            AST::UnaryOp(op, operand) => AstView::UnaryOp(op@, Box::new((**operand).view())),
            AST::BinaryOp(op, left, right) => AstView::BinaryOp(
                op@,
                Box::new((**left).view()),
                Box::new((**right).view()),
            ),
            AST::Call(name, args) => AstView::Call(
                name@,
                Seq::new(
                    args.len() as nat,
                    |i: int|
                        if 0 <= i < args.len() {
                            args[i].view()
                        } else {
                            AstView::Number(Seq::empty())
                        },
                ),
            ),
            AST::Function(name, params, body) => AstView::Function(
                name@,
                Seq::new(
                    params.len() as nat,
                    |i: int|
                        if 0 <= i < params.len() {
                            params[i].view()
                        } else {
                            AstView::Number(Seq::empty())
                        },
                ),
                Seq::new(
                    body.len() as nat,
                    |i: int|
                        if 0 <= i < body.len() {
                            body[i].view()
                        } else {
                            AstView::Number(Seq::empty())
                        },
                ),
            ),
            AST::String(text) => AstView::String(text@),
        }
    }
}

impl AstView {
    /// Every function definition in the tree has variables for parameters.
    pub open spec fn well_formed(self) -> bool
        decreases self,
    {
        match self {
            AstView::Number(_) => true,
            AstView::Variable(_) => true,
            AstView::String(_) => true,
            AstView::UnaryOp(_, operand) => operand.well_formed(),
            AstView::BinaryOp(_, left, right) => left.well_formed() && right.well_formed(),
            AstView::Call(_, args) => forall|i: int|
                0 <= i < args.len() ==> (#[trigger] args[i]).well_formed(),
            AstView::Function(_, params, body) => {
                &&& forall|i: int| 0 <= i < params.len() ==> #[trigger] params[i] is Variable
                &&& forall|i: int| 0 <= i < body.len() ==> (#[trigger] body[i]).well_formed()
            },
        }
    }

    /// Every number in the tree is written as numbers are: digits, then
    /// optionally a `.` and digits.
    pub open spec fn numbers_written(self) -> bool
        decreases self,
    {
        match self {
            AstView::Number(text) => is_number_text(text),
            AstView::Variable(_) => true,
            AstView::String(_) => true,
            AstView::UnaryOp(_, operand) => operand.numbers_written(),
            AstView::BinaryOp(_, left, right) => left.numbers_written() && right.numbers_written(),
            AstView::Call(_, args) => forall|i: int|
                0 <= i < args.len() ==> (#[trigger] args[i]).numbers_written(),
            AstView::Function(_, params, body) => {
                &&& forall|i: int|
                    0 <= i < params.len() ==> (#[trigger] params[i]).numbers_written()
                &&& forall|i: int| 0 <= i < body.len() ==> (#[trigger] body[i]).numbers_written()
            },
        }
    }
}

/// Copies of the trees in `trees`, in their order.
pub fn clone_trees(trees: &Vec<AST>) -> (out: Vec<AST>)
    ensures
        ast_views(out@) == ast_views(trees@),
    decreases trees,
{
    let mut out: Vec<AST> = Vec::new();
    let mut i: usize = 0;
    while i < trees.len()
        invariant
            i <= trees.len(),
            out.len() == i,
            forall|j: int| 0 <= j < i ==> out[j]@ == trees[j]@,
        decreases trees.len() - i,
    {
        out.push(trees[i].clone());
        i += 1;
    }
    assert(ast_views(out@) =~= ast_views(trees@));
    out
}

impl Clone for AST {
    fn clone(&self) -> (r: Self)
        ensures
            r@ == self@,
        decreases self,
    {
        match self {
            AST::Number(text) => AST::Number(text.clone()),
            AST::Variable(name) => AST::Variable(name.clone()),
            AST::UnaryOp(op, operand) => AST::UnaryOp(op.clone(), Box::new((&**operand).clone())),
            AST::BinaryOp(op, left, right) => AST::BinaryOp(
                op.clone(),
                Box::new((&**left).clone()),
                Box::new((&**right).clone()),
            ),
            AST::Call(name, args) => {
                let copies = clone_trees(args);
                let r = AST::Call(name.clone(), copies);
                proof {
                    assert(r@->Call_1 =~= ast_views(copies@));
                    assert(self@->Call_1 =~= ast_views(args@));
                }
                r
            },
            AST::Function(name, params, body) => {
                let params_copy = clone_trees(params);
                let body_copy = clone_trees(body);
                let r = AST::Function(name.clone(), params_copy, body_copy);
                proof {
                    assert(r@->Function_1 =~= ast_views(params_copy@));
                    assert(self@->Function_1 =~= ast_views(params@));
                    assert(r@->Function_2 =~= ast_views(body_copy@));
                    assert(self@->Function_2 =~= ast_views(body@));
                }
                r
            },
            AST::String(text) => AST::String(text.clone()),
        }
    }
}

/// What the grammar wanted where a token did not fit.
#[derive(Clone, Copy, Debug, PartialEq, Eq)]
pub enum Expected {
    /// The beginning of an expression.
    Expression,
    /// The `)` that closes a parenthesized expression or a parameter list.
    ClosingParen,
    /// The name after `let`.
    Identifier,
    /// The `=` after the name in a `let`.
    Assignment,
    /// The name after `fun`.
    FunctionName,
    /// The `(` after a function's name.
    OpeningParen,
    /// The `{` that opens a function's body.
    OpeningBrace,
    /// The `}` that closes a function's body.
    ClosingBrace,
}

/// Why a token sequence has no trees.
#[derive(Debug, PartialEq, Eq)]
pub enum ParseError {
    /// The parser came to a token that stands for a character which begins
    /// no token: the lexical error that this is.
    Lexical(LexError),
    /// The token at `index` does not fit the grammar there. `found` is that
    /// token, or nothing where the sequence ended; the tokens from `index` on
    /// are what was left to read.
    Unexpected { expected: Expected, found: Option<Token>, index: usize },
}

/// A [`ParseError`] as a mathematical value.
pub enum ParseErrorView {
    Lexical(LexErrorView),
    Unexpected { expected: Expected, found: Option<TokenView>, index: int },
}

impl View for ParseError {
    type V = ParseErrorView;

    open spec fn view(&self) -> ParseErrorView {
        match self {
            ParseError::Lexical(e) => ParseErrorView::Lexical(e@),
            ParseError::Unexpected { expected, found, index } => ParseErrorView::Unexpected {
                expected: *expected,
                found: match found {
                    Some(token) => Some(token@),
                    None => None,
                },
                index: *index as int,
            },
        }
    }
}

/// A parsed value and the index after its last token, or the reason why
/// there is none.
pub type Parsed<T> = Result<(T, int), ParseErrorView>;

/// The token at index `p`, if there is one.
pub open spec fn peek(ts: Seq<TokenView>, p: int) -> Option<TokenView> {
    if 0 <= p < ts.len() {
        Some(ts[p])
    } else {
        None
    }
}

/// The error for a token at `p` that is not what the grammar expects.
pub open spec fn unexpected(ts: Seq<TokenView>, p: int, expected: Expected) -> ParseErrorView {
    ParseErrorView::Unexpected { expected, found: peek(ts, p), index: p }
}

/// The keyword that begins a binding.
pub open spec fn keyword_let() -> Seq<char> {
    seq!['l', 'e', 't']
}

/// The keyword that begins a function definition.
pub open spec fn keyword_fun() -> Seq<char> {
    seq!['f', 'u', 'n']
}

/// How tightly a binary operator binds: `=` least, then `+` and `-`, then
/// `*`, `/` and `%`, then `**`. What is no binary operator has -1.
pub open spec fn precedence(op: Seq<char>) -> int {
    if op == seq!['='] {
        1
    } else if op == seq!['+'] || op == seq!['-'] {
        10
    } else if op == seq!['*'] || op == seq!['/'] || op == seq!['%'] {
        20
    } else if op == seq!['*', '*'] {
        30
    } else {
        -1
    }
}

/// Whether a chain of this operator groups from the right. Only `**` does.
pub open spec fn right_associative(op: Seq<char>) -> bool {
    op == seq!['*', '*']
}

/// The precedence of the operator at `p`, or -1 where none stands.
pub open spec fn precedence_at(ts: Seq<TokenView>, p: int) -> int {
    match peek(ts, p) {
        Some(TokenView::Operator(op, _)) => precedence(op),
        _ => -1,
    }
}

/// The least precedence that an operator must have to be taken into the
/// right operand of `op`.
pub open spec fn right_operand_floor(op: Seq<char>) -> int {
    if right_associative(op) {
        precedence(op)
    } else {
        precedence(op) + 1
    }
}

/// The index `q` that reading from `p` came to. Reading takes at least one
/// token and none beyond the last, so this is `q`; it is written so that
/// this can be seen from here.
pub open spec fn after(ts: Seq<TokenView>, p: int, q: int) -> int {
    if p < q <= ts.len() {
        q
    } else {
        p + 1
    }
}

/// The index after the run of identifiers that begins at `p`.
pub open spec fn names_end(ts: Seq<TokenView>, p: int) -> int
    decreases ts.len() - p,
{
    match peek(ts, p) {
        Some(TokenView::Ident(_, _)) => names_end(ts, p + 1),
        _ => p,
    }
}

/// The identifiers from `p` up to `end`, each as a variable.
pub open spec fn names(ts: Seq<TokenView>, p: int, end: int) -> Seq<AstView> {
    Seq::new(
        (end - p) as nat,
        |i: int|
            match peek(ts, p + i) {
                Some(TokenView::Ident(name, _)) => AstView::Variable(name),
                _ => AstView::Variable(Seq::empty()),
            },
    )
}

/// A run of identifiers ends within the tokens, at the first token that is
/// no identifier.
pub proof fn lemma_names_end(ts: Seq<TokenView>, p: int)
    requires
        0 <= p,
    ensures
        p <= names_end(ts, p) <= if p <= ts.len() { ts.len() as int } else { p },
        forall|i: int| p <= i < names_end(ts, p) ==> (#[trigger] peek(ts, i)) matches Some(
            TokenView::Ident(_, _),
        ),
        !(peek(ts, names_end(ts, p)) matches Some(TokenView::Ident(_, _))),
    decreases ts.len() - p,
{
    match peek(ts, p) {
        Some(TokenView::Ident(_, _)) => lemma_names_end(ts, p + 1),
        _ => {},
    }
}

/// A primary expression at `p`: a number, a string, a parenthesized
/// expression, an operator and its operand, a binding, a function
/// definition, a call, or a variable.
pub open spec fn primary(ts: Seq<TokenView>, p: int) -> Parsed<AstView>
    decreases ts.len() - p, 0nat,
{
    match peek(ts, p) {
        Some(TokenView::Numb(text, _)) => Ok((AstView::Number(text), p + 1)),
        Some(TokenView::String(text, _)) => Ok((AstView::String(text), p + 1)),
        Some(TokenView::LParen(_)) => match expression(ts, p + 1) {
            Err(e) => Err(e),
            Ok((inner, q)) => match peek(ts, q) {
                Some(TokenView::RParen(_)) => Ok((inner, q + 1)),
                _ => Err(unexpected(ts, q, Expected::ClosingParen)),
            },
        },
        Some(TokenView::Operator(op, _)) => match primary(ts, p + 1) {
            Err(e) => Err(e),
            Ok((operand, q)) => Ok((AstView::UnaryOp(op, Box::new(operand)), q)),
        },
        Some(TokenView::Ident(name, _)) => {
            if name == keyword_let() {
                binding(ts, p + 1)
            } else if name == keyword_fun() {
                function(ts, p + 1)
            } else if peek(ts, p + 1) matches Some(TokenView::LParen(_)) {
                match arguments(ts, p + 2) {
                    Err(e) => Err(e),
                    Ok((args, q)) => Ok((AstView::Call(name, args), q)),
                }
            } else {
                Ok((AstView::Variable(name), p + 1))
            }
        },
        Some(TokenView::Unknown(c, at)) => Err(
            ParseErrorView::Lexical(LexErrorView::UnknownCharacter { character: c, offset: at }),
        ),
        _ => Err(unexpected(ts, p, Expected::Expression)),
    }
}

/// What follows `let`, at `p`: a name and `=`, read on from the name as an
/// assignment to it.
pub open spec fn binding(ts: Seq<TokenView>, p: int) -> Parsed<AstView>
    decreases ts.len() - p, 0nat,
{
    match peek(ts, p) {
        Some(TokenView::Ident(name, _)) => match peek(ts, p + 1) {
            Some(TokenView::Operator(op, _)) if op == seq!['='] => climb(
                ts,
                p + 1,
                AstView::Variable(name),
                0,
            ),
            _ => Err(unexpected(ts, p + 1, Expected::Assignment)),
        },
        _ => Err(unexpected(ts, p, Expected::Identifier)),
    }
}

/// What follows `fun`, at `p`: a name, the parameters' names between `(` and
/// `)`, and the body between `{` and `}`.
pub open spec fn function(ts: Seq<TokenView>, p: int) -> Parsed<AstView>
    decreases ts.len() - p, 0nat,
{
    match peek(ts, p) {
        Some(TokenView::Ident(name, _)) => match peek(ts, p + 1) {
            Some(TokenView::LParen(_)) => {
                let close = names_end(ts, p + 2);
                match peek(ts, close) {
                    Some(TokenView::RParen(_)) => match peek(ts, close + 1) {
                        Some(TokenView::StartBlock(_)) => {
                            proof {
                                lemma_names_end(ts, p + 2);
                            }
                            match block(ts, close + 2) {
                                Err(e) => Err(e),
                                Ok((body, (q, closed))) => if closed {
                                    Ok(
                                        (
                                            AstView::Function(
                                                name,
                                                names(ts, p + 2, close),
                                                body,
                                            ),
                                            q,
                                        ),
                                    )
                                } else {
                                    Err(unexpected(ts, q, Expected::ClosingBrace))
                                },
                            }
                        },
                        _ => Err(unexpected(ts, close + 1, Expected::OpeningBrace)),
                    },
                    _ => Err(unexpected(ts, close, Expected::ClosingParen)),
                }
            },
            _ => Err(unexpected(ts, p + 1, Expected::OpeningParen)),
        },
        _ => Err(unexpected(ts, p, Expected::FunctionName)),
    }
}

/// The arguments of a call, from `p`, which lies after the `(`: primary
/// expressions up to the `)`.
pub open spec fn arguments(ts: Seq<TokenView>, p: int) -> Parsed<Seq<AstView>>
    decreases ts.len() - p, 1nat,
{
    match peek(ts, p) {
        Some(TokenView::RParen(_)) => Ok((Seq::empty(), p + 1)),
        None => Err(unexpected(ts, p, Expected::Expression)),
        _ => match primary(ts, p) {
            Err(e) => Err(e),
            Ok((first, q)) => match arguments(ts, after(ts, p, q)) {
                Err(e) => Err(e),
                Ok((rest, end)) => Ok((seq![first] + rest, end)),
            },
        },
    }
}

/// An expression at `p`: a primary, and the binary operators that follow
/// it.
pub open spec fn expression(ts: Seq<TokenView>, p: int) -> Parsed<AstView>
    decreases ts.len() - p, 1nat,
{
    match peek(ts, p) {
        None => Err(unexpected(ts, p, Expected::Expression)),
        _ => match primary(ts, p) {
            Err(e) => Err(e),
            Ok((left, q)) => climb(ts, after(ts, p, q), left, 0),
        },
    }
}

/// Extends `left`, which ends before `p`, by the binary operators from `p`
/// on whose precedence is at least `floor`. The right operand of an operator
/// takes in what follows it as long as that binds tighter, or as tightly
/// where the operator groups from the right.
pub open spec fn climb(ts: Seq<TokenView>, p: int, left: AstView, floor: int) -> Parsed<AstView>
    decreases ts.len() - p, 0nat,
{
    match peek(ts, p) {
        Some(TokenView::Operator(op, _)) if 0 <= precedence(op) && floor <= precedence(op) => {
            match primary(ts, p + 1) {
                Err(e) => Err(e),
                Ok((first, q)) => {
                    let q = after(ts, p, q);
                    let operand = if right_operand_floor(op) <= precedence_at(ts, q) {
                        climb(ts, q, first, right_operand_floor(op))
                    } else {
                        Ok((first, q))
                    };
                    match operand {
                        Err(e) => Err(e),
                        Ok((right, end)) => climb(
                            ts,
                            after(ts, p, end),
                            AstView::BinaryOp(op, Box::new(left), Box::new(right)),
                            floor,
                        ),
                    }
                },
            }
        },
        _ => Ok((left, p)),
    }
}

/// The statements of a block from `p`: expressions, with any number of `;`
/// between them, up to the end of input, which stays, or up to a `}`, which
/// is taken. With the statements come the index that reading stopped at and
/// whether a `}` closed the block.
pub open spec fn block(ts: Seq<TokenView>, p: int) -> Result<
    (Seq<AstView>, (int, bool)),
    ParseErrorView,
>
    decreases ts.len() - p, 2nat,
{
    match peek(ts, p) {
        None => Ok((Seq::empty(), (p, false))),
        Some(TokenView::EOF(_)) => Ok((Seq::empty(), (p, false))),
        Some(TokenView::EndBlock(_)) => Ok((Seq::empty(), (p + 1, true))),
        Some(TokenView::Delim(_)) => block(ts, p + 1),
        _ => match expression(ts, p) {
            Err(e) => Err(e),
            Ok((first, q)) => match block(ts, after(ts, p, q)) {
                Err(e) => Err(e),
                Ok((rest, stop)) => Ok((seq![first] + rest, stop)),
            },
        },
    }
}

/// The statements that a token sequence holds: those of the block that
/// begins with its first token.
pub open spec fn parse_tokens(ts: Seq<TokenView>) -> Result<Seq<AstView>, ParseErrorView> {
    match block(ts, 0) {
        Err(e) => Err(e),
        Ok((statements, _)) => Ok(statements),
    }
}

/// What a parsing function returned, as a mathematical value.
pub open spec fn parsed_view(r: Result<(AST, usize), ParseError>) -> Parsed<AstView> {
    match r {
        Ok((tree, q)) => Ok((tree@, q as int)),
        Err(e) => Err(e@),
    }
}

/// What a parsing function returned for a list, as a mathematical value.
pub open spec fn parsed_views(r: Result<(Vec<AST>, usize), ParseError>) -> Parsed<Seq<AstView>> {
    match r {
        Ok((trees, q)) => Ok((ast_views(trees@), q as int)),
        Err(e) => Err(e@),
    }
}

/// Every tree of the sequence is well formed.
pub open spec fn all_well_formed(trees: Seq<AstView>) -> bool {
    forall|i: int| 0 <= i < trees.len() ==> (#[trigger] trees[i]).well_formed()
}

/// Every number in every tree of the sequence is written as numbers are.
pub open spec fn all_numbers_written(trees: Seq<AstView>) -> bool {
    forall|i: int| 0 <= i < trees.len() ==> (#[trigger] trees[i]).numbers_written()
}

/// What holds of a tree that was read from the tokens `ts`: it is well
/// formed, and its numbers are written as numbers are if those among the
/// tokens are.
pub open spec fn parsed_well(ts: Seq<TokenView>, tree: AstView) -> bool {
    &&& tree.well_formed()
    &&& numbers_well_written(ts) ==> tree.numbers_written()
}

/// [`parsed_well`] holds of every tree of the sequence.
pub open spec fn all_parsed_well(ts: Seq<TokenView>, trees: Seq<AstView>) -> bool {
    forall|i: int| 0 <= i < trees.len() ==> parsed_well(ts, #[trigger] trees[i])
}

fn unexpected_at(tokens: &Vec<Token>, pos: usize, expected: Expected) -> (e: ParseError)
    ensures
        e@ == unexpected(token_views(tokens@), pos as int, expected),
{
    let found = if pos < tokens.len() {
        Some(tokens[pos].clone())
    } else {
        None
    };
    ParseError::Unexpected { expected, found, index: pos }
}

/// How tightly the binary operator `op` binds, or -1 if it is none.
pub fn precedence_of(op: &String) -> (power: i32)
    ensures
        power == precedence(op@),
{
    let text = op.as_str();
    let length = text.unicode_len();
    if length == 1 {
        let c = text.get_char(0);
        assert(op@ =~= seq![c]);
        assert(seq![c] != seq!['*', '*']) by {
            assert(seq![c].len() == 1);
            assert(seq!['*', '*'].len() == 2);
        }
        assert(forall|d: char| seq![c] == seq![d] ==> c == d) by {
            assert forall|d: char| seq![c] == seq![d] implies c == d by {
                assert(seq![c][0] == seq![d][0]);
            }
        }
        if c == '=' {
            1
        } else if c == '+' || c == '-' {
            10
        } else if c == '*' || c == '/' || c == '%' {
            20
        } else {
            -1
        }
    } else if length == 2 {
        let c = text.get_char(0);
        let d = text.get_char(1);
        assert(op@ =~= seq![c, d]);
        assert(forall|e: char| (#[trigger] seq![e]).len() == 1);
        if c == '*' && d == '*' {
            30
        } else {
            assert(op@ != seq!['*', '*']) by {
                if op@ == seq!['*', '*'] {
                    assert(op@[0] == seq!['*', '*'][0]);
                    assert(op@[1] == seq!['*', '*'][1]);
                }
            }
            -1
        }
    } else {
        assert(seq!['*', '*'].len() == 2);
        assert(forall|e: char| (#[trigger] seq![e]).len() == 1);
        -1
    }
}

/// The least precedence that an operator must have to be taken into the
/// right operand of `op`, which is a binary operator.
fn right_floor_of(op: &String) -> (floor: i32)
    requires
        0 <= precedence(op@),
    ensures
        floor == right_operand_floor(op@),
{
    let power = precedence_of(op);
    proof {
        assert(seq!['*', '*'].len() == 2);
        assert(forall|c: char| (#[trigger] seq![c]).len() == 1);
    }
    if power == 30 {
        30
    } else {
        power + 1
    }
}

/// The precedence of the operator at `pos`, or -1 where none stands.
fn precedence_here(tokens: &Vec<Token>, pos: usize) -> (power: i32)
    ensures
        power == precedence_at(token_views(tokens@), pos as int),
{
    if pos < tokens.len() {
        match &tokens[pos] {
            Token::Operator(op, _) => precedence_of(op),
            _ => -1,
        }
    } else {
        -1
    }
}

fn parse_number(tokens: &Vec<Token>, pos: usize) -> (r: Result<(AST, usize), ParseError>)
    requires
        peek(token_views(tokens@), pos as int) matches Some(TokenView::Numb(_, _)),
    ensures
        parsed_view(r) == primary(token_views(tokens@), pos as int),
        r matches Ok((tree, q)) && pos < q <= tokens.len() && parsed_well(
            token_views(tokens@),
            tree@,
        ),
{
    assert(token_views(tokens@).len() == tokens.len());
    match &tokens[pos] {
        Token::Numb(text, _) => Ok((AST::Number(text.clone()), pos + 1)),
        _ => Err(unexpected_at(tokens, pos, Expected::Expression)),
    }
}

fn parse_string(tokens: &Vec<Token>, pos: usize) -> (r: Result<(AST, usize), ParseError>)
    requires
        peek(token_views(tokens@), pos as int) matches Some(TokenView::String(_, _)),
    ensures
        parsed_view(r) == primary(token_views(tokens@), pos as int),
        r matches Ok((tree, q)) && pos < q <= tokens.len() && parsed_well(
            token_views(tokens@),
            tree@,
        ),
{
    assert(token_views(tokens@).len() == tokens.len());
    match &tokens[pos] {
        Token::String(text, _) => Ok((AST::String(text.clone()), pos + 1)),
        _ => Err(unexpected_at(tokens, pos, Expected::Expression)),
    }
}

fn parse_paren(tokens: &Vec<Token>, pos: usize) -> (r: Result<(AST, usize), ParseError>)
    requires
        peek(token_views(tokens@), pos as int) matches Some(TokenView::LParen(_)),
    ensures
        parsed_view(r) == primary(token_views(tokens@), pos as int),
        r matches Ok((tree, q)) ==> pos < q <= tokens.len() && parsed_well(
            token_views(tokens@),
            tree@,
        ),
    decreases tokens.len() - pos, 0nat,
{
    match parse_expression(tokens, pos + 1) {
        Err(e) => Err(e),
        Ok((inner, q)) => {
            if q < tokens.len() {
                match &tokens[q] {
                    Token::RParen(_) => {
                        return Ok((inner, q + 1));
                    },
                    _ => {},
                }
            }
            Err(unexpected_at(tokens, q, Expected::ClosingParen))
        },
    }
}

fn parse_unary(tokens: &Vec<Token>, pos: usize) -> (r: Result<(AST, usize), ParseError>)
    requires
        peek(token_views(tokens@), pos as int) matches Some(TokenView::Operator(_, _)),
    ensures
        parsed_view(r) == primary(token_views(tokens@), pos as int),
        r matches Ok((tree, q)) ==> pos < q <= tokens.len() && parsed_well(
            token_views(tokens@),
            tree@,
        ),
    decreases tokens.len() - pos, 0nat,
{
    match &tokens[pos] {
        Token::Operator(op, _) => match parse_primary(tokens, pos + 1) {
            Err(e) => Err(e),
            Ok((operand, q)) => Ok((AST::UnaryOp(op.clone(), Box::new(operand)), q)),
        },
        _ => Err(unexpected_at(tokens, pos, Expected::Expression)),
    }
}

fn parse_init(tokens: &Vec<Token>, pos: usize) -> (r: Result<(AST, usize), ParseError>)
    requires
        0 < pos <= tokens.len(),
    ensures
        parsed_view(r) == binding(token_views(tokens@), pos as int),
        r matches Ok((tree, q)) ==> pos < q <= tokens.len() && parsed_well(
            token_views(tokens@),
            tree@,
        ),
    decreases tokens.len() - pos, 0nat,
{
    if pos < tokens.len() {
        match &tokens[pos] {
            Token::Ident(name, _) => {
                if pos + 1 < tokens.len() {
                    match &tokens[pos + 1] {
                        Token::Operator(op, _) => {
                            proof {
                                reveal_strlit("=");
                                assert("="@ =~= seq!['=']);
                            }
                            if keyword_matches(op, "=") {
                                let target = AST::Variable(name.clone());
                                return parse_bin_op_rhs(tokens, pos + 1, target, 0);
                            }
                        },
                        _ => {},
                    }
                }
                return Err(unexpected_at(tokens, pos + 1, Expected::Assignment));
            },
            _ => {},
        }
    }
    Err(unexpected_at(tokens, pos, Expected::Identifier))
}

/// The names from `pos` on, each as a variable, and the index after them.
fn parse_names(tokens: &Vec<Token>, pos: usize) -> (r: (Vec<AST>, usize))
    requires
        pos <= tokens.len(),
    ensures
        r.1 == names_end(token_views(tokens@), pos as int),
        ast_views(r.0@) == names(token_views(tokens@), pos as int, r.1 as int),
        pos <= r.1 <= tokens.len(),
        forall|i: int| 0 <= i < r.0.len() ==> #[trigger] ast_views(r.0@)[i] is Variable,
{
    let ghost ts = token_views(tokens@);
    let mut params: Vec<AST> = Vec::new();
    let mut at = pos;
    proof {
        lemma_names_end(ts, pos as int);
    }
    while at < tokens.len()
        invariant
            ts == token_views(tokens@),
            pos <= at <= tokens.len(),
            names_end(ts, pos as int) == names_end(ts, at as int),
            ast_views(params@) =~= names(ts, pos as int, at as int),
            forall|i: int| 0 <= i < params.len() ==> #[trigger] ast_views(params@)[i] is Variable,
        decreases tokens.len() - at,
    {
        match &tokens[at] {
            Token::Ident(name, _) => {
                let ghost before = ast_views(params@);
                params.push(AST::Variable(name.clone()));
                at = at + 1;
                assert(ast_views(params@) =~= before.push(AstView::Variable(name@)));
            },
            _ => {
                return (params, at);
            },
        }
    }
    (params, at)
}

fn parse_function_def(tokens: &Vec<Token>, pos: usize) -> (r: Result<(AST, usize), ParseError>)
    requires
        0 < pos <= tokens.len(),
    ensures
        parsed_view(r) == function(token_views(tokens@), pos as int),
        r matches Ok((tree, q)) ==> pos < q <= tokens.len() && parsed_well(
            token_views(tokens@),
            tree@,
        ),
    decreases tokens.len() - pos, 0nat,
{
    let ghost ts = token_views(tokens@);
    if pos >= tokens.len() {
        return Err(unexpected_at(tokens, pos, Expected::FunctionName));
    }
    let name = match &tokens[pos] {
        Token::Ident(name, _) => name.clone(),
        _ => {
            return Err(unexpected_at(tokens, pos, Expected::FunctionName));
        },
    };
    if pos + 1 >= tokens.len() {
        return Err(unexpected_at(tokens, pos + 1, Expected::OpeningParen));
    }
    match &tokens[pos + 1] {
        Token::LParen(_) => {},
        _ => {
            return Err(unexpected_at(tokens, pos + 1, Expected::OpeningParen));
        },
    }
    let (params, close) = parse_names(tokens, pos + 2);
    if close >= tokens.len() {
        return Err(unexpected_at(tokens, close, Expected::ClosingParen));
    }
    match &tokens[close] {
        Token::RParen(_) => {},
        _ => {
            return Err(unexpected_at(tokens, close, Expected::ClosingParen));
        },
    }
    if close + 1 >= tokens.len() {
        return Err(unexpected_at(tokens, close + 1, Expected::OpeningBrace));
    }
    match &tokens[close + 1] {
        Token::StartBlock(_) => {},
        _ => {
            return Err(unexpected_at(tokens, close + 1, Expected::OpeningBrace));
        },
    }
    match parse_block(tokens, close + 2) {
        Err(e) => Err(e),
        Ok((body, q, closed)) => {
            if closed {
                let tree = AST::Function(name, params, body);
                proof {
                    let names = ast_views(params@);
                    let statements = ast_views(body@);
                    assert(tree@->Function_1 =~= names);
                    assert(tree@->Function_2 =~= statements);
                    assert forall|i: int| 0 <= i < names.len() implies (
                    #[trigger] names[i]).numbers_written() by {
                        assert(names[i] is Variable);
                    }
                    assert forall|i: int| 0 <= i < statements.len() implies (
                    #[trigger] statements[i]).well_formed() by {
                        assert(parsed_well(ts, statements[i]));
                    }
                    if numbers_well_written(ts) {
                        assert forall|i: int| 0 <= i < statements.len() implies (
                        #[trigger] statements[i]).numbers_written() by {
                            assert(parsed_well(ts, statements[i]));
                        }
                    }
                }
                Ok((tree, q))
            } else {
                Err(unexpected_at(tokens, q, Expected::ClosingBrace))
            }
        },
    }
}

fn parse_call(tokens: &Vec<Token>, pos: usize) -> (r: Result<(Vec<AST>, usize), ParseError>)
    requires
        0 < pos <= tokens.len(),
    ensures
        parsed_views(r) == arguments(token_views(tokens@), pos as int),
        r matches Ok((trees, q)) ==> pos < q <= tokens.len() && all_parsed_well(
            token_views(tokens@),
            ast_views(trees@),
        ),
    decreases tokens.len() - pos, 2nat,
{
    let ghost ts = token_views(tokens@);
    let mut args: Vec<AST> = Vec::new();
    let mut at = pos;
    loop
        invariant
            ts == token_views(tokens@),
            pos <= at <= tokens.len(),
            all_parsed_well(token_views(tokens@), ast_views(args@)),
            match arguments(ts, at as int) {
                Ok((rest, end)) => arguments(ts, pos as int) == Ok::<
                    (Seq<AstView>, int),
                    ParseErrorView,
                >((ast_views(args@) + rest, end)),
                Err(e) => arguments(ts, pos as int) == Err::<(Seq<AstView>, int), ParseErrorView>(
                    e,
                ),
            },
        decreases tokens.len() - at,
    {
        if at < tokens.len() {
            match &tokens[at] {
                Token::RParen(_) => {
                    assert(ast_views(args@) + Seq::<AstView>::empty() =~= ast_views(args@));
                    return Ok((args, at + 1));
                },
                _ => {},
            }
        }
        match parse_primary(tokens, at) {
            Err(e) => {
                return Err(e);
            },
            Ok((arg, q)) => {
                let ghost before = ast_views(args@);
                let ghost first = arg@;
                args.push(arg);
                proof {
                    assert(ast_views(args@) =~= before.push(first));
                    match arguments(ts, q as int) {
                        Ok((rest, _)) => {
                            assert(before + (seq![first] + rest) =~= before.push(first) + rest);
                        },
                        Err(_) => {},
                    }
                }
                at = q;
            },
        }
    }
}

fn parse_ident(tokens: &Vec<Token>, pos: usize) -> (r: Result<(AST, usize), ParseError>)
    requires
        peek(token_views(tokens@), pos as int) matches Some(TokenView::Ident(_, _)),
    ensures
        parsed_view(r) == primary(token_views(tokens@), pos as int),
        r matches Ok((tree, q)) ==> pos < q <= tokens.len() && parsed_well(
            token_views(tokens@),
            tree@,
        ),
    decreases tokens.len() - pos, 0nat,
{
    match &tokens[pos] {
        Token::Ident(name, _) => {
            proof {
                reveal_strlit("let");
                reveal_strlit("fun");
                assert("let"@ =~= keyword_let());
                assert("fun"@ =~= keyword_fun());
            }
            if keyword_matches(name, "let") {
                parse_init(tokens, pos + 1)
            } else if keyword_matches(name, "fun") {
                parse_function_def(tokens, pos + 1)
            } else {
                if pos + 1 < tokens.len() {
                    match &tokens[pos + 1] {
                        Token::LParen(_) => {
                            return match parse_call(tokens, pos + 2) {
                                Err(e) => Err(e),
                                Ok((args, q)) => {
                                    let tree = AST::Call(name.clone(), args);
                                    proof {
                                        assert(tree@->Call_1 =~= ast_views(args@));
                                    }
                                    Ok((tree, q))
                                },
                            };
                        },
                        _ => {},
                    }
                }
                Ok((AST::Variable(name.clone()), pos + 1))
            }
        },
        _ => Err(unexpected_at(tokens, pos, Expected::Expression)),
    }
}

fn parse_primary(tokens: &Vec<Token>, pos: usize) -> (r: Result<(AST, usize), ParseError>)
    ensures
        parsed_view(r) == primary(token_views(tokens@), pos as int),
        r matches Ok((tree, q)) ==> pos < q <= tokens.len() && parsed_well(
            token_views(tokens@),
            tree@,
        ),
    decreases tokens.len() - pos, 1nat,
{
    if pos >= tokens.len() {
        return Err(unexpected_at(tokens, pos, Expected::Expression));
    }
    match &tokens[pos] {
        Token::Numb(_, _) => parse_number(tokens, pos),
        Token::LParen(_) => parse_paren(tokens, pos),
        Token::Operator(_, _) => parse_unary(tokens, pos),
        Token::Ident(_, _) => parse_ident(tokens, pos),
        Token::String(_, _) => parse_string(tokens, pos),
        Token::Unknown(c, at) => Err(
            ParseError::Lexical(LexError::UnknownCharacter { character: *c, offset: *at }),
        ),
        _ => Err(unexpected_at(tokens, pos, Expected::Expression)),
    }
}

fn parse_bin_op_rhs(tokens: &Vec<Token>, pos: usize, left: AST, min_precedence: i32) -> (r: Result<
    (AST, usize),
    ParseError,
>)
    requires
        pos <= tokens.len(),
        parsed_well(token_views(tokens@), left@),
        0 <= min_precedence <= 31,
    ensures
        parsed_view(r) == climb(token_views(tokens@), pos as int, left@, min_precedence as int),
        r matches Ok((tree, q)) ==> pos <= q <= tokens.len() && parsed_well(
            token_views(tokens@),
            tree@,
        ),
    decreases tokens.len() - pos, 0nat,
{
    let ghost ts = token_views(tokens@);
    let ghost goal = climb(ts, pos as int, left@, min_precedence as int);
    let mut lhs = left;
    let mut at = pos;
    loop
        invariant
            ts == token_views(tokens@),
            goal == climb(token_views(tokens@), pos as int, left@, min_precedence as int),
            pos <= at <= tokens.len(),
            parsed_well(token_views(tokens@), lhs@),
            0 <= min_precedence <= 31,
            goal == climb(ts, at as int, lhs@, min_precedence as int),
        decreases tokens.len() - at,
    {
        if at >= tokens.len() {
            return Ok((lhs, at));
        }
        let op = match &tokens[at] {
            Token::Operator(op, _) => op,
            _ => {
                return Ok((lhs, at));
            },
        };
        let power = precedence_of(op);
        if power < 0 || power < min_precedence {
            return Ok((lhs, at));
        }
        let (first, q) = match parse_primary(tokens, at + 1) {
            Err(e) => {
                return Err(e);
            },
            Ok(found) => found,
        };
        let floor = right_floor_of(op);
        let (rhs, end) = if floor <= precedence_here(tokens, q) {
            match parse_bin_op_rhs(tokens, q, first, floor) {
                Err(e) => {
                    return Err(e);
                },
                Ok(found) => found,
            }
        } else {
            (first, q)
        };
        lhs = AST::BinaryOp(op.clone(), Box::new(lhs), Box::new(rhs));
        at = end;
    }
}

fn parse_expression(tokens: &Vec<Token>, pos: usize) -> (r: Result<(AST, usize), ParseError>)
    ensures
        parsed_view(r) == expression(token_views(tokens@), pos as int),
        r matches Ok((tree, q)) ==> pos < q <= tokens.len() && parsed_well(
            token_views(tokens@),
            tree@,
        ),
    decreases tokens.len() - pos, 2nat,
{
    match parse_primary(tokens, pos) {
        Err(e) => Err(e),
        Ok((lhs, q)) => parse_bin_op_rhs(tokens, q, lhs, 0),
    }
}

/// The statements of the block that begins at `pos`, the index that reading
/// stopped at, and whether a `}` closed the block.
fn parse_block(tokens: &Vec<Token>, pos: usize) -> (r: Result<(Vec<AST>, usize, bool), ParseError>)
    requires
        pos <= tokens.len(),
    ensures
        match block(token_views(tokens@), pos as int) {
            Ok((statements, (stop, closed))) => r matches Ok((trees, q, c)) && ast_views(trees@)
                == statements && q == stop && c == closed,
            Err(e) => r matches Err(found) && found@ == e,
        },
        r matches Ok((trees, q, closed)) ==> {
            &&& pos <= q <= tokens.len()
            &&& closed ==> pos < q
            &&& all_parsed_well(token_views(tokens@), ast_views(trees@))
        },
    decreases tokens.len() - pos, 3nat,
{
    let ghost ts = token_views(tokens@);
    let mut statements: Vec<AST> = Vec::new();
    let mut at = pos;
    loop
        invariant
            ts == token_views(tokens@),
            pos <= at <= tokens.len(),
            all_parsed_well(token_views(tokens@), ast_views(statements@)),
            match block(ts, at as int) {
                Ok((rest, stop)) => block(ts, pos as int) == Ok::<
                    (Seq<AstView>, (int, bool)),
                    ParseErrorView,
                >((ast_views(statements@) + rest, stop)),
                Err(e) => block(ts, pos as int) == Err::<
                    (Seq<AstView>, (int, bool)),
                    ParseErrorView,
                >(e),
            },
        decreases tokens.len() - at,
    {
        if at >= tokens.len() {
            assert(ast_views(statements@) + Seq::<AstView>::empty() =~= ast_views(statements@));
            return Ok((statements, at, false));
        }
        match &tokens[at] {
            Token::EOF(_) => {
                assert(ast_views(statements@) + Seq::<AstView>::empty() =~= ast_views(
                    statements@,
                ));
                return Ok((statements, at, false));
            },
            Token::EndBlock(_) => {
                assert(ast_views(statements@) + Seq::<AstView>::empty() =~= ast_views(
                    statements@,
                ));
                return Ok((statements, at + 1, true));
            },
            Token::Delim(_) => {
                at = at + 1;
            },
            _ => {
                match parse_expression(tokens, at) {
                    Err(e) => {
                        return Err(e);
                    },
                    Ok((statement, q)) => {
                        let ghost before = ast_views(statements@);
                        let ghost first = statement@;
                        statements.push(statement);
                        proof {
                            assert(ast_views(statements@) =~= before.push(first));
                            match block(ts, q as int) {
                                Ok((rest, _)) => {
                                    assert(before + (seq![first] + rest) =~= before.push(first)
                                        + rest);
                                },
                                Err(_) => {},
                            }
                        }
                        at = q;
                    },
                }
            },
        }
    }
}

/// The statements that `tokens` hold: expressions, with any number of `;`
/// between them, up to the end of input or to a `}`.
pub fn parse(tokens: &Vec<Token>) -> (r: Result<Vec<AST>, ParseError>)
    ensures
        match parse_tokens(token_views(tokens@)) {
            Ok(statements) => r matches Ok(trees) && ast_views(trees@) == statements,
            Err(e) => r matches Err(found) && found@ == e,
        },
        r matches Ok(trees) ==> all_well_formed(ast_views(trees@)),
        r matches Ok(trees) ==> (numbers_well_written(token_views(tokens@))
            ==> all_numbers_written(ast_views(trees@))),
{
    match parse_block(tokens, 0) {
        Err(e) => Err(e),
        Ok((statements, _, _)) => {
            proof {
                let ts = token_views(tokens@);
                let trees = ast_views(statements@);
                assert forall|i: int| 0 <= i < trees.len() implies (
                #[trigger] trees[i]).well_formed() by {
                    assert(parsed_well(ts, trees[i]));
                }
                if numbers_well_written(ts) {
                    assert forall|i: int| 0 <= i < trees.len() implies (
                    #[trigger] trees[i]).numbers_written() by {
                        assert(parsed_well(ts, trees[i]));
                    }
                }
            }
            Ok(statements)
        },
    }
}

} // verus!
