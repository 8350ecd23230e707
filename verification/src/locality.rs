//! What a parse depends on: the tokens that it reads and nothing else.
//!
//! An expression is parsed the same wherever it stands in a token sequence
//! and whatever follows it, as long as what follows can not continue it.
//! From this comes the law of parentheses, [`lemma_parentheses`]: an
//! expression between `(` and `)` is the expression itself.

use crate::parser::{
    after, arguments, binding, block, climb, expression, function, keyword_fun, keyword_let,
    lemma_names_end, names, names_end, parse_tokens, peek, precedence, precedence_at, primary,
    right_operand_floor, AstView, ParseErrorView, Parsed,
};
use crate::tokenizer::TokenView;
use vstd::prelude::*;

verus! {

/// The token `t`, moved to the offset `at`.
pub open spec fn placed_at(t: TokenView, at: nat) -> TokenView {
    match t {
        TokenView::Ident(text, _) => TokenView::Ident(text, at),
        TokenView::Numb(text, _) => TokenView::Numb(text, at),
        TokenView::Operator(text, _) => TokenView::Operator(text, at),
        TokenView::Delim(_) => TokenView::Delim(at),
        TokenView::LParen(_) => TokenView::LParen(at),
        TokenView::RParen(_) => TokenView::RParen(at),
        TokenView::EOF(_) => TokenView::EOF(at),
        TokenView::String(text, _) => TokenView::String(text, at),
        TokenView::StartBlock(_) => TokenView::StartBlock(at),
        TokenView::EndBlock(_) => TokenView::EndBlock(at),
        TokenView::Unknown(c, _) => TokenView::Unknown(c, at),
    }
}

/// Two tokens are the same but for where they stand in their sources.
pub open spec fn same_lexeme(a: TokenView, b: TokenView) -> bool {
    placed_at(a, 0) == placed_at(b, 0)
}

/// Two places in two sequences hold the same token, or both hold none.
pub open spec fn same_token(a: Option<TokenView>, b: Option<TokenView>) -> bool {
    match (a, b) {
        (None, None) => true,
        (Some(x), Some(y)) => same_lexeme(x, y),
        _ => false,
    }
}

/// A token that can continue the expression in front of it: an operator, or
/// the `(` that makes a call of a name.
pub open spec fn continues(t: Option<TokenView>) -> bool {
    match t {
        Some(TokenView::Operator(_, _)) => true,
        Some(TokenView::LParen(_)) => true,
        _ => false,
    }
}

/// Two tokens that end the expression in front of them in the same way: the
/// same token, or two tokens of which neither can continue an expression.
pub open spec fn same_stop(a: Option<TokenView>, b: Option<TokenView>) -> bool {
    same_token(a, b) || (!continues(a) && !continues(b))
}

/// What is asked of index `i` in a stretch that ends at `end`: the same token
/// in both sequences before the end, and the same stop at the end.
pub open spec fn corresponds(
    ts: Seq<TokenView>,
    us: Seq<TokenView>,
    shift: int,
    i: int,
    end: int,
) -> bool {
    if i < end {
        same_token(peek(ts, i), peek(us, i + shift))
    } else {
        same_stop(peek(ts, i), peek(us, i + shift))
    }
}

/// The tokens of `ts` from `lo` up to `hi` stand in `us` too, `shift` places
/// further on, and the token after them stops an expression in `us` as it
/// does in `ts`.
pub open spec fn alike(
    ts: Seq<TokenView>,
    us: Seq<TokenView>,
    shift: int,
    lo: int,
    hi: int,
) -> bool {
    forall|i: int| lo <= i <= hi ==> #[trigger] corresponds(ts, us, shift, i, hi)
}

/// The result `r`, with its index moved by `shift`.
pub open spec fn moved<T>(r: Parsed<T>, shift: int) -> Parsed<T> {
    match r {
        Ok((value, end)) => Ok((value, end + shift)),
        Err(e) => Err(e),
    }
}

proof fn lemma_alike_narrow(
    ts: Seq<TokenView>,
    us: Seq<TokenView>,
    shift: int,
    lo: int,
    hi: int,
    from: int,
    to: int,
)
    requires
        alike(ts, us, shift, lo, hi),
        lo <= from <= to <= hi,
    ensures
        alike(ts, us, shift, from, to),
{
    assert forall|i: int| from <= i <= to implies #[trigger] corresponds(ts, us, shift, i, to) by {
        assert(corresponds(ts, us, shift, i, hi));
    }
}

proof fn lemma_alike_at(
    ts: Seq<TokenView>,
    us: Seq<TokenView>,
    shift: int,
    lo: int,
    hi: int,
    i: int,
)
    requires
        alike(ts, us, shift, lo, hi),
        lo <= i <= hi,
    ensures
        i < hi ==> same_token(peek(ts, i), peek(us, i + shift)),
        same_stop(peek(ts, i), peek(us, i + shift)),
        precedence_at(ts, i) == precedence_at(us, i + shift),
{
    assert(corresponds(ts, us, shift, i, hi));
}

proof fn lemma_names_alike(ts: Seq<TokenView>, us: Seq<TokenView>, shift: int, p: int, hi: int)
    requires
        0 <= p,
        names_end(ts, p) < hi,
        alike(ts, us, shift, p, hi),
    ensures
        names_end(us, p + shift) == names_end(ts, p) + shift,
        names(us, p + shift, names_end(ts, p) + shift) == names(ts, p, names_end(ts, p)),
    decreases ts.len() - p,
{
    lemma_names_end(ts, p);
    lemma_alike_at(ts, us, shift, p, hi, p);
    match peek(ts, p) {
        Some(TokenView::Ident(_, _)) => {
            lemma_alike_narrow(ts, us, shift, p, hi, p + 1, hi);
            lemma_names_alike(ts, us, shift, p + 1, hi);
            let end = names_end(ts, p);
            assert forall|i: int| 0 <= i < end - p implies #[trigger] names(
                us,
                p + shift,
                end + shift,
            )[i] == names(ts, p, end)[i] by {
                lemma_alike_at(ts, us, shift, p, hi, p + i);
            }
            assert(names(us, p + shift, end + shift) =~= names(ts, p, end));
        },
        _ => {
            assert(names(us, p + shift, p + shift) =~= names(ts, p, p));
        },
    }
}

proof fn lemma_primary_local(ts: Seq<TokenView>, p: int, us: Seq<TokenView>, shift: int)
    requires
        primary(ts, p) is Ok,
    ensures
        p < primary(ts, p)->Ok_0.1 <= ts.len(),
        alike(ts, us, shift, p, primary(ts, p)->Ok_0.1) ==> primary(us, p + shift) == moved(
            primary(ts, p),
            shift,
        ),
    decreases ts.len() - p, 0nat,
{
    let end = primary(ts, p)->Ok_0.1;
    let like = alike(ts, us, shift, p, end);
    match peek(ts, p) {
        Some(TokenView::Numb(_, _)) => {
            if like {
                lemma_alike_at(ts, us, shift, p, end, p);
            }
        },
        Some(TokenView::String(_, _)) => {
            if like {
                lemma_alike_at(ts, us, shift, p, end, p);
            }
        },
        Some(TokenView::LParen(_)) => {
            lemma_expression_local(ts, p + 1, us, shift);
            let close = expression(ts, p + 1)->Ok_0.1;
            if like {
                lemma_alike_at(ts, us, shift, p, end, p);
                lemma_alike_at(ts, us, shift, p, end, close);
                lemma_alike_narrow(ts, us, shift, p, end, p + 1, close);
            }
        },
        Some(TokenView::Operator(_, _)) => {
            lemma_primary_local(ts, p + 1, us, shift);
            if like {
                lemma_alike_at(ts, us, shift, p, end, p);
                lemma_alike_narrow(ts, us, shift, p, end, p + 1, end);
            }
        },
        Some(TokenView::Ident(name, _)) => {
            if name == keyword_let() {
                lemma_binding_local(ts, p + 1, us, shift);
                if like {
                    lemma_alike_at(ts, us, shift, p, end, p);
                    lemma_alike_narrow(ts, us, shift, p, end, p + 1, end);
                }
            } else if name == keyword_fun() {
                lemma_function_local(ts, p + 1, us, shift);
                if like {
                    lemma_alike_at(ts, us, shift, p, end, p);
                    lemma_alike_narrow(ts, us, shift, p, end, p + 1, end);
                }
            } else if peek(ts, p + 1) matches Some(TokenView::LParen(_)) {
                lemma_arguments_local(ts, p + 2, us, shift);
                if like {
                    lemma_alike_at(ts, us, shift, p, end, p);
                    lemma_alike_at(ts, us, shift, p, end, p + 1);
                    lemma_alike_narrow(ts, us, shift, p, end, p + 2, end);
                }
            } else {
                if like {
                    lemma_alike_at(ts, us, shift, p, end, p);
                    lemma_alike_at(ts, us, shift, p, end, p + 1);
                }
            }
        },
        _ => {},
    }
}

proof fn lemma_binding_local(ts: Seq<TokenView>, p: int, us: Seq<TokenView>, shift: int)
    requires
        binding(ts, p) is Ok,
    ensures
        p < binding(ts, p)->Ok_0.1 <= ts.len(),
        alike(ts, us, shift, p, binding(ts, p)->Ok_0.1) ==> binding(us, p + shift) == moved(
            binding(ts, p),
            shift,
        ),
    decreases ts.len() - p, 0nat,
{
    let end = binding(ts, p)->Ok_0.1;
    match peek(ts, p) {
        Some(TokenView::Ident(name, _)) => {
            lemma_climb_local(ts, p + 1, AstView::Variable(name), 0, us, shift);
            if alike(ts, us, shift, p, end) {
                lemma_alike_at(ts, us, shift, p, end, p);
                lemma_alike_at(ts, us, shift, p, end, p + 1);
                lemma_alike_narrow(ts, us, shift, p, end, p + 1, end);
            }
        },
        _ => {},
    }
}

proof fn lemma_function_local(ts: Seq<TokenView>, p: int, us: Seq<TokenView>, shift: int)
    requires
        function(ts, p) is Ok,
    ensures
        p < function(ts, p)->Ok_0.1 <= ts.len(),
        alike(ts, us, shift, p, function(ts, p)->Ok_0.1) ==> function(us, p + shift) == moved(
            function(ts, p),
            shift,
        ),
    decreases ts.len() - p, 0nat,
{
    let end = function(ts, p)->Ok_0.1;
    let close = names_end(ts, p + 2);
    lemma_names_end(ts, p + 2);
    lemma_block_local(ts, close + 2, us, shift);
    if alike(ts, us, shift, p, end) {
        lemma_alike_at(ts, us, shift, p, end, p);
        lemma_alike_at(ts, us, shift, p, end, p + 1);
        lemma_alike_at(ts, us, shift, p, end, close);
        lemma_alike_at(ts, us, shift, p, end, close + 1);
        lemma_alike_narrow(ts, us, shift, p, end, p + 2, end);
        lemma_names_alike(ts, us, shift, p + 2, end);
        lemma_alike_narrow(ts, us, shift, p, end, close + 2, end);
        lemma_names_end(us, p + 2 + shift);
    }
}

proof fn lemma_arguments_local(ts: Seq<TokenView>, p: int, us: Seq<TokenView>, shift: int)
    requires
        arguments(ts, p) is Ok,
    ensures
        p < arguments(ts, p)->Ok_0.1 <= ts.len(),
        alike(ts, us, shift, p, arguments(ts, p)->Ok_0.1) ==> arguments(us, p + shift) == moved(
            arguments(ts, p),
            shift,
        ),
    decreases ts.len() - p, 1nat,
{
    let end = arguments(ts, p)->Ok_0.1;
    let like = alike(ts, us, shift, p, end);
    match peek(ts, p) {
        Some(TokenView::RParen(_)) => {
            if like {
                lemma_alike_at(ts, us, shift, p, end, p);
            }
        },
        None => {},
        _ => {
            lemma_primary_local(ts, p, us, shift);
            let next = primary(ts, p)->Ok_0.1;
            lemma_arguments_local(ts, next, us, shift);
            if like {
                lemma_alike_at(ts, us, shift, p, end, p);
                lemma_alike_narrow(ts, us, shift, p, end, p, next);
                lemma_alike_narrow(ts, us, shift, p, end, next, end);
            }
        },
    }
}

proof fn lemma_expression_local(ts: Seq<TokenView>, p: int, us: Seq<TokenView>, shift: int)
    requires
        expression(ts, p) is Ok,
    ensures
        p < expression(ts, p)->Ok_0.1 <= ts.len(),
        alike(ts, us, shift, p, expression(ts, p)->Ok_0.1) ==> expression(us, p + shift) == moved(
            expression(ts, p),
            shift,
        ),
    decreases ts.len() - p, 1nat,
{
    let end = expression(ts, p)->Ok_0.1;
    match peek(ts, p) {
        None => {},
        _ => {
            lemma_primary_local(ts, p, us, shift);
            let (left, next) = primary(ts, p)->Ok_0;
            lemma_climb_local(ts, next, left, 0, us, shift);
            if alike(ts, us, shift, p, end) {
                lemma_alike_at(ts, us, shift, p, end, p);
                lemma_alike_at(ts, us, shift, p, end, next - 1);
                lemma_alike_narrow(ts, us, shift, p, end, p, next);
                lemma_alike_narrow(ts, us, shift, p, end, next, end);
            }
        },
    }
}

/// An operator that [`climb`] takes: one that stands at `p` and binds at
/// least as tightly as `floor`.
pub open spec fn taken(ts: Seq<TokenView>, p: int, floor: int) -> bool {
    peek(ts, p) matches Some(TokenView::Operator(op, _)) && 0 <= precedence(op) && floor
        <= precedence(op)
}

proof fn lemma_climb_local(
    ts: Seq<TokenView>,
    p: int,
    left: AstView,
    floor: int,
    us: Seq<TokenView>,
    shift: int,
)
    requires
        climb(ts, p, left, floor) is Ok,
        p <= ts.len(),
    ensures
        p <= climb(ts, p, left, floor)->Ok_0.1 <= ts.len(),
        taken(ts, p, floor) ==> p + 1 < climb(ts, p, left, floor)->Ok_0.1,
        alike(ts, us, shift, p, climb(ts, p, left, floor)->Ok_0.1) ==> climb(
            us,
            p + shift,
            left,
            floor,
        ) == moved(climb(ts, p, left, floor), shift),
    decreases ts.len() - p, 0nat,
{
    let end = climb(ts, p, left, floor)->Ok_0.1;
    let like = alike(ts, us, shift, p, end);
    if taken(ts, p, floor) {
        let op = peek(ts, p)->Some_0->Operator_0;
        lemma_primary_local(ts, p + 1, us, shift);
        let (first, next) = primary(ts, p + 1)->Ok_0;
        assert(after(ts, p, next) == next);
        let deeper = right_operand_floor(op) <= precedence_at(ts, next);
        if deeper {
            lemma_climb_local(ts, next, first, right_operand_floor(op), us, shift);
        }
        let (right, stop) = if deeper {
            climb(ts, next, first, right_operand_floor(op))->Ok_0
        } else {
            (first, next)
        };
        assert(after(ts, p, stop) == stop);
        let joined = AstView::BinaryOp(op, Box::new(left), Box::new(right));
        lemma_climb_local(ts, stop, joined, floor, us, shift);
        if like {
            lemma_alike_at(ts, us, shift, p, end, p);
            lemma_alike_at(ts, us, shift, p, end, next);
            lemma_alike_at(ts, us, shift, p, end, stop);
            lemma_alike_narrow(ts, us, shift, p, end, p + 1, next);
            lemma_alike_narrow(ts, us, shift, p, end, next, stop);
            lemma_alike_narrow(ts, us, shift, p, end, stop, end);
            lemma_alike_at(ts, us, shift, p, end, next - 1);
            lemma_alike_at(ts, us, shift, p, end, stop - 1);
            assert(peek(us, p + shift) matches Some(TokenView::Operator(o, _)) && o == op);
            assert(primary(us, p + 1 + shift) == moved(primary(ts, p + 1), shift));
            assert(after(us, p + shift, next + shift) == next + shift);
            assert(after(us, p + shift, stop + shift) == stop + shift);
        }
    } else {
        if like {
            lemma_alike_at(ts, us, shift, p, end, p);
        }
    }
}

/// What [`block`] gave, with its index moved by `shift`.
pub open spec fn moved_block(
    r: Result<(Seq<AstView>, (int, bool)), ParseErrorView>,
    shift: int,
) -> Result<(Seq<AstView>, (int, bool)), ParseErrorView> {
    match r {
        Ok((statements, (stop, closed))) => Ok((statements, (stop + shift, closed))),
        Err(e) => Err(e),
    }
}

proof fn lemma_block_local(ts: Seq<TokenView>, p: int, us: Seq<TokenView>, shift: int)
    requires
        block(ts, p) is Ok,
        p <= ts.len(),
    ensures
        p <= block(ts, p)->Ok_0.1.0 <= ts.len(),
        block(ts, p)->Ok_0.1.1 ==> p < block(ts, p)->Ok_0.1.0,
        block(ts, p)->Ok_0.1.1 && alike(ts, us, shift, p, block(ts, p)->Ok_0.1.0) ==> block(
            us,
            p + shift,
        ) == moved_block(block(ts, p), shift),
    decreases ts.len() - p, 2nat,
{
    let (end, closed) = block(ts, p)->Ok_0.1;
    let like = closed && alike(ts, us, shift, p, end);
    match peek(ts, p) {
        None => {},
        Some(TokenView::EOF(_)) => {},
        Some(TokenView::EndBlock(_)) => {
            if like {
                lemma_alike_at(ts, us, shift, p, end, p);
            }
        },
        Some(TokenView::Delim(_)) => {
            lemma_block_local(ts, p + 1, us, shift);
            if like {
                lemma_alike_at(ts, us, shift, p, end, p);
                lemma_alike_narrow(ts, us, shift, p, end, p + 1, end);
            }
        },
        _ => {
            lemma_expression_local(ts, p, us, shift);
            let next = expression(ts, p)->Ok_0.1;
            lemma_block_local(ts, next, us, shift);
            if like {
                lemma_alike_at(ts, us, shift, p, end, p);
                lemma_alike_narrow(ts, us, shift, p, end, p, next);
                lemma_alike_narrow(ts, us, shift, p, end, next, end);
            }
        },
    }
}

/// An expression is parsed the same wherever it stands and whatever follows
/// it: where `ts` holds an expression from `p` on, and `us` holds the same
/// tokens from `p + shift` on, followed by a token that continues an
/// expression no more than the one in `ts` does, `us` holds the same
/// expression there.
pub proof fn lemma_expression_independent(
    ts: Seq<TokenView>,
    p: int,
    us: Seq<TokenView>,
    shift: int,
)
    requires
        expression(ts, p) is Ok,
        alike(ts, us, shift, p, expression(ts, p)->Ok_0.1),
    ensures
        expression(us, p + shift) == moved(expression(ts, p), shift),
{
    lemma_expression_local(ts, p, us, shift);
}

/// The law of parentheses. Where the tokens `alone` are one expression and
/// the end of input, and `wrapped` holds `(`, the same tokens and `)`, then
/// `wrapped` begins with a primary expression that is the same tree: the
/// parentheses group, and leave no other mark. Where nothing but the end of
/// input follows the `)`, the two sequences hold the same statements.
pub proof fn lemma_parentheses(alone: Seq<TokenView>, wrapped: Seq<TokenView>)
    requires
        alone.len() >= 1,
        alone.last() is EOF,
        expression(alone, 0) is Ok,
        expression(alone, 0)->Ok_0.1 == alone.len() - 1,
        wrapped.len() >= alone.len() + 1,
        wrapped[0] is LParen,
        forall|i: int|
            0 <= i < alone.len() - 1 ==> same_lexeme(alone[i], #[trigger] wrapped[i + 1]),
        wrapped[alone.len() as int] is RParen,
    ensures
        primary(wrapped, 0) == Ok::<(AstView, int), ParseErrorView>(
            (expression(alone, 0)->Ok_0.0, alone.len() as int + 1),
        ),
        wrapped.len() == alone.len() + 2 && wrapped.last() is EOF ==> parse_tokens(wrapped)
            == parse_tokens(alone),
{
    let n = alone.len() - 1;
    let tree = expression(alone, 0)->Ok_0.0;
    assert forall|i: int| 0 <= i <= n implies #[trigger] corresponds(alone, wrapped, 1, i, n) by {
        if i < n {
            assert(same_lexeme(alone[i], wrapped[i + 1]));
        }
    }
    lemma_expression_local(alone, 0, wrapped, 1);
    assert(expression(wrapped, 1) == Ok::<(AstView, int), ParseErrorView>((tree, n + 1)));
    assert(primary(wrapped, 0) == Ok::<(AstView, int), ParseErrorView>((tree, n + 2)));
    if wrapped.len() == alone.len() + 2 && wrapped.last() is EOF {
        assert(wrapped[n + 2] is EOF);
        assert(after(wrapped, 0, n + 2) == n + 2);
        assert(climb(wrapped, n + 2, tree, 0) == Ok::<(AstView, int), ParseErrorView>(
            (tree, n + 2),
        ));
        assert(expression(wrapped, 0) == Ok::<(AstView, int), ParseErrorView>((tree, n + 2)));
        assert(block(wrapped, n + 2) == Ok::<(Seq<AstView>, (int, bool)), ParseErrorView>(
            (Seq::empty(), (n + 2, false)),
        ));
        assert(block(wrapped, 0) == Ok::<(Seq<AstView>, (int, bool)), ParseErrorView>(
            (seq![tree] + Seq::empty(), (n + 2, false)),
        ));
        assert(peek(alone, 0) is Some);
        assert(!(alone[0] is EOF) && !(alone[0] is EndBlock) && !(alone[0] is Delim));
        assert(after(alone, 0, n) == n);
        assert(block(alone, n) == Ok::<(Seq<AstView>, (int, bool)), ParseErrorView>(
            (Seq::empty(), (n, false)),
        ));
        assert(block(alone, 0) == Ok::<(Seq<AstView>, (int, bool)), ParseErrorView>(
            (seq![tree] + Seq::empty(), (n, false)),
        ));
    }
}

} // verus!
