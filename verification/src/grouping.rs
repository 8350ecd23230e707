//! How binary operators group their operands: the operator that binds
//! tighter gets its operands first, and operators that bind equally tightly
//! group from the left, or from the right where they are `**`.

use crate::parser::{
    after, climb, expression, peek, precedence, precedence_at, primary, right_associative,
    right_operand_floor, AstView, ParseErrorView,
};
use crate::tokenizer::TokenView;
use vstd::prelude::*;

verus! {

/// The tree of `operator` between `left` and `right`.
pub open spec fn joined(operator: Seq<char>, left: AstView, right: AstView) -> AstView {
    AstView::BinaryOp(operator, Box::new(left), Box::new(right))
}

/// The tokens are three numbers with two binary operators between them, and
/// the end of input: `a first b second c`.
pub open spec fn two_operators(
    ts: Seq<TokenView>,
    a: Seq<char>,
    first: Seq<char>,
    b: Seq<char>,
    second: Seq<char>,
    c: Seq<char>,
) -> bool {
    &&& ts.len() == 6
    &&& ts[0] matches TokenView::Numb(text, _) && text == a
    &&& ts[1] matches TokenView::Operator(text, _) && text == first
    &&& ts[2] matches TokenView::Numb(text, _) && text == b
    &&& ts[3] matches TokenView::Operator(text, _) && text == second
    &&& ts[4] matches TokenView::Numb(text, _) && text == c
    &&& ts[5] is EOF
    &&& 0 <= precedence(first)
    &&& 0 <= precedence(second)
}

/// `a first (b second c)`.
pub open spec fn grouped_right(
    a: Seq<char>,
    first: Seq<char>,
    b: Seq<char>,
    second: Seq<char>,
    c: Seq<char>,
) -> AstView {
    joined(first, AstView::Number(a), joined(second, AstView::Number(b), AstView::Number(c)))
}

/// `(a first b) second c`.
pub open spec fn grouped_left(
    a: Seq<char>,
    first: Seq<char>,
    b: Seq<char>,
    second: Seq<char>,
    c: Seq<char>,
) -> AstView {
    joined(second, joined(first, AstView::Number(a), AstView::Number(b)), AstView::Number(c))
}

/// Of two operators between three operands, the second takes the middle
/// operand exactly if it binds tighter than the first, or as tightly where
/// the first groups from the right.
pub proof fn lemma_two_operators(
    ts: Seq<TokenView>,
    a: Seq<char>,
    first: Seq<char>,
    b: Seq<char>,
    second: Seq<char>,
    c: Seq<char>,
)
    requires
        two_operators(ts, a, first, b, second, c),
    ensures
        expression(ts, 0) == Ok::<(AstView, int), ParseErrorView>(
            (
                if right_operand_floor(first) <= precedence(second) {
                    grouped_right(a, first, b, second, c)
                } else {
                    grouped_left(a, first, b, second, c)
                },
                5,
            ),
        ),
{
    let na = AstView::Number(a);
    let nb = AstView::Number(b);
    let nc = AstView::Number(c);
    assert(primary(ts, 0) == Ok::<(AstView, int), ParseErrorView>((na, 1)));
    assert(primary(ts, 2) == Ok::<(AstView, int), ParseErrorView>((nb, 3)));
    assert(primary(ts, 4) == Ok::<(AstView, int), ParseErrorView>((nc, 5)));
    assert(after(ts, 0, 1) == 1 && after(ts, 1, 3) == 3 && after(ts, 3, 5) == 5 && after(ts, 1, 5)
        == 5);
    assert(precedence_at(ts, 3) == precedence(second));
    assert(precedence_at(ts, 5) == -1);
    assert(right_operand_floor(second) >= 0);
    assert(right_operand_floor(first) >= 0);
    assert forall|tree: AstView, floor: int| #[trigger]
        climb(ts, 5, tree, floor) == Ok::<(AstView, int), ParseErrorView>((tree, 5)) by {}
    assert forall|left: AstView, floor: int| floor <= precedence(second) implies #[trigger] climb(
        ts,
        3,
        left,
        floor,
    ) == Ok::<(AstView, int), ParseErrorView>((joined(second, left, nc), 5)) by {
        assert(climb(ts, 5, joined(second, left, nc), floor) == Ok::<
            (AstView, int),
            ParseErrorView,
        >((joined(second, left, nc), 5)));
    }
    if right_operand_floor(first) <= precedence(second) {
        assert(climb(ts, 3, nb, right_operand_floor(first)) == Ok::<(AstView, int), ParseErrorView>(
            (joined(second, nb, nc), 5),
        ));
        assert(climb(ts, 5, grouped_right(a, first, b, second, c), 0) == Ok::<
            (AstView, int),
            ParseErrorView,
        >((grouped_right(a, first, b, second, c), 5)));
    } else {
        assert(climb(ts, 3, joined(first, na, nb), 0) == Ok::<(AstView, int), ParseErrorView>(
            (grouped_left(a, first, b, second, c), 5),
        ));
    }
    assert(peek(ts, 0) is Some);
}

/// An operator that binds tighter than the one before it takes the operand
/// between them: in `2 + 3 * 4` the product is formed first.
pub proof fn lemma_tighter_operator_first(
    ts: Seq<TokenView>,
    a: Seq<char>,
    first: Seq<char>,
    b: Seq<char>,
    second: Seq<char>,
    c: Seq<char>,
)
    requires
        two_operators(ts, a, first, b, second, c),
        precedence(first) < precedence(second),
    ensures
        expression(ts, 0) == Ok::<(AstView, int), ParseErrorView>(
            (grouped_right(a, first, b, second, c), 5),
        ),
{
    lemma_two_operators(ts, a, first, b, second, c);
}

/// An operator that binds less tightly than the one before it leaves the
/// operand between them to that one: in `2 * 3 + 4` the product is formed
/// first.
pub proof fn lemma_looser_operator_last(
    ts: Seq<TokenView>,
    a: Seq<char>,
    first: Seq<char>,
    b: Seq<char>,
    second: Seq<char>,
    c: Seq<char>,
)
    requires
        two_operators(ts, a, first, b, second, c),
        precedence(second) < precedence(first),
    ensures
        expression(ts, 0) == Ok::<(AstView, int), ParseErrorView>(
            (grouped_left(a, first, b, second, c), 5),
        ),
{
    lemma_two_operators(ts, a, first, b, second, c);
}

/// Operators that bind equally tightly group from the left, except `**`,
/// which groups from the right: `2 ** 3 ** 2` is `2 ** (3 ** 2)`, and
/// `1 - 2 - 3` is `(1 - 2) - 3`.
pub proof fn lemma_equal_operators(
    ts: Seq<TokenView>,
    a: Seq<char>,
    first: Seq<char>,
    b: Seq<char>,
    second: Seq<char>,
    c: Seq<char>,
)
    requires
        two_operators(ts, a, first, b, second, c),
        precedence(first) == precedence(second),
    ensures
        expression(ts, 0) == Ok::<(AstView, int), ParseErrorView>(
            (
                if right_associative(first) {
                    grouped_right(a, first, b, second, c)
                } else {
                    grouped_left(a, first, b, second, c)
                },
                5,
            ),
        ),
        right_associative(first) <==> first == seq!['*', '*'] && second == seq!['*', '*'],
{
    lemma_two_operators(ts, a, first, b, second, c);
    assert(seq!['*', '*'].len() == 2);
    assert(forall|x: char| (#[trigger] seq![x]).len() == 1);
}

} // verus!
