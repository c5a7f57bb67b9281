//! The order in which the parts of expressions are visited.

use crate::frontend::ast::visit::{
    block_visit, expression_visit, expression_walk, expressions_walk, statement_walk,
    statements_walk, type_visit, Node, Visit,
};
use crate::frontend::ast::{Expression, ExpressionKind, Statement};
use vstd::prelude::*;

verus! {

/// The pieces of a visit, one behind another, with what lies around them.
pub open spec fn is_made_of<'ast>(
    walk: Seq<Visit<'ast>>,
    a: Seq<Visit<'ast>>,
    first: Seq<Visit<'ast>>,
    b: Seq<Visit<'ast>>,
    second: Seq<Visit<'ast>>,
    c: Seq<Visit<'ast>>,
) -> bool {
    walk == a + first + b + second + c
}

/// Whether one part is visited as a whole before another one.
pub open spec fn comes_before<'ast>(
    walk: Seq<Visit<'ast>>,
    first: Seq<Visit<'ast>>,
    second: Seq<Visit<'ast>>,
) -> bool {
    exists|a: Seq<Visit<'ast>>, b: Seq<Visit<'ast>>, c: Seq<Visit<'ast>>| #[trigger]
        is_made_of(walk, a, first, b, second, c)
}

proof fn lemma_pair<'ast>(
    walk: Seq<Visit<'ast>>,
    first: Seq<Visit<'ast>>,
    second: Seq<Visit<'ast>>,
    c: Seq<Visit<'ast>>,
)
    requires
        walk == first + second + c,
    ensures
        comes_before(walk, first, second),
{
    let none = Seq::<Visit<'ast>>::empty();
    assert(walk =~= none + first + none + second + c);
    assert(is_made_of(walk, none, first, none, second, c));
}

/// A visit enters an expression first, and leaves it last. Between that, the left
/// operand is visited before the right one, a target before an index, a condition
/// before what depends on it, and what is cast before the type.
pub proof fn law_parts_in_order<'ast>(e: &'ast Expression)
    ensures
        expression_visit(e).len() >= 2,
        expression_visit(e).first() == Visit::Enter(Node::Expression(e)),
        expression_visit(e).last() == Visit::Leave(Node::Expression(e)),
        expression_visit(e).subrange(1, expression_visit(e).len() - 1) == expression_walk(e),
        match e.kind {
            ExpressionKind::Binary { lhs, rhs, .. }
            | ExpressionKind::Assignment { lhs, rhs }
            | ExpressionKind::OperatorAssignment { lhs, rhs, .. } => comes_before(
                expression_walk(e),
                expression_visit(&*lhs),
                expression_visit(&*rhs),
            ),
            ExpressionKind::Subscript { target, index } => comes_before(
                expression_walk(e),
                expression_visit(&*target),
                expression_visit(&*index),
            ),
            ExpressionKind::Cast { expression: value, ty } => comes_before(
                expression_walk(e),
                expression_visit(&*value),
                type_visit(&*ty),
            ),
            ExpressionKind::If { condition, positive, negative } => {
                &&& comes_before(
                    expression_walk(e),
                    expression_visit(&*condition),
                    block_visit(&*positive),
                )
                &&& negative matches Some(other) ==> comes_before(
                    expression_walk(e),
                    block_visit(&*positive),
                    expression_visit(&*other),
                )
            },
            ExpressionKind::While { condition, block } => comes_before(
                expression_walk(e),
                expression_visit(&*condition),
                block_visit(&*block),
            ),
            ExpressionKind::Grouping(inner) => expression_walk(e) == expression_visit(&*inner),
            ExpressionKind::Unary { operand, .. } => expression_walk(e) == expression_visit(
                &*operand,
            ),
            _ => true,
        },
{
    let walk = expression_walk(e);
    let none = Seq::<Visit<'ast>>::empty();
    assert(expression_visit(e).subrange(1, expression_visit(e).len() - 1) =~= walk);
    match e.kind {
        ExpressionKind::Binary { lhs, rhs, .. }
        | ExpressionKind::Assignment { lhs, rhs }
        | ExpressionKind::OperatorAssignment { lhs, rhs, .. } => {
            assert(walk =~= expression_visit(&*lhs) + expression_visit(&*rhs) + none);
            lemma_pair(walk, expression_visit(&*lhs), expression_visit(&*rhs), none);
        },
        ExpressionKind::Subscript { target, index } => {
            assert(walk =~= expression_visit(&*target) + expression_visit(&*index) + none);
            lemma_pair(walk, expression_visit(&*target), expression_visit(&*index), none);
        },
        ExpressionKind::Cast { expression: value, ty } => {
            assert(walk =~= expression_visit(&*value) + type_visit(&*ty) + none);
            lemma_pair(walk, expression_visit(&*value), type_visit(&*ty), none);
        },
        ExpressionKind::If { condition, positive, negative } => {
            let rest = match negative {
                Some(other) => expression_visit(&*other),
                None => none,
            };
            assert(walk =~= expression_visit(&*condition) + block_visit(&*positive) + rest);
            lemma_pair(walk, expression_visit(&*condition), block_visit(&*positive), rest);
            if let Some(other) = negative {
                assert(walk =~= expression_visit(&*condition) + block_visit(&*positive) + none
                    + expression_visit(&*other) + none);
                assert(is_made_of(
                    walk,
                    expression_visit(&*condition),
                    block_visit(&*positive),
                    none,
                    expression_visit(&*other),
                    none,
                ));
            }
        },
        ExpressionKind::While { condition, block } => {
            assert(walk =~= expression_visit(&*condition) + block_visit(&*block) + none);
            lemma_pair(walk, expression_visit(&*condition), block_visit(&*block), none);
        },
        _ => {},
    }
}

/// The expressions of a list are all visited, each behind those before it.
pub proof fn law_list_in_order<'ast>(list: &'ast Vec<Expression>, n: nat, i: nat)
    requires
        n <= list@.len(),
        i < n,
    ensures
        expressions_walk(list, i).len() + expression_visit(&list@[i as int]).len()
            <= expressions_walk(list, n).len(),
        expressions_walk(list, n).take(expressions_walk(list, i).len() as int) == expressions_walk(
            list,
            i,
        ),
        expressions_walk(list, n).subrange(
            expressions_walk(list, i).len() as int,
            (expressions_walk(list, i).len() + expression_visit(&list@[i as int]).len()) as int,
        ) == expression_visit(&list@[i as int]),
    decreases n,
{
    let all = expressions_walk(list, n);
    let before = expressions_walk(list, (n - 1) as nat);
    let from = expressions_walk(list, i).len() as int;
    let to = from + expression_visit(&list@[i as int]).len();
    if i + 1 < n {
        law_list_in_order(list, (n - 1) as nat, i);
        assert(all.take(from) =~= before.take(from));
        assert(all.subrange(from, to) =~= before.subrange(from, to));
    } else {
        assert(all.take(from) =~= before);
        assert(all.subrange(from, to) =~= expression_visit(&list@[i as int]));
    }
}

/// The statements of a block are all visited, each behind those before it.
pub proof fn law_statements_in_order<'ast>(list: &'ast Vec<Statement>, n: nat, i: nat)
    requires
        n <= list@.len(),
        i < n,
    ensures
        ({
            let from = statements_walk(list, i).len() as int;
            let inner = statement_walk(&list@[i as int]);
            let walk = statements_walk(list, n);
            &&& from + inner.len() + 2 <= walk.len()
            &&& walk.take(from) == statements_walk(list, i)
            &&& walk[from] == Visit::Enter(Node::Statement(&list@[i as int]))
            &&& walk.subrange(from + 1, from + 1 + inner.len()) == inner
            &&& walk[from + 1 + inner.len()] == Visit::Leave(Node::Statement(&list@[i as int]))
        }),
    decreases n,
{
    let all = statements_walk(list, n);
    let before = statements_walk(list, (n - 1) as nat);
    let from = statements_walk(list, i).len() as int;
    let inner = statement_walk(&list@[i as int]);
    if i + 1 < n {
        law_statements_in_order(list, (n - 1) as nat, i);
        assert(all.take(from) =~= before.take(from));
        assert(all.subrange(from + 1, from + 1 + inner.len()) =~= before.subrange(
            from + 1,
            from + 1 + inner.len(),
        ));
        assert(all[from] == before[from]);
        assert(all[from + 1 + inner.len()] == before[from + 1 + inner.len()]);
    } else {
        assert(all.take(from) =~= before);
        assert(all.subrange(from + 1, from + 1 + inner.len()) =~= inner);
    }
}

} // verus!
