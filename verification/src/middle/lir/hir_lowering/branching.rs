//! What the code for logical operators, conditionals and loops does.

use crate::middle::hir::{Block, Expression, ExpressionKind, HirId};
use crate::middle::lir::hir_lowering::keeping::{law_block_flows, law_expression_flows};
use crate::middle::lir::hir_lowering::laws::goes_on;
use crate::middle::lir::hir_lowering::lowered::{
    block_lowered, conditional_started, if_lowered, logical_ended, logical_lowered,
    long_conditional, while_lowered, within, Conditional,
};
use crate::middle::lir::hir_lowering::rules::{
    branch_merged, break_rule, breaks_patched, conditional_joined, continue_rule, logical_joined,
    loop_joined, selects, LoopBlocks,
};
use crate::middle::lir::hir_lowering::state::{LoopView, Lowering, Source};
use crate::middle::lir::running::{
    comes_to, is_faithful, is_next, lemma_comes_on, lemma_comes_step, lemma_next_unique, run_step,
    start_of, Machine, Point, Running,
};
use crate::middle::lir::{
    ends_in_return, BlockId, BlockView, InstructionView, Operand, RegisterId,
};
use crate::middle::ty::Ty;
use vstd::prelude::*;

verus! {

/// The blocks of a state by number.
pub open spec fn graph(st: Lowering) -> Map<u32, BlockView> {
    Map::new(|k: u32| (k as int) < st.blocks.len(), |k: u32| st.blocks[k as int])
}

/// The end of a block as far as it has been filled.
pub open spec fn end_of(st: Lowering, id: BlockId, from: u32) -> Point {
    Point { block: id.0, at: st.block(id).instructions.len(), from }
}

/// The state once the value of an expression has been computed.
pub open spec fn valued(src: Source, st: Lowering, e: &Expression) -> Option<Lowering> {
    within(src, st, None, false, *e)
}

/// The logical operator that joins two values.
pub open spec fn logical(is_and: bool, p: bool, q: bool) -> bool {
    if is_and {
        p && q
    } else {
        p || q
    }
}

/// Whether code goes on at the end of the current block of a state, and the value
/// of an expression is true there or not.
pub open spec fn goes_on_with<S>(
    m: Machine<S>,
    st: Lowering,
    p: Point,
    s: S,
    id: HirId,
    value: bool,
) -> bool {
    exists|from: u32, t: S| #[trigger]
        comes_to(m, graph(st), p, s, end_of(st, st.stack.last(), from), t) && (m.test)(
            t,
            st.operand(id),
        ) == value
}

/// Where the code of both operands of a logical operator has been written, the
/// code behind the first one goes on, with the value of the operator, if the first
/// operand decides, and else with the second operand. The code behind that one
/// goes on with the value of the operator.
proof fn lemma_logical_ended<S>(
    m: Machine<S>,
    st: Lowering,
    id: HirId,
    is_and: bool,
    lhs_last: BlockId,
    rhs_first: BlockId,
    lhs: HirId,
    rhs: HirId,
    p: bool,
    q: bool,
    s: S,
    t: S,
    from: u32,
    back: u32,
)
    requires
        is_faithful(m),
        logical_ended(st, id, is_and, lhs_last, rhs_first, lhs, rhs) is Some,
        st.stack.len() > 0,
        st.blocks.len() + 2 <= u32::MAX,
        (lhs_last.0 as int) < st.blocks.len() - 1,
        (m.test)(s, st.operand(lhs)) == p,
        (m.test)(t, st.operand(rhs)) == q,
    ensures
        ({
            let after = logical_ended(st, id, is_and, lhs_last, rhs_first, lhs, rhs)->0;
            let behind_lhs = end_of(st, lhs_last, from);
            let behind_rhs = end_of(st, st.last_block(), back);
            let value = logical(is_and, p, q);
            if p == is_and {
                &&& comes_to(
                    m,
                    graph(after),
                    behind_lhs,
                    s,
                    start_of(rhs_first.0, lhs_last.0),
                    s,
                )
                &&& goes_on_with(m, after, behind_rhs, t, id, value)
            } else {
                goes_on_with(m, after, behind_lhs, s, id, value)
            }
        }),
{
    reveal(logical_joined);
    let after = logical_ended(st, id, is_and, lhs_last, rhs_first, lhs, rhs)->0;
    let rhs_last = st.last_block();
    let n = st.blocks.len() as u32;
    let fallthrough = BlockId(n);
    let merge = BlockId((n + 1) as u32);
    let blocks = graph(after);
    assert(rhs_last.0 as int == st.blocks.len() - 1);
    let phi = blocks[merge.0].instructions;
    assert(after.stack.last() == merge);
    assert(phi.len() == 1);
    assert(phi[0] is Phi);
    let reg = phi[0]->Phi_destination;
    assert(after.operand(id) == Operand::Register(reg));
    let sources = phi[0]->Phi_sources;
    let first = end_of(st, lhs_last, from);
    let second = end_of(st, rhs_last, back);
    assert(blocks[lhs_last.0].instructions[first.at as int] is Branch);
    assert(blocks[rhs_last.0].instructions[second.at as int] is Branch);
    assert(blocks[fallthrough.0].instructions =~= seq![
        InstructionView::Jump { destination: merge },
    ]);
    // from the end of the first operand
    let next = run_step(m, blocks, first, s);
    assert(next is At);
    if p != is_and {
        let into = start_of(merge.0, lhs_last.0);
        assert(next == Running::At(into, s));
        lemma_comes_step(m, blocks, first, s, into, s);
        lemma_phi(m, after, merge, lhs_last.0, s);
        let u = (m.fill)(s, reg, sources[lhs_last.0]);
        lemma_comes_on(m, blocks, first, s, into, s, end_of(after, merge, lhs_last.0), u);
    } else {
        lemma_comes_step(m, blocks, first, s, start_of(rhs_first.0, lhs_last.0), s);
    }
    // from the end of the second operand
    if q != is_and {
        let into = start_of(merge.0, rhs_last.0);
        assert(run_step(m, blocks, second, t) == Running::At(into, t));
        lemma_comes_step(m, blocks, second, t, into, t);
        lemma_phi(m, after, merge, rhs_last.0, t);
        let u = (m.fill)(t, reg, sources[rhs_last.0]);
        lemma_comes_on(m, blocks, second, t, into, t, end_of(after, merge, rhs_last.0), u);
    } else {
        let into = start_of(fallthrough.0, rhs_last.0);
        assert(run_step(m, blocks, second, t) == Running::At(into, t));
        lemma_comes_step(m, blocks, second, t, into, t);
        let merged = start_of(merge.0, fallthrough.0);
        assert(run_step(m, blocks, into, t) == Running::At(merged, t));
        lemma_comes_step(m, blocks, into, t, merged, t);
        lemma_comes_on(m, blocks, second, t, into, t, merged, t);
        lemma_phi(m, after, merge, fallthrough.0, t);
        let u = (m.fill)(t, reg, sources[fallthrough.0]);
        lemma_comes_on(m, blocks, second, t, merged, t, end_of(after, merge, fallthrough.0), u);
    }
}

/// A block that is nothing but a phi selects by where control came from.
proof fn lemma_phi<S>(m: Machine<S>, st: Lowering, merge: BlockId, from: u32, s: S)
    requires
        (merge.0 as int) < st.blocks.len(),
        st.block(merge).instructions.len() == 1,
        st.block(merge).instructions[0] is Phi,
        st.block(merge).instructions[0]->Phi_sources.contains_key(from),
    ensures
        ({
            let phi = st.block(merge).instructions[0];
            comes_to(
                m,
                graph(st),
                start_of(merge.0, from),
                s,
                end_of(st, merge, from),
                (m.fill)(s, phi->Phi_destination, phi->Phi_sources[from]),
            )
        }),
{
    let phi = st.block(merge).instructions[0];
    lemma_comes_step(
        m,
        graph(st),
        start_of(merge.0, from),
        s,
        end_of(st, merge, from),
        (m.fill)(s, phi->Phi_destination, phi->Phi_sources[from]),
    );
}

/// The code of a logical operator, run with operands `p` and `q`, yields `p && q`
/// or `p || q`. Where the first operand decides, the code behind it goes on with
/// that value, and the second operand is skipped. Else it goes on with the second
/// operand, and the code behind that one goes on with the value.
pub proof fn law_logical_operator<S>(
    m: Machine<S>,
    src: Source,
    st: Lowering,
    e: &Expression,
    p: bool,
    q: bool,
    s: S,
    t: S,
    from: u32,
    back: u32,
)
    requires
        is_faithful(m),
        logical_lowered(src, st, *e) is Some,
        (logical_lowered(src, st, *e)->0).blocks.len() <= u32::MAX,
        e.kind matches ExpressionKind::Binary { lhs, rhs, .. } && {
            let left = valued(src, st, &*lhs)->0;
            let first = left.with_block();
            let right = valued(src, first.st.pushed(first.id), &*rhs)->0;
            &&& left.has_current()
            &&& (m.test)(s, right.operand(lhs.hir_id)) == p
            &&& (m.test)(t, right.operand(rhs.hir_id)) == q
        },
    ensures
        ({
            let (lhs, rhs) = (e.kind->Binary_lhs, e.kind->Binary_rhs);
            let is_and = e.kind->Binary_operator is LogicalAnd;
            let left = valued(src, st, &*lhs)->0;
            let first = left.with_block();
            let right = valued(src, first.st.pushed(first.id), &*rhs)->0;
            let after = logical_lowered(src, st, *e)->0;
            let behind_lhs = end_of(right, left.stack.last(), from);
            let behind_rhs = end_of(right, right.last_block(), back);
            let value = if is_and {
                p && q
            } else {
                p || q
            };
            if p == is_and {
                &&& comes_to(
                    m,
                    graph(after),
                    behind_lhs,
                    s,
                    start_of(first.id.0, left.stack.last().0),
                    s,
                )
                &&& goes_on_with(m, after, behind_rhs, t, e.hir_id, value)
            } else {
                goes_on_with(m, after, behind_lhs, s, e.hir_id, value)
            }
        }),
{
    let (lhs, rhs) = (e.kind->Binary_lhs, e.kind->Binary_rhs);
    let is_and = e.kind->Binary_operator is LogicalAnd;
    let left = valued(src, st, &*lhs)->0;
    let first = left.with_block();
    let entered = first.st.pushed(first.id);
    let right = valued(src, entered, &*rhs)->0;
    law_expression_flows(src, entered.entering(None, false), &*rhs);
    reveal(goes_on);
    reveal(logical_joined);
    lemma_logical_ended(
        m,
        right.popped(),
        e.hir_id,
        is_and,
        left.stack.last(),
        first.id,
        lhs.hir_id,
        rhs.hir_id,
        p,
        q,
        s,
        t,
        from,
        back,
    );
}

/// Whether code goes on at the end of the current block of a state, with another
/// state of the machine.
pub open spec fn goes_on_as<S>(m: Machine<S>, st: Lowering, p: Point, s: S, t: S) -> bool {
    exists|from: u32| #[trigger]
        comes_to(m, graph(st), p, s, end_of(st, st.stack.last(), from), t)
}

/// Whether code goes on at the end of the current block of a state.
pub open spec fn goes_on_plainly<S>(m: Machine<S>, st: Lowering, p: Point, s: S) -> bool {
    goes_on_as(m, st, p, s, s)
}

/// Whether code goes on at the end of the current block of a state, with the
/// register of an expression filled with a value.
pub open spec fn goes_on_filled<S>(
    m: Machine<S>,
    st: Lowering,
    p: Point,
    s: S,
    id: HirId,
    value: Operand,
) -> bool {
    &&& st.operand(id) is Register
    &&& goes_on_as(m, st, p, s, (m.fill)(s, st.operand(id)->Register_0, value))
}

/// The states while a conditional is lowered.
pub struct ConditionalStates {
    /// Its condition is known.
    pub tested: Lowering,
    /// Its first branch is about to be lowered, in the current block.
    pub entered: Lowering,
    /// Its first branch has been lowered.
    pub taken: Lowering,
    pub started: Conditional,
}

/// The states while a conditional is lowered, up to the end of its first branch.
pub open spec fn conditional_states(
    src: Source,
    st: Lowering,
    e: &Expression,
) -> ConditionalStates {
    let tested = valued(src, st, &*e.kind->If_condition)->0;
    let (begun, started) = conditional_started(
        src,
        tested,
        e.hir_id,
        e.kind->If_condition.hir_id,
    )->0;
    let entered = begun.pushed(started.positive);
    let done = block_value(
        src,
        entered.entering(started.aggregate, false),
        &*e.kind->If_positive,
    )->0;
    ConditionalStates { tested, entered, taken: done.leaving(entered).popped(), started }
}

/// The state once the value of a block has been computed.
pub open spec fn block_value(src: Source, st: Lowering, block: &Block) -> Option<Lowering> {
    block_lowered(src, st, *block)
}

/// The code of a conditional without a second branch, and without a value: behind
/// the condition it goes on with the branch if the condition is true, and else
/// behind the conditional. From the end of the branch it goes on there too.
pub proof fn law_short_conditional<S>(
    m: Machine<S>,
    src: Source,
    st: Lowering,
    e: &Expression,
    s: S,
    from: u32,
)
    requires
        if_lowered(src, st, *e) is Some,
        (if_lowered(src, st, *e)->0).blocks.len() <= u32::MAX,
        e.kind is If,
        e.kind->If_negative is None,
        !selects(src.types.at(e.hir_id)),
        conditional_states(src, st, e).tested.has_current(),
    ensures
        ({
            let c = conditional_states(src, st, e);
            let after = if_lowered(src, st, *e)->0;
            let start = c.tested.stack.last();
            let first = c.entered.stack.last();
            let behind = end_of(c.taken, start, from);
            let last = c.taken.last_block();
            &&& first.0 == c.tested.blocks.len()
            &&& c.entered.block(first).instructions.len() == 0
            &&& (m.test)(s, c.tested.operand(e.kind->If_condition.hir_id)) ==> comes_to(
                m,
                graph(after),
                behind,
                s,
                start_of(first.0, start.0),
                s,
            )
            &&& !(m.test)(s, c.tested.operand(e.kind->If_condition.hir_id)) ==> goes_on_plainly(
                m,
                after,
                behind,
                s,
            )
            &&& !ends_in_return(c.taken.block(last).instructions) ==> goes_on_plainly(
                m,
                after,
                end_of(c.taken, last, from),
                s,
            )
        }),
{
    reveal(branch_merged);
    reveal(conditional_joined);
    let c = conditional_states(src, st, e);
    let after = if_lowered(src, st, *e)->0;
    let blocks = graph(after);
    let start = c.tested.stack.last();
    let first = c.entered.stack.last();
    lemma_conditional_start(src, st, e);
    let last = c.taken.last_block();
    let n = c.taken.blocks.len();
    assert(last.0 as int == n - 1);
    let merge = BlockId(n as u32);
    assert(after.stack.last() == merge);
    let behind = end_of(c.taken, start, from);
    let condition = c.tested.operand(e.kind->If_condition.hir_id);
    assert(blocks[start.0].instructions[behind.at as int] == InstructionView::Branch {
        condition,
        positive: first,
        negative: merge,
    });
    assert(after.block(merge).instructions.len() == 0);
    let next = if (m.test)(s, condition) {
        first.0
    } else {
        merge.0
    };
    lemma_comes_step(m, blocks, behind, s, start_of(next, start.0), s);
    assert(start_of(merge.0, start.0) == end_of(after, merge, start.0));
    if !ends_in_return(c.taken.block(last).instructions) {
        let end = end_of(c.taken, last, from);
        assert(blocks[last.0].instructions[end.at as int] == InstructionView::Jump {
            destination: merge,
        });
        lemma_comes_step(m, blocks, end, s, start_of(merge.0, last.0), s);
        assert(start_of(merge.0, last.0) == end_of(after, merge, last.0));
    }
}

/// How a conditional starts.
proof fn lemma_conditional_start(src: Source, st: Lowering, e: &Expression)
    requires
        if_lowered(src, st, *e) is Some,
        e.kind is If,
        conditional_states(src, st, e).tested.has_current(),
        conditional_states(src, st, e).taken.blocks.len() < u32::MAX,
    ensures
        ({
            let c = conditional_states(src, st, e);
            &&& c.started.start == c.tested.stack.last()
            &&& c.started.positive == c.entered.stack.last()
            &&& c.started.condition == c.tested.operand(e.kind->If_condition.hir_id)
            &&& c.started.positive.0 == c.tested.blocks.len()
            &&& c.entered.blocks.len() == c.tested.blocks.len() + 1
            &&& c.entered.block(c.started.positive).instructions.len() == 0
            &&& c.taken.blocks.len() >= c.entered.blocks.len()
            &&& (c.started.start.0 as int) < c.tested.blocks.len()
        }),
{
    let c = conditional_states(src, st, e);
    let inside = c.entered.entering(c.started.aggregate, false);
    law_block_flows(src, inside, &*e.kind->If_positive);
    reveal(goes_on);
}

/// The state once the second branch of a conditional has been lowered, in the
/// current block of the first state.
pub open spec fn second_branch(src: Source, c: ConditionalStates, e: &Expression) -> (
    Lowering,
    Lowering,
) {
    let block = c.taken.with_block();
    let inside = block.st.with_predecessor(block.id, c.started.start).pushed(block.id);
    (
        inside,
        branch_value(src, inside, c.started.aggregate, &*e.kind->If_negative->0)->0.popped(),
    )
}

/// The state once the value of a branch has been computed.
pub open spec fn branch_value(
    src: Source,
    st: Lowering,
    dest: Option<RegisterId>,
    e: &Expression,
) -> Option<Lowering> {
    within(src, st, dest, false, *e)
}

/// The code that joins the branches of a conditional.
proof fn lemma_long_shape(
    src: Source,
    st: Lowering,
    started: Conditional,
    id: HirId,
    ty: Ty,
    positive_value: HirId,
    positive_last: BlockId,
    negative: BlockId,
    negative_value: HirId,
)
    requires
        long_conditional(
            src,
            st,
            started,
            id,
            ty,
            positive_value,
            positive_last,
            negative,
            negative_value,
        ) is Some,
        started.aggregate is None,
        st.blocks.len() < u32::MAX,
        started.start.0 < positive_last.0,
        (positive_last.0 as int) < st.blocks.len() - 1,
    ensures
        ({
            let after = long_conditional(
                src,
                st,
                started,
                id,
                ty,
                positive_value,
                positive_last,
                negative,
                negative_value,
            )->0;
            let n = st.blocks.len();
            let merge = BlockId(n as u32);
            let negative_last = BlockId((n - 1) as u32);
            let joined = after.block(merge).instructions;
            &&& after.blocks.len() == n + 1
            &&& after.stack.last() == merge
            &&& after.block(started.start).instructions == st.block(
                started.start,
            ).instructions.push(
                InstructionView::Branch {
                    condition: started.condition,
                    positive: started.positive,
                    negative,
                },
            )
            &&& !ends_in_return(st.block(positive_last).instructions) ==> after.block(
                positive_last,
            ).instructions == st.block(positive_last).instructions.push(
                InstructionView::Jump { destination: merge },
            )
            &&& !ends_in_return(st.block(negative_last).instructions) && !src.types.at(
                negative_value,
            ).is_never() ==> after.block(negative_last).instructions == st.block(
                negative_last,
            ).instructions.push(InstructionView::Jump { destination: merge })
            &&& !selects(ty) ==> joined.len() == 0
            &&& selects(ty) ==> {
                &&& joined.len() == 1
                &&& joined[0] is Phi
                &&& after.operand(id) == Operand::Register(joined[0]->Phi_destination)
                &&& !ends_in_return(st.block(positive_last).instructions) ==> {
                    &&& joined[0]->Phi_sources.contains_key(positive_last.0)
                    &&& joined[0]->Phi_sources[positive_last.0] == st.operand(positive_value)
                }
                &&& !ends_in_return(st.block(negative_last).instructions) && !src.types.at(
                    negative_value,
                ).is_never() ==> {
                    &&& joined[0]->Phi_sources.contains_key(negative_last.0)
                    &&& joined[0]->Phi_sources[negative_last.0] == st.operand(negative_value)
                }
            }
        }),
{
    reveal(branch_merged);
    reveal(conditional_joined);
}

/// From a place where a jump stands, code goes on where it leads.
proof fn lemma_jump<S>(m: Machine<S>, st: Lowering, p: Point, s: S, to: BlockId)
    requires
        (p.block as int) < st.blocks.len(),
        p.at < st.blocks[p.block as int].instructions.len(),
        st.blocks[p.block as int].instructions[p.at as int] == (InstructionView::Jump {
            destination: to,
        }),
    ensures
        comes_to(m, graph(st), p, s, start_of(to.0, p.block), s),
{
    lemma_comes_step(m, graph(st), p, s, start_of(to.0, p.block), s);
}

/// From a place where a branch stands, code goes on where it leads.
proof fn lemma_branch<S>(
    m: Machine<S>,
    st: Lowering,
    p: Point,
    s: S,
    condition: Operand,
    positive: BlockId,
    negative: BlockId,
)
    requires
        (p.block as int) < st.blocks.len(),
        p.at < st.blocks[p.block as int].instructions.len(),
        st.blocks[p.block as int].instructions[p.at as int] == (InstructionView::Branch {
            condition,
            positive,
            negative,
        }),
    ensures
        comes_to(
            m,
            graph(st),
            p,
            s,
            start_of(
                if (m.test)(s, condition) {
                    positive.0
                } else {
                    negative.0
                },
                p.block,
            ),
            s,
        ),
{
    let next = if (m.test)(s, condition) {
        positive.0
    } else {
        negative.0
    };
    lemma_comes_step(m, graph(st), p, s, start_of(next, p.block), s);
}

/// From the end of a branch of a conditional, code goes on behind it.
proof fn lemma_branch_end<S>(
    m: Machine<S>,
    st: Lowering,
    p: Point,
    s: S,
    id: HirId,
    has_value: bool,
    value: Operand,
)
    requires
        (p.block as int) < st.blocks.len(),
        (st.stack.last().0 as int) < st.blocks.len(),
        p.at < st.blocks[p.block as int].instructions.len(),
        st.blocks[p.block as int].instructions[p.at as int] == (InstructionView::Jump {
            destination: st.stack.last(),
        }),
        !has_value ==> st.block(st.stack.last()).instructions.len() == 0,
        has_value ==> {
            let joined = st.block(st.stack.last()).instructions;
            &&& joined.len() == 1
            &&& joined[0] is Phi
            &&& st.operand(id) == Operand::Register(joined[0]->Phi_destination)
            &&& joined[0]->Phi_sources.contains_key(p.block)
            &&& joined[0]->Phi_sources[p.block] == value
        },
    ensures
        has_value ==> goes_on_filled(m, st, p, s, id, value),
        !has_value ==> goes_on_plainly(m, st, p, s),
{
    let merge = st.stack.last();
    let into = start_of(merge.0, p.block);
    lemma_jump(m, st, p, s, merge);
    if has_value {
        lemma_phi(m, st, merge, p.block, s);
        let phi = st.block(merge).instructions[0];
        let u = (m.fill)(s, phi->Phi_destination, phi->Phi_sources[p.block]);
        lemma_comes_on(m, graph(st), p, s, into, s, end_of(st, merge, p.block), u);
        let reg = phi->Phi_destination;
        assert(comes_to(
            m,
            graph(st),
            p,
            s,
            end_of(st, st.stack.last(), p.block),
            (m.fill)(s, reg, value),
        ));
    } else {
        assert(into == end_of(st, merge, p.block));
    }
}

/// How the lowering of a conditional with two branches ends.
proof fn lemma_long_end(src: Source, st: Lowering, e: &Expression)
    requires
        if_lowered(src, st, *e) is Some,
        e.kind is If,
        e.kind->If_negative is Some,
        conditional_states(src, st, e).started.aggregate is None,
    ensures
        ({
            let c = conditional_states(src, st, e);
            let (inside, refused) = second_branch(src, c, e);
            let after = if_lowered(src, st, *e);
            &&& refused.blocks.len() >= inside.blocks.len()
            &&& inside.blocks.len() == c.taken.blocks.len() + 1
            &&& after == long_conditional(
                src,
                refused,
                c.started,
                e.hir_id,
                src.types.at(e.hir_id),
                e.kind->If_positive.hir_id,
                c.taken.last_block(),
                inside.stack.last(),
                e.kind->If_negative->0.hir_id,
            )
            &&& inside.stack.last() == c.taken.with_block().id
            &&& c.taken.blocks.len() < 0x1_0000_0000 ==> inside.block(
                inside.stack.last(),
            ).instructions.len() == 0
            &&& after->0.blocks.len() == refused.blocks.len() + 1
        }),
{
    let c = conditional_states(src, st, e);
    let (inside, refused) = second_branch(src, c, e);
    law_expression_flows(src, inside.entering(None, false), &*e.kind->If_negative->0);
    assert(refused.blocks.len() >= inside.blocks.len()) by {
        reveal(goes_on);
    }
    reveal(branch_merged);
    reveal(conditional_joined);
}

/// The code of a conditional with two branches: behind the condition it goes on
/// with the first branch if the condition is true, and else with the second one.
/// From the end of each branch it goes on behind the conditional, whose value is
/// that of the branch if it has one.
pub proof fn law_long_conditional<S>(
    m: Machine<S>,
    src: Source,
    st: Lowering,
    e: &Expression,
    s: S,
    from: u32,
)
    requires
        if_lowered(src, st, *e) is Some,
        (if_lowered(src, st, *e)->0).blocks.len() <= u32::MAX,
        e.kind is If,
        e.kind->If_negative is Some,
        conditional_states(src, st, e).tested.has_current(),
        conditional_states(src, st, e).started.aggregate is None,
    ensures
        ({
            let c = conditional_states(src, st, e);
            let (inside, refused) = second_branch(src, c, e);
            let other = e.kind->If_negative->0;
            let after = if_lowered(src, st, *e)->0;
            let start = c.tested.stack.last();
            let condition = c.tested.operand(e.kind->If_condition.hir_id);
            let behind = end_of(refused, start, from);
            let (last_one, last_two) = (c.taken.last_block(), refused.last_block());
            let has_value = selects(src.types.at(e.hir_id));
            &&& c.entered.block(c.entered.stack.last()).instructions.len() == 0
            &&& inside.block(inside.stack.last()).instructions.len() == 0
            &&& inside.stack.last() != c.entered.stack.last()
            &&& comes_to(
                m,
                graph(after),
                behind,
                s,
                start_of(
                    if (m.test)(s, condition) {
                        c.entered.stack.last().0
                    } else {
                        inside.stack.last().0
                    },
                    start.0,
                ),
                s,
            )
            &&& !ends_in_return(refused.block(last_one).instructions) ==> {
                let end = end_of(refused, last_one, from);
                if has_value {
                    goes_on_filled(
                        m,
                        after,
                        end,
                        s,
                        e.hir_id,
                        refused.operand(e.kind->If_positive.hir_id),
                    )
                } else {
                    goes_on_plainly(m, after, end, s)
                }
            }
            &&& !ends_in_return(refused.block(last_two).instructions) && !src.types.at(
                other.hir_id,
            ).is_never() ==> {
                let end = end_of(refused, last_two, from);
                if has_value {
                    goes_on_filled(m, after, end, s, e.hir_id, refused.operand(other.hir_id))
                } else {
                    goes_on_plainly(m, after, end, s)
                }
            }
        }),
{
    let c = conditional_states(src, st, e);
    let (inside, refused) = second_branch(src, c, e);
    let other = e.kind->If_negative->0;
    let after = if_lowered(src, st, *e)->0;
    let start = c.tested.stack.last();
    let condition = c.tested.operand(e.kind->If_condition.hir_id);
    lemma_long_end(src, st, e);
    lemma_conditional_start(src, st, e);
    let (last_one, last_two) = (c.taken.last_block(), refused.last_block());
    let (first, second) = (c.entered.stack.last(), inside.stack.last());
    let ty = src.types.at(e.hir_id);
    lemma_long_shape(
        src,
        refused,
        c.started,
        e.hir_id,
        ty,
        e.kind->If_positive.hir_id,
        last_one,
        second,
        other.hir_id,
    );
    lemma_branch(m, after, end_of(refused, start, from), s, condition, first, second);
    if !ends_in_return(refused.block(last_one).instructions) {
        lemma_branch_end(
            m,
            after,
            end_of(refused, last_one, from),
            s,
            e.hir_id,
            selects(ty),
            refused.operand(e.kind->If_positive.hir_id),
        );
    }
    if !ends_in_return(refused.block(last_two).instructions) && !src.types.at(
        other.hir_id,
    ).is_never() {
        lemma_branch_end(
            m,
            after,
            end_of(refused, last_two, from),
            s,
            e.hir_id,
            selects(ty),
            refused.operand(other.hir_id),
        );
    }
}

/// What patching jumps out of a loop does.
proof fn lemma_patched(st: Lowering, breaks: Seq<(BlockId, usize)>, end: BlockId, n: nat)
    requires
        n <= breaks.len(),
        breaks_patched(st, breaks, end, n) is Some,
    ensures
        ({
            let after = breaks_patched(st, breaks, end, n)->0;
            &&& after.blocks.len() == st.blocks.len()
            &&& after.stack == st.stack
            &&& after.operands == st.operands
            &&& forall|k: int|
                0 <= k < st.blocks.len() ==> (#[trigger] after.blocks[k]).instructions.len()
                    == st.blocks[k].instructions.len()
            &&& forall|k: int, at: int|
                0 <= k < st.blocks.len() && 0 <= at < st.blocks[k].instructions.len() && (forall|
                    i: int,
                |
                    0 <= i < n ==> !(#[trigger] breaks[i].0.0 == k && breaks[i].1 == at))
                    ==> #[trigger] after.blocks[k].instructions[at]
                    == st.blocks[k].instructions[at]
            &&& forall|i: int|
                0 <= i < n ==> {
                    let (id, at) = #[trigger] breaks[i];
                    &&& (id.0 as int) < st.blocks.len()
                    &&& at < st.blocks[id.0 as int].instructions.len()
                    &&& after.blocks[id.0 as int].instructions[at as int]
                        == (InstructionView::Jump { destination: end })
                }
        }),
    decreases n,
{
    if n > 0 {
        lemma_patched(st, breaks, end, (n - 1) as nat);
        let before = breaks_patched(st, breaks, end, (n - 1) as nat)->0;
        let after = breaks_patched(st, breaks, end, n)->0;
        let (id, at) = breaks[n - 1];
        assert forall|k: int| 0 <= k < st.blocks.len() implies (
        #[trigger] after.blocks[k]).instructions.len() == st.blocks[k].instructions.len() by {
            assert(before.blocks[k].instructions.len() == st.blocks[k].instructions.len());
        }
        assert forall|k: int, j: int|
            0 <= k < st.blocks.len() && 0 <= j < st.blocks[k].instructions.len()
                implies #[trigger] after.blocks[k].instructions[j] == (if k == id.0 && j == at {
            InstructionView::Jump { destination: end }
        } else {
            before.blocks[k].instructions[j]
        }) by {}
        assert forall|k: int, j: int|
            0 <= k < st.blocks.len() && 0 <= j < st.blocks[k].instructions.len() && (forall|
                i: int,
            |
                0 <= i < n ==> !(#[trigger] breaks[i].0.0 == k && breaks[i].1 == j))
                implies #[trigger] after.blocks[k].instructions[j]
            == st.blocks[k].instructions[j] by {
            assert(!(breaks[n - 1].0.0 == k && breaks[n - 1].1 == j));
            assert(before.blocks[k].instructions[j] == st.blocks[k].instructions[j]);
        }
        assert forall|i: int| 0 <= i < n implies {
            let (b, j) = #[trigger] breaks[i];
            &&& (b.0 as int) < st.blocks.len()
            &&& j < st.blocks[b.0 as int].instructions.len()
            &&& after.blocks[b.0 as int].instructions[j as int] == (InstructionView::Jump {
                destination: end,
            })
        } by {
            let (b, j) = breaks[i];
            if i < n - 1 {
                assert(before.blocks[b.0 as int].instructions[j as int] == (InstructionView::Jump {
                    destination: end,
                }));
            }
            assert(before.blocks[id.0 as int].instructions.len()
                == st.blocks[id.0 as int].instructions.len());
        }
    }
}

/// The states while a loop is lowered.
pub struct LoopStates {
    /// Its condition is about to be lowered, in the current block.
    pub begun: Lowering,
    /// Its condition has been lowered.
    pub tested: Lowering,
    /// Its block is about to be lowered, in the current block.
    pub entered: Lowering,
    /// Its block has been lowered.
    pub run: Lowering,
}

/// The states while a loop is lowered.
pub open spec fn loop_states(src: Source, st: Lowering, e: &Expression) -> LoopStates {
    let made = st.with_block();
    let linked = made.st.with_predecessor(made.id, st.stack.last());
    let begun = Lowering {
        loops: linked.loops.push(
            LoopView { start_block: made.id, break_instructions: Seq::empty() },
        ),
        ..linked
    }.pushed(made.id);
    let tested = valued(src, begun, &*e.kind->While_condition)->0.popped();
    let body = tested.with_block();
    let entered = body.st.pushed(body.id);
    let done = block_value(src, entered.entering(None, false), &*e.kind->While_block)->0;
    LoopStates { begun, tested, entered, run: done.leaving(entered).popped() }
}

/// The code that joins the parts of a loop.
proof fn lemma_loop_shape(st: Lowering, b: LoopBlocks, condition: &Expression)
    requires
        loop_joined(st, b, *condition) is Some,
        st.blocks.len() < u32::MAX,
        b.condition_last.0 < b.body_last.0,
        (b.body_last.0 as int) < st.blocks.len(),
        forall|i: int|
            0 <= i < st.loops.last().break_instructions.len() ==> (
            #[trigger] st.loops.last().break_instructions[i]).1 < st.block(
                st.loops.last().break_instructions[i].0,
            ).instructions.len(),
    ensures
        ({
            let after = loop_joined(st, b, *condition)->0;
            let end = BlockId(st.blocks.len() as u32);
            let (c, l) = (b.condition_last, b.body_last);
            &&& after.blocks.len() == st.blocks.len() + 1
            &&& after.stack.last() == end
            &&& after.block(end).instructions.len() == 0
            &&& after.block(c).instructions.len() == st.block(c).instructions.len() + 1
            &&& after.block(c).instructions.last() == (InstructionView::Branch {
                condition: st.operand(condition.hir_id),
                positive: b.body,
                negative: end,
            })
            &&& after.block(l).instructions.len() == st.block(l).instructions.len() + 1
            &&& after.block(l).instructions.last() == (InstructionView::Jump {
                destination: b.condition,
            })
            &&& forall|i: int|
                0 <= i < st.loops.last().break_instructions.len() ==> {
                    let (id, at) = #[trigger] st.loops.last().break_instructions[i];
                    &&& (id.0 as int) < after.blocks.len()
                    &&& at < after.block(id).instructions.len()
                    &&& after.block(id).instructions[at as int] == (InstructionView::Jump {
                        destination: end,
                    })
                }
        }),
{
    reveal(loop_joined);
    let jumped = st.with_instruction(
        b.body_last,
        InstructionView::Jump { destination: b.condition },
    ).with_predecessor(b.condition, b.body_last);
    let ended = jumped.with_block();
    let branched = ended.st.with_instruction(
        b.condition_last,
        InstructionView::Branch {
            condition: ended.st.operand(condition.hir_id),
            positive: b.body,
            negative: ended.id,
        },
    ).with_predecessor(b.body, b.condition_last).with_predecessor(ended.id, b.condition_last);
    let breaks = st.loops.last().break_instructions;
    assert(branched.loops == st.loops);
    let left = Lowering { loops: branched.loops.drop_last(), ..branched };
    lemma_patched(left, breaks, ended.id, breaks.len());
    let (c, l) = (b.condition_last, b.body_last);
    let m = st.block(c).instructions.len() as int;
    let n = st.block(l).instructions.len() as int;
    assert(left.blocks[c.0 as int].instructions[m] is Branch);
    assert(left.blocks[l.0 as int].instructions[n] is Jump);
    assert forall|i: int| 0 <= i < breaks.len() implies !(#[trigger] breaks[i].0.0 == c.0
        && breaks[i].1 == m) by {}
    assert forall|i: int| 0 <= i < breaks.len() implies !(#[trigger] breaks[i].0.0 == l.0
        && breaks[i].1 == n) by {}
    let patched = breaks_patched(left, breaks, ended.id, breaks.len())->0;
    assert(patched.blocks[c.0 as int].instructions[m] == left.blocks[c.0 as int].instructions[m]);
    assert(patched.blocks[l.0 as int].instructions[n] == left.blocks[l.0 as int].instructions[n]);
}

/// The code of a loop: behind the condition it goes on with the block of the loop
/// if the condition is true, and else behind the loop. From the end of the block
/// it goes back to the condition, and from where the loop is to be left it goes on
/// behind the loop. What comes before the loop goes on with the condition.
pub proof fn law_loop<S>(
    m: Machine<S>,
    src: Source,
    st: Lowering,
    e: &Expression,
    s: S,
    from: u32,
)
    requires
        while_lowered(src, st, *e) is Some,
        (while_lowered(src, st, *e)->0).blocks.len() <= u32::MAX,
        e.kind is While,
        ({
            let run = loop_states(src, st, e).run;
            forall|i: int|
                0 <= i < run.loops.last().break_instructions.len() ==> (
                #[trigger] run.loops.last().break_instructions[i]).1 < run.block(
                    run.loops.last().break_instructions[i].0,
                ).instructions.len()
        }),
    ensures
        ({
            let l = loop_states(src, st, e);
            let after = while_lowered(src, st, *e)->0;
            let (first, body) = (l.begun.stack.last(), l.entered.stack.last());
            let behind = end_of(l.run, l.tested.last_block(), from);
            let end = end_of(l.run, l.run.last_block(), from);
            let condition = l.run.operand(e.kind->While_condition.hir_id);
            let breaks = l.run.loops.last().break_instructions;
            &&& l.begun.block(first).instructions.len() == 0
            &&& l.entered.block(body).instructions.len() == 0
            &&& (m.test)(s, condition) ==> comes_to(
                m,
                graph(after),
                behind,
                s,
                start_of(body.0, behind.block),
                s,
            )
            &&& !(m.test)(s, condition) ==> goes_on_plainly(m, after, behind, s)
            &&& comes_to(m, graph(after), end, s, start_of(first.0, end.block), s)
            &&& forall|i: int|
                0 <= i < breaks.len() ==> goes_on_plainly(
                    m,
                    after,
                    (Point { block: (#[trigger] breaks[i]).0.0, at: breaks[i].1 as nat, from }),
                    s,
                )
            &&& st.has_current() && st.stack.last() == st.last_block() ==> {
                let before = Point {
                    block: st.stack.last().0,
                    at: after.block(st.stack.last()).instructions.len(),
                    from,
                };
                comes_to(m, graph(after), before, s, start_of(first.0, before.block), s)
            }
        }),
{
    let l = loop_states(src, st, e);
    let after = while_lowered(src, st, *e)->0;
    let (first, body) = (l.begun.stack.last(), l.entered.stack.last());
    let condition = e.kind->While_condition;
    law_expression_flows(src, l.begun.entering(None, false), &*condition);
    law_block_flows(src, l.entered.entering(None, false), &*e.kind->While_block);
    assert(l.tested.blocks.len() >= l.begun.blocks.len()) by {
        reveal(goes_on);
    }
    assert(l.run.blocks.len() >= l.entered.blocks.len()) by {
        reveal(goes_on);
    }
    let b = LoopBlocks {
        condition: first,
        condition_last: l.tested.last_block(),
        body,
        body_last: l.run.last_block(),
    };
    assert(while_lowered(src, st, *e) == joined(l.run, b, &*condition));
    assert(after.blocks.len() == l.run.blocks.len() + 1) by {
        lemma_loop_count(l.run, b, &*condition);
    }
    lemma_loop_shape(l.run, b, &*condition);
    let value = l.run.operand(condition.hir_id);
    let behind = end_of(l.run, b.condition_last, from);
    let end = end_of(l.run, b.body_last, from);
    let exit = after.stack.last();
    lemma_branch(m, after, behind, s, value, body, exit);
    assert(start_of(exit.0, behind.block) == end_of(after, exit, behind.block));
    lemma_jump(m, after, end, s, first);
    let breaks = l.run.loops.last().break_instructions;
    assert forall|i: int| 0 <= i < breaks.len() implies goes_on_plainly(
        m,
        after,
        (Point { block: (#[trigger] breaks[i]).0.0, at: breaks[i].1 as nat, from }),
        s,
    ) by {
        let p = Point { block: breaks[i].0.0, at: breaks[i].1 as nat, from };
        lemma_jump(m, after, p, s, exit);
        assert(start_of(exit.0, p.block) == end_of(after, exit, p.block));
    }
    if st.has_current() && st.stack.last() == st.last_block() {
        let before = Point {
            block: st.stack.last().0,
            at: after.block(st.stack.last()).instructions.len(),
            from,
        };
        assert(is_next(graph(after), before.block, first.0)) by {
            assert(graph(after).contains_key(first.0));
        }
        lemma_next_unique(graph(after), before.block, first.0);
        lemma_comes_step(m, graph(after), before, s, start_of(first.0, before.block), s);
    }
}

/// A loop whose parts have been lowered.
spec fn joined(st: Lowering, b: LoopBlocks, condition: &Expression) -> Option<Lowering> {
    loop_joined(st, b, *condition)
}

proof fn lemma_loop_count(st: Lowering, b: LoopBlocks, condition: &Expression)
    requires
        loop_joined(st, b, *condition) is Some,
    ensures
        (loop_joined(st, b, *condition)->0).blocks.len() == st.blocks.len() + 1,
{
    reveal(loop_joined);
    let jumped = st.with_instruction(
        b.body_last,
        InstructionView::Jump { destination: b.condition },
    ).with_predecessor(b.condition, b.body_last);
    let ended = jumped.with_block();
    let branched = ended.st.with_instruction(
        b.condition_last,
        InstructionView::Branch {
            condition: ended.st.operand(condition.hir_id),
            positive: b.body,
            negative: ended.id,
        },
    ).with_predecessor(b.body, b.condition_last).with_predecessor(ended.id, b.condition_last);
    let breaks = branched.loops.last().break_instructions;
    let left = Lowering { loops: branched.loops.drop_last(), ..branched };
    lemma_patched(left, breaks, ended.id, breaks.len());
}

/// Leaving the innermost loop notes where that is, in the current block. Going on
/// with it jumps to where its condition starts.
pub proof fn law_loop_control<S>(m: Machine<S>, st: Lowering, s: S, from: u32)
    requires
        st.has_current(),
        st.loops.len() > 0,
    ensures
        break_rule(st) matches Some(after) ==> {
            let (noted, before) = (
                after.loops.last().break_instructions,
                st.loops.last().break_instructions,
            );
            &&& noted.len() == before.len() + 1
            &&& noted.drop_last() == before
            &&& noted.last().0 == st.stack.last()
            &&& noted.last().1 == st.block(st.stack.last()).instructions.len() as usize
            &&& after.loops.drop_last() == st.loops.drop_last()
        },
        continue_rule(st) matches Some(after) ==> comes_to(
            m,
            graph(after),
            end_of(st, st.stack.last(), from),
            s,
            start_of(st.loops.last().start_block.0, st.stack.last().0),
            s,
        ),
{
    reveal(break_rule);
    reveal(continue_rule);
    if let Some(after) = break_rule(st) {
        assert(after.loops.last().break_instructions.drop_last()
            =~= st.loops.last().break_instructions);
        assert(after.loops.drop_last() =~= st.loops.drop_last());
    }
    if let Some(after) = continue_rule(st) {
        let p = end_of(st, st.stack.last(), from);
        lemma_jump(m, after, p, s, st.loops.last().start_block);
    }
}

} // verus!
