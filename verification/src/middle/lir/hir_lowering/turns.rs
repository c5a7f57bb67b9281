//! How control flows through operators, conditionals and loops.

use crate::index::wrap32;
use crate::middle::hir::{Expression, HirId};
use crate::middle::lir::{
    BlockId, BlockView, InstructionView, IntegerWidth, Operand, RegisterId, TypeView,
};
use crate::middle::lir::hir_lowering::flow;
use crate::middle::lir::hir_lowering::flow::{
    all_fit, all_noted, fits_in, flows, flows_on, grows, is_at_end, is_countable, is_entered,
    is_noted, lemma_countable, lemma_fit_instruction, lemma_fit_later, lemma_fit_same_code,
    lemma_noted_instruction, lemma_noted_same_code, pending, same_code,
};
use crate::middle::lir::hir_lowering::laws;
use crate::middle::lir::hir_lowering::laws::{
    goes_on, is_numbered, lemma_branch_merged, lemma_breaks_patched, lemma_conditional_joined,
    lemma_replaced,
};
use crate::middle::lir::hir_lowering::lowered::{
    aggregate_place, conditional_started, long_conditional, short_conditional, Conditional,
};
use crate::middle::lir::hir_lowering::rules::{
    branch_merged, breaks_patched, conditional_joined, logical_joined, logical_sources, loop_joined,
    selects, Branching, ConditionalBlocks, LogicalBlocks, LoopBlocks,
};
use crate::middle::lir::hir_lowering::state::{lowered_ty, Lowering, Source};
use crate::middle::ty::Ty;
use vstd::prelude::*;

verus! {

/// A loop whose blocks are joined.
pub open spec fn loop_of(run: Lowering, b: LoopBlocks, condition: &Expression) -> Option<Lowering> {
    loop_joined(run, b, *condition)
}

/// What flows on in another context flows on in this one.
pub(crate) proof fn lemma_context(st: Lowering, dest: Option<RegisterId>, place: bool, done: Lowering)
    requires
        flows_on(st.entering(dest, place), done),
    ensures
        flows_on(st, done.leaving(st)),
{
    reveal(flows_on);
    reveal(goes_on);
    reveal(is_numbered);
    reveal(grows);
    reveal(all_fit);
    reveal(all_noted);
    let inner = st.entering(dest, place);
    let after = done.leaving(st);
    if is_countable(after) && flows(st) {
        assert(is_countable(done)) by {
            assert forall|k: int| 0 <= k < done.blocks.len() implies (
            #[trigger] done.blocks[k]).instructions.len() <= usize::MAX by {
                assert(after.blocks[k].instructions.len() <= usize::MAX);
            }
        }
        lemma_same_flow(st, inner);
        lemma_same_flow(done, after);
    }
}

/// Control flows by blocks, loops and the current block alone.
pub(crate) proof fn lemma_same_flow(a: Lowering, b: Lowering)
    requires
        a.blocks == b.blocks,
        a.loops == b.loops,
    ensures
        all_fit(a, a) == all_fit(b, b),
        all_noted(a) == all_noted(b),
        a.stack == b.stack ==> flows(a) == flows(b),
{
    reveal(all_fit);
    reveal(all_noted);
    assert forall|k: int, i: int|
        0 <= k < a.blocks.len() && 0 <= i < a.blocks[k].instructions.len() implies fits_in(
        a,
        k,
        #[trigger] a.blocks[k].instructions[i],
    ) == fits_in(b, k, a.blocks[k].instructions[i]) by {}
}

/// Whether instructions fit, and open jumps are noted down.
pub open spec fn is_wired(st: Lowering) -> bool {
    all_fit(st, st) && all_noted(st)
}

/// What goes on in a block that is filled next goes on in this one.
pub(crate) proof fn lemma_nested(st: Lowering, id: BlockId, done: Lowering)
    requires
        flows_on(st.pushed(id), done),
    ensures
        goes_on(st, done.popped()),
        grows(st, done.popped()),
        done.popped().stack == st.stack,
        is_countable(done.popped()) && flows(st.pushed(id)) ==> is_wired(done.popped()),
{
    broadcast use flow::group_grows, flow::group_flows;

    reveal(flows_on);
    assert(goes_on(st, done.popped()) && done.popped().stack == st.stack) by {
        reveal(goes_on);
        reveal(is_numbered);
        assert(st.pushed(id).stack.drop_last() =~= st.stack);
    }
    lemma_same_flow(done, done.popped());
}

/// The same with another context inside.
pub(crate) proof fn lemma_nested_context(
    st: Lowering,
    id: BlockId,
    dest: Option<RegisterId>,
    place: bool,
    done: Lowering,
)
    requires
        flows_on(st.pushed(id).entering(dest, place), done),
    ensures
        goes_on(st, done.leaving(st.pushed(id)).popped()),
        grows(st, done.leaving(st.pushed(id)).popped()),
        done.leaving(st.pushed(id)).popped().stack == st.stack,
        is_countable(done.leaving(st.pushed(id)).popped()) && flows(st.pushed(id)) ==> is_wired(
            done.leaving(st.pushed(id)).popped(),
        ),
{
    lemma_context(st.pushed(id), dest, place, done);
    lemma_nested(st, id, done.leaving(st.pushed(id)));
}

/// Control flows in a block that has just been made.
pub(crate) proof fn lemma_opened(st: Lowering, next: Lowering)
    requires
        is_wired(st),
        same_code(st, next),
        grows(st, next),
        is_at_end(next),
        next.loops == st.loops || (next.loops.len() == st.loops.len() + 1
            && next.loops.drop_last() == st.loops),
    ensures
        flows(next),
{
    lemma_fit_later(st, st, next);
    lemma_fit_same_code(st, next, next);
    if next.loops == st.loops {
        lemma_noted_same_code(st, next);
    } else {
        reveal(all_noted);
        assert forall|k: int, i: int|
            0 <= k < next.blocks.len() && 0 <= i < next.blocks[k].instructions.len()
                && #[trigger] next.blocks[k].instructions[i] == pending() implies is_noted(
            next.loops,
            k,
            i,
        ) by {
            assert(next.blocks[k].instructions[i] == st.blocks[k].instructions[i]);
            assert(is_noted(st.loops, k, i));
            let (l, j) = choose|l: int, j: int|
                #![trigger st.loops[l].break_instructions[j]]
                0 <= l < st.loops.len() && 0 <= j < st.loops[l].break_instructions.len()
                    && st.loops[l].break_instructions[j].0.0 as int == k
                    && st.loops[l].break_instructions[j].1 as int == i;
            assert(next.loops[l] == next.loops.drop_last()[l]);
            assert(next.loops[l].break_instructions[j] == st.loops[l].break_instructions[j]);
        }
    }
}

/// Control flows through a logical operator.
pub(crate) proof fn lemma_logical_flows(
    run: Lowering,
    st: Lowering,
    b: LogicalBlocks,
    is_and: bool,
    lhs: Operand,
    rhs: Operand,
)
    requires
        logical_joined(st, b, is_and, lhs, rhs) is Some,
        st.blocks.len() == run.blocks.len() + 2,
        same_code(run, st),
        grows(run, st),
        st.loops == run.loops,
        st.stack == run.stack,
        run.stack.len() > 0,
        b.merge.0 as int == wrap32(st.blocks.len() - 1),
    ensures
        ({
            let fin = logical_joined(st, b, is_and, lhs, rhs)->0.st;
            &&& grows(run, fin)
            &&& is_countable(fin) && is_wired(run) ==> flows(fin)
        }),
{
    broadcast use flow::group_grows, flow::group_flows, laws::group_state;

    reveal(logical_joined);
    let fin = logical_joined(st, b, is_and, lhs, rhs)->0.st;
    let first = InstructionView::Branch {
        condition: lhs,
        positive: if is_and {
            b.rhs_first
        } else {
            b.merge
        },
        negative: if is_and {
            b.merge
        } else {
            b.rhs_first
        },
    };
    let second = InstructionView::Branch {
        condition: rhs,
        positive: if is_and {
            b.fallthrough
        } else {
            b.merge
        },
        negative: if is_and {
            b.merge
        } else {
            b.fallthrough
        },
    };
    let third = InstructionView::Jump { destination: b.merge };
    let s1 = st.with_instruction(b.lhs_last, first);
    let s2 = s1.with_instruction(b.rhs_last, second);
    let s3 = s2.with_instruction(b.fallthrough, third);
    let p1 = s3.with_predecessor(b.rhs_first, b.lhs_last);
    let p2 = p1.with_predecessor(b.fallthrough, b.rhs_last);
    let p3 = p2.with_predecessor(b.merge, b.lhs_last);
    let p4 = p3.with_predecessor(b.merge, b.rhs_last);
    let linked = p4.with_predecessor(b.merge, b.fallthrough);
    let turned = linked.popped().pushed(b.merge);
    let made = turned.with_register(TypeView::Integer(IntegerWidth::I8));
    let sources = logical_sources(b, is_and);
    let phi = InstructionView::Phi { destination: made.reg, sources };
    assert(fin == made.st.with_instruction(b.merge, phi));
    assert(grows(linked, turned)) by {
        assert(grows(linked, linked.popped()));
    }
    assert(grows(st, s1) && grows(s1, s2) && grows(s2, s3) && grows(s3, p1) && grows(p1, p2)
        && grows(p2, p3) && grows(p3, p4) && grows(p4, linked));
    assert(grows(turned, made.st));
    assert(grows(made.st, fin));
    assert(grows(linked, fin));
    assert(grows(st, fin)) by {
        assert(grows(st, s2));
        assert(grows(st, s3));
        assert(grows(st, p1));
        assert(grows(st, p2));
        assert(grows(st, p3));
        assert(grows(st, p4));
        assert(grows(st, linked));
    }
    if is_countable(fin) && is_wired(run) {
        assert(linked.blocks[b.rhs_first.0 as int].predecessors.contains(b.lhs_last.0));
        assert(linked.blocks[b.fallthrough.0 as int].predecessors.contains(b.rhs_last.0));
        assert(linked.blocks[b.merge.0 as int].predecessors.contains(b.lhs_last.0));
        assert(linked.blocks[b.merge.0 as int].predecessors.contains(b.rhs_last.0));
        assert(linked.blocks[b.merge.0 as int].predecessors.contains(b.fallthrough.0));
        lemma_entered_later(linked, fin, b.rhs_first, b.lhs_last);
        lemma_entered_later(linked, fin, b.fallthrough, b.rhs_last);
        lemma_entered_later(linked, fin, b.merge, b.lhs_last);
        lemma_entered_later(linked, fin, b.merge, b.rhs_last);
        lemma_entered_later(linked, fin, b.merge, b.fallthrough);
        lemma_fit_later(run, run, fin);
        lemma_fit_same_code(run, st, fin);
        lemma_fit_instruction(st, fin, b.lhs_last, first);
        lemma_fit_instruction(s1, fin, b.rhs_last, second);
        lemma_fit_instruction(s2, fin, b.fallthrough, third);
        lemma_fit_same_code(s3, made.st, fin);
        assert(sources.dom() =~= set![b.lhs_last.0, b.rhs_last.0, b.fallthrough.0]);
        assert(fits_in(fin, b.merge.0 as int, phi));
        lemma_fit_instruction(made.st, fin, b.merge, phi);
        lemma_noted_same_code(run, st);
        lemma_noted_instruction(st, b.lhs_last, first);
        lemma_noted_instruction(s1, b.rhs_last, second);
        lemma_noted_instruction(s2, b.fallthrough, third);
        lemma_noted_same_code(s3, made.st);
        lemma_noted_instruction(made.st, b.merge, phi);
        assert(is_at_end(fin));
    }
}

/// A block that is entered stays entered.
pub(crate) proof fn lemma_entered_later(a: Lowering, b: Lowering, id: BlockId, from: BlockId)
    requires
        grows(a, b),
        is_entered(a, id, from.0 as int),
    ensures
        is_entered(b, id, from.0 as int),
{
    reveal(grows);
    assert(a.blocks[id.0 as int].predecessors.subset_of(b.blocks[id.0 as int].predecessors));
}

pub(crate) proof fn lemma_started(src: Source, st: Lowering, id: HirId, condition: HirId)
    ensures
        conditional_started(src, st, id, condition) matches Some((begun, started)) ==> {
            &&& goes_on(st, begun)
            &&& grows(st, begun)
            &&& begun.stack.len() > 0
            &&& begun.stack.last() == started.start
            &&& is_entered(begun, started.positive, started.start.0 as int)
            &&& is_countable(begun) && flows(st) ==> flows(begun.pushed(started.positive))
        },
{
    broadcast use flow::group_grows, flow::group_flows, laws::group_emit;

    if conditional_started(src, st, id, condition) is Some {
        let (begun, started) = conditional_started(src, st, id, condition)->0;
        let placed = aggregate_place(st, src.types.at(id))->0;
        assert(flows_on(st, placed.st));
        let positive = placed.st.with_block();
        assert(positive.st.stack == placed.st.stack);
        assert(begun.blocks[positive.id.0 as int].predecessors.contains(started.start.0));
        assert(grows(placed.st, positive.st) && grows(positive.st, begun));
        assert(grows(placed.st, begun));
        if is_countable(begun) && flows(st) {
            lemma_countable(placed.st, begun);
            assert(flows(placed.st)) by {
                reveal(flows_on);
            }
            lemma_opened(placed.st, begun.pushed(started.positive));
        }
    }
}

/// A branch that goes on behind a conditional keeps control flowing.
pub(crate) proof fn lemma_merged(
    st: Lowering,
    sources: Map<u32, Operand>,
    last: BlockId,
    merge: BlockId,
    value: HirId,
    is_selected: bool,
    fin: Lowering,
)
    requires
        branch_merged(st, sources, last, merge, value, is_selected) is Some,
    ensures
        ({
            let after = branch_merged(st, sources, last, merge, value, is_selected)->0;
            &&& goes_on(st, after.st)
            &&& grows(st, after.st)
            &&& after.st.stack == st.stack
            &&& after.st.loops == st.loops
            &&& after.st.blocks.len() == st.blocks.len()
            &&& st.has_block(merge)
            &&& sources.dom().subset_of(st.block(merge).predecessors)
                ==> after.sources.dom().subset_of(after.st.block(merge).predecessors)
            &&& grows(after.st, fin) && all_fit(st, fin) && all_noted(st) && merge.0 < u32::MAX
                ==> all_fit(after.st, fin) && all_noted(after.st)
        }),
{
    broadcast use flow::group_grows, flow::group_flows, laws::group_state, lemma_branch_merged;

    reveal(branch_merged);
    let after = branch_merged(st, sources, last, merge, value, is_selected)->0;
    let jump = InstructionView::Jump { destination: merge };
    let jumped = st.with_instruction(last, jump);
    let linked = jumped.with_predecessor(merge, last);
    if after.st == st {
    } else {
        assert(after.st == linked);
        assert(grows(st, jumped) && grows(jumped, linked));
        assert(linked.blocks[merge.0 as int].predecessors.contains(last.0));
        assert(st.block(merge).predecessors.subset_of(linked.block(merge).predecessors)) by {
            reveal(grows);
            assert(grows(st, linked));
            assert(st.blocks[merge.0 as int].predecessors.subset_of(
                linked.blocks[merge.0 as int].predecessors,
            ));
        }
        if grows(after.st, fin) && all_fit(st, fin) && all_noted(st) && merge.0 < u32::MAX {
            lemma_entered_later(linked, fin, merge, last);
            lemma_fit_instruction(st, fin, last, jump);
            lemma_fit_same_code(jumped, linked, fin);
            lemma_noted_instruction(st, last, jump);
            lemma_noted_same_code(jumped, linked);
        }
    }
}

/// The end of a conditional lets control flow.
pub(crate) proof fn lemma_ended(
    branching: Branching,
    b: ConditionalBlocks,
    id: HirId,
    ty: Ty,
    condition: Operand,
    aggregate: Option<RegisterId>,
)
    requires
        conditional_joined(branching, b, id, ty, condition, aggregate) is Some,
        branching.st.stack.len() > 0,
        branching.st.blocks.len() > 0,
        b.merge.0 as int == wrap32(branching.st.blocks.len() - 1),
        branching.sources.dom().subset_of(branching.st.block(b.merge).predecessors),
        is_entered(branching.st, b.positive, b.start.0 as int),
        is_entered(branching.st, b.negative, b.start.0 as int),
    ensures
        ({
            let fin = conditional_joined(branching, b, id, ty, condition, aggregate)->0;
            &&& goes_on(branching.st, fin)
            &&& grows(branching.st, fin)
            &&& is_countable(fin) && all_fit(branching.st, fin) && all_noted(branching.st)
                ==> flows(fin)
        }),
{
    broadcast use flow::group_grows, flow::group_flows, laws::group_values, lemma_conditional_joined;

    let fin = conditional_joined(branching, b, id, ty, condition, aggregate)->0;
    assert(goes_on(branching.st, fin));
    reveal(conditional_joined);
    let branch = InstructionView::Branch {
        condition,
        positive: b.positive,
        negative: b.negative,
    };
    let st = branching.st;
    let branched = st.with_instruction(b.start, branch);
    let joined = branched.popped().pushed(b.merge);
    assert(grows(st, branched));
    assert(grows(branched, joined)) by {
        assert(grows(branched, branched.popped()));
    }
    assert(grows(st, joined));
    if aggregate is None && selects(ty) {
        let lir = lowered_ty(ty)->0;
        let made = joined.with_register(lir);
        let phi = InstructionView::Phi { destination: made.reg, sources: branching.sources };
        let emitted = made.st.with_instruction(b.merge, phi);
        assert(fin == emitted.with_operand(id, Operand::Register(made.reg)));
        assert(grows(joined, made.st) && grows(made.st, emitted) && grows(emitted, fin));
        assert(grows(joined, emitted));
        assert(grows(joined, fin));
        assert(grows(st, fin));
        if is_countable(fin) && all_fit(st, fin) && all_noted(st) {
            lemma_entered_later(st, fin, b.positive, b.start);
            lemma_entered_later(st, fin, b.negative, b.start);
            lemma_fit_instruction(st, fin, b.start, branch);
            lemma_fit_same_code(branched, made.st, fin);
            assert(fits_in(fin, b.merge.0 as int, phi)) by {
                reveal(grows);
                assert(st.blocks[b.merge.0 as int].predecessors.subset_of(
                    fin.blocks[b.merge.0 as int].predecessors,
                ));
            }
            lemma_fit_instruction(made.st, fin, b.merge, phi);
            lemma_fit_same_code(emitted, fin, fin);
            lemma_noted_instruction(st, b.start, branch);
            lemma_noted_same_code(branched, made.st);
            lemma_noted_instruction(made.st, b.merge, phi);
            lemma_noted_same_code(emitted, fin);
            assert(is_at_end(fin));
        }
    } else {
        assert(grows(joined, fin)) by {
            reveal(grows);
        }
        assert(grows(st, fin));
        if is_countable(fin) && all_fit(st, fin) && all_noted(st) {
            lemma_entered_later(st, fin, b.positive, b.start);
            lemma_entered_later(st, fin, b.negative, b.start);
            lemma_fit_instruction(st, fin, b.start, branch);
            lemma_fit_same_code(branched, fin, fin);
            lemma_noted_instruction(st, b.start, branch);
            lemma_noted_same_code(branched, fin);
            assert(is_at_end(fin));
        }
    }
}

pub(crate) proof fn lemma_short(st: Lowering, started: Conditional, id: HirId, ty: Ty, value: HirId)
    requires
        st.stack.len() > 0,
        is_entered(st, started.positive, started.start.0 as int),
    ensures
        short_conditional(st, started, id, ty, value) matches Some(after) ==> {
            &&& goes_on(st, after)
            &&& grows(st, after)
            &&& is_countable(after) && is_wired(st) ==> flows(after)
        },
{
    broadcast use flow::group_grows, flow::group_flows, laws::group_state;

    if short_conditional(st, started, id, ty, value) is Some {
        let after = short_conditional(st, started, id, ty, value)->0;
        let last = st.last_block();
        let merge = st.with_block();
        let linked = merge.st.with_predecessor(merge.id, started.start);
        assert(linked.stack == st.stack);
        assert(grows(st, merge.st) && grows(merge.st, linked));
        assert(grows(st, linked));
        assert(goes_on(st, linked));
        lemma_merged(linked, Map::empty(), last, merge.id, value, selects(ty), after);
        let branching = branch_merged(
            linked,
            Map::empty(),
            last,
            merge.id,
            value,
            selects(ty),
        )->0;
        let b = ConditionalBlocks {
            start: started.start,
            positive: started.positive,
            negative: merge.id,
            merge: merge.id,
        };
        assert(linked.blocks[merge.id.0 as int].predecessors.contains(started.start.0));
        lemma_entered_later(linked, branching.st, merge.id, started.start);
        lemma_entered_later(st, linked, started.positive, started.start);
        lemma_entered_later(linked, branching.st, started.positive, started.start);
        lemma_ended(branching, b, id, ty, started.condition, started.aggregate);
        assert(grows(linked, after));
        if is_countable(after) && is_wired(st) {
            lemma_fit_later(st, st, after);
            lemma_fit_same_code(st, linked, after);
            lemma_noted_same_code(st, linked);
            lemma_countable(linked, after);
        }
    }
}

pub(crate) proof fn lemma_long(
    src: Source,
    st: Lowering,
    started: Conditional,
    id: HirId,
    ty: Ty,
    positive_value: HirId,
    positive_last: BlockId,
    negative: BlockId,
    negative_value: HirId,
)
    requires
        st.stack.len() > 0,
        is_entered(st, started.positive, started.start.0 as int),
        is_entered(st, negative, started.start.0 as int),
    ensures
        long_conditional(
            src,
            st,
            started,
            id,
            ty,
            positive_value,
            positive_last,
            negative,
            negative_value,
        ) matches Some(after) ==> {
            &&& goes_on(st, after)
            &&& grows(st, after)
            &&& is_countable(after) && is_wired(st) ==> flows(after)
        },
{
    broadcast use flow::group_grows, flow::group_flows, laws::group_state;

    let ended = long_conditional(
        src,
        st,
        started,
        id,
        ty,
        positive_value,
        positive_last,
        negative,
        negative_value,
    );
    if ended is Some {
        let after = ended->0;
        let merge = st.with_block();
        assert(merge.st.stack == st.stack);
        assert(grows(st, merge.st));
        let last = BlockId(wrap32(merge.st.blocks.len() - 2) as u32);
        let is_never = src.types.at(negative_value).is_never();
        let first = if is_never {
            Branching { st: merge.st, sources: Map::empty() }
        } else {
            branch_merged(
                merge.st,
                Map::empty(),
                last,
                merge.id,
                negative_value,
                selects(ty),
            )->0
        };
        if !is_never {
            lemma_merged(
                merge.st,
                Map::empty(),
                last,
                merge.id,
                negative_value,
                selects(ty),
                after,
            );
        }
        lemma_merged(
            first.st,
            first.sources,
            positive_last,
            merge.id,
            positive_value,
            selects(ty),
            after,
        );
        let second = branch_merged(
            first.st,
            first.sources,
            positive_last,
            merge.id,
            positive_value,
            selects(ty),
        )->0;
        assert(grows(merge.st, first.st) && grows(first.st, second.st));
        assert(grows(st, first.st));
        assert(grows(st, second.st));
        assert(goes_on(st, second.st));
        let b = ConditionalBlocks {
            start: started.start,
            positive: started.positive,
            negative,
            merge: merge.id,
        };
        lemma_entered_later(st, second.st, started.positive, started.start);
        lemma_entered_later(st, second.st, negative, started.start);
        lemma_ended(second, b, id, ty, started.condition, started.aggregate);
        assert(grows(second.st, after));
        assert(grows(first.st, after));
        assert(grows(merge.st, after));
        assert(grows(st, after));
        if is_countable(after) && is_wired(st) {
            lemma_countable(merge.st, after);
            lemma_fit_later(st, st, after);
            lemma_fit_same_code(st, merge.st, after);
            lemma_noted_same_code(st, merge.st);
        }
    }
}

/// Jumps out of a loop fit once they are known, and are no longer open.
pub(crate) proof fn lemma_patched(
    st: Lowering,
    breaks: Seq<(BlockId, usize)>,
    end: BlockId,
    n: nat,
    fin: Lowering,
)
    requires
        n <= breaks.len(),
        breaks_patched(st, breaks, end, n) is Some,
        end.0 < u32::MAX,
    ensures
        ({
            let after = breaks_patched(st, breaks, end, n)->0;
            &&& grows(st, after)
            &&& after.blocks.len() == st.blocks.len()
            &&& grows(after, fin) && all_fit(st, fin) ==> all_fit(after, fin)
            &&& forall|k: int, i: int|
                0 <= k < after.blocks.len() && 0 <= i < after.blocks[k].instructions.len()
                    && #[trigger] after.blocks[k].instructions[i] == pending() ==> {
                    &&& i < st.blocks[k].instructions.len()
                    &&& st.blocks[k].instructions[i] == pending()
                    &&& forall|j: int|
                        0 <= j < n ==> !((#[trigger] breaks[j]).0.0 as int == k && breaks[j].1 as int
                            == i)
                }
        }),
    decreases n,
{
    broadcast use flow::group_grows, flow::group_flows;

    let after = breaks_patched(st, breaks, end, n)->0;
    if n > 0 {
        lemma_patched(st, breaks, end, (n - 1) as nat, fin);
        let before = breaks_patched(st, breaks, end, (n - 1) as nat)->0;
        let (id, at) = breaks[n - 1];
        let block = before.block(id);
        let jump = InstructionView::Jump { destination: end };
        let patched = Lowering {
            blocks: before.blocks.update(
                id.0 as int,
                BlockView { instructions: block.instructions.update(at as int, jump), ..block },
            ),
            ..before
        };
        assert(after == patched.with_predecessor(end, id));
        assert(grows(before, patched)) by {
            reveal(grows);
        }
        assert(grows(patched, after));
        assert(grows(before, after));
        if grows(after, fin) && all_fit(st, fin) {
            assert(grows(before, fin));
            assert(after.blocks[end.0 as int].predecessors.contains(id.0));
            lemma_entered_later(after, fin, end, id);
            reveal(all_fit);
            assert forall|k: int, i: int|
                0 <= k < after.blocks.len() && 0 <= i
                    < after.blocks[k].instructions.len() implies fits_in(
                fin,
                k,
                #[trigger] after.blocks[k].instructions[i],
            ) by {
                if k == id.0 as int && i == at as int {
                    assert(after.blocks[k].instructions[i] == jump);
                } else {
                    assert(after.blocks[k].instructions[i] == before.blocks[k].instructions[i]);
                }
            }
        }
        assert forall|k: int, i: int|
            0 <= k < after.blocks.len() && 0 <= i < after.blocks[k].instructions.len()
                && #[trigger] after.blocks[k].instructions[i] == pending() implies ({
            &&& i < st.blocks[k].instructions.len()
            &&& st.blocks[k].instructions[i] == pending()
            &&& forall|j: int|
                0 <= j < n ==> !((#[trigger] breaks[j]).0.0 as int == k && breaks[j].1 as int == i)
        }) by {
            if k == id.0 as int && i == at as int {
                assert(after.blocks[k].instructions[i] == jump);
            } else {
                assert(after.blocks[k].instructions[i] == before.blocks[k].instructions[i]);
            }
        }
    }
}

pub(crate) proof fn lemma_loop_joined(
    st: Lowering,
    looped: Lowering,
    run: Lowering,
    b: LoopBlocks,
    condition: &Expression,
)
    requires
        st.stack.len() > 0,
        looped.loops.len() == st.loops.len() + 1,
        looped.loops.drop_last() == st.loops,
        looped == (Lowering { loops: looped.loops, ..st }),
        goes_on(looped, run),
        run.stack == st.stack,
    ensures
        loop_joined(run, b, *condition) matches Some(after) ==> {
            &&& goes_on(st, after)
            &&& grows(run, after)
            &&& is_countable(after) && is_wired(run) ==> flows(after)
        },
{
    broadcast use flow::group_grows, flow::group_flows, laws::group_state, lemma_replaced;

    reveal(loop_joined);
    if loop_of(run, b, &*condition) is Some {
        let after = loop_of(run, b, &*condition)->0;
        let jump = InstructionView::Jump { destination: b.condition };
        let j1 = run.with_instruction(b.body_last, jump);
        let jumped = j1.with_predecessor(b.condition, b.body_last);
        let ended = jumped.with_block();
        let branch = InstructionView::Branch {
            condition: ended.st.operand(condition.hir_id),
            positive: b.body,
            negative: ended.id,
        };
        let b1 = ended.st.with_instruction(b.condition_last, branch);
        let b2 = b1.with_predecessor(b.body, b.condition_last);
        let branched = b2.with_predecessor(ended.id, b.condition_last);
        assert(goes_on(looped, branched));
        assert(branched.stack == run.stack);
        let breaks = branched.loops.last().break_instructions;
        let left = Lowering { loops: branched.loops.drop_last(), ..branched };
        assert(goes_on(st, left)) by {
            reveal(goes_on);
            reveal(is_numbered);
        }
        lemma_breaks_patched(left, breaks, ended.id, breaks.len());
        let patched = breaks_patched(left, breaks, ended.id, breaks.len())->0;
        assert(after == patched.popped().pushed(ended.id));
        assert(grows(run, j1) && grows(j1, jumped) && grows(jumped, ended.st) && grows(
            ended.st,
            b1,
        ) && grows(b1, b2) && grows(b2, branched));
        assert(grows(run, jumped));
        assert(grows(run, ended.st));
        assert(grows(run, b1));
        assert(grows(run, b2));
        assert(grows(run, branched));
        assert(grows(branched, left)) by {
            reveal(grows);
        }
        assert(grows(left, patched)) by {
            lemma_patches_grow(left, breaks, ended.id, breaks.len());
        }
        assert(grows(patched, after)) by {
            assert(grows(patched, patched.popped()));
        }
        assert(grows(run, left));
        assert(grows(run, patched));
        assert(grows(run, after));
        if is_countable(after) && is_wired(run) {
            assert(grows(ended.st, after)) by {
                assert(grows(ended.st, b2));
                assert(grows(ended.st, branched));
                assert(grows(ended.st, left));
                assert(grows(ended.st, patched));
            }
            lemma_countable(ended.st, after);
            assert(ended.id.0 as int == ended.st.blocks.len() - 1);
            lemma_patched(left, breaks, ended.id, breaks.len(), after);
            assert(grows(branched, after)) by {
                assert(grows(branched, patched));
            }
            assert(grows(jumped, after)) by {
                assert(grows(jumped, b1));
                assert(grows(jumped, b2));
                assert(grows(jumped, branched));
            }
            assert(jumped.blocks[b.condition.0 as int].predecessors.contains(b.body_last.0));
            assert(branched.blocks[b.body.0 as int].predecessors.contains(b.condition_last.0));
            assert(branched.blocks[ended.id.0 as int].predecessors.contains(
                b.condition_last.0,
            ));
            lemma_entered_later(jumped, after, b.condition, b.body_last);
            lemma_entered_later(branched, after, b.body, b.condition_last);
            lemma_entered_later(branched, after, ended.id, b.condition_last);
            lemma_fit_later(run, run, after);
            lemma_fit_instruction(run, after, b.body_last, jump);
            lemma_fit_same_code(j1, ended.st, after);
            lemma_fit_instruction(ended.st, after, b.condition_last, branch);
            lemma_fit_same_code(b1, left, after);
            lemma_fit_same_code(patched, after, after);
            assert(b.condition.0 < u32::MAX) by {
                lemma_countable(run, after);
            }
            lemma_noted_instruction(run, b.body_last, jump);
            lemma_noted_same_code(j1, ended.st);
            lemma_noted_instruction(ended.st, b.condition_last, branch);
            lemma_noted_same_code(b1, branched);
            assert(all_noted(after)) by {
                reveal(all_noted);
                assert forall|k: int, i: int|
                    0 <= k < after.blocks.len() && 0 <= i < after.blocks[k].instructions.len()
                        && #[trigger] after.blocks[k].instructions[i] == pending() implies is_noted(
                    after.loops,
                    k,
                    i,
                ) by {
                    assert(patched.blocks[k].instructions[i] == pending());
                    assert(branched.blocks[k].instructions[i] == pending());
                    assert(is_noted(branched.loops, k, i));
                    let (l, j) = choose|l: int, j: int|
                        #![trigger branched.loops[l].break_instructions[j]]
                        0 <= l < branched.loops.len() && 0 <= j
                            < branched.loops[l].break_instructions.len()
                            && branched.loops[l].break_instructions[j].0.0 as int == k
                            && branched.loops[l].break_instructions[j].1 as int == i;
                    if l == branched.loops.len() - 1 {
                        assert(breaks[j].0.0 as int == k && breaks[j].1 as int == i);
                    } else {
                        assert(after.loops[l] == branched.loops[l]);
                        assert(after.loops[l].break_instructions[j]
                            == branched.loops[l].break_instructions[j]);
                    }
                }
            }
            assert(is_at_end(after));
        }
    }
}

pub(crate) proof fn lemma_patches_grow(st: Lowering, breaks: Seq<(BlockId, usize)>, end: BlockId, n: nat)
    requires
        n <= breaks.len(),
        breaks_patched(st, breaks, end, n) is Some,
    ensures
        grows(st, breaks_patched(st, breaks, end, n)->0),
    decreases n,
{
    broadcast use flow::group_grows, flow::group_flows;

    if n > 0 {
        lemma_patches_grow(st, breaks, end, (n - 1) as nat);
        let before = breaks_patched(st, breaks, end, (n - 1) as nat)->0;
        let after = breaks_patched(st, breaks, end, n)->0;
        assert(grows(before, after)) by {
            reveal(grows);
        }
    }
}

} // verus!
