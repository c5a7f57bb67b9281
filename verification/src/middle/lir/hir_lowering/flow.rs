//! How control flows through the blocks of a body that is lowered.

use crate::middle::lir::hir_lowering::laws;
use crate::middle::lir::hir_lowering::laws::{
    goes_on, goes_straight, is_plain, only_longer,
};
use crate::middle::lir::hir_lowering::rules::{break_rule, continue_rule};
use crate::middle::lir::hir_lowering::state::{LoopView, Lowering};
use crate::middle::lir::{BlockId, InstructionView};
use vstd::prelude::*;

verus! {

/// The place that a jump out of a loop goes to as long as the end of the loop is
/// not known.
pub open spec fn pending() -> InstructionView {
    InstructionView::Jump { destination: BlockId(u32::MAX) }
}

/// Whether a block exists and knows that it is entered from block `k`.
pub open spec fn is_entered(st: Lowering, id: BlockId, k: int) -> bool {
    st.has_block(id) && st.block(id).predecessors.contains(k as u32)
}

/// Whether an instruction in block `k` fits: what it goes to knows that it is
/// entered from there, and what it selects from enters the block.
pub open spec fn fits_in(st: Lowering, k: int, instruction: InstructionView) -> bool {
    match instruction {
        InstructionView::Jump { destination } => instruction == pending() || is_entered(
            st,
            destination,
            k,
        ),
        InstructionView::Branch { positive, negative, .. } => is_entered(st, positive, k)
            && is_entered(st, negative, k),
        InstructionView::Phi { sources, .. } => sources.dom().subset_of(st.blocks[k].predecessors),
        _ => true,
    }
}

/// Whether all the instructions of one state fit into another.
#[verifier::opaque]
pub open spec fn all_fit(st: Lowering, after: Lowering) -> bool {
    forall|k: int, i: int|
        0 <= k < st.blocks.len() && 0 <= i < st.blocks[k].instructions.len() ==> fits_in(
            after,
            k,
            #[trigger] st.blocks[k].instructions[i],
        )
}

/// Whether a jump out of a loop has been noted down.
pub open spec fn is_noted(loops: Seq<LoopView>, k: int, i: int) -> bool {
    exists|l: int, j: int|
        #![trigger loops[l].break_instructions[j]]
        0 <= l < loops.len() && 0 <= j < loops[l].break_instructions.len()
            && loops[l].break_instructions[j].0.0 as int == k
            && loops[l].break_instructions[j].1 as int == i
}

/// Whether all the jumps out of loops that are not known yet have been noted
/// down.
#[verifier::opaque]
pub open spec fn all_noted(st: Lowering) -> bool {
    forall|k: int, i: int|
        0 <= k < st.blocks.len() && 0 <= i < st.blocks[k].instructions.len()
            && #[trigger] st.blocks[k].instructions[i] == pending() ==> is_noted(st.loops, k, i)
}

/// Whether the current block is the one that was made last.
pub open spec fn is_at_end(st: Lowering) -> bool {
    st.stack.len() > 0 && st.blocks.len() > 0 && st.stack.last().0 as int == st.blocks.len() - 1
}

/// Whether control flows as the blocks say.
pub open spec fn flows(st: Lowering) -> bool {
    all_fit(st, st) && all_noted(st) && is_at_end(st)
}

/// Whether blocks and instructions can be numbered.
pub open spec fn is_countable(st: Lowering) -> bool {
    &&& st.blocks.len() <= u32::MAX
    &&& forall|k: int|
        0 <= k < st.blocks.len() ==> (#[trigger] st.blocks[k]).instructions.len() <= usize::MAX
}

/// Whether blocks were only added to.
#[verifier::opaque]
pub open spec fn grows(a: Lowering, b: Lowering) -> bool {
    &&& a.blocks.len() <= b.blocks.len()
    &&& forall|k: int|
        0 <= k < a.blocks.len() ==> {
            &&& (#[trigger] a.blocks[k]).predecessors.subset_of(b.blocks[k].predecessors)
            &&& a.blocks[k].instructions.len() <= b.blocks[k].instructions.len()
        }
}

/// Whether lowering has gone on from one state to another, and control flows in
/// the second one if it does in the first.
#[verifier::opaque]
pub open spec fn flows_on(a: Lowering, b: Lowering) -> bool {
    &&& goes_on(a, b)
    &&& grows(a, b)
    &&& is_countable(b) && flows(a) ==> flows(b)
}

pub(crate) broadcast proof fn lemma_grows_same(a: Lowering)
    ensures
        #[trigger] grows(a, a),
{
    reveal(grows);
}

pub(crate) broadcast proof fn lemma_grows_further(a: Lowering, b: Lowering, c: Lowering)
    requires
        #[trigger] grows(a, b),
        #[trigger] grows(b, c),
    ensures
        grows(a, c),
{
    reveal(grows);
    assert forall|k: int| 0 <= k < a.blocks.len() implies ({
        &&& (#[trigger] a.blocks[k]).predecessors.subset_of(c.blocks[k].predecessors)
        &&& a.blocks[k].instructions.len() <= c.blocks[k].instructions.len()
    }) by {
        assert(a.blocks[k].predecessors.subset_of(b.blocks[k].predecessors));
        assert(b.blocks[k].predecessors.subset_of(c.blocks[k].predecessors));
    }
}

pub(crate) proof fn lemma_countable(a: Lowering, b: Lowering)
    requires
        grows(a, b),
        is_countable(b),
    ensures
        is_countable(a),
{
    reveal(grows);
    assert forall|k: int| 0 <= k < a.blocks.len() implies (
    #[trigger] a.blocks[k]).instructions.len() <= usize::MAX by {
        assert(b.blocks[k].instructions.len() <= usize::MAX);
    }
}

pub(crate) broadcast proof fn lemma_grows_block(st: Lowering)
    ensures
        grows(st, (#[trigger] st.with_block()).st),
{
    reveal(grows);
}

pub(crate) broadcast proof fn lemma_grows_instruction(
    st: Lowering,
    id: BlockId,
    instruction: InstructionView,
)
    ensures
        st.has_block(id) ==> grows(st, #[trigger] st.with_instruction(id, instruction)),
{
    reveal(grows);
}

pub(crate) broadcast proof fn lemma_grows_predecessor(st: Lowering, id: BlockId, from: BlockId)
    ensures
        st.has_block(id) ==> grows(st, #[trigger] st.with_predecessor(id, from)),
{
    reveal(grows);
}

pub(crate) broadcast proof fn lemma_grows_pushed(st: Lowering, id: BlockId)
    ensures
        grows(st, #[trigger] st.pushed(id)),
{
    reveal(grows);
}

pub(crate) broadcast proof fn lemma_grows_popped(st: Lowering)
    ensures
        grows(st, #[trigger] st.popped()),
{
    reveal(grows);
}

pub(crate) broadcast proof fn lemma_grows_straight(a: Lowering, b: Lowering)
    requires
        #[trigger] goes_straight(a, b),
    ensures
        grows(a, b),
{
    reveal(grows);
    reveal(goes_straight);
    assert forall|k: int| 0 <= k < a.blocks.len() implies ({
        &&& (#[trigger] a.blocks[k]).predecessors.subset_of(b.blocks[k].predecessors)
        &&& a.blocks[k].instructions.len() <= b.blocks[k].instructions.len()
    }) by {
        assert(only_longer(a.blocks[k], b.blocks[k]));
    }
}

pub(crate) broadcast proof fn lemma_flows_grows(a: Lowering, b: Lowering)
    requires
        #[trigger] flows_on(a, b),
    ensures
        grows(a, b),
        goes_on(a, b),
{
    reveal(flows_on);
}

pub(crate) broadcast proof fn lemma_flows_same(a: Lowering)
    ensures
        #[trigger] flows_on(a, a),
{
    reveal(flows_on);
    laws::lemma_goes_on_same(a);
    lemma_grows_same(a);
}

pub(crate) broadcast proof fn lemma_flows_further(a: Lowering, b: Lowering, c: Lowering)
    requires
        #[trigger] flows_on(a, b),
        #[trigger] flows_on(b, c),
    ensures
        flows_on(a, c),
{
    reveal(flows_on);
    laws::lemma_goes_on_further(a, b, c);
    lemma_grows_further(a, b, c);
    if is_countable(c) {
        lemma_countable(b, c);
    }
}

/// What fits keeps fitting while blocks grow.
pub(crate) proof fn lemma_fit_later(st: Lowering, a: Lowering, b: Lowering)
    requires
        all_fit(st, a),
        st.blocks.len() <= a.blocks.len(),
        grows(a, b),
    ensures
        all_fit(st, b),
{
    reveal(all_fit);
    reveal(grows);
    assert forall|k: int, i: int|
        0 <= k < st.blocks.len() && 0 <= i < st.blocks[k].instructions.len() implies fits_in(
        b,
        k,
        #[trigger] st.blocks[k].instructions[i],
    ) by {
        assert(fits_in(a, k, st.blocks[k].instructions[i]));
        assert(a.blocks[k].predecessors.subset_of(b.blocks[k].predecessors));
        match st.blocks[k].instructions[i] {
            InstructionView::Jump { destination } => {
                if a.has_block(destination) {
                    assert(a.blocks[destination.0 as int].predecessors.subset_of(
                        b.blocks[destination.0 as int].predecessors,
                    ));
                }
            },
            InstructionView::Branch { positive, negative, .. } => {
                assert(a.blocks[positive.0 as int].predecessors.subset_of(
                    b.blocks[positive.0 as int].predecessors,
                ));
                assert(a.blocks[negative.0 as int].predecessors.subset_of(
                    b.blocks[negative.0 as int].predecessors,
                ));
            },
            _ => {},
        }
    }
}

/// An instruction that fits can be added.
pub(crate) proof fn lemma_fit_instruction(
    st: Lowering,
    after: Lowering,
    id: BlockId,
    instruction: InstructionView,
)
    requires
        all_fit(st, after),
        st.has_block(id),
        fits_in(after, id.0 as int, instruction),
    ensures
        all_fit(st.with_instruction(id, instruction), after),
{
    reveal(all_fit);
    let next = st.with_instruction(id, instruction);
    assert forall|k: int, i: int|
        0 <= k < next.blocks.len() && 0 <= i < next.blocks[k].instructions.len() implies fits_in(
        after,
        k,
        #[trigger] next.blocks[k].instructions[i],
    ) by {
        if k == id.0 as int && i == st.blocks[k].instructions.len() {
        } else {
            assert(next.blocks[k].instructions[i] == st.blocks[k].instructions[i]);
        }
    }
}

/// Blocks without instructions, and predecessors, change nothing about what fits.
pub(crate) proof fn lemma_fit_same_code(st: Lowering, next: Lowering, after: Lowering)
    requires
        all_fit(st, after),
        same_code(st, next),
    ensures
        all_fit(next, after),
{
    reveal(all_fit);
    assert forall|k: int, i: int|
        0 <= k < next.blocks.len() && 0 <= i < next.blocks[k].instructions.len() implies fits_in(
        after,
        k,
        #[trigger] next.blocks[k].instructions[i],
    ) by {
        assert(next.blocks[k].instructions[i] == st.blocks[k].instructions[i]);
    }
}

/// Whether two states have the same instructions, but for blocks without any.
pub open spec fn same_code(a: Lowering, b: Lowering) -> bool {
    &&& a.blocks.len() <= b.blocks.len()
    &&& forall|k: int|
        0 <= k < b.blocks.len() ==> (#[trigger] b.blocks[k]).instructions == (if k
            < a.blocks.len() {
            a.blocks[k].instructions
        } else {
            Seq::empty()
        })
}

/// Jumps that were noted down stay noted down.
pub(crate) proof fn lemma_noted_same_code(st: Lowering, next: Lowering)
    requires
        all_noted(st),
        same_code(st, next),
        next.loops == st.loops,
    ensures
        all_noted(next),
{
    reveal(all_noted);
    assert forall|k: int, i: int|
        0 <= k < next.blocks.len() && 0 <= i < next.blocks[k].instructions.len()
            && #[trigger] next.blocks[k].instructions[i] == pending() implies is_noted(
        next.loops,
        k,
        i,
    ) by {
        assert(next.blocks[k].instructions[i] == st.blocks[k].instructions[i]);
    }
}

/// The same with an instruction more.
pub(crate) proof fn lemma_noted_instruction(
    st: Lowering,
    id: BlockId,
    instruction: InstructionView,
)
    requires
        all_noted(st),
        st.has_block(id),
        instruction != pending(),
    ensures
        all_noted(st.with_instruction(id, instruction)),
{
    reveal(all_noted);
    let next = st.with_instruction(id, instruction);
    assert forall|k: int, i: int|
        0 <= k < next.blocks.len() && 0 <= i < next.blocks[k].instructions.len()
            && #[trigger] next.blocks[k].instructions[i] == pending() implies is_noted(
        next.loops,
        k,
        i,
    ) by {
        if k == id.0 as int && i == st.blocks[k].instructions.len() {
        } else {
            assert(next.blocks[k].instructions[i] == st.blocks[k].instructions[i]);
        }
    }
}

/// Control flows on where lowering goes straight on.
pub(crate) broadcast proof fn lemma_flows_straight(a: Lowering, b: Lowering)
    requires
        #[trigger] goes_straight(a, b),
    ensures
        flows_on(a, b),
{
    lemma_grows_straight(a, b);
    reveal(flows_on);
    reveal(goes_straight);
    if flows(a) {
        lemma_fit_later(a, a, b);
        assert(all_fit(b, b)) by {
            reveal(all_fit);
            assert forall|k: int, i: int|
                0 <= k < b.blocks.len() && 0 <= i < b.blocks[k].instructions.len() implies fits_in(
                b,
                k,
                #[trigger] b.blocks[k].instructions[i],
            ) by {
                assert(only_longer(a.blocks[k], b.blocks[k]));
                if i < a.blocks[k].instructions.len() {
                    assert(b.blocks[k].instructions[i] == a.blocks[k].instructions[i]);
                } else {
                    assert(is_plain(b.blocks[k].instructions[i]));
                }
            }
        }
        assert(all_noted(b)) by {
            reveal(all_noted);
            assert forall|k: int, i: int|
                0 <= k < b.blocks.len() && 0 <= i < b.blocks[k].instructions.len()
                    && #[trigger] b.blocks[k].instructions[i] == pending() implies is_noted(
                b.loops,
                k,
                i,
            ) by {
                assert(only_longer(a.blocks[k], b.blocks[k]));
                if i < a.blocks[k].instructions.len() {
                    assert(b.blocks[k].instructions[i] == a.blocks[k].instructions[i]);
                } else {
                    assert(is_plain(b.blocks[k].instructions[i]));
                }
            }
        }
    }
}

pub(crate) broadcast proof fn lemma_flows_break(st: Lowering)
    ensures
        (#[trigger] break_rule(st)) matches Some(after) ==> flows_on(st, after),
{
    reveal(flows_on);
    laws::lemma_break_rule(st);
    if break_rule(st) is Some {
        reveal(break_rule);
        let after = break_rule(st)->0;
        let current = st.stack.last();
        let at = st.block(current).instructions.len();
        let jumped = st.with_instruction(current, pending());
        lemma_grows_instruction(st, current, pending());
        assert(grows(st, after)) by {
            reveal(grows);
        }
        if flows(st) && is_countable(after) {
            lemma_fit_instruction(st, st, current, pending());
            lemma_fit_later(jumped, st, after);
            lemma_fit_same_code(jumped, after, after);
            assert(after.blocks[current.0 as int].instructions.len() <= usize::MAX);
            assert(all_noted(after)) by {
                reveal(all_noted);
                assert forall|k: int, i: int|
                    0 <= k < after.blocks.len() && 0 <= i < after.blocks[k].instructions.len()
                        && #[trigger] after.blocks[k].instructions[i] == pending() implies is_noted(
                    after.loops,
                    k,
                    i,
                ) by {
                    let last = st.loops.len() - 1;
                    if k == current.0 as int && i == at {
                        let j = st.loops[last].break_instructions.len() as int;
                        assert(after.loops[last].break_instructions[j] == (current, at as usize));
                    } else {
                        assert(after.blocks[k].instructions[i] == st.blocks[k].instructions[i]);
                        assert(is_noted(st.loops, k, i));
                        let (l, j) = choose|l: int, j: int|
                            #![trigger st.loops[l].break_instructions[j]]
                            0 <= l < st.loops.len() && 0 <= j
                                < st.loops[l].break_instructions.len()
                                && st.loops[l].break_instructions[j].0.0 as int == k
                                && st.loops[l].break_instructions[j].1 as int == i;
                        assert(after.loops[l].break_instructions[j]
                            == st.loops[l].break_instructions[j]);
                    }
                }
            }
        }
    }
}

pub(crate) broadcast proof fn lemma_flows_continue(st: Lowering)
    ensures
        (#[trigger] continue_rule(st)) matches Some(after) ==> flows_on(st, after),
{
    broadcast use
        lemma_grows_further,
        lemma_grows_instruction,
        lemma_grows_predecessor,
    ;

    reveal(flows_on);
    laws::lemma_continue_rule(st);
    if continue_rule(st) is Some {
        reveal(continue_rule);
        let after = continue_rule(st)->0;
        let start = st.loops.last().start_block;
        let linked = st.with_predecessor(start, st.last_block());
        let jump = InstructionView::Jump { destination: start };
        let current = linked.stack.last();
        assert(after == linked.with_instruction(current, jump));
        assert(grows(st, after));
        if flows(st) && is_countable(after) {
            lemma_countable(st, after);
            lemma_fit_later(st, st, after);
            lemma_fit_same_code(st, linked, after);
            assert(st.last_block() == current);
            assert(is_entered(after, start, current.0 as int));
            lemma_fit_instruction(linked, after, current, jump);
            lemma_noted_same_code(st, linked);
            assert(start.0 < u32::MAX);
            lemma_noted_instruction(linked, current, jump);
        }
    }
}

pub(crate) broadcast group group_grows {
    lemma_grows_same,
    lemma_grows_further,
    lemma_grows_block,
    lemma_grows_instruction,
    lemma_grows_predecessor,
    lemma_grows_pushed,
    lemma_grows_popped,
    lemma_grows_straight,
    lemma_flows_grows,
}

pub(crate) broadcast group group_flows {
    lemma_flows_same,
    lemma_flows_further,
    lemma_flows_straight,
}

} // verus!
