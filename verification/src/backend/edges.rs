//! What splitting an edge between two blocks keeps.

use crate::backend::ssa_destruction::split_edge;
use crate::middle::lir::{BlockId, BlockView, InstructionView, Operand};
use vstd::prelude::*;

verus! {

/// Where a branch goes if its condition holds, and otherwise.
pub open spec fn way(instruction: InstructionView, holds: bool) -> u32 {
    if holds {
        instruction->positive.0
    } else {
        instruction->negative.0
    }
}

/// What a phi takes when its block is entered from another one.
pub open spec fn taken(instruction: InstructionView, from: u32) -> Operand {
    instruction->sources[from]
}

/// Where an edge is split, control goes the same ways as before: the branch at the
/// end of the first block tests the same condition, and where it does not go where it
/// went, it goes to the new block, which does nothing but jump there. At least one
/// of its ways leads through the new block now.
pub proof fn law_split_edge_goes_the_same_way(
    blocks: Map<u32, BlockView>,
    new: u32,
    pred: u32,
    succ: u32,
    holds: bool,
)
    requires
        split_edge(blocks, new, pred, succ) is Some,
        !blocks.contains_key(new),
        pred != succ,
        pred != new,
        succ != new,
        blocks[pred].instructions.last()->positive.0 == succ
            || blocks[pred].instructions.last()->negative.0 == succ,
    ensures
        ({
            let after = split_edge(blocks, new, pred, succ)->0;
            let old_code = blocks[pred].instructions;
            let code = after[pred].instructions;
            let branch = code.last();
            &&& after.contains_key(new)
            &&& after[new].instructions == seq![
                InstructionView::Jump { destination: BlockId(succ) },
            ]
            &&& after[new].predecessors == Set::<u32>::empty().insert(pred)
            &&& old_code.len() > 0
            &&& code.len() == old_code.len()
            &&& code.drop_last() == old_code.drop_last()
            &&& old_code.last() is Branch
            &&& branch is Branch
            &&& branch->condition == old_code.last()->condition
            &&& way(branch, holds) == way(old_code.last(), holds) || (way(branch, holds) == new
                && way(old_code.last(), holds) == succ)
            &&& way(branch, true) == new || way(branch, false) == new
        }),
{
    let after = split_edge(blocks, new, pred, succ)->0;
    assert(after[pred].instructions.drop_last() =~= blocks[pred].instructions.drop_last());
}

/// Where an edge is split, a phi of the block behind it takes what it took before,
/// from the new block in place of the first one. No other instruction of that block
/// changes, nor any other block.
pub proof fn law_split_edge_keeps_values(
    blocks: Map<u32, BlockView>,
    new: u32,
    pred: u32,
    succ: u32,
    i: int,
    other: u32,
)
    requires
        split_edge(blocks, new, pred, succ) is Some,
        !blocks.contains_key(new),
        pred != succ,
        pred != new,
        succ != new,
    ensures
        ({
            let after = split_edge(blocks, new, pred, succ)->0;
            let old_code = blocks[succ].instructions;
            let code = after[succ].instructions;
            &&& code.len() == old_code.len()
            &&& 0 <= i < code.len() && !(old_code[i] is Phi) ==> code[i] == old_code[i]
            &&& 0 <= i < code.len() && old_code[i] is Phi ==> {
                &&& code[i] is Phi
                &&& code[i]->Phi_destination == old_code[i]->Phi_destination
                &&& old_code[i]->sources.contains_key(pred)
                &&& code[i]->sources.contains_key(new)
                &&& !code[i]->sources.contains_key(pred)
                &&& taken(code[i], new) == taken(old_code[i], pred)
                &&& forall|from: u32|
                    from != pred && from != new ==> (code[i]->sources.contains_key(from)
                        == old_code[i]->sources.contains_key(from)) && #[trigger] taken(
                        code[i],
                        from,
                    ) == taken(old_code[i], from)
            }
            &&& after[succ].predecessors == blocks[succ].predecessors.remove(pred).insert(new)
            &&& after.dom() == blocks.dom().insert(new)
            &&& other != pred && other != succ && other != new ==> after[other] == blocks[other]
            &&& after[pred].predecessors == blocks[pred].predecessors
        }),
{
    let after = split_edge(blocks, new, pred, succ)->0;
    let old_code = blocks[succ].instructions;
    assert(after.dom() =~= blocks.dom().insert(new));
    if 0 <= i < old_code.len() {
        assert(crate::backend::ssa_destruction::takes_from(old_code[i], pred));
    }
}

} // verus!
