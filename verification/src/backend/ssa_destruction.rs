//! Transformation pass which removes phi nodes and replaces them with copies in
//! preceding basic blocks. Also breaks up critical edges in the CFG. After this
//! pass, the LIR is no longer in strict SSA form.

use crate::collections::{ascending, lists, sorted_keys};
use crate::index::{successor, wrap32};
use crate::middle::lir::{
    block_at, block_views, code, ends_open, lemma_register_views_insert, put_block, take_block,
    Block, BlockId, BlockView, FunctionDefinition, FunctionView, Instruction, InstructionView,
    Operand, Register, RegisterId, RegisterView,
};
use std::collections::{BTreeMap, BTreeSet};
use vstd::prelude::*;

verus! {

broadcast use vstd::std_specs::btree::group_btree_axioms;

/// The number behind a number, in 32 bits.
pub open spec fn number_after(n: u32) -> u32 {
    wrap32(n as int + 1) as u32
}

/// The two targets of the branch that a run of instructions ends in.
pub open spec fn final_branch(code: Seq<InstructionView>) -> Option<(u32, u32)> {
    if code.len() == 0 {
        None
    } else {
        match code.last() {
            InstructionView::Branch { positive, negative, .. } => Some((positive.0, negative.0)),
            _ => None,
        }
    }
}

/// Whether a block can be entered from more than one place.
pub open spec fn joins(blocks: Map<u32, BlockView>, id: u32) -> bool {
    blocks[id].predecessors.len() > 1
}

/// The critical edges that leave a block: those that a branch takes to a block
/// that can be entered from elsewhere as well. There is no result where a
/// target does not exist.
pub open spec fn critical_from(blocks: Map<u32, BlockView>, id: u32) -> Option<Seq<(u32, u32)>> {
    match final_branch(blocks[id].instructions) {
        None => Some(Seq::empty()),
        Some((positive, negative)) => if blocks.contains_key(positive) && blocks.contains_key(
            negative,
        ) {
            Some(
                (if joins(blocks, positive) {
                    seq![(id, positive)]
                } else {
                    Seq::empty()
                }) + (if joins(blocks, negative) {
                    seq![(id, negative)]
                } else {
                    Seq::empty()
                }),
            )
        } else {
            None
        },
    }
}

/// The critical edges that leave the first `n` of the listed blocks.
pub open spec fn critical_upto(blocks: Map<u32, BlockView>, ids: Seq<u32>, n: nat) -> Option<
    Seq<(u32, u32)>,
>
    decreases n,
{
    if n == 0 {
        Some(Seq::empty())
    } else {
        match (critical_upto(blocks, ids, (n - 1) as nat), critical_from(blocks, ids[n - 1])) {
            (Some(before), Some(here)) => Some(before + here),
            _ => None,
        }
    }
}

/// All the critical edges, in the order of the blocks that they leave.
pub open spec fn critical_edges(blocks: Map<u32, BlockView>) -> Option<Seq<(u32, u32)>> {
    let ids = ascending(blocks.dom());
    critical_upto(blocks, ids, ids.len())
}

/// Instructions whose last branch goes to `target` where it went to `succ`.
pub open spec fn retargeted(code: Seq<InstructionView>, succ: u32, target: u32) -> Seq<
    InstructionView,
> {
    match code.last() {
        InstructionView::Branch { condition, positive, negative } => code.update(
            code.len() - 1,
            if positive.0 == succ {
                InstructionView::Branch { condition, positive: BlockId(target), negative }
            } else if negative.0 == succ {
                InstructionView::Branch { condition, positive, negative: BlockId(target) }
            } else {
                code.last()
            },
        ),
        _ => code,
    }
}

/// An instruction that takes from `new` what it took from `pred`.
pub open spec fn resourced(
    instruction: InstructionView,
    pred: u32,
    new: u32,
) -> InstructionView {
    match instruction {
        InstructionView::Phi { destination, sources } => InstructionView::Phi {
            destination,
            sources: sources.remove(pred).insert(new, sources[pred]),
        },
        _ => instruction,
    }
}

/// Whether an instruction, if it is a phi, takes something from `pred`.
pub open spec fn takes_from(instruction: InstructionView, pred: u32) -> bool {
    instruction matches InstructionView::Phi { sources, .. } ==> sources.contains_key(pred)
}

/// Breaks an edge in two with a new block between them. There is no result
/// where one of the blocks does not exist, where the first one does not end in
/// a branch, or where the second one has a phi that takes nothing from it.
pub open spec fn split_edge(
    blocks: Map<u32, BlockView>,
    new: u32,
    pred: u32,
    succ: u32,
) -> Option<Map<u32, BlockView>> {
    let middle = BlockView {
        id: BlockId(new),
        instructions: seq![InstructionView::Jump { destination: BlockId(succ) }],
        predecessors: Set::empty().insert(pred),
    };
    let added = blocks.insert(new, middle);
    if !added.contains_key(pred) || !added.contains_key(succ) || final_branch(
        added[pred].instructions,
    ) is None {
        None
    } else {
        let left = BlockView {
            instructions: retargeted(added[pred].instructions, succ, new),
            ..added[pred]
        };
        let cut = added.insert(pred, left);
        let entered = cut[succ];
        if exists|i: int|
            0 <= i < entered.instructions.len() && !takes_from(
                #[trigger] entered.instructions[i],
                pred,
            ) {
            None
        } else {
            Some(
                cut.insert(
                    succ,
                    BlockView {
                        id: entered.id,
                        instructions: entered.instructions.map_values(
                            |instruction: InstructionView| resourced(instruction, pred, new),
                        ),
                        predecessors: entered.predecessors.remove(pred).insert(new),
                    },
                ),
            )
        }
    }
}

/// The number of the block that is put into the edge with number `k`.
pub open spec fn fresh_block(first: u32, k: nat) -> u32
    decreases k,
{
    if k == 0 {
        first
    } else {
        number_after(fresh_block(first, (k - 1) as nat))
    }
}

/// Breaks the first `n` of the listed edges in two.
pub open spec fn split_upto(
    blocks: Map<u32, BlockView>,
    edges: Seq<(u32, u32)>,
    first: u32,
    n: nat,
) -> Option<Map<u32, BlockView>>
    decreases n,
{
    if n == 0 {
        Some(blocks)
    } else {
        match split_upto(blocks, edges, first, (n - 1) as nat) {
            Some(before) => split_edge(
                before,
                fresh_block(first, (n - 1) as nat),
                edges[n - 1].0,
                edges[n - 1].1,
            ),
            None => None,
        }
    }
}

/// Blocks whose critical edges are broken in two by new blocks, which are
/// numbered from behind the last block on.
pub open spec fn without_critical_edges(blocks: Map<u32, BlockView>) -> Option<
    Map<u32, BlockView>,
> {
    let ids = ascending(blocks.dom());
    if ids.len() == 0 {
        None
    } else {
        match critical_edges(blocks) {
            Some(edges) => split_upto(blocks, edges, number_after(ids.last()), edges.len()),
            None => None,
        }
    }
}

/// A phi: a register, and what it takes from each of the blocks before.
pub struct PhiView {
    pub destination: RegisterId,
    pub sources: Map<u32, Operand>,
}

/// The phis among the first `n` instructions.
pub open spec fn phis_upto(code: Seq<InstructionView>, n: nat) -> Seq<PhiView>
    decreases n,
{
    if n == 0 || n > code.len() {
        Seq::empty()
    } else {
        let before = phis_upto(code, (n - 1) as nat);
        match code[n - 1] {
            InstructionView::Phi { destination, sources } => before.push(
                PhiView { destination, sources },
            ),
            _ => before,
        }
    }
}

/// Instructions with one more before the jump that ends them.
pub open spec fn placed(code: Seq<InstructionView>, instruction: InstructionView) -> Seq<
    InstructionView,
> {
    if ends_open(code) {
        code.push(instruction)
    } else {
        code.insert(code.len() - 1, instruction)
    }
}

/// Blocks with one more instruction at the end of a block.
pub open spec fn with_placed(
    blocks: Map<u32, BlockView>,
    id: u32,
    instruction: InstructionView,
) -> Map<u32, BlockView> {
    blocks.insert(
        id,
        BlockView { instructions: placed(blocks[id].instructions, instruction), ..blocks[id] },
    )
}

/// The state of a function while its phis are replaced.
pub struct Copying {
    pub blocks: Map<u32, BlockView>,
    pub registers: Map<u32, RegisterView>,
    pub next: u32,
}

/// What each of the blocks before a phi hands over.
pub struct Handing {
    pub state: Copying,
    pub values: Map<u32, Operand>,
}

/// Saves what a block hands to a phi: a register is copied to a new one.
pub open spec fn save_step(handing: Handing, pred: u32, value: Operand) -> Option<Handing> {
    let state = handing.state;
    if !state.blocks.contains_key(pred) {
        None
    } else {
        match value {
            Operand::Immediate(_) => Some(
                Handing { state, values: handing.values.insert(pred, value) },
            ),
            Operand::Register(register) => if !state.registers.contains_key(register.0) {
                None
            } else {
                let temp = RegisterId(state.next);
                Some(
                    Handing {
                        state: Copying {
                            blocks: with_placed(
                                state.blocks,
                                pred,
                                InstructionView::Copy { destination: temp, source: value },
                            ),
                            registers: state.registers.insert(
                                temp.0,
                                RegisterView { id: temp, ty: state.registers[register.0].ty },
                            ),
                            next: number_after(temp.0),
                        },
                        values: handing.values.insert(pred, Operand::Register(temp)),
                    },
                )
            },
        }
    }
}

/// Saves what the first `n` of the listed blocks hand to a phi.
pub open spec fn save_upto(
    state: Copying,
    sources: Map<u32, Operand>,
    preds: Seq<u32>,
    n: nat,
) -> Option<Handing>
    decreases n,
{
    if n == 0 {
        Some(Handing { state, values: Map::empty() })
    } else {
        match save_upto(state, sources, preds, (n - 1) as nat) {
            Some(handing) => save_step(handing, preds[n - 1], sources[preds[n - 1]]),
            None => None,
        }
    }
}

/// Copies the saved values of the first `n` of the listed blocks to the
/// register of a phi.
pub open spec fn assign_upto(
    blocks: Map<u32, BlockView>,
    destination: RegisterId,
    values: Map<u32, Operand>,
    preds: Seq<u32>,
    n: nat,
) -> Map<u32, BlockView>
    decreases n,
{
    if n == 0 {
        blocks
    } else {
        with_placed(
            assign_upto(blocks, destination, values, preds, (n - 1) as nat),
            preds[n - 1],
            InstructionView::Copy { destination, source: values[preds[n - 1]] },
        )
    }
}

/// What the blocks before some phis hand over, phi by phi.
pub struct Saving {
    pub state: Copying,
    pub values: Seq<Map<u32, Operand>>,
}

/// Saves what the blocks before hand to the first `n` of some phis.
pub open spec fn saved_upto(state: Copying, phis: Seq<PhiView>, n: nat) -> Option<Saving>
    decreases n,
{
    if n == 0 {
        Some(Saving { state, values: Seq::empty() })
    } else {
        match saved_upto(state, phis, (n - 1) as nat) {
            None => None,
            Some(before) => {
                let preds = ascending(phis[n - 1].sources.dom());
                match save_upto(before.state, phis[n - 1].sources, preds, preds.len()) {
                    None => None,
                    Some(handing) => Some(
                        Saving {
                            state: handing.state,
                            values: before.values.push(handing.values),
                        },
                    ),
                }
            },
        }
    }
}

/// Copies the saved values to the registers of the first `n` of some phis.
pub open spec fn assigned_upto(
    blocks: Map<u32, BlockView>,
    phis: Seq<PhiView>,
    values: Seq<Map<u32, Operand>>,
    n: nat,
) -> Map<u32, BlockView>
    decreases n,
{
    if n == 0 {
        blocks
    } else {
        let preds = ascending(phis[n - 1].sources.dom());
        assign_upto(
            assigned_upto(blocks, phis, values, (n - 1) as nat),
            phis[n - 1].destination,
            values[n - 1],
            preds,
            preds.len(),
        )
    }
}

/// Replaces the phis of a block by copies at the ends of the blocks before it:
/// first everything that they take is saved, and then all of their registers
/// are filled.
pub open spec fn phis_step(state: Copying, phis: Seq<PhiView>) -> Option<Copying> {
    match saved_upto(state, phis, phis.len()) {
        None => None,
        Some(saving) => Some(
            Copying {
                blocks: assigned_upto(saving.state.blocks, phis, saving.values, phis.len()),
                ..saving.state
            },
        ),
    }
}

/// The phis of a block.
pub open spec fn phis_of(block: BlockView) -> Seq<PhiView> {
    phis_upto(block.instructions, block.instructions.len())
}

/// Replaces the phis of the first `n` of the listed blocks.
pub open spec fn copy_upto(state: Copying, ids: Seq<u32>, n: nat) -> Option<Copying>
    decreases n,
{
    if n == 0 {
        Some(state)
    } else {
        match copy_upto(state, ids, (n - 1) as nat) {
            Some(before) => {
                let phis = phis_of(before.blocks[ids[n - 1]]);
                phis_step(before, phis)
            },
            None => None,
        }
    }
}

/// Instructions without the phis.
pub open spec fn without_phis(code: Seq<InstructionView>) -> Seq<InstructionView> {
    code.filter(|instruction: InstructionView| !(instruction is Phi))
}

/// The number of the first new register.
pub open spec fn first_fresh_register(registers: Map<u32, RegisterView>) -> u32 {
    let ids = ascending(registers.dom());
    if ids.len() == 0 {
        1
    } else {
        number_after(ids.last())
    }
}

/// A function out of SSA form: its critical edges are broken in two, its phis
/// are gone, and copies at the ends of the blocks before them do their work.
pub open spec fn destructed(function: FunctionView) -> Option<FunctionView> {
    match without_critical_edges(function.blocks) {
        None => None,
        Some(blocks) => {
            let ids = ascending(blocks.dom());
            let start = Copying {
                blocks,
                registers: function.registers,
                next: first_fresh_register(function.registers),
            };
            match copy_upto(start, ids, ids.len()) {
                None => None,
                Some(state) => Some(
                    FunctionView {
                        blocks: state.blocks.map_values(
                            |block: BlockView|
                                BlockView {
                                    instructions: without_phis(block.instructions),
                                    ..block
                                },
                        ),
                        registers: state.registers,
                        ..function
                    },
                ),
            }
        },
    }
}

/// The two targets of the branch that a block ends in.
fn branch_targets(block: &Block) -> (r: Option<(u32, u32)>)
    ensures
        r == final_branch(block@.instructions),
{
    let n: usize = block.instructions.len();
    if n == 0 {
        return None;
    }
    assert(block@.instructions.last() == block.instructions@[n - 1]@);
    match &block.instructions[n - 1] {
        Instruction::Branch { positive, negative, .. } => Some((positive.0, negative.0)),
        _ => None,
    }
}

proof fn lemma_critical_prefix(blocks: Map<u32, BlockView>, ids: Seq<u32>, n: nat, m: nat)
    requires
        n <= m,
        critical_upto(blocks, ids, m) is Some,
    ensures
        critical_upto(blocks, ids, n) is Some,
    decreases m - n,
{
    if n < m {
        lemma_critical_prefix(blocks, ids, n, (m - 1) as nat);
    }
}

/// Finds all critical edges
///
/// A edge is considered critical if it connects a block with multiple
/// successors to a block with multiple predecessors. Critically, a block can
/// only have multiple successors if it ends in a conditional branch
/// instruction (jumps or no branch fallthrough would always have a single
/// successor). For each branch instruction, we check the successor block to
/// check if it has multiple predecessors.
fn find_critical_edges(blocks: &BTreeMap<u32, Block>, ids: &Vec<u32>) -> (r: Vec<(u32, u32)>)
    requires
        lists(ids@, blocks@.dom()),
        critical_upto(block_views(blocks@), ids@, ids@.len()) is Some,
    ensures
        critical_upto(block_views(blocks@), ids@, ids@.len()) == Some(r@),
{
    let ghost all = block_views(blocks@);
    let mut edges: Vec<(u32, u32)> = Vec::new();
    let mut i: usize = 0;
    while i < ids.len()
        invariant
            0 <= i <= ids@.len(),
            all == block_views(blocks@),
            lists(ids@, blocks@.dom()),
            critical_upto(all, ids@, ids@.len()) is Some,
            critical_upto(all, ids@, i as nat) == Some(edges@),
        decreases ids@.len() - i,
    {
        let id: u32 = ids[i];
        assert(ids@.to_set().contains(id));
        proof {
            lemma_critical_prefix(all, ids@, i as nat + 1, ids@.len());
        }
        let ghost before = edges@;
        match branch_targets(block_at(blocks, id)) {
            None => {
                assert(before + Seq::<(u32, u32)>::empty() =~= before);
            }
            Some((positive, negative)) => {
                if block_at(blocks, positive).predecessors.len() > 1 {
                    edges.push((id, positive));
                }
                if block_at(blocks, negative).predecessors.len() > 1 {
                    edges.push((id, negative));
                }
                assert(edges@ =~= before + critical_from(all, id)->0);
            }
        }
        i = i + 1;
    }
    edges
}

/// Makes the last branch of a block go to `target` where it went to `succ`.
fn retarget(block: &mut Block, succ: u32, target: u32)
    requires
        final_branch(old(block)@.instructions) is Some,
    ensures
        final(block)@ == (BlockView {
            instructions: retargeted(old(block)@.instructions, succ, target),
            ..old(block)@
        }),
{
    let ghost all = block@.instructions;
    let n: usize = block.instructions.len();
    assert(all.last() == block.instructions@[n - 1]@);
    let mut changed: Option<Instruction> = None;
    if let Instruction::Branch { condition, positive, negative } = &block.instructions[n - 1] {
        if positive.0 == succ {
            changed = Some(
                Instruction::Branch {
                    condition: *condition,
                    positive: BlockId(target),
                    negative: *negative,
                },
            );
        } else if negative.0 == succ {
            changed = Some(
                Instruction::Branch {
                    condition: *condition,
                    positive: *positive,
                    negative: BlockId(target),
                },
            );
        }
    }
    if let Some(instruction) = changed {
        block.instructions[n - 1] = instruction;
    }
    assert(block@.instructions =~= retargeted(all, succ, target));
}

/// Makes the phis of a block take from `new` what they took from `pred`.
fn resource(block: &mut Block, pred: u32, new: u32)
    requires
        forall|i: int|
            0 <= i < old(block)@.instructions.len() ==> takes_from(
                #[trigger] old(block)@.instructions[i],
                pred,
            ),
    ensures
        final(block)@ == (BlockView {
            instructions: old(block)@.instructions.map_values(
                |instruction: InstructionView| resourced(instruction, pred, new),
            ),
            ..old(block)@
        }),
{
    let ghost all = block@.instructions;
    let mut i: usize = 0;
    while i < block.instructions.len()
        invariant
            0 <= i <= block.instructions@.len(),
            all == old(block)@.instructions,
            all.len() == block.instructions@.len(),
            block.id == old(block).id,
            block.predecessors == old(block).predecessors,
            forall|k: int| 0 <= k < all.len() ==> takes_from(#[trigger] all[k], pred),
            forall|k: int|
                0 <= k < i ==> (#[trigger] block.instructions@[k])@ == resourced(all[k], pred, new),
            forall|k: int| i <= k < all.len() ==> (#[trigger] block.instructions@[k])@ == all[k],
        decreases block.instructions@.len() - i,
    {
        assert(block.instructions@[i as int]@ == all[i as int]);
        assert(takes_from(all[i as int], pred));
        let mut changed: Option<Instruction> = None;
        if let Instruction::Phi { destination, sources } = &block.instructions[i] {
            let mut moved = sources.clone();
            if let Some(value) = moved.remove(&pred) {
                moved.insert(new, value);
            }
            changed = Some(Instruction::Phi { destination: *destination, sources: moved });
        }
        if let Some(instruction) = changed {
            block.instructions[i] = instruction;
        }
        i = i + 1;
    }
    assert(block@.instructions =~= all.map_values(
        |instruction: InstructionView| resourced(instruction, pred, new),
    ));
}

/// Breaks an edge in two.
///
/// We must create a new block, rewrite the predecessor block to branch to
/// the new block, update the successor's predecessor list, and update all
/// phi instructions in the successor block.
fn break_edge(blocks: &mut BTreeMap<u32, Block>, block_id: u32, pred_id: u32, succ_id: u32)
    requires
        split_edge(block_views(old(blocks)@), block_id, pred_id, succ_id) is Some,
    ensures
        split_edge(block_views(old(blocks)@), block_id, pred_id, succ_id) == Some(
            block_views(final(blocks)@),
        ),
{
    let ghost before = block_views(blocks@);
    let mut instructions: Vec<Instruction> = Vec::new();
    instructions.push(Instruction::Jump { destination: BlockId(succ_id) });
    let mut predecessors: BTreeSet<u32> = BTreeSet::new();
    predecessors.insert(pred_id);
    let block = Block { id: BlockId(block_id), instructions, predecessors };
    assert(block@.instructions =~= seq![InstructionView::Jump { destination: BlockId(succ_id) }]);
    assert(block@.predecessors =~= Set::empty().insert(pred_id));
    put_block(blocks, block_id, block);
    let ghost added = block_views(blocks@);
    assert(added.dom() =~= blocks@.dom());
    let mut pred = take_block(blocks, pred_id);
    retarget(&mut pred, succ_id, block_id);
    put_block(blocks, pred_id, pred);
    let ghost cut = block_views(blocks@);
    assert(cut =~= added.insert(
        pred_id,
        BlockView {
            instructions: retargeted(added[pred_id].instructions, succ_id, block_id),
            ..added[pred_id]
        },
    ));
    assert(cut.dom() =~= blocks@.dom());
    let mut succ = take_block(blocks, succ_id);
    resource(&mut succ, pred_id, block_id);
    succ.predecessors.remove(&pred_id);
    succ.predecessors.insert(block_id);
    put_block(blocks, succ_id, succ);
    assert(block_views(blocks@) =~= split_edge(before, block_id, pred_id, succ_id)->0);
}

proof fn lemma_split_prefix(
    blocks: Map<u32, BlockView>,
    edges: Seq<(u32, u32)>,
    first: u32,
    n: nat,
    m: nat,
)
    requires
        n <= m,
        split_upto(blocks, edges, first, m) is Some,
    ensures
        split_upto(blocks, edges, first, n) is Some,
    decreases m - n,
{
    if n < m {
        lemma_split_prefix(blocks, edges, first, n, (m - 1) as nat);
    }
}

/// Breaks all critical edges in two.
fn break_critical_edges(blocks: &mut BTreeMap<u32, Block>)
    requires
        without_critical_edges(block_views(old(blocks)@)) is Some,
    ensures
        without_critical_edges(block_views(old(blocks)@)) == Some(block_views(final(blocks)@)),
{
    let ghost before = block_views(blocks@);
    let ids = sorted_keys(blocks);
    assert(before.dom() =~= blocks@.dom());
    let edges = find_critical_edges(blocks, &ids);
    let ghost first = number_after(ids@.last());
    let mut next_block_id: u32 = successor(ids[ids.len() - 1]);
    let mut i: usize = 0;
    while i < edges.len()
        invariant
            0 <= i <= edges@.len(),
            split_upto(before, edges@, first, edges@.len()) is Some,
            split_upto(before, edges@, first, i as nat) == Some(block_views(blocks@)),
            next_block_id == fresh_block(first, i as nat),
        decreases edges@.len() - i,
    {
        proof {
            lemma_split_prefix(before, edges@, first, i as nat + 1, edges@.len());
        }
        let block_id: u32 = next_block_id;
        next_block_id = successor(next_block_id);
        let (pred_id, succ_id) = edges[i];
        break_edge(blocks, block_id, pred_id, succ_id);
        i = i + 1;
    }
}

/// What a list of phis is.
pub open spec fn phi_views(phis: Seq<(RegisterId, BTreeMap<u32, Operand>)>) -> Seq<PhiView> {
    Seq::new(phis.len(), |i: int| PhiView { destination: phis[i].0, sources: phis[i].1@ })
}

/// Finds the phis of a block.
fn find_phis(block: &Block) -> (r: Vec<(RegisterId, BTreeMap<u32, Operand>)>)
    ensures
        phi_views(r@) == phis_of(block@),
{
    let ghost all = block@.instructions;
    let mut phis: Vec<(RegisterId, BTreeMap<u32, Operand>)> = Vec::new();
    let mut i: usize = 0;
    assert(phi_views(phis@) =~= Seq::<PhiView>::empty());
    while i < block.instructions.len()
        invariant
            0 <= i <= block.instructions@.len(),
            all == block@.instructions,
            phi_views(phis@) == phis_upto(all, i as nat),
        decreases block.instructions@.len() - i,
    {
        assert(all[i as int] == block.instructions@[i as int]@);
        let ghost before = phi_views(phis@);
        if let Instruction::Phi { destination, sources } = &block.instructions[i] {
            phis.push((*destination, sources.clone()));
            assert(phi_views(phis@) =~= before.push(
                PhiView { destination: *destination, sources: sources@ },
            ));
        }
        i = i + 1;
    }
    phis
}

/// Puts one more instruction before the jump that ends a block.
fn place(blocks: &mut BTreeMap<u32, Block>, id: u32, instruction: Instruction)
    requires
        old(blocks)@.contains_key(id),
    ensures
        block_views(final(blocks)@) == with_placed(
            block_views(old(blocks)@),
            id,
            instruction@,
        ),
        final(blocks)@.dom() == old(blocks)@.dom(),
{
    let ghost before = block_views(blocks@);
    let mut block = take_block(blocks, id);
    let ghost all = block@.instructions;
    if block.falls_through() {
        block.instructions.push(instruction);
    } else {
        let n: usize = block.instructions.len() - 1;
        block.instructions.insert(n, instruction);
    }
    assert(block@.instructions =~= placed(all, instruction@));
    put_block(blocks, id, block);
    assert(block_views(blocks@) =~= with_placed(before, id, instruction@));
    assert(blocks@.dom() =~= old(blocks)@.dom());
}

proof fn lemma_save_prefix(
    state: Copying,
    sources: Map<u32, Operand>,
    preds: Seq<u32>,
    n: nat,
    m: nat,
)
    requires
        n <= m,
        save_upto(state, sources, preds, m) is Some,
    ensures
        save_upto(state, sources, preds, n) is Some,
    decreases m - n,
{
    if n < m {
        lemma_save_prefix(state, sources, preds, n, (m - 1) as nat);
    }
}

/// The state of a function while its phis are replaced.
pub open spec fn copying(function: FunctionView, next: u32) -> Copying {
    Copying { blocks: function.blocks, registers: function.registers, next }
}

/// Saves what the blocks before hand to a phi, registers in temporary copies.
/// The result is what is handed over from there on, and the number of the next
/// new register.
fn save_sources(
    function: &mut FunctionDefinition,
    sources: &BTreeMap<u32, Operand>,
    next: u32,
) -> (r: (BTreeMap<u32, Operand>, u32))
    requires
        ({
            let preds = ascending(sources@.dom());
            save_upto(copying(old(function)@, next), sources@, preds, preds.len()) is Some
        }),
    ensures
        ({
            let preds = ascending(sources@.dom());
            save_upto(copying(old(function)@, next), sources@, preds, preds.len()) == Some(
                Handing { state: copying(final(function)@, r.1), values: (r.0)@ },
            )
        }),
        final(function)@.symbol_name == old(function)@.symbol_name,
        final(function)@.struct_return == old(function)@.struct_return,
        final(function)@.arguments == old(function)@.arguments,
{
    let ghost start = copying(function@, next);
    let preds = sorted_keys(sources);
    let mut next_register_id: u32 = next;
    let mut temporary_copies: BTreeMap<u32, Operand> = BTreeMap::new();
    let mut i: usize = 0;
    assert(temporary_copies@ =~= Map::<u32, Operand>::empty());
    while i < preds.len()
        invariant
            0 <= i <= preds@.len(),
            lists(preds@, sources@.dom()),
            start == copying(old(function)@, next),
            save_upto(start, sources@, preds@, preds@.len()) is Some,
            save_upto(start, sources@, preds@, i as nat) == Some(
                Handing {
                    state: copying(function@, next_register_id),
                    values: temporary_copies@,
                },
            ),
            forall|k: int|
                0 <= k < i ==> function.blocks@.contains_key(#[trigger] preds@[k])
                    && temporary_copies@.contains_key(preds@[k]),
            function.symbol_name == old(function).symbol_name,
            function.struct_return == old(function).struct_return,
            function.arguments == old(function).arguments,
        decreases preds@.len() - i,
    {
        let ghost here = copying(function@, next_register_id);
        proof {
            lemma_save_prefix(start, sources@, preds@, i as nat + 1, preds@.len());
        }
        let pred_id: u32 = preds[i];
        assert(preds@.to_set().contains(pred_id));
        assert(function.blocks@.dom() =~= here.blocks.dom());
        let value = match sources.get(&pred_id) {
            Some(value) => *value,
            None => vstd::pervasive::unreached(),
        };
        match value {
            Operand::Register(reg_id) => {
                assert(function.registers@.dom() =~= here.registers.dom());
                let ty = match function.registers.get(&reg_id.0) {
                    Some(register) => register.ty.duplicate(),
                    None => vstd::pervasive::unreached(),
                };
                let temp_reg_id = RegisterId(next_register_id);
                next_register_id = successor(next_register_id);
                let temp_reg = Register { id: temp_reg_id, ty };
                proof {
                    lemma_register_views_insert(function.registers@, temp_reg_id.0, temp_reg);
                }
                function.registers.insert(temp_reg_id.0, temp_reg);
                place(
                    &mut function.blocks,
                    pred_id,
                    Instruction::Copy { destination: temp_reg_id, source: value },
                );
                temporary_copies.insert(pred_id, Operand::Register(temp_reg_id));
            }
            Operand::Immediate(_) => {
                temporary_copies.insert(pred_id, value);
            }
        }
        i = i + 1;
    }
    (temporary_copies, next_register_id)
}

/// Copies what the blocks before hand over to the register of a phi.
fn assign_destination(
    blocks: &mut BTreeMap<u32, Block>,
    dest: RegisterId,
    sources: &BTreeMap<u32, Operand>,
    values: &BTreeMap<u32, Operand>,
)
    requires
        forall|id: u32| #[trigger]
            sources@.contains_key(id) ==> old(blocks)@.contains_key(id) && values@.contains_key(id),
    ensures
        ({
            let preds = ascending(sources@.dom());
            block_views(final(blocks)@) == assign_upto(
                block_views(old(blocks)@),
                dest,
                values@,
                preds,
                preds.len(),
            )
        }),
        final(blocks)@.dom() == old(blocks)@.dom(),
{
    let preds = sorted_keys(sources);
    let mut i: usize = 0;
    while i < preds.len()
        invariant
            0 <= i <= preds@.len(),
            lists(preds@, sources@.dom()),
            blocks@.dom() == old(blocks)@.dom(),
            block_views(blocks@) == assign_upto(
                block_views(old(blocks)@),
                dest,
                values@,
                preds@,
                i as nat,
            ),
            forall|id: u32| #[trigger]
                sources@.contains_key(id) ==> old(blocks)@.contains_key(id)
                    && values@.contains_key(id),
        decreases preds@.len() - i,
    {
        let pred_id: u32 = preds[i];
        assert(preds@.to_set().contains(pred_id));
        assert(sources@.contains_key(pred_id));
        let value = match values.get(&pred_id) {
            Some(value) => *value,
            None => vstd::pervasive::unreached(),
        };
        place(blocks, pred_id, Instruction::Copy { destination: dest, source: value });
        i = i + 1;
    }
}

proof fn lemma_saved_prefix(state: Copying, phis: Seq<PhiView>, n: nat, m: nat)
    requires
        n <= m,
        saved_upto(state, phis, m) is Some,
    ensures
        saved_upto(state, phis, n) is Some,
    decreases m - n,
{
    if n < m {
        lemma_saved_prefix(state, phis, n, (m - 1) as nat);
    }
}

/// What a list of saved values is.
spec fn value_views(values: Seq<BTreeMap<u32, Operand>>) -> Seq<Map<u32, Operand>> {
    Seq::new(values.len(), |i: int| values[i]@)
}

/// Replaces the phis of a block by copies in preceding basic blocks (creating
/// temporary copies to avoid cycles)
fn replace_phis(
    function: &mut FunctionDefinition,
    phis: &Vec<(RegisterId, BTreeMap<u32, Operand>)>,
    next: u32,
) -> (r: u32)
    requires
        phis_step(copying(old(function)@, next), phi_views(phis@)) is Some,
    ensures
        phis_step(copying(old(function)@, next), phi_views(phis@)) == Some(
            copying(final(function)@, r),
        ),
        final(function)@.blocks.dom() == old(function)@.blocks.dom(),
        final(function)@.symbol_name == old(function)@.symbol_name,
        final(function)@.struct_return == old(function)@.struct_return,
        final(function)@.arguments == old(function)@.arguments,
{
    let ghost start = copying(function@, next);
    let ghost views = phi_views(phis@);
    let mut next_register_id: u32 = next;
    let mut temporary_copies: Vec<BTreeMap<u32, Operand>> = Vec::new();
    let mut i: usize = 0;
    assert(value_views(temporary_copies@) =~= Seq::<Map<u32, Operand>>::empty());
    while i < phis.len()
        invariant
            0 <= i <= phis@.len(),
            views == phi_views(phis@),
            start == copying(old(function)@, next),
            temporary_copies@.len() == i,
            saved_upto(start, views, views.len()) is Some,
            saved_upto(start, views, i as nat) == Some(
                Saving {
                    state: copying(function@, next_register_id),
                    values: value_views(temporary_copies@),
                },
            ),
            function@.symbol_name == old(function)@.symbol_name,
            function@.struct_return == old(function)@.struct_return,
            function@.arguments == old(function)@.arguments,
        decreases phis@.len() - i,
    {
        proof {
            lemma_saved_prefix(start, views, i as nat + 1, views.len());
        }
        let ghost before = value_views(temporary_copies@);
        let (values, following) = save_sources(function, &phis[i].1, next_register_id);
        next_register_id = following;
        temporary_copies.push(values);
        assert(value_views(temporary_copies@) =~= before.push(values@));
        i = i + 1;
    }
    let ghost saved = function@;
    let ghost handed = value_views(temporary_copies@);
    proof {
        lemma_saved_keeps(start, views, views.len());
    }
    assert(function.blocks@.dom() =~= function@.blocks.dom());
    let mut i: usize = 0;
    while i < phis.len()
        invariant
            0 <= i <= phis@.len(),
            views == phi_views(phis@),
            temporary_copies@.len() == phis@.len(),
            handed == value_views(temporary_copies@),
            function.blocks@.dom() == saved.blocks.dom(),
            function@.blocks == assigned_upto(saved.blocks, views, handed, i as nat),
            function@.registers == saved.registers,
            function@.symbol_name == saved.symbol_name,
            function@.struct_return == saved.struct_return,
            function@.arguments == saved.arguments,
            forall|k: int, id: u32|
                0 <= k < views.len() && #[trigger] views[k].sources.contains_key(id)
                    ==> saved.blocks.contains_key(id) && handed[k].contains_key(id),
        decreases phis@.len() - i,
    {
        assert(handed[i as int] == temporary_copies@[i as int]@);
        assert(views[i as int].sources == phis@[i as int].1@);
        assign_destination(
            &mut function.blocks,
            phis[i].0,
            &phis[i].1,
            &temporary_copies[i],
        );
        i = i + 1;
    }
    assert(function@.blocks.dom() =~= function.blocks@.dom());
    next_register_id
}

proof fn lemma_copy_prefix(state: Copying, ids: Seq<u32>, n: nat, m: nat)
    requires
        n <= m,
        copy_upto(state, ids, m) is Some,
    ensures
        copy_upto(state, ids, n) is Some,
    decreases m - n,
{
    if n < m {
        lemma_copy_prefix(state, ids, n, (m - 1) as nat);
    }
}

/// Removes the phis of a block.
fn remove_phis(block: &mut Block)
    ensures
        final(block)@ == (BlockView {
            instructions: without_phis(old(block)@.instructions),
            ..old(block)@
        }),
{
    let ghost all = block@.instructions;
    let ghost keep = |instruction: InstructionView| !(instruction is Phi);
    let mut taken: Vec<Instruction> = Vec::new();
    taken.append(&mut block.instructions);
    let mut kept: Vec<Instruction> = Vec::new();
    let ghost given = taken@;
    assert(code(given) == all);
    assert(code(kept@) =~= all.take(0).filter(keep)) by {
        reveal(Seq::filter);
        assert(all.take(0) =~= Seq::<InstructionView>::empty());
    }
    for instruction in it: taken
        invariant
            it.seq() == given,
            code(given) == all,
            keep == |instruction: InstructionView| !(instruction is Phi),
            code(kept@) == all.take(it.index() as int).filter(keep),
    {
        let ghost i = it.index() as int;
        let ghost before = code(kept@);
        proof {
            assert(given[i]@ == all[i]);
            assert(all.take(i + 1).drop_last() =~= all.take(i));
            assert(all.take(i + 1).last() == all[i]);
            reveal(Seq::filter);
        }
        if !matches!(instruction, Instruction::Phi { .. }) {
            kept.push(instruction);
            assert(code(kept@) =~= before.push(all[i]));
        }
    }
    assert(all.take(all.len() as int) =~= all);
    block.instructions = kept;
}

/// Brings a function out of SSA form.
///
/// multistep process:
///
/// 1. remove all critical edges in the CFG
///
/// 2. insert copy instructions in preceding basic blocks (creating temporary
/// copies to avoid cycles)
///
/// 3. remove all phi instructions in all blocks
pub fn destruct_ssa(function: &mut FunctionDefinition)
    requires
        destructed(old(function)@) is Some,
    ensures
        destructed(old(function)@) == Some(final(function)@),
{
    let register_ids = sorted_keys(&function.registers);
    assert(function.registers@.dom() =~= function@.registers.dom());
    let mut next_register_id: u32 = if register_ids.len() == 0 {
        1
    } else {
        successor(register_ids[register_ids.len() - 1])
    };
    break_critical_edges(&mut function.blocks);
    let ghost start = copying(function@, next_register_id);
    let ids = sorted_keys(&function.blocks);
    assert(function.blocks@.dom() =~= function@.blocks.dom());
    let mut i: usize = 0;
    proof {
        assert forall|k: int| 0 <= k < ids@.len() implies function.blocks@.contains_key(
            #[trigger] ids@[k],
        ) by {
            assert(ids@.to_set().contains(ids@[k]));
        }
    }
    while i < ids.len()
        invariant
            0 <= i <= ids@.len(),
            copy_upto(start, ids@, ids@.len()) is Some,
            copy_upto(start, ids@, i as nat) == Some(copying(function@, next_register_id)),
            forall|k: int|
                0 <= k < ids@.len() ==> function.blocks@.contains_key(#[trigger] ids@[k]),
            function@.symbol_name == old(function)@.symbol_name,
            function@.struct_return == old(function)@.struct_return,
            function@.arguments == old(function)@.arguments,
        decreases ids@.len() - i,
    {
        let block_id: u32 = ids[i];
        assert(function.blocks@.contains_key(ids@[i as int]));
        proof {
            lemma_copy_prefix(start, ids@, i as nat + 1, ids@.len());
        }
        let ghost here = copying(function@, next_register_id);
        let phis = find_phis(block_at(&function.blocks, block_id));
        next_register_id = replace_phis(function, &phis, next_register_id);
        proof {
            assert forall|k: int| 0 <= k < ids@.len() implies function.blocks@.contains_key(
                #[trigger] ids@[k],
            ) by {
                assert(here.blocks.contains_key(ids@[k]));
                assert(function@.blocks.contains_key(ids@[k]));
            }
        }
        i = i + 1;
    }
    let ghost copied = block_views(function.blocks@);
    let keys = sorted_keys(&function.blocks);
    assert(copied.dom() =~= function.blocks@.dom());
    let mut i: usize = 0;
    while i < keys.len()
        invariant
            0 <= i <= keys@.len(),
            lists(keys@, copied.dom()),
            function.blocks@.dom() == copied.dom(),
            function@.registers == copying(function@, next_register_id).registers,
            forall|k: int|
                0 <= k < i ==> block_views(function.blocks@)[#[trigger] keys@[k]] == (BlockView {
                    instructions: without_phis(copied[keys@[k]].instructions),
                    ..copied[keys@[k]]
                }),
            forall|k: int|
                i <= k < keys@.len() ==> block_views(function.blocks@)[#[trigger] keys@[k]]
                    == copied[keys@[k]],
            copy_upto(start, ids@, ids@.len()) == Some(
                Copying {
                    blocks: copied,
                    registers: function@.registers,
                    next: next_register_id,
                },
            ),
            function@.symbol_name == old(function)@.symbol_name,
            function@.struct_return == old(function)@.struct_return,
            function@.arguments == old(function)@.arguments,
        decreases keys@.len() - i,
    {
        let id: u32 = keys[i];
        assert(keys@.to_set().contains(id));
        let mut block = take_block(&mut function.blocks, id);
        remove_phis(&mut block);
        put_block(&mut function.blocks, id, block);
        assert(function.blocks@.dom() =~= copied.dom());
        i = i + 1;
    }
    proof {
        let goal = copied.map_values(
            |block: BlockView|
                BlockView { instructions: without_phis(block.instructions), ..block },
        );
        let found = block_views(function.blocks@);
        assert forall|id: u32| goal.contains_key(id) implies found[id] == goal[id] by {
            assert(keys@.to_set().contains(id));
            let k = keys@.index_of(id);
            assert(keys@[k] == id);
        }
        assert(found =~= goal);
    }
}

proof fn lemma_save_keeps(state: Copying, sources: Map<u32, Operand>, preds: Seq<u32>, n: nat)
    requires
        save_upto(state, sources, preds, n) is Some,
    ensures
        save_upto(state, sources, preds, n)->0.state.blocks.dom() == state.blocks.dom(),
        forall|k: int|
            0 <= k < n ==> state.blocks.contains_key(#[trigger] preds[k]) && save_upto(
                state,
                sources,
                preds,
                n,
            )->0.values.contains_key(preds[k]),
    decreases n,
{
    if n > 0 {
        lemma_save_keeps(state, sources, preds, (n - 1) as nat);
        let handing = save_upto(state, sources, preds, (n - 1) as nat)->0;
        let done = save_upto(state, sources, preds, n)->0;
        assert(done.state.blocks.dom() =~= state.blocks.dom());
    }
}

/// Saving drops no block, and what is taken is handed over.
proof fn lemma_saved_keeps(state: Copying, phis: Seq<PhiView>, n: nat)
    requires
        n <= phis.len(),
        saved_upto(state, phis, n) is Some,
        forall|k: int| 0 <= k < n ==> (#[trigger] phis[k]).sources.dom().finite(),
    ensures
        saved_upto(state, phis, n)->0.state.blocks.dom() == state.blocks.dom(),
        saved_upto(state, phis, n)->0.values.len() == n,
        forall|k: int, id: u32|
            0 <= k < n && #[trigger] phis[k].sources.contains_key(id) ==> state.blocks.contains_key(
                id,
            ) && saved_upto(state, phis, n)->0.values[k].contains_key(id),
    decreases n,
{
    if n > 0 {
        lemma_saved_keeps(state, phis, (n - 1) as nat);
        let before = saved_upto(state, phis, (n - 1) as nat)->0;
        let sources = phis[n - 1].sources;
        let preds = ascending(sources.dom());
        lemma_save_keeps(before.state, sources, preds, preds.len());
        crate::collections::lemma_ascending(sources.dom());
        assert forall|id: u32| #[trigger] sources.contains_key(id) implies state.blocks.contains_key(
            id,
        ) && save_upto(before.state, sources, preds, preds.len())->0.values.contains_key(id) by {
            assert(preds.to_set().contains(id));
            let k = preds.index_of(id);
            assert(preds[k] == id);
        }
    }
}

/// No phi is left in a function out of SSA form.
pub proof fn law_no_phis(function: FunctionView)
    requires
        destructed(function) is Some,
    ensures
        forall|id: u32, i: int|
            destructed(function)->0.blocks.contains_key(id) && 0 <= i < destructed(
                function,
            )->0.blocks[id].instructions.len() ==> !(
            #[trigger] destructed(function)->0.blocks[id].instructions[i] is Phi),
{
    let done = destructed(function)->0;
    assert forall|id: u32, i: int|
        done.blocks.contains_key(id) && 0 <= i < done.blocks[id].instructions.len() implies !(
    #[trigger] done.blocks[id].instructions[i] is Phi) by {
        let ids = ascending(without_critical_edges(function.blocks)->0.dom());
        let state = copy_upto(
            copying(
                FunctionView {
                    blocks: without_critical_edges(function.blocks)->0,
                    ..function
                },
                first_fresh_register(function.registers),
            ),
            ids,
            ids.len(),
        )->0;
        lemma_without_phis(state.blocks[id].instructions, i);
    }
}

proof fn lemma_without_phis(code: Seq<InstructionView>, i: int)
    requires
        0 <= i < without_phis(code).len(),
    ensures
        !(without_phis(code)[i] is Phi),
    decreases code.len(),
{
    let keep = |instruction: InstructionView| !(instruction is Phi);
    code.lemma_filter_pred(keep, i);
}

/// A pair of targets with `new` in place of the first that is `succ`.
spec fn swapped(targets: (u32, u32), succ: u32, new: u32) -> (u32, u32) {
    if targets.0 == succ {
        (new, targets.1)
    } else if targets.1 == succ {
        (targets.0, new)
    } else {
        targets
    }
}

/// What breaking one edge changes.
proof fn lemma_split_edge(blocks: Map<u32, BlockView>, new: u32, pred: u32, succ: u32)
    requires
        split_edge(blocks, new, pred, succ) is Some,
        !blocks.contains_key(new),
        blocks.contains_key(pred),
        blocks.contains_key(succ),
    ensures
        ({
            let done = split_edge(blocks, new, pred, succ)->0;
            &&& done.dom() == blocks.dom().insert(new)
            &&& final_branch(done[new].instructions) is None
            &&& done[new].predecessors.len() == 1
            &&& forall|t: u32|
                t != new && t != succ ==> #[trigger] done[t].predecessors == blocks[t].predecessors
            &&& forall|t: u32|
                t != new && t != pred ==> final_branch(#[trigger] done[t].instructions)
                    == final_branch(blocks[t].instructions)
            &&& final_branch(blocks[pred].instructions) is Some
            &&& final_branch(done[pred].instructions) == Some(
                swapped(final_branch(blocks[pred].instructions)->0, succ, new),
            )
        }),
{
    let done = split_edge(blocks, new, pred, succ)->0;
    let middle = BlockView {
        id: BlockId(new),
        instructions: seq![InstructionView::Jump { destination: BlockId(succ) }],
        predecessors: Set::empty().insert(pred),
    };
    let added = blocks.insert(new, middle);
    let left = BlockView {
        instructions: retargeted(added[pred].instructions, succ, new),
        ..added[pred]
    };
    let cut = added.insert(pred, left);
    assert(done.dom() =~= blocks.dom().insert(new));
    assert(done[new] == middle);
    let f = |instruction: InstructionView| resourced(instruction, pred, new);
    let entered = cut[succ].instructions;
    assert(done[succ].instructions == entered.map_values(f));
    if entered.len() > 0 {
        assert(entered.map_values(f).last() == resourced(entered.last(), pred, new));
    }
    assert(final_branch(done[succ].instructions) == final_branch(entered));
    assert(final_branch(cut[pred].instructions) == Some(
        swapped(final_branch(blocks[pred].instructions)->0, succ, new),
    ));
}

proof fn lemma_fresh_block(first: u32, k: nat)
    requires
        first + k <= u32::MAX,
    ensures
        fresh_block(first, k) == first + k,
    decreases k,
{
    if k > 0 {
        lemma_fresh_block(first, (k - 1) as nat);
    }
}

/// The critical edges of some blocks come first among those of more blocks.
proof fn lemma_critical_extends(blocks: Map<u32, BlockView>, ids: Seq<u32>, n: nat, m: nat)
    requires
        n <= m,
        critical_upto(blocks, ids, m) is Some,
    ensures
        critical_upto(blocks, ids, n) is Some,
        critical_upto(blocks, ids, n)->0.len() <= critical_upto(blocks, ids, m)->0.len(),
        forall|k: int|
            0 <= k < critical_upto(blocks, ids, n)->0.len() ==> #[trigger] critical_upto(
                blocks,
                ids,
                n,
            )->0[k] == critical_upto(blocks, ids, m)->0[k],
    decreases m - n,
{
    if n < m {
        lemma_critical_extends(blocks, ids, n, (m - 1) as nat);
        let fewer = critical_upto(blocks, ids, (m - 1) as nat)->0;
        let more = critical_upto(blocks, ids, m)->0;
        assert forall|k: int| 0 <= k < critical_upto(blocks, ids, n)->0.len() implies
            #[trigger] critical_upto(blocks, ids, n)->0[k] == more[k] by {
            assert(fewer[k] == more[k]);
        }
    }
}

/// Whether a branch to `t` is no critical edge: `t` is one of `n` new blocks,
/// or could be entered from one place alone from the start.
spec fn harmless(blocks: Map<u32, BlockView>, first: u32, n: nat, t: u32) -> bool {
    first <= t < first + n || (blocks.contains_key(t) && !joins(blocks, t))
}

/// What holds of the blocks once `n` edges are broken.
spec fn split_base(
    blocks: Map<u32, BlockView>,
    first: u32,
    n: nat,
    done: Map<u32, BlockView>,
) -> bool {
    &&& forall|t: u32| #[trigger]
        done.contains_key(t) <==> blocks.contains_key(t) || first <= t < first + n
    &&& forall|t: u32|
        first <= t < first + n ==> final_branch(#[trigger] done[t].instructions) is None
    &&& forall|t: u32| first <= t < first + n ==> #[trigger] done[t].predecessors.len() == 1
    &&& forall|t: u32|
        blocks.contains_key(t) && !joins(blocks, t) ==> #[trigger] done[t].predecessors
            == blocks[t].predecessors
}

/// What holds once the critical edges of the first `j` blocks are broken.
spec fn half_split(
    blocks: Map<u32, BlockView>,
    ids: Seq<u32>,
    first: u32,
    n: nat,
    j: nat,
    done: Map<u32, BlockView>,
) -> bool {
    &&& split_base(blocks, first, n, done)
    &&& forall|i: int|
        0 <= i < j ==> (final_branch(done[#[trigger] ids[i]].instructions) matches Some(
            targets,
        ) ==> harmless(blocks, first, n, targets.0) && harmless(blocks, first, n, targets.1))
    &&& forall|i: int|
        j <= i < ids.len() ==> final_branch(done[#[trigger] ids[i]].instructions) == final_branch(
            blocks[ids[i]].instructions,
        )
}

/// Breaking one more edge.
proof fn lemma_split_base(
    blocks: Map<u32, BlockView>,
    first: u32,
    n: nat,
    done: Map<u32, BlockView>,
    pred: u32,
    succ: u32,
)
    requires
        split_base(blocks, first, n, done),
        first + n <= u32::MAX,
        forall|t: u32| #[trigger] blocks.contains_key(t) ==> t < first,
        blocks.contains_key(pred),
        blocks.contains_key(succ),
        joins(blocks, succ),
        split_edge(done, (first + n) as u32, pred, succ) is Some,
    ensures
        ({
            let next = split_edge(done, (first + n) as u32, pred, succ)->0;
            &&& split_base(blocks, first, n + 1, next)
            &&& forall|t: u32|
                blocks.contains_key(t) && t != pred ==> final_branch(
                    #[trigger] next[t].instructions,
                ) == final_branch(done[t].instructions)
            &&& final_branch(done[pred].instructions) is Some
            &&& final_branch(next[pred].instructions) == Some(
                swapped(final_branch(done[pred].instructions)->0, succ, (first + n) as u32),
            )
        }),
{
    let new = (first + n) as u32;
    let next = split_edge(done, new, pred, succ)->0;
    assert(!done.contains_key(new));
    assert(done.contains_key(pred) && done.contains_key(succ));
    lemma_split_edge(done, new, pred, succ);
    assert forall|t: u32| blocks.contains_key(t) && !joins(blocks, t) implies
        #[trigger] next[t].predecessors == blocks[t].predecessors by {
        assert(done[t].predecessors == blocks[t].predecessors);
    }
    assert forall|t: u32| first <= t < first + n + 1 implies final_branch(
        #[trigger] next[t].instructions,
    ) is None by {
        if t != new {
            assert(final_branch(done[t].instructions) is None);
            assert(t != pred);
        }
    }
    assert forall|t: u32| first <= t < first + n + 1 implies
        #[trigger] next[t].predecessors.len() == 1 by {
        if t != new {
            assert(done[t].predecessors.len() == 1);
            assert(t != succ);
        }
    }
}

proof fn lemma_harmless_grows(blocks: Map<u32, BlockView>, first: u32, n: nat, m: nat)
    requires
        n <= m,
    ensures
        forall|t: u32| #[trigger] harmless(blocks, first, n, t) ==> harmless(blocks, first, m, t),
{
}

proof fn lemma_split_blocks(
    blocks: Map<u32, BlockView>,
    ids: Seq<u32>,
    edges: Seq<(u32, u32)>,
    first: u32,
    j: nat,
)
    requires
        lists(ids, blocks.dom()),
        ids.len() > 0,
        first == ids.last() + 1,
        critical_upto(blocks, ids, ids.len()) == Some(edges),
        first + edges.len() <= u32::MAX,
        j <= ids.len(),
        split_upto(blocks, edges, first, edges.len()) is Some,
    ensures
        critical_upto(blocks, ids, j) is Some,
        ({
            let n = critical_upto(blocks, ids, j)->0.len();
            &&& n <= edges.len()
            &&& split_upto(blocks, edges, first, n) is Some
            &&& half_split(blocks, ids, first, n, j, split_upto(blocks, edges, first, n)->0)
        }),
    decreases j,
{
    lemma_critical_extends(blocks, ids, j, ids.len());
    let n = critical_upto(blocks, ids, j)->0.len();
    lemma_split_prefix(blocks, edges, first, n, edges.len());
    if j > 0 {
        let i = j - 1;
        lemma_split_blocks(blocks, ids, edges, first, i as nat);
        lemma_split_block(blocks, ids, edges, first, i as nat);
    }
}

/// Breaking the critical edges of one more block.
#[verifier::rlimit(40)]
proof fn lemma_split_block(
    blocks: Map<u32, BlockView>,
    ids: Seq<u32>,
    edges: Seq<(u32, u32)>,
    first: u32,
    i: nat,
)
    requires
        lists(ids, blocks.dom()),
        first == ids.last() + 1,
        critical_upto(blocks, ids, ids.len()) == Some(edges),
        first + edges.len() <= u32::MAX,
        i < ids.len(),
        split_upto(blocks, edges, first, edges.len()) is Some,
        critical_upto(blocks, ids, i) is Some,
        ({
            let m = critical_upto(blocks, ids, i)->0.len();
            &&& split_upto(blocks, edges, first, m) is Some
            &&& half_split(blocks, ids, first, m, i, split_upto(blocks, edges, first, m)->0)
        }),
    ensures
        ({
            let n = critical_upto(blocks, ids, i + 1)->0.len();
            half_split(blocks, ids, first, n, i + 1, split_upto(blocks, edges, first, n)->0)
        }),
{
    lemma_critical_extends(blocks, ids, i + 1, ids.len());
    let n = critical_upto(blocks, ids, i + 1)->0.len();
    lemma_split_prefix(blocks, edges, first, n, edges.len());
    assert forall|t: u32| #[trigger] blocks.contains_key(t) implies t < first by {
        assert(ids.to_set().contains(t));
        let k = ids.index_of(t);
        assert(ids[k] == t);
        if k < ids.len() - 1 {
            assert(ids[k] < ids[ids.len() - 1]);
        }
    }
    let id = ids[i as int];
    assert forall|k: int| 0 <= k < ids.len() implies blocks.contains_key(#[trigger] ids[k]) by {
        assert(ids.to_set().contains(ids[k]));
    }
    let m = critical_upto(blocks, ids, i)->0.len();
    let here = critical_from(blocks, id)->0;
    assert(n == m + here.len());
    assert forall|k: int| 0 <= k < here.len() implies edges[m + k] == #[trigger] here[k] by {
        assert(critical_upto(blocks, ids, i + 1)->0[m + k] == here[k]);
    }
    assert forall|k: int| 0 <= k < ids.len() && k != i implies #[trigger] ids[k] != id by {
        if k < i {
            assert(ids[k] < ids[i as int]);
        } else {
            assert(ids[i as int] < ids[k]);
        }
    }
    lemma_harmless_grows(blocks, first, m, n);
    let zero = split_upto(blocks, edges, first, m)->0;
    assert(final_branch(zero[ids[i as int]].instructions) == final_branch(blocks[id].instructions));
    if here.len() >= 1 {
        let (a, b) = final_branch(blocks[id].instructions)->0;
        let t0 = here[0].1;
        let f0 = (first + m) as u32;
        lemma_fresh_block(first, m);
        assert(edges[m as int] == here[0]);
        lemma_split_prefix(blocks, edges, first, m + 1, edges.len());
        assert(split_upto(blocks, edges, first, m + 1) == split_edge(zero, f0, id, t0));
        lemma_split_base(blocks, first, m, zero, id, t0);
        let one = split_upto(blocks, edges, first, m + 1)->0;
        if here.len() == 2 {
            let t1 = here[1].1;
            let f1 = (first + m + 1) as u32;
            lemma_fresh_block(first, m + 1);
            assert(edges[m as int + 1] == here[1]);
            lemma_split_prefix(blocks, edges, first, m + 2, edges.len());
            assert(split_upto(blocks, edges, first, m + 2) == split_edge(one, f1, id, t1));
            lemma_split_base(blocks, first, m + 1, one, id, t1);
            let two = split_upto(blocks, edges, first, m + 2)->0;
            assert(final_branch(two[id].instructions) == Some((f0, f1)));
            assert(half_split(blocks, ids, first, n, i + 1, two)) by {
                assert forall|k: int| 0 <= k < ids.len() && k != i implies final_branch(
                    two[#[trigger] ids[k]].instructions,
                ) == final_branch(zero[ids[k]].instructions) by {
                    assert(blocks.contains_key(ids[k]));
                    assert(final_branch(one[ids[k]].instructions) == final_branch(
                        zero[ids[k]].instructions,
                    ));
                    assert(final_branch(two[ids[k]].instructions) == final_branch(
                        one[ids[k]].instructions,
                    ));
                }
                assert(harmless(blocks, first, n, f0) && harmless(blocks, first, n, f1));
            }
        } else {
            assert(half_split(blocks, ids, first, n, i + 1, one)) by {
                assert forall|k: int| 0 <= k < ids.len() && k != i implies final_branch(
                    one[#[trigger] ids[k]].instructions,
                ) == final_branch(zero[ids[k]].instructions) by {
                    assert(blocks.contains_key(ids[k]));
                }
                assert(harmless(blocks, first, n, f0));
                if joins(blocks, a) {
                    assert(t0 == a && !joins(blocks, b));
                    assert(final_branch(one[id].instructions) == Some((f0, b)));
                    assert(harmless(blocks, first, n, b));
                } else {
                    assert(t0 == b && a != b);
                    assert(final_branch(one[id].instructions) == Some((a, f0)));
                    assert(harmless(blocks, first, n, a));
                }
            }
        }
    } else {
        assert(half_split(blocks, ids, first, n, i + 1, zero)) by {
            if let Some((a, b)) = final_branch(blocks[id].instructions) {
                assert(harmless(blocks, first, n, a));
                assert(harmless(blocks, first, n, b));
            }
        }
    }
}

/// No critical edge is left once the edges are broken in two.
proof fn lemma_no_critical_edges(blocks: Map<u32, BlockView>)
    requires
        blocks.dom().finite(),
        without_critical_edges(blocks) is Some,
        ascending(blocks.dom()).last() + 1 + critical_edges(blocks)->0.len() <= u32::MAX,
    ensures
        forall|id: u32| #[trigger]
            without_critical_edges(blocks)->0.contains_key(id) ==> (final_branch(
                without_critical_edges(blocks)->0[id].instructions,
            ) matches Some(targets) ==> {
                &&& without_critical_edges(blocks)->0.contains_key(targets.0)
                &&& without_critical_edges(blocks)->0.contains_key(targets.1)
                &&& !joins(without_critical_edges(blocks)->0, targets.0)
                &&& !joins(without_critical_edges(blocks)->0, targets.1)
            }),
{
    crate::collections::lemma_ascending(blocks.dom());
    let ids = ascending(blocks.dom());
    let edges = critical_edges(blocks)->0;
    let first = number_after(ids.last());
    lemma_split_blocks(blocks, ids, edges, first, ids.len());
    let done = without_critical_edges(blocks)->0;
    let n = edges.len();
    assert forall|id: u32| #[trigger] done.contains_key(id) implies (final_branch(
        done[id].instructions,
    ) matches Some(targets) ==> {
        &&& done.contains_key(targets.0)
        &&& done.contains_key(targets.1)
        &&& !joins(done, targets.0)
        &&& !joins(done, targets.1)
    }) by {
        if let Some(targets) = final_branch(done[id].instructions) {
            if first <= id < first + n {
                assert(final_branch(done[id].instructions) is None);
            } else {
                assert(ids.to_set().contains(id));
                let k = ids.index_of(id);
                assert(ids[k] == id);
                assert(done[targets.0].predecessors.len() <= 1);
                assert(done[targets.1].predecessors.len() <= 1);
            }
        }
    }
}

/// The two targets of the branch that instructions end in once the phis behind
/// it are left out.
pub open spec fn bared_branch(code: Seq<InstructionView>) -> Option<(u32, u32)>
    decreases code.len(),
{
    if code.len() > 0 && code.last() is Phi {
        bared_branch(code.drop_last())
    } else {
        final_branch(code)
    }
}

/// Whether no branch stands right before phis at the end of a block, where it
/// would come last without them.
pub open spec fn hides_no_branch(blocks: Map<u32, BlockView>) -> bool {
    forall|id: u32| #[trigger]
        blocks.contains_key(id) ==> bared_branch(blocks[id].instructions) == final_branch(
            blocks[id].instructions,
        )
}

proof fn lemma_bared(code: Seq<InstructionView>)
    ensures
        final_branch(without_phis(code)) == bared_branch(code),
    decreases code.len(),
{
    reveal(Seq::filter);
    if code.len() > 0 {
        let rest = without_phis(code.drop_last());
        if code.last() is Phi {
            lemma_bared(code.drop_last());
            assert(without_phis(code) =~= rest);
        } else {
            assert(without_phis(code) =~= rest.push(code.last()));
        }
    }
}

proof fn lemma_bared_resourced(code: Seq<InstructionView>, pred: u32, new: u32)
    ensures
        ({
            let after = code.map_values(
                |instruction: InstructionView| resourced(instruction, pred, new),
            );
            &&& bared_branch(after) == bared_branch(code)
            &&& final_branch(after) == final_branch(code)
        }),
    decreases code.len(),
{
    let f = |instruction: InstructionView| resourced(instruction, pred, new);
    let after = code.map_values(f);
    if code.len() > 0 {
        assert(after.last() == resourced(code.last(), pred, new));
        assert(after.drop_last() =~= code.drop_last().map_values(f));
        lemma_bared_resourced(code.drop_last(), pred, new);
    }
}

proof fn lemma_split_hides_nothing(
    blocks: Map<u32, BlockView>,
    edges: Seq<(u32, u32)>,
    first: u32,
    n: nat,
)
    requires
        hides_no_branch(blocks),
        split_upto(blocks, edges, first, n) is Some,
    ensures
        hides_no_branch(split_upto(blocks, edges, first, n)->0),
    decreases n,
{
    if n > 0 {
        lemma_split_hides_nothing(blocks, edges, first, (n - 1) as nat);
        let before = split_upto(blocks, edges, first, (n - 1) as nat)->0;
        let after = split_upto(blocks, edges, first, n)->0;
        let new = fresh_block(first, (n - 1) as nat);
        let (pred, succ) = edges[n - 1];
        let middle = BlockView {
            id: BlockId(new),
            instructions: seq![InstructionView::Jump { destination: BlockId(succ) }],
            predecessors: Set::empty().insert(pred),
        };
        let added = before.insert(new, middle);
        let left = retargeted(added[pred].instructions, succ, new);
        let cut = added.insert(pred, BlockView { instructions: left, ..added[pred] });
        lemma_bared_resourced(cut[succ].instructions, pred, new);
        assert(middle.instructions.last() is Jump);
        assert(left.last() is Branch);
        assert(hides_no_branch(cut));
        assert forall|id: u32| #[trigger] after.contains_key(id) implies bared_branch(
            after[id].instructions,
        ) == final_branch(after[id].instructions) by {
            assert(cut.contains_key(id));
        }
    }
}

/// Whether code was only added copies to, before the jump that ends it if there
/// is one.
spec fn ends_alike(a: Seq<InstructionView>, b: Seq<InstructionView>) -> bool {
    a == b || (b.len() > 0 && if ends_open(a) {
        b.last() is Copy
    } else {
        b.last() == a.last()
    })
}

/// Whether blocks are the same but for copies that were added to them.
spec fn end_alike(a: Map<u32, BlockView>, b: Map<u32, BlockView>) -> bool {
    &&& a.dom() == b.dom()
    &&& forall|id: u32| #[trigger]
        a.contains_key(id) ==> a[id].predecessors == b[id].predecessors && ends_alike(
            a[id].instructions,
            b[id].instructions,
        )
}

proof fn lemma_alike_further(
    a: Map<u32, BlockView>,
    b: Map<u32, BlockView>,
    c: Map<u32, BlockView>,
)
    requires
        end_alike(a, b),
        end_alike(b, c),
    ensures
        end_alike(a, c),
{
    assert forall|id: u32| #[trigger] a.contains_key(id) implies a[id].predecessors
        == c[id].predecessors && ends_alike(a[id].instructions, c[id].instructions) by {
        assert(b.contains_key(id));
    }
}

proof fn lemma_placed_alike(blocks: Map<u32, BlockView>, id: u32, copy: InstructionView)
    requires
        blocks.contains_key(id),
        copy is Copy,
    ensures
        end_alike(blocks, with_placed(blocks, id, copy)),
{
    let code = blocks[id].instructions;
    assert(with_placed(blocks, id, copy).dom() =~= blocks.dom());
    if ends_open(code) {
        assert(placed(code, copy).last() == copy);
    } else {
        assert(placed(code, copy).last() == code.last());
    }
}

proof fn lemma_save_alike(state: Copying, sources: Map<u32, Operand>, preds: Seq<u32>, n: nat)
    requires
        save_upto(state, sources, preds, n) is Some,
    ensures
        end_alike(state.blocks, save_upto(state, sources, preds, n)->0.state.blocks),
    decreases n,
{
    if n > 0 {
        lemma_save_alike(state, sources, preds, (n - 1) as nat);
        let before = save_upto(state, sources, preds, (n - 1) as nat)->0.state;
        let after = save_upto(state, sources, preds, n)->0.state;
        let value = sources[preds[n - 1]];
        if value is Register {
            lemma_placed_alike(
                before.blocks,
                preds[n - 1],
                InstructionView::Copy { destination: RegisterId(before.next), source: value },
            );
            lemma_alike_further(state.blocks, before.blocks, after.blocks);
        }
    }
}

proof fn lemma_assign_alike(
    blocks: Map<u32, BlockView>,
    destination: RegisterId,
    values: Map<u32, Operand>,
    preds: Seq<u32>,
    n: nat,
)
    requires
        forall|k: int| 0 <= k < n ==> blocks.contains_key(#[trigger] preds[k]),
    ensures
        end_alike(blocks, assign_upto(blocks, destination, values, preds, n)),
    decreases n,
{
    if n > 0 {
        lemma_assign_alike(blocks, destination, values, preds, (n - 1) as nat);
        let before = assign_upto(blocks, destination, values, preds, (n - 1) as nat);
        let copy = InstructionView::Copy { destination, source: values[preds[n - 1]] };
        assert(blocks.contains_key(preds[n - 1]));
        assert(before.contains_key(preds[n - 1]));
        lemma_placed_alike(before, preds[n - 1], copy);
        lemma_alike_further(blocks, before, with_placed(before, preds[n - 1], copy));
    }
}

proof fn lemma_saved_alike(state: Copying, phis: Seq<PhiView>, n: nat)
    requires
        saved_upto(state, phis, n) is Some,
    ensures
        end_alike(state.blocks, saved_upto(state, phis, n)->0.state.blocks),
        forall|i: int, k: int|
            0 <= i < n && 0 <= k < ascending(phis[i].sources.dom()).len()
                ==> state.blocks.contains_key(#[trigger] ascending(phis[i].sources.dom())[k]),
    decreases n,
{
    if n > 0 {
        lemma_saved_alike(state, phis, (n - 1) as nat);
        let before = saved_upto(state, phis, (n - 1) as nat)->0.state;
        let after = saved_upto(state, phis, n)->0.state;
        let sources = phis[n - 1].sources;
        let preds = ascending(sources.dom());
        lemma_save_alike(before, sources, preds, preds.len());
        lemma_save_keeps(before, sources, preds, preds.len());
        lemma_alike_further(state.blocks, before.blocks, after.blocks);
        assert forall|i: int, k: int|
            0 <= i < n && 0 <= k < ascending(phis[i].sources.dom()).len() implies
            state.blocks.contains_key(#[trigger] ascending(phis[i].sources.dom())[k]) by {
            if i == n - 1 {
                assert(before.blocks.contains_key(preds[k]));
            }
        }
    }
}

proof fn lemma_assigned_alike(
    blocks: Map<u32, BlockView>,
    phis: Seq<PhiView>,
    values: Seq<Map<u32, Operand>>,
    n: nat,
)
    requires
        forall|i: int, k: int|
            0 <= i < n && 0 <= k < ascending(phis[i].sources.dom()).len() ==> blocks.contains_key(
                #[trigger] ascending(phis[i].sources.dom())[k],
            ),
    ensures
        end_alike(blocks, assigned_upto(blocks, phis, values, n)),
    decreases n,
{
    if n > 0 {
        lemma_assigned_alike(blocks, phis, values, (n - 1) as nat);
        let before = assigned_upto(blocks, phis, values, (n - 1) as nat);
        let preds = ascending(phis[n - 1].sources.dom());
        assert forall|k: int| 0 <= k < preds.len() implies before.contains_key(
            #[trigger] preds[k],
        ) by {
            assert(blocks.contains_key(ascending(phis[n - 1].sources.dom())[k]));
        }
        lemma_assign_alike(before, phis[n - 1].destination, values[n - 1], preds, preds.len());
        lemma_alike_further(blocks, before, assigned_upto(blocks, phis, values, n));
    }
}

proof fn lemma_copy_alike(state: Copying, ids: Seq<u32>, n: nat)
    requires
        copy_upto(state, ids, n) is Some,
    ensures
        end_alike(state.blocks, copy_upto(state, ids, n)->0.blocks),
    decreases n,
{
    if n > 0 {
        lemma_copy_alike(state, ids, (n - 1) as nat);
        let before = copy_upto(state, ids, (n - 1) as nat)->0;
        let phis = phis_of(before.blocks[ids[n - 1]]);
        let saving = saved_upto(before, phis, phis.len())->0;
        lemma_saved_alike(before, phis, phis.len());
        lemma_assigned_alike(saving.state.blocks, phis, saving.values, phis.len());
        let after = copy_upto(state, ids, n)->0;
        lemma_alike_further(before.blocks, saving.state.blocks, after.blocks);
        lemma_alike_further(state.blocks, before.blocks, after.blocks);
    }
}

/// No critical edge is left in a function out of SSA form: where a block ends in
/// a branch, both targets exist, and can be entered from one place alone. The
/// numbers of the new blocks have to fit in 32 bits.
pub proof fn law_no_critical_edges(function: FunctionView)
    requires
        destructed(function) is Some,
        function.blocks.dom().finite(),
        hides_no_branch(function.blocks),
        ascending(function.blocks.dom()).last() + 1 + critical_edges(function.blocks)->0.len()
            <= u32::MAX,
    ensures
        ({
            let blocks = destructed(function)->0.blocks;
            forall|id: u32| #[trigger]
                blocks.contains_key(id) ==> (final_branch(blocks[id].instructions) matches Some(
                    targets,
                ) ==> {
                    &&& blocks.contains_key(targets.0)
                    &&& blocks.contains_key(targets.1)
                    &&& !joins(blocks, targets.0)
                    &&& !joins(blocks, targets.1)
                })
        }),
{
    let split = without_critical_edges(function.blocks)->0;
    let edges = critical_edges(function.blocks)->0;
    let start = Copying {
        blocks: split,
        registers: function.registers,
        next: first_fresh_register(function.registers),
    };
    let ids = ascending(split.dom());
    let state = copy_upto(start, ids, ids.len())->0;
    let blocks = destructed(function)->0.blocks;
    lemma_no_critical_edges(function.blocks);
    lemma_split_hides_nothing(
        function.blocks,
        edges,
        number_after(ascending(function.blocks.dom()).last()),
        edges.len(),
    );
    lemma_copy_alike(start, ids, ids.len());
    assert forall|id: u32| #[trigger] blocks.contains_key(id) implies split.contains_key(id)
        && final_branch(blocks[id].instructions) == final_branch(split[id].instructions)
        && blocks[id].predecessors == split[id].predecessors by {
        assert(split.contains_key(id));
        lemma_bared(state.blocks[id].instructions);
    }
    assert forall|id: u32| #[trigger] blocks.contains_key(id) implies (final_branch(
        blocks[id].instructions,
    ) matches Some(targets) ==> {
        &&& blocks.contains_key(targets.0)
        &&& blocks.contains_key(targets.1)
        &&& !joins(blocks, targets.0)
        &&& !joins(blocks, targets.1)
    }) by {
        if let Some(targets) = final_branch(blocks[id].instructions) {
            assert(split.contains_key(id));
            assert(split.contains_key(targets.0) && split.contains_key(targets.1));
            assert(blocks.contains_key(targets.0) && blocks.contains_key(targets.1));
        }
    }
}

} // verus!
