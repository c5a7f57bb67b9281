//! Simplifies the blocks of a function before it is brought into SSA form.

use crate::collections::{ascending, lists, sorted_keys, sorted_members, IdSet, ids_in};
use crate::middle::lir::{
    block_at, block_views, code, put_block, take_block, Block, BlockId, BlockView,
    FunctionDefinition, FunctionView, Immediate, Instruction, InstructionView, Operand,
};
use std::collections::BTreeMap;
use vstd::prelude::*;

verus! {

broadcast use vstd::std_specs::btree::group_btree_axioms;

/// The place of the first return at or behind `i`, or the end.
pub open spec fn return_from(code: Seq<InstructionView>, i: nat) -> nat
    decreases code.len() - i,
{
    if i < code.len() && !(code[i as int] is Return) {
        return_from(code, i + 1)
    } else {
        i
    }
}

/// Instructions up to the first return, which is kept.
pub open spec fn cut_at_return(code: Seq<InstructionView>) -> Seq<InstructionView> {
    let n = return_from(code, 0);
    if n < code.len() {
        code.take(n as int + 1)
    } else {
        code
    }
}

/// A block without what comes after its first return.
pub open spec fn truncated_block(block: BlockView) -> BlockView {
    BlockView { instructions: cut_at_return(block.instructions), ..block }
}

/// Blocks without what comes after their first return.
pub open spec fn truncated(blocks: Map<u32, BlockView>) -> Map<u32, BlockView> {
    blocks.map_values(|block: BlockView| truncated_block(block))
}

/// A block that is no longer entered from `id`.
pub open spec fn unlinked_block(block: BlockView, id: u32) -> BlockView {
    BlockView { predecessors: block.predecessors.remove(id), ..block }
}

/// Blocks that are no longer entered from `id`.
pub open spec fn unlinked(blocks: Map<u32, BlockView>, id: u32) -> Map<u32, BlockView> {
    blocks.map_values(|block: BlockView| unlinked_block(block, id))
}

/// Whether an instruction branches on a value that is known.
pub open spec fn is_settled_branch(instruction: InstructionView) -> bool {
    instruction matches InstructionView::Branch { condition, .. } && condition is Immediate
}

/// Whether the value that an instruction branches on, if it is known, is a
/// boolean.
pub open spec fn branches_on_bool(instruction: InstructionView) -> bool {
    is_settled_branch(instruction) ==> (instruction matches InstructionView::Branch {
        condition: Operand::Immediate(Immediate::Bool(_)),
        ..
    })
}

/// The value that an instruction branches on.
pub open spec fn settled_value(instruction: InstructionView) -> bool {
    match instruction {
        InstructionView::Branch {
            condition: Operand::Immediate(Immediate::Bool(value)),
            ..
        } => value,
        _ => false,
    }
}

/// Where a branch does not go.
pub open spec fn abandoned_target(instruction: InstructionView) -> BlockId {
    match instruction {
        InstructionView::Branch { positive, negative, .. } => if settled_value(instruction) {
            negative
        } else {
            positive
        },
        _ => BlockId(0),
    }
}

/// A branch on a known value as the jump that it is.
pub open spec fn settled(instruction: InstructionView) -> InstructionView {
    if is_settled_branch(instruction) {
        match instruction {
            InstructionView::Branch { positive, negative, .. } => InstructionView::Jump {
                destination: if settled_value(instruction) {
                    positive
                } else {
                    negative
                },
            },
            _ => instruction,
        }
    } else {
        instruction
    }
}

/// Where the last branch on a known value among the first `n` instructions
/// does not go.
pub open spec fn abandoned(code: Seq<InstructionView>, n: nat) -> Option<BlockId>
    decreases n,
{
    if n == 0 || n > code.len() {
        None
    } else if is_settled_branch(code[n - 1]) {
        Some(abandoned_target(code[n - 1]))
    } else {
        abandoned(code, (n - 1) as nat)
    }
}

/// Instructions with every branch on a known value as a jump.
pub open spec fn settled_code(code: Seq<InstructionView>) -> Seq<InstructionView> {
    code.map_values(|instruction: InstructionView| settled(instruction))
}

/// Whether a block can be dropped: it is entered from nowhere, and is not the
/// entry.
pub open spec fn is_dead(blocks: Map<u32, BlockView>, id: u32) -> bool {
    id != 0 && blocks[id].predecessors == Set::<u32>::empty()
}

/// Drops a block if it is dead, or turns its branches on known values into
/// jumps. There is no result where a known value is no boolean, or where a
/// target that is no longer branched to does not exist.
pub open spec fn dead_step(blocks: Map<u32, BlockView>, id: u32) -> Option<Map<u32, BlockView>> {
    let block = blocks[id];
    if is_dead(blocks, id) {
        Some(unlinked(blocks.remove(id), id))
    } else if exists|i: int|
        0 <= i < block.instructions.len() && !branches_on_bool(#[trigger] block.instructions[i]) {
        None
    } else {
        match abandoned(block.instructions, block.instructions.len()) {
            None => Some(blocks),
            Some(target) => {
                let changed = blocks.insert(
                    id,
                    BlockView { instructions: settled_code(block.instructions), ..block },
                );
                if changed.contains_key(target.0) {
                    Some(changed.insert(target.0, unlinked_block(changed[target.0], id)))
                } else {
                    None
                }
            },
        }
    }
}

/// Treats the first `n` of the listed blocks in turn.
pub open spec fn dead_upto(blocks: Map<u32, BlockView>, ids: Seq<u32>, n: nat) -> Option<
    Map<u32, BlockView>,
>
    decreases n,
{
    if n == 0 {
        Some(blocks)
    } else {
        match dead_upto(blocks, ids, (n - 1) as nat) {
            Some(before) => dead_step(before, ids[n - 1]),
            None => None,
        }
    }
}

/// Whether a block is the first one that can be dropped.
pub open spec fn is_first_dead(blocks: Map<u32, BlockView>, id: u32) -> bool {
    &&& blocks.contains_key(id)
    &&& is_dead(blocks, id)
    &&& forall|k: u32| #[trigger] blocks.contains_key(k) && is_dead(blocks, k) ==> id <= k
}

/// Drops the first block that can be dropped, up to `n` times.
pub open spec fn dropped_upto(blocks: Map<u32, BlockView>, n: nat) -> Map<u32, BlockView>
    decreases n,
{
    if n == 0 || !(exists|id: u32| is_first_dead(blocks, id)) {
        blocks
    } else {
        let id = choose|id: u32| is_first_dead(blocks, id);
        dropped_upto(unlinked(blocks.remove(id), id), (n - 1) as nat)
    }
}

/// Blocks with every branch on a known value as a jump, and without those that
/// are entered from nowhere, or that come to be when others are dropped.
pub open spec fn without_dead(blocks: Map<u32, BlockView>) -> Option<Map<u32, BlockView>> {
    let ids = ascending(blocks.dom());
    match dead_upto(blocks, ids, ids.len()) {
        Some(swept) => Some(dropped_upto(swept, swept.dom().len())),
        None => None,
    }
}

proof fn lemma_return_from(code: Seq<InstructionView>, i: nat, n: nat)
    requires
        i <= n <= code.len(),
        forall|k: int| i <= k < n ==> !(#[trigger] code[k] is Return),
        n < code.len() ==> code[n as int] is Return,
    ensures
        return_from(code, i) == n,
    decreases n - i,
{
    if i < n {
        assert(!(code[i as int] is Return));
        lemma_return_from(code, i + 1, n);
    }
}

/// Cuts a block off behind its first return.
fn truncate_block(block: &mut Block)
    ensures
        final(block)@ == truncated_block(old(block)@),
{
    let mut i: usize = 0;
    let ghost all = block@.instructions;
    while i < block.instructions.len()
        invariant
            *block == *old(block),
            all == block@.instructions,
            0 <= i <= block.instructions@.len(),
            forall|k: int| 0 <= k < i ==> !(#[trigger] all[k] is Return),
        decreases block.instructions@.len() - i,
    {
        assert(all[i as int] == block.instructions@[i as int]@);
        if let Instruction::Return { .. } = &block.instructions[i] {
            proof {
                lemma_return_from(all, 0, i as nat);
            }
            block.instructions.truncate(i + 1);
            assert(block@.instructions =~= all.take(i + 1));
            return;
        }
        i = i + 1;
    }
    proof {
        lemma_return_from(all, 0, all.len());
    }
}

/// Go through blocks which have a return statement, and delete anything
/// after that. Truncates to the index of the first return.
fn truncate_after_returns(function: &mut FunctionDefinition)
    ensures
        final(function)@ == (FunctionView {
            blocks: truncated(old(function)@.blocks),
            ..old(function)@
        }),
{
    let ghost before = block_views(function.blocks@);
    let keys = sorted_keys(&function.blocks);
    let mut i: usize = 0;
    assert(before.dom() =~= function.blocks@.dom());
    while i < keys.len()
        invariant
            0 <= i <= keys@.len(),
            lists(keys@, before.dom()),
            before == block_views(old(function).blocks@),
            function.symbol_name == old(function).symbol_name,
            function.registers == old(function).registers,
            function.struct_return == old(function).struct_return,
            function.arguments == old(function).arguments,
            function.blocks@.dom() == before.dom(),
            forall|k: int|
                0 <= k < i ==> block_views(function.blocks@)[#[trigger] keys@[k]]
                    == truncated_block(before[keys@[k]]),
            forall|k: int|
                i <= k < keys@.len() ==> block_views(function.blocks@)[#[trigger] keys@[k]]
                    == before[keys@[k]],
        decreases keys@.len() - i,
    {
        let id: u32 = keys[i];
        assert(keys@.to_set().contains(id));
        let mut block = take_block(&mut function.blocks, id);
        truncate_block(&mut block);
        put_block(&mut function.blocks, id, block);
        assert(function.blocks@.dom() =~= before.dom());
        i = i + 1;
    }
    proof {
        let after = block_views(function.blocks@);
        assert forall|id: u32| before.contains_key(id) implies after[id] == truncated(before)[id] by {
            assert(keys@.to_set().contains(id));
            let k = keys@.index_of(id);
            assert(keys@[k] == id);
        }
        assert(after =~= truncated(before));
    }
}

/// Makes blocks forget that they were entered from `id`.
fn unlink(blocks: &mut BTreeMap<u32, Block>, id: u32)
    ensures
        final(blocks)@.dom() == old(blocks)@.dom(),
        block_views(final(blocks)@) == unlinked(block_views(old(blocks)@), id),
{
    let ghost before = block_views(blocks@);
    let keys = sorted_keys(blocks);
    let mut i: usize = 0;
    assert(before.dom() =~= blocks@.dom());
    while i < keys.len()
        invariant
            0 <= i <= keys@.len(),
            lists(keys@, before.dom()),
            before == block_views(old(blocks)@),
            blocks@.dom() == before.dom(),
            forall|k: int|
                0 <= k < i ==> block_views(blocks@)[#[trigger] keys@[k]] == unlinked_block(
                    before[keys@[k]],
                    id,
                ),
            forall|k: int|
                i <= k < keys@.len() ==> block_views(blocks@)[#[trigger] keys@[k]]
                    == before[keys@[k]],
        decreases keys@.len() - i,
    {
        let key: u32 = keys[i];
        assert(keys@.to_set().contains(key));
        let mut block = take_block(blocks, key);
        block.predecessors.remove(&id);
        put_block(blocks, key, block);
        assert(blocks@.dom() =~= before.dom());
        i = i + 1;
    }
    proof {
        let after = block_views(blocks@);
        assert forall|key: u32| before.contains_key(key) implies after[key] == unlinked(
            before,
            id,
        )[key] by {
            assert(keys@.to_set().contains(key));
            let k = keys@.index_of(key);
            assert(keys@[k] == key);
        }
        assert(after =~= unlinked(before, id));
    }
}

/// Turns the branches of a block on known values into jumps, and gives the
/// target that the last of them no longer has.
fn settle_branches(block: &mut Block) -> (r: Option<BlockId>)
    requires
        forall|i: int|
            0 <= i < old(block)@.instructions.len() ==> branches_on_bool(
                #[trigger] old(block)@.instructions[i],
            ),
    ensures
        r == abandoned(old(block)@.instructions, old(block)@.instructions.len()),
        final(block)@ == (BlockView {
            instructions: settled_code(old(block)@.instructions),
            ..old(block)@
        }),
{
    let ghost all = block@.instructions;
    let mut removed: Option<BlockId> = None;
    let mut i: usize = 0;
    while i < block.instructions.len()
        invariant
            0 <= i <= block.instructions@.len(),
            all == old(block)@.instructions,
            all.len() == block.instructions@.len(),
            block.id == old(block).id,
            block.predecessors == old(block).predecessors,
            removed == abandoned(all, i as nat),
            forall|k: int| 0 <= k < all.len() ==> branches_on_bool(#[trigger] all[k]),
            forall|k: int| 0 <= k < i ==> (#[trigger] block.instructions@[k])@ == settled(all[k]),
            forall|k: int| i <= k < all.len() ==> (#[trigger] block.instructions@[k])@ == all[k],
        decreases block.instructions@.len() - i,
    {
        assert(block.instructions@[i as int]@ == all[i as int]);
        assert(branches_on_bool(all[i as int]));
        let mut jump: Option<(BlockId, BlockId)> = None;
        if let Instruction::Branch {
            condition: Operand::Immediate(immediate),
            positive,
            negative,
        } = &block.instructions[i] {
            match immediate {
                Immediate::Bool(condition) => {
                    if *condition {
                        jump = Some((*positive, *negative));
                    } else {
                        jump = Some((*negative, *positive));
                    }
                }
                _ => {
                    vstd::pervasive::unreached()
                }
            }
        }
        if let Some((taken, left)) = jump {
            removed = Some(left);
            block.instructions[i] = Instruction::Jump { destination: taken };
        }
        i = i + 1;
    }
    assert(block@.instructions =~= settled_code(all));
    removed
}

/// Code without a branch on a known value is settled.
pub(crate) proof fn lemma_nothing_abandoned(code: Seq<InstructionView>, n: nat)
    requires
        n <= code.len(),
        abandoned(code, n) is None,
    ensures
        forall|i: int| 0 <= i < n ==> settled(#[trigger] code[i]) == code[i],
    decreases n,
{
    if n > 0 {
        lemma_nothing_abandoned(code, (n - 1) as nat);
    }
}

/// After constant propagation, there may be conditional branches which are
/// known statically at compile time to only go one way. This pass replaces
/// those branches with unconditional jumps and removes any blocks which no
/// longer have any predecessors as a result.
fn eliminate_dead_blocks(function: &mut FunctionDefinition)
    requires
        without_dead(old(function)@.blocks) is Some,
    ensures
        final(function)@ == (FunctionView {
            blocks: without_dead(old(function)@.blocks)->0,
            ..old(function)@
        }),
{
    sweep_blocks(function);
    drop_dead_blocks(&mut function.blocks);
}

/// The first block that can be dropped.
fn find_dead(blocks: &BTreeMap<u32, Block>) -> (r: Option<u32>)
    ensures
        match r {
            Some(id) => is_first_dead(block_views(blocks@), id),
            None => forall|id: u32|
                #[trigger] block_views(blocks@).contains_key(id) ==> !is_dead(
                    block_views(blocks@),
                    id,
                ),
        },
{
    let ghost all = block_views(blocks@);
    assert(all.dom() =~= blocks@.dom());
    let ids = sorted_keys(blocks);
    let mut i: usize = 0;
    while i < ids.len()
        invariant
            0 <= i <= ids@.len(),
            all == block_views(blocks@),
            lists(ids@, blocks@.dom()),
            lists(ids@, all.dom()),
            forall|k: int| 0 <= k < i ==> !is_dead(all, #[trigger] ids@[k]),
        decreases ids@.len() - i,
    {
        let id: u32 = ids[i];
        assert(ids@.to_set().contains(id));
        let block = block_at(blocks, id);
        assert(block.predecessors@.is_empty() == (block.predecessors@ =~= Set::<u32>::empty()));
        if id != 0 && block.predecessors.is_empty() {
            proof {
                assert forall|k: u32| #[trigger] all.contains_key(k) && is_dead(all, k) implies id
                    <= k by {
                    assert(ids@.to_set().contains(k));
                    let j = ids@.index_of(k);
                    assert(ids@[j] == k);
                    assert(j >= i);
                    if j > i {
                        assert(ids@[i as int] < ids@[j]);
                    }
                }
            }
            return Some(id);
        }
        i = i + 1;
    }
    proof {
        assert forall|id: u32| #[trigger] all.contains_key(id) implies !is_dead(all, id) by {
            assert(ids@.to_set().contains(id));
            let j = ids@.index_of(id);
            assert(ids@[j] == id);
        }
    }
    None
}

/// Drops blocks until every one is entered from somewhere.
fn drop_dead_blocks(blocks: &mut BTreeMap<u32, Block>)
    ensures
        block_views(final(blocks)@) == dropped_upto(
            block_views(old(blocks)@),
            block_views(old(blocks)@).dom().len(),
        ),
{
    let ghost goal = dropped_upto(block_views(blocks@), block_views(blocks@).dom().len());
    let ghost mut n: nat = block_views(blocks@).dom().len();
    assert(block_views(blocks@).dom() =~= blocks@.dom());
    loop
        invariant
            n == blocks@.dom().len(),
            goal == dropped_upto(block_views(blocks@), n),
        ensures
            goal == block_views(blocks@),
        decreases n,
    {
        let ghost here = block_views(blocks@);
        assert(here.dom() =~= blocks@.dom());
        match find_dead(blocks) {
            None => {
                assert(!(exists|id: u32| is_first_dead(here, id)));
                break;
            }
            Some(id) => {
                proof {
                    let first = choose|id: u32| is_first_dead(here, id);
                    assert(first == id);
                }
                let _block = take_block(blocks, id);
                assert(blocks@.dom() =~= here.dom().remove(id));
                assert(block_views(blocks@) =~= here.remove(id));
                unlink(blocks, id);
                proof {
                    n = (n - 1) as nat;
                }
            }
        }
    }
}

/// Goes through the blocks once: drops those that are entered from nowhere, and
/// turns branches on known values into jumps.
fn sweep_blocks(function: &mut FunctionDefinition)
    requires
        ({
            let ids = ascending(old(function)@.blocks.dom());
            dead_upto(old(function)@.blocks, ids, ids.len()) is Some
        }),
    ensures
        ({
            let ids = ascending(old(function)@.blocks.dom());
            final(function)@ == (FunctionView {
                blocks: dead_upto(old(function)@.blocks, ids, ids.len())->0,
                ..old(function)@
            })
        }),
{
    let ghost before = block_views(function.blocks@);
    let block_ids = sorted_keys(&function.blocks);
    let ghost ids = block_ids@;
    let mut i: usize = 0;
    proof {
        assert(before.dom() =~= function.blocks@.dom());
        assert forall|k: int| 0 <= k < ids.len() implies function.blocks@.contains_key(
            #[trigger] ids[k],
        ) by {
            assert(ids.to_set().contains(ids[k]));
        }
    }
    while i < block_ids.len()
        invariant
            0 <= i <= ids.len(),
            ids == block_ids@,
            lists(ids, before.dom()),
            before == block_views(old(function).blocks@),
            function.symbol_name == old(function).symbol_name,
            function.registers == old(function).registers,
            function.struct_return == old(function).struct_return,
            function.arguments == old(function).arguments,
            dead_upto(before, ids, ids.len()) is Some,
            dead_upto(before, ids, i as nat) == Some(block_views(function.blocks@)),
            forall|k: int| i <= k < ids.len() ==> function.blocks@.contains_key(#[trigger] ids[k]),
        decreases ids.len() - i,
    {
        let block_id: u32 = block_ids[i];
        let ghost here = block_views(function.blocks@);
        proof {
            lemma_dead_prefix(before, ids, i as nat + 1, ids.len());
        }
        assert(dead_step(here, block_id) is Some);
        assert(function.blocks@.contains_key(ids[i as int]));
        let dead = {
            let block = block_at(&function.blocks, block_id);
            assert(block.predecessors@.is_empty() == (block.predecessors@ =~= Set::<u32>::empty()));
            block_id != 0 && block.predecessors.is_empty()
        };
        if dead {
            let _block = take_block(&mut function.blocks, block_id);
            unlink(&mut function.blocks, block_id);
            i = i + 1;
            continue;
        }
        let mut block = take_block(&mut function.blocks, block_id);
        let ghost code = block@.instructions;
        assert(forall|k: int| 0 <= k < code.len() ==> branches_on_bool(#[trigger] code[k]));
        let removed_branch = settle_branches(&mut block);
        put_block(&mut function.blocks, block_id, block);
        match removed_branch {
            None => {
                proof {
                    lemma_nothing_abandoned(code, code.len());
                    assert(settled_code(code) =~= code);
                    assert(block_views(function.blocks@) =~= here);
                }
            }
            Some(target) => {
                let ghost changed = block_views(function.blocks@);
                assert(changed =~= here.insert(
                    block_id,
                    BlockView { instructions: settled_code(code), ..here[block_id] },
                ));
                let mut successor = take_block(&mut function.blocks, target.0);
                successor.predecessors.remove(&block_id);
                put_block(&mut function.blocks, target.0, successor);
                assert(block_views(function.blocks@) =~= changed.insert(
                    target.0,
                    unlinked_block(changed[target.0], block_id),
                ));
            }
        }
        i = i + 1;
    }
}

pub(crate) proof fn lemma_dead_prefix(blocks: Map<u32, BlockView>, ids: Seq<u32>, n: nat, m: nat)
    requires
        n <= m,
        dead_upto(blocks, ids, m) is Some,
    ensures
        dead_upto(blocks, ids, n) is Some,
    decreases m - n,
{
    if n < m {
        lemma_dead_prefix(blocks, ids, n, (m - 1) as nat);
    }
}

/// Whether an instruction of a block that `id` is entered from leads to `id`
/// and nowhere else twice: a branch has it as one of its two targets, and a
/// jump as its only one.
pub open spec fn leads_to(instruction: InstructionView, id: u32) -> bool {
    match instruction {
        InstructionView::Branch { positive, negative, .. } => (positive.0 == id) != (negative.0
            == id),
        InstructionView::Jump { destination } => destination.0 == id,
        _ => true,
    }
}

/// An instruction that leads to `target` where it led to `id`.
pub open spec fn redirected(
    instruction: InstructionView,
    id: u32,
    target: BlockId,
) -> InstructionView {
    match instruction {
        InstructionView::Branch { condition, positive, negative } => InstructionView::Branch {
            condition,
            positive: if positive.0 == id {
                target
            } else {
                positive
            },
            negative: if negative.0 == id {
                target
            } else {
                negative
            },
        },
        InstructionView::Jump { .. } => InstructionView::Jump { destination: target },
        _ => instruction,
    }
}

/// Instructions that lead to `target` where they led to `id`.
pub open spec fn redirected_code(
    code: Seq<InstructionView>,
    id: u32,
    target: BlockId,
) -> Seq<InstructionView> {
    code.map_values(|instruction: InstructionView| redirected(instruction, id, target))
}

/// Where a block that is nothing but a jump goes.
pub open spec fn only_jump(code: Seq<InstructionView>) -> Option<BlockId> {
    if code.len() == 1 {
        match code[0] {
            InstructionView::Jump { destination } => Some(destination),
            _ => None,
        }
    } else {
        None
    }
}

/// Whether the blocks that `id` is entered from can be led elsewhere.
pub open spec fn can_redirect(blocks: Map<u32, BlockView>, id: u32) -> bool {
    forall|p: u32|
        blocks[id].predecessors.contains(p) ==> #[trigger] blocks.contains_key(p) && (forall|
            i: int,
        |
            0 <= i < blocks[p].instructions.len() ==> leads_to(
                #[trigger] blocks[p].instructions[i],
                id,
            ))
}

/// A block once the block `id`, which only jumped to `target`, is gone.
pub open spec fn bypassed_block(
    blocks: Map<u32, BlockView>,
    id: u32,
    target: BlockId,
    key: u32,
) -> BlockView {
    let block = blocks[key];
    let entries = blocks[id].predecessors;
    BlockView {
        id: block.id,
        instructions: if entries.contains(key) {
            redirected_code(block.instructions, id, target)
        } else {
            block.instructions
        },
        predecessors: (if key == target.0 {
            block.predecessors.union(entries)
        } else {
            block.predecessors
        }).remove(id),
    }
}

/// Drops a block that is nothing but a jump: what led to it leads to where it
/// jumped. There is no result where that cannot be.
pub open spec fn thread_step(blocks: Map<u32, BlockView>, id: u32) -> Option<Map<u32, BlockView>> {
    match only_jump(blocks[id].instructions) {
        None => Some(blocks),
        Some(target) => if can_redirect(blocks, id) && blocks.contains_key(target.0) {
            Some(
                Map::new(
                    |key: u32| blocks.contains_key(key) && key != id,
                    |key: u32| bypassed_block(blocks, id, target, key),
                ),
            )
        } else {
            None
        },
    }
}

/// Treats the first `n` of the listed blocks in turn.
pub open spec fn thread_upto(blocks: Map<u32, BlockView>, ids: Seq<u32>, n: nat) -> Option<
    Map<u32, BlockView>,
>
    decreases n,
{
    if n == 0 {
        Some(blocks)
    } else {
        match thread_upto(blocks, ids, (n - 1) as nat) {
            Some(before) => thread_step(before, ids[n - 1]),
            None => None,
        }
    }
}

/// Blocks without those that are nothing but a jump.
pub open spec fn threaded(blocks: Map<u32, BlockView>) -> Option<Map<u32, BlockView>> {
    let ids = ascending(blocks.dom());
    thread_upto(blocks, ids, ids.len())
}

pub(crate) proof fn lemma_thread_prefix(blocks: Map<u32, BlockView>, ids: Seq<u32>, n: nat, m: nat)
    requires
        n <= m,
        thread_upto(blocks, ids, m) is Some,
    ensures
        thread_upto(blocks, ids, n) is Some,
    decreases m - n,
{
    if n < m {
        lemma_thread_prefix(blocks, ids, n, (m - 1) as nat);
    }
}

/// Leads the instructions of a block to `target` where they led to `id`.
fn redirect_block(block: &mut Block, id: u32, target: BlockId)
    requires
        forall|i: int|
            0 <= i < old(block)@.instructions.len() ==> leads_to(
                #[trigger] old(block)@.instructions[i],
                id,
            ),
    ensures
        final(block)@ == (BlockView {
            instructions: redirected_code(old(block)@.instructions, id, target),
            ..old(block)@
        }),
{
    let ghost all = block@.instructions;
    let mut i: usize = 0;
    while i < block.instructions.len()
        invariant
            0 <= i <= block.instructions@.len(),
            all == old(block)@.instructions,
            all.len() == block.instructions@.len(),
            block.id == old(block).id,
            block.predecessors == old(block).predecessors,
            forall|k: int| 0 <= k < all.len() ==> leads_to(#[trigger] all[k], id),
            forall|k: int|
                0 <= k < i ==> (#[trigger] block.instructions@[k])@ == redirected(
                    all[k],
                    id,
                    target,
                ),
            forall|k: int| i <= k < all.len() ==> (#[trigger] block.instructions@[k])@ == all[k],
        decreases block.instructions@.len() - i,
    {
        assert(block.instructions@[i as int]@ == all[i as int]);
        assert(leads_to(all[i as int], id));
        let mut changed: Option<Instruction> = None;
        match &block.instructions[i] {
            Instruction::Branch { condition, positive, negative } => {
                changed = Some(
                    Instruction::Branch {
                        condition: *condition,
                        positive: if positive.0 == id {
                            target
                        } else {
                            *positive
                        },
                        negative: if negative.0 == id {
                            target
                        } else {
                            *negative
                        },
                    },
                );
            }
            Instruction::Jump { .. } => {
                changed = Some(Instruction::Jump { destination: target });
            }
            _ => {}
        }
        if let Some(instruction) = changed {
            block.instructions[i] = instruction;
        }
        i = i + 1;
    }
    assert(block@.instructions =~= redirected_code(all, id, target));
}

/// Where a block that is nothing but a jump goes.
fn jump_target(block: &Block) -> (r: Option<BlockId>)
    ensures
        r == only_jump(block@.instructions),
{
    if block.instructions.len() != 1 {
        return None;
    }
    assert(block@.instructions[0] == block.instructions@[0]@);
    match &block.instructions[0] {
        Instruction::Jump { destination } => Some(*destination),
        _ => None,
    }
}

/// Drops one block that is nothing but a jump.
fn bypass(blocks: &mut BTreeMap<u32, Block>, block_id: u32, new_dest: BlockId)
    requires
        old(blocks)@.contains_key(block_id),
        only_jump(block_views(old(blocks)@)[block_id].instructions) == Some(new_dest),
        thread_step(block_views(old(blocks)@), block_id) is Some,
    ensures
        thread_step(block_views(old(blocks)@), block_id) == Some(block_views(final(blocks)@)),
        final(blocks)@.dom() == old(blocks)@.dom().remove(block_id),
{
    let ghost before = block_views(blocks@);
    let ghost entries = before[block_id].predecessors;
    let predecessors = sorted_members(&block_at(blocks, block_id).predecessors);
    // Patch any instructions in predecessor blocks that reference this
    // block as the jump target
    let mut j: usize = 0;
    assert(blocks@.dom() =~= before.dom());
    while j < predecessors.len()
        invariant
            0 <= j <= predecessors@.len(),
            lists(predecessors@, entries),
            before == block_views(old(blocks)@),
            entries == before[block_id].predecessors,
            before.contains_key(block_id),
            can_redirect(before, block_id),
            blocks@.dom() == before.dom(),
            forall|k: int|
                0 <= k < j ==> block_views(blocks@)[#[trigger] predecessors@[k]] == (BlockView {
                    instructions: redirected_code(
                        before[predecessors@[k]].instructions,
                        block_id,
                        new_dest,
                    ),
                    ..before[predecessors@[k]]
                }),
            forall|k: int|
                j <= k < predecessors@.len() ==> block_views(blocks@)[#[trigger] predecessors@[k]]
                    == before[predecessors@[k]],
            forall|key: u32|
                before.contains_key(key) && !entries.contains(key) ==> #[trigger] block_views(
                    blocks@,
                )[key] == before[key],
        decreases predecessors@.len() - j,
    {
        let predecessor: u32 = predecessors[j];
        assert(predecessors@.to_set().contains(predecessor));
        assert(before.contains_key(predecessor));
        let mut block = take_block(blocks, predecessor);
        assert(block@ == before[predecessor]);
        redirect_block(&mut block, block_id, new_dest);
        put_block(blocks, predecessor, block);
        assert(blocks@.dom() =~= before.dom());
        j = j + 1;
    }
    let ghost patched = block_views(blocks@);
    proof {
        assert forall|key: u32| before.contains_key(key) implies patched[key] == (if entries.contains(
            key,
        ) {
            BlockView {
                instructions: redirected_code(before[key].instructions, block_id, new_dest),
                ..before[key]
            }
        } else {
            before[key]
        }) by {
            if entries.contains(key) {
                assert(predecessors@.to_set().contains(key));
                let k = predecessors@.index_of(key);
                assert(predecessors@[k] == key);
            }
        }
    }
    // Add all the old block's predeccessors to the new jump destination.
    // This is very important to make sure we preserve the CFG.
    let mut target = take_block(blocks, new_dest.0);
    let ghost target_entries = target.predecessors@;
    let mut j: usize = 0;
    assert(target_entries.union(Set::<u32>::empty()) =~= target_entries);
    assert(predecessors@.take(0).to_set() =~= Set::<u32>::empty());
    while j < predecessors.len()
        invariant
            0 <= j <= predecessors@.len(),
            target.id == patched[new_dest.0].id,
            target@.instructions == patched[new_dest.0].instructions,
            target.predecessors@ == target_entries.union(predecessors@.take(j as int).to_set()),
        decreases predecessors@.len() - j,
    {
        proof {
            let next = predecessors@.take(j + 1);
            assert(next =~= predecessors@.take(j as int).push(predecessors@[j as int]));
            assert(target_entries.union(next.to_set()) =~= target_entries.union(
                predecessors@.take(j as int).to_set(),
            ).insert(predecessors@[j as int])) by {
                assert forall|x: u32| next.to_set().contains(x) == predecessors@.take(
                    j as int,
                ).to_set().insert(predecessors@[j as int]).contains(x) by {
                    if next.contains(x) {
                        let k = next.index_of(x);
                        if k < j {
                            assert(predecessors@.take(j as int)[k] == x);
                        }
                    }
                    if predecessors@.take(j as int).contains(x) {
                        let k = predecessors@.take(j as int).index_of(x);
                        assert(next[k] == x);
                    }
                    assert(next[j as int] == predecessors@[j as int]);
                }
            }
        }
        target.predecessors.insert(predecessors[j]);
        j = j + 1;
    }
    assert(predecessors@.take(j as int) =~= predecessors@);
    put_block(blocks, new_dest.0, target);
    assert(blocks@.dom() =~= before.dom());
    let _block = take_block(blocks, block_id);
    let ghost linked = block_views(blocks@);
    unlink(blocks, block_id);
    proof {
        let after = block_views(blocks@);
        let goal = thread_step(before, block_id)->0;
        assert forall|key: u32| goal.contains_key(key) implies after[key] == goal[key] by {
            assert(after[key] == unlinked_block(linked[key], block_id));
            if key != new_dest.0 {
                assert(linked[key] == patched[key]);
            }
        }
        assert(after =~= goal);
    }
}

/// Jump threading. Eliminates blocks that are just a jump.
fn thread_jumps(function: &mut FunctionDefinition)
    requires
        threaded(old(function)@.blocks) is Some,
    ensures
        final(function)@ == (FunctionView {
            blocks: threaded(old(function)@.blocks)->0,
            ..old(function)@
        }),
{
    let ghost before = block_views(function.blocks@);
    let block_ids = sorted_keys(&function.blocks);
    let ghost ids = block_ids@;
    let mut i: usize = 0;
    proof {
        assert(before.dom() =~= function.blocks@.dom());
        assert forall|k: int| 0 <= k < ids.len() implies function.blocks@.contains_key(
            #[trigger] ids[k],
        ) by {
            assert(ids.to_set().contains(ids[k]));
        }
    }
    while i < block_ids.len()
        invariant
            0 <= i <= ids.len(),
            ids == block_ids@,
            lists(ids, before.dom()),
            before == block_views(old(function).blocks@),
            function.symbol_name == old(function).symbol_name,
            function.registers == old(function).registers,
            function.struct_return == old(function).struct_return,
            function.arguments == old(function).arguments,
            thread_upto(before, ids, ids.len()) is Some,
            thread_upto(before, ids, i as nat) == Some(block_views(function.blocks@)),
            forall|k: int| i <= k < ids.len() ==> function.blocks@.contains_key(#[trigger] ids[k]),
        decreases ids.len() - i,
    {
        let block_id: u32 = block_ids[i];
        proof {
            lemma_thread_prefix(before, ids, i as nat + 1, ids.len());
        }
        assert(function.blocks@.contains_key(ids[i as int]));
        match jump_target(block_at(&function.blocks, block_id)) {
            None => {}
            Some(new_dest) => {
                bypass(&mut function.blocks, block_id, new_dest);
            }
        }
        i = i + 1;
    }
}

/// Where a block goes that ends in a jump.
pub open spec fn final_jump(code: Seq<InstructionView>) -> Option<BlockId> {
    match code.last() {
        InstructionView::Jump { destination } => Some(destination),
        _ => None,
    }
}

/// Blocks while some of them are joined, and the blocks that are gone.
pub struct Merging {
    pub blocks: Map<u32, BlockView>,
    pub evicted: Set<u32>,
}

/// Drops the jump at the end of a block if it goes to the block `next`, and
/// joins that block to it if it is entered from one place alone. There is no
/// result for a block without instructions.
pub open spec fn merge_step(state: Merging, id: u32, next: u32) -> Option<Merging> {
    let block = state.blocks[id];
    if state.evicted.contains(id) {
        Some(state)
    } else if block.instructions.len() == 0 {
        None
    } else if final_jump(block.instructions) == Some(BlockId(next)) {
        let head = block.instructions.drop_last();
        let shortened = state.blocks.insert(id, BlockView { instructions: head, ..block });
        if shortened[next].predecessors.len() == 1 {
            let rest = shortened[next].instructions;
            Some(
                Merging {
                    blocks: shortened.remove(next).insert(
                        id,
                        BlockView { instructions: head + rest, ..block },
                    ),
                    evicted: state.evicted.insert(next),
                },
            )
        } else {
            Some(Merging { blocks: shortened, evicted: state.evicted })
        }
    } else {
        Some(state)
    }
}

/// Treats the first `n` of the listed blocks in turn, each with the next one.
pub open spec fn merge_upto(blocks: Map<u32, BlockView>, ids: Seq<u32>, n: nat) -> Option<Merging>
    decreases n,
{
    if n == 0 {
        Some(Merging { blocks, evicted: Set::empty() })
    } else {
        match merge_upto(blocks, ids, (n - 1) as nat) {
            Some(before) => merge_step(before, ids[n - 1], ids[n as int]),
            None => None,
        }
    }
}

/// Blocks joined with the blocks right behind them where control goes from one
/// to the other.
pub open spec fn merged(blocks: Map<u32, BlockView>) -> Option<Map<u32, BlockView>> {
    let ids = ascending(blocks.dom());
    match merge_upto(blocks, ids, if ids.len() > 0 { (ids.len() - 1) as nat } else { 0 }) {
        Some(state) => Some(state.blocks),
        None => None,
    }
}

pub(crate) proof fn lemma_merge_prefix(blocks: Map<u32, BlockView>, ids: Seq<u32>, n: nat, m: nat)
    requires
        n <= m,
        merge_upto(blocks, ids, m) is Some,
    ensures
        merge_upto(blocks, ids, n) is Some,
    decreases m - n,
{
    if n < m {
        lemma_merge_prefix(blocks, ids, n, (m - 1) as nat);
    }
}

/// Where a block goes that ends in a jump.
fn last_jump(block: &Block) -> (r: Option<BlockId>)
    requires
        block@.instructions.len() > 0,
    ensures
        r == final_jump(block@.instructions),
{
    let n: usize = block.instructions.len();
    assert(block@.instructions.last() == block.instructions@[n - 1]@);
    match &block.instructions[n - 1] {
        Instruction::Jump { destination } => Some(*destination),
        _ => None,
    }
}

/// Analyzes jumps to see if there are any blocks that "fall through" meaning
/// they just jump directly to the next block. In this case the jump is removed
/// and if the successor block has no other predecessors, the blocks are merged
/// into a single block to simplify the CFG.
fn merge_blocks(function: &mut FunctionDefinition)
    requires
        merged(old(function)@.blocks) is Some,
    ensures
        final(function)@ == (FunctionView {
            blocks: merged(old(function)@.blocks)->0,
            ..old(function)@
        }),
{
    let ghost before = block_views(function.blocks@);
    let mut evicted = IdSet::new();
    let block_ids = sorted_keys(&function.blocks);
    let ghost ids = block_ids@;
    proof {
        assert(before.dom() =~= function.blocks@.dom());
        assert forall|k: int| 0 <= k < ids.len() implies function.blocks@.contains_key(
            #[trigger] ids[k],
        ) by {
            assert(ids.to_set().contains(ids[k]));
        }
    }
    if block_ids.len() == 0 {
        return;
    }
    let last: usize = block_ids.len() - 1;
    let mut i: usize = 0;
    while i < last
        invariant
            0 <= i <= last,
            last == ids.len() - 1,
            ids == block_ids@,
            lists(ids, before.dom()),
            before == block_views(old(function).blocks@),
            function.symbol_name == old(function).symbol_name,
            function.registers == old(function).registers,
            function.struct_return == old(function).struct_return,
            function.arguments == old(function).arguments,
            merge_upto(before, ids, last as nat) is Some,
            merge_upto(before, ids, i as nat) == Some(
                Merging { blocks: block_views(function.blocks@), evicted: ids_in(evicted) },
            ),
            forall|k: int|
                0 <= k < ids.len() ==> function.blocks@.contains_key(#[trigger] ids[k])
                    || ids_in(evicted).contains(ids[k]),
            forall|k: int|
                i < k < ids.len() ==> function.blocks@.contains_key(#[trigger] ids[k]),
        decreases last - i,
    {
        let block_id: u32 = block_ids[i];
        let next_block: u32 = block_ids[i + 1];
        let ghost here = block_views(function.blocks@);
        proof {
            lemma_merge_prefix(before, ids, i as nat + 1, last as nat);
        }
        assert(function.blocks@.contains_key(ids[i as int]) || ids_in(evicted).contains(
            ids[i as int],
        ));
        assert(function.blocks@.contains_key(ids[i + 1]));
        if evicted.contains(block_id) {
            i = i + 1;
            continue;
        }
        let jump = last_jump(block_at(&function.blocks, block_id));
        if jump == Some(BlockId(next_block)) {
            let mut block = take_block(&mut function.blocks, block_id);
            let ghost whole = block@.instructions;
            block.instructions.pop();
            assert(block@.instructions =~= whole.drop_last());
            put_block(&mut function.blocks, block_id, block);
            let ghost shortened = block_views(function.blocks@);
            assert(shortened =~= here.insert(
                block_id,
                BlockView { instructions: whole.drop_last(), ..here[block_id] },
            ));
            // If the only predecessor is this block, we can safely merge
            if block_at(&function.blocks, next_block).predecessors.len() == 1 {
                let mut next = take_block(&mut function.blocks, next_block);
                evicted.insert(next_block);
                let mut block = take_block(&mut function.blocks, block_id);
                let ghost rest = next@.instructions;
                block.instructions.append(&mut next.instructions);
                assert(block@.instructions =~= whole.drop_last() + rest);
                put_block(&mut function.blocks, block_id, block);
                assert(block_views(function.blocks@) =~= shortened.remove(next_block).insert(
                    block_id,
                    BlockView { instructions: whole.drop_last() + rest, ..here[block_id] },
                ));
            }
        }
        i = i + 1;
    }
}

/// What the passes before SSA form make of the blocks of a function: nothing
/// stands behind a return, dead blocks and blocks that only jump are gone, and
/// blocks that follow each other are joined. There is no result where a pass
/// has none.
pub open spec fn simplified(blocks: Map<u32, BlockView>) -> Option<Map<u32, BlockView>> {
    match without_dead(truncated(blocks)) {
        None => None,
        Some(alive) => match threaded(alive) {
            None => None,
            Some(direct) => match merged(direct) {
                None => None,
                Some(once) => merged(once),
            },
        },
    }
}

/// Performs some early LIR optimizations on the provided function like block
/// merging, jump threading, and dead block elimination. This simplifies the
/// LIR before we build the CFG and convert to SSA form and is mostly helpful
/// to eliminate stupid output from lowering.
pub fn perform_pre_ssa_optimizations(function: &mut FunctionDefinition)
    requires
        simplified(old(function)@.blocks) is Some,
    ensures
        final(function)@ == (FunctionView {
            blocks: simplified(old(function)@.blocks)->0,
            ..old(function)@
        }),
{
    truncate_after_returns(function);
    eliminate_dead_blocks(function);
    thread_jumps(function);
    merge_blocks(function);
    merge_blocks(function);
}

/// Whether nothing stands behind a return.
pub open spec fn returns_last(code: Seq<InstructionView>) -> bool {
    forall|i: int| 0 <= i < code.len() - 1 ==> !(#[trigger] code[i] is Return)
}

/// Whether nothing stands behind a return in any of the blocks.
pub open spec fn all_return_last(blocks: Map<u32, BlockView>) -> bool {
    forall|id: u32| #[trigger]
        blocks.contains_key(id) ==> returns_last(blocks[id].instructions)
}

pub(crate) proof fn lemma_return_from_first(code: Seq<InstructionView>, i: nat)
    requires
        i <= code.len(),
    ensures
        i <= return_from(code, i) <= code.len(),
        forall|k: int| i <= k < return_from(code, i) ==> !(#[trigger] code[k] is Return),
        return_from(code, i) < code.len() ==> code[return_from(code, i) as int] is Return,
    decreases code.len() - i,
{
    if i < code.len() && !(code[i as int] is Return) {
        lemma_return_from_first(code, i + 1);
    }
}

/// Truncation leaves nothing behind a return, and truncating again changes
/// nothing.
pub proof fn law_truncated(blocks: Map<u32, BlockView>)
    ensures
        all_return_last(truncated(blocks)),
        truncated(truncated(blocks)) == truncated(blocks),
{
    let after = truncated(blocks);
    assert forall|id: u32| #[trigger] after.contains_key(id) implies returns_last(
        after[id].instructions,
    ) && truncated_block(after[id]) == after[id] by {
        let code = blocks[id].instructions;
        let cut = cut_at_return(code);
        lemma_return_from_first(code, 0);
        lemma_return_from_first(cut, 0);
        assert forall|k: int| 0 <= k < cut.len() - 1 implies !(#[trigger] cut[k] is Return) by {
            assert(cut[k] == code[k]);
        }
        let n = return_from(cut, 0);
        if n < cut.len() {
            assert(n == cut.len() - 1) by {
                if n < cut.len() - 1 {
                    assert(!(cut[n as int] is Return));
                }
            }
            assert(cut.take(n as int + 1) =~= cut);
        }
    }
    assert(truncated(after) =~= after);
}

pub(crate) proof fn lemma_dead_step_keeps(blocks: Map<u32, BlockView>, id: u32)
    requires
        blocks.contains_key(id),
        dead_step(blocks, id) is Some,
    ensures
        all_return_last(blocks) ==> all_return_last(dead_step(blocks, id)->0),
        dead_step(blocks, id)->0.dom().subset_of(blocks.dom()),
        forall|k: u32|
            k != id && #[trigger] blocks.contains_key(k) ==> dead_step(
                blocks,
                id,
            )->0.contains_key(k),
        id == 0 ==> dead_step(blocks, id)->0.contains_key(0),
{
    let after = dead_step(blocks, id)->0;
    if all_return_last(blocks) {
        assert forall|k: u32| #[trigger] after.contains_key(k) implies returns_last(
            after[k].instructions,
        ) by {
            assert(blocks.contains_key(k));
            let code = blocks[k].instructions;
            assert(returns_last(code));
            if k == id {
                assert forall|i: int| 0 <= i < code.len() - 1 implies !(#[trigger] settled_code(
                    code,
                )[i] is Return) by {
                    assert(!(code[i] is Return));
                }
            }
        }
    }
}

pub(crate) proof fn lemma_dead_keeps(blocks: Map<u32, BlockView>, ids: Seq<u32>, n: nat)
    requires
        lists(ids, blocks.dom()),
        n <= ids.len(),
        dead_upto(blocks, ids, n) is Some,
    ensures
        all_return_last(blocks) ==> all_return_last(dead_upto(blocks, ids, n)->0),
        dead_upto(blocks, ids, n)->0.dom().subset_of(blocks.dom()),
        forall|k: int|
            n <= k < ids.len() ==> dead_upto(blocks, ids, n)->0.contains_key(#[trigger] ids[k]),
        blocks.contains_key(0) ==> dead_upto(blocks, ids, n)->0.contains_key(0),
    decreases n,
{
    if n == 0 {
        assert forall|k: int| 0 <= k < ids.len() implies blocks.contains_key(#[trigger] ids[k]) by {
            assert(ids.to_set().contains(ids[k]));
        }
    } else {
        lemma_dead_keeps(blocks, ids, (n - 1) as nat);
        let before = dead_upto(blocks, ids, (n - 1) as nat)->0;
        assert(before.contains_key(ids[n - 1]));
        lemma_dead_step_keeps(before, ids[n - 1]);
    }
}

proof fn lemma_thread_step_keeps(blocks: Map<u32, BlockView>, id: u32)
    requires
        blocks.contains_key(id),
        thread_step(blocks, id) is Some,
    ensures
        all_return_last(blocks) ==> all_return_last(thread_step(blocks, id)->0),
        thread_step(blocks, id)->0.dom().subset_of(blocks.dom()),
        forall|k: u32|
            k != id && #[trigger] blocks.contains_key(k) ==> thread_step(
                blocks,
                id,
            )->0.contains_key(k),
{
    let after = thread_step(blocks, id)->0;
    if all_return_last(blocks) {
        assert forall|k: u32| #[trigger] after.contains_key(k) implies returns_last(
            after[k].instructions,
        ) by {
            assert(blocks.contains_key(k));
            let code = blocks[k].instructions;
            assert(returns_last(code));
            if let Some(target) = only_jump(blocks[id].instructions) {
                assert forall|i: int| 0 <= i < code.len() - 1 implies !(#[trigger] redirected_code(
                    code,
                    id,
                    target,
                )[i] is Return) by {
                    assert(!(code[i] is Return));
                }
            }
        }
    }
}

pub(crate) proof fn lemma_thread_keeps(blocks: Map<u32, BlockView>, ids: Seq<u32>, n: nat)
    requires
        lists(ids, blocks.dom()),
        n <= ids.len(),
        thread_upto(blocks, ids, n) is Some,
    ensures
        all_return_last(blocks) ==> all_return_last(thread_upto(blocks, ids, n)->0),
        thread_upto(blocks, ids, n)->0.dom().subset_of(blocks.dom()),
        forall|k: int|
            n <= k < ids.len() ==> thread_upto(blocks, ids, n)->0.contains_key(#[trigger] ids[k]),
    decreases n,
{
    if n == 0 {
        assert forall|k: int| 0 <= k < ids.len() implies blocks.contains_key(#[trigger] ids[k]) by {
            assert(ids.to_set().contains(ids[k]));
        }
    } else {
        lemma_thread_keeps(blocks, ids, (n - 1) as nat);
        let before = thread_upto(blocks, ids, (n - 1) as nat)->0;
        assert(before.contains_key(ids[n - 1]));
        lemma_thread_step_keeps(before, ids[n - 1]);
    }
}

pub(crate) proof fn lemma_merge_keeps(blocks: Map<u32, BlockView>, ids: Seq<u32>, n: nat)
    requires
        lists(ids, blocks.dom()),
        n < ids.len() || n == 0,
        merge_upto(blocks, ids, n) is Some,
    ensures
        ({
            let state = merge_upto(blocks, ids, n)->0;
            &&& all_return_last(blocks) ==> all_return_last(state.blocks)
            &&& state.blocks.dom().subset_of(blocks.dom())
            &&& forall|k: int|
                0 <= k < ids.len() ==> state.blocks.contains_key(#[trigger] ids[k])
                    || state.evicted.contains(ids[k])
            &&& forall|k: int| n < k < ids.len() ==> state.blocks.contains_key(#[trigger] ids[k])
            &&& blocks.contains_key(0) ==> state.blocks.contains_key(0)
        }),
    decreases n,
{
    if n == 0 {
        assert forall|k: int| 0 <= k < ids.len() implies blocks.contains_key(#[trigger] ids[k]) by {
            assert(ids.to_set().contains(ids[k]));
        }
    } else {
        lemma_merge_keeps(blocks, ids, (n - 1) as nat);
        let state = merge_upto(blocks, ids, (n - 1) as nat)->0;
        let after = merge_upto(blocks, ids, n)->0;
        let id = ids[n - 1];
        let next = ids[n as int];
        assert(state.blocks.contains_key(id) || state.evicted.contains(id));
        assert(state.blocks.contains_key(next));
        assert(id < next);
        if all_return_last(blocks) {
            assert forall|k: u32| #[trigger] after.blocks.contains_key(k) implies returns_last(
                after.blocks[k].instructions,
            ) by {
                if k == id && after.blocks[k] != state.blocks[k] {
                    let code = state.blocks[id].instructions;
                    assert(returns_last(code));
                    let head = code.drop_last();
                    let rest = state.blocks[next].instructions;
                    assert(returns_last(rest));
                    assert forall|i: int| 0 <= i < head.len() implies !(#[trigger] head[i] is Return) by {
                        assert(!(code[i] is Return));
                    }
                    let both = head + rest;
                    assert forall|i: int| 0 <= i < both.len() - 1 implies !(
                    #[trigger] both[i] is Return) by {
                        if i < head.len() {
                            assert(both[i] == head[i]);
                        } else {
                            assert(both[i] == rest[i - head.len()]);
                        }
                    }
                } else {
                    assert(state.blocks.contains_key(k));
                }
            }
        }
    }
}

proof fn lemma_merged_keeps(blocks: Map<u32, BlockView>)
    requires
        blocks.dom().finite(),
        merged(blocks) is Some,
    ensures
        all_return_last(blocks) ==> all_return_last(merged(blocks)->0),
        merged(blocks)->0.dom().subset_of(blocks.dom()),
        blocks.contains_key(0) ==> merged(blocks)->0.contains_key(0),
{
    crate::collections::lemma_ascending(blocks.dom());
    let ids = ascending(blocks.dom());
    lemma_merge_keeps(blocks, ids, if ids.len() > 0 { (ids.len() - 1) as nat } else { 0 });
}

pub(crate) proof fn lemma_dropped_keeps(blocks: Map<u32, BlockView>, n: nat)
    requires
        blocks.dom().finite(),
    ensures
        all_return_last(blocks) ==> all_return_last(dropped_upto(blocks, n)),
        dropped_upto(blocks, n).dom().subset_of(blocks.dom()),
        blocks.contains_key(0) ==> dropped_upto(blocks, n).contains_key(0),
        forall|id: u32| #[trigger]
            dropped_upto(blocks, n).contains_key(id) ==> dropped_upto(blocks, n)[id].instructions
                == blocks[id].instructions,
        blocks.dom().len() <= n ==> forall|id: u32|
            #[trigger] dropped_upto(blocks, n).contains_key(id) ==> !is_dead(
                dropped_upto(blocks, n),
                id,
            ),
        is_linked(blocks) ==> is_linked(dropped_upto(blocks, n)),
    decreases n,
{
    if exists|id: u32| is_first_dead(blocks, id) {
        if n > 0 {
            let id = choose|id: u32| is_first_dead(blocks, id);
            let after = unlinked(blocks.remove(id), id);
            assert(after.dom() =~= blocks.dom().remove(id));
            if is_linked(blocks) {
                law_dropping_keeps_links(blocks, id);
            }
            lemma_dropped_keeps(after, (n - 1) as nat);
            let done = dropped_upto(blocks, n);
            assert forall|k: u32| #[trigger] done.contains_key(k) implies done[k].instructions
                == blocks[k].instructions by {
                assert(after.contains_key(k));
            }
        } else {
            let id = choose|id: u32| is_first_dead(blocks, id);
            assert(blocks.dom().contains(id));
            if blocks.dom().len() == 0 {
                assert(blocks.dom() =~= Set::<u32>::empty());
            }
        }
    } else {
        assert forall|id: u32| #[trigger] blocks.contains_key(id) implies !is_dead(
            blocks,
            id,
        ) by {
            if is_dead(blocks, id) {
                lemma_first_dead(blocks, id);
            }
        }
    }
}

/// Where a block can be dropped, one of those that can is the first.
proof fn lemma_first_dead(blocks: Map<u32, BlockView>, id: u32)
    requires
        blocks.contains_key(id),
        is_dead(blocks, id),
    ensures
        exists|k: u32| is_first_dead(blocks, k),
    decreases id,
{
    if !is_first_dead(blocks, id) {
        let k = choose|k: u32| #[trigger]
            blocks.contains_key(k) && is_dead(blocks, k) && k < id;
        lemma_first_dead(blocks, k);
    }
}

/// What the sweep makes of the instructions of the blocks that it leaves.
pub(crate) proof fn lemma_dead_settles(blocks: Map<u32, BlockView>, ids: Seq<u32>, n: nat)
    requires
        lists(ids, blocks.dom()),
        n <= ids.len(),
        dead_upto(blocks, ids, n) is Some,
    ensures
        forall|k: int|
            0 <= k < n && dead_upto(blocks, ids, n)->0.contains_key(#[trigger] ids[k])
                ==> dead_upto(blocks, ids, n)->0[ids[k]].instructions == settled_code(
                blocks[ids[k]].instructions,
            ) && all_on_bools(blocks[ids[k]].instructions),
        forall|k: int|
            n <= k < ids.len() ==> dead_upto(blocks, ids, n)->0[#[trigger] ids[k]].instructions
                == blocks[ids[k]].instructions,
    decreases n,
{
    if n > 0 {
        lemma_dead_settles(blocks, ids, (n - 1) as nat);
        lemma_dead_keeps(blocks, ids, (n - 1) as nat);
        let before = dead_upto(blocks, ids, (n - 1) as nat)->0;
        let after = dead_upto(blocks, ids, n)->0;
        let id = ids[n - 1];
        assert(before.contains_key(id));
        let code = before[id].instructions;
        if !is_dead(before, id) {
            assert(all_on_bools(code));
            if abandoned(code, code.len()) is None {
                lemma_nothing_abandoned(code, code.len());
                assert(settled_code(code) =~= code);
            }
            assert(after[id].instructions == settled_code(code));
        }
        assert forall|k: int| 0 <= k < ids.len() && k != n - 1 implies (after.contains_key(
            #[trigger] ids[k],
        ) ==> before.contains_key(ids[k]) && after[ids[k]].instructions
            == before[ids[k]].instructions) by {
            if k < n - 1 {
                assert(ids[k] < ids[n - 1]);
            } else {
                assert(ids[n - 1] < ids[k]);
            }
        }
        assert forall|k: int| n <= k < ids.len() implies after[#[trigger] ids[k]].instructions
            == blocks[ids[k]].instructions by {
            lemma_dead_keeps(blocks, ids, n);
            assert(after.contains_key(ids[k]));
        }
    }
}

/// Whether all the values that some instructions branch on, as far as they are
/// known, are booleans.
pub open spec fn all_on_bools(code: Seq<InstructionView>) -> bool {
    forall|i: int| 0 <= i < code.len() ==> branches_on_bool(#[trigger] code[i])
}

/// Once dead blocks are dropped, every block but the entry is entered from
/// somewhere. No block branches on a value that is known: where one did, it
/// jumps to the target that the value selects. All other instructions are kept.
pub proof fn law_no_dead_blocks(blocks: Map<u32, BlockView>)
    requires
        blocks.dom().finite(),
        without_dead(blocks) is Some,
    ensures
        without_dead(blocks)->0.dom().subset_of(blocks.dom()),
        blocks.contains_key(0) ==> without_dead(blocks)->0.contains_key(0),
        forall|id: u32| #[trigger]
            without_dead(blocks)->0.contains_key(id) ==> {
                &&& id == 0 || without_dead(blocks)->0[id].predecessors != Set::<u32>::empty()
                &&& without_dead(blocks)->0[id].instructions == settled_code(
                    blocks[id].instructions,
                )
                &&& forall|i: int|
                    0 <= i < without_dead(blocks)->0[id].instructions.len() ==> !is_settled_branch(
                        #[trigger] without_dead(blocks)->0[id].instructions[i],
                    )
            },
{
    let ids = ascending(blocks.dom());
    crate::collections::lemma_ascending(blocks.dom());
    lemma_dead_keeps(blocks, ids, ids.len());
    lemma_dead_settles(blocks, ids, ids.len());
    let swept = dead_upto(blocks, ids, ids.len())->0;
    vstd::set_lib::lemma_set_subset_finite(blocks.dom(), swept.dom());
    lemma_dropped_keeps(swept, swept.dom().len());
    let done = without_dead(blocks)->0;
    assert forall|id: u32| #[trigger] done.contains_key(id) implies {
        &&& id == 0 || done[id].predecessors != Set::<u32>::empty()
        &&& done[id].instructions == settled_code(blocks[id].instructions)
        &&& forall|i: int|
            0 <= i < done[id].instructions.len() ==> !is_settled_branch(
                #[trigger] done[id].instructions[i],
            )
    } by {
        assert(swept.contains_key(id));
        assert(ids.to_set().contains(id));
        let k = ids.index_of(id);
        assert(ids[k] == id);
        assert(!is_dead(done, id));
    }
}

/// After the passes nothing stands behind a return in any block, and every
/// block was there before them.
pub proof fn law_simplified(blocks: Map<u32, BlockView>)
    requires
        blocks.dom().finite(),
        simplified(blocks) is Some,
    ensures
        all_return_last(simplified(blocks)->0),
        simplified(blocks)->0.dom().subset_of(blocks.dom()),
{
    law_truncated(blocks);
    let cut = truncated(blocks);
    assert(cut.dom() =~= blocks.dom());
    let ids = ascending(cut.dom());
    crate::collections::lemma_ascending(cut.dom());
    lemma_dead_keeps(cut, ids, ids.len());
    let swept = dead_upto(cut, ids, ids.len())->0;
    vstd::set_lib::lemma_set_subset_finite(cut.dom(), swept.dom());
    lemma_dropped_keeps(swept, swept.dom().len());
    let alive = without_dead(cut)->0;
    vstd::set_lib::lemma_set_subset_finite(swept.dom(), alive.dom());
    let ids = ascending(alive.dom());
    crate::collections::lemma_ascending(alive.dom());
    lemma_thread_keeps(alive, ids, ids.len());
    let direct = threaded(alive)->0;
    vstd::set_lib::lemma_set_subset_finite(alive.dom(), direct.dom());
    lemma_merged_keeps(direct);
    let once = merged(direct)->0;
    vstd::set_lib::lemma_set_subset_finite(direct.dom(), once.dom());
    lemma_merged_keeps(once);
}

/// The entry of a function is never dropped as dead, nor joined to another
/// block.
pub proof fn law_entry_kept(blocks: Map<u32, BlockView>)
    requires
        blocks.dom().finite(),
        blocks.contains_key(0),
    ensures
        without_dead(blocks) is Some ==> without_dead(blocks)->0.contains_key(0),
        merged(blocks) is Some ==> merged(blocks)->0.contains_key(0),
{
    if without_dead(blocks) is Some {
        law_no_dead_blocks(blocks);
    }
    if merged(blocks) is Some {
        lemma_merged_keeps(blocks);
    }
}

/// Whether an instruction can go on in a block.
pub open spec fn goes_to(instruction: InstructionView, id: u32) -> bool {
    match instruction {
        InstructionView::Jump { destination } => destination.0 == id,
        InstructionView::Branch { positive, negative, .. } => positive.0 == id || negative.0 == id,
        _ => false,
    }
}

/// Whether all that is jumped to exists, and knows where it is entered from.
pub open spec fn is_linked(blocks: Map<u32, BlockView>) -> bool {
    forall|k: u32, i: int, t: u32|
        blocks.contains_key(k) && 0 <= i < blocks[k].instructions.len() && goes_to(
            #[trigger] blocks[k].instructions[i],
            t,
        ) ==> #[trigger] blocks.contains_key(t) && blocks[t].predecessors.contains(k)
}

/// Whether none of the first `n` of the listed blocks comes to be nothing but a
/// jump to itself.
pub open spec fn free_of_rings(blocks: Map<u32, BlockView>, ids: Seq<u32>, n: nat) -> bool
    decreases n,
{
    n == 0 || (free_of_rings(blocks, ids, (n - 1) as nat) && (thread_upto(
        blocks,
        ids,
        (n - 1) as nat,
    ) matches Some(before) ==> only_jump(before[ids[n - 1]].instructions) != Some(
        BlockId(ids[n - 1]),
    )))
}

pub(crate) proof fn lemma_thread_step_links(blocks: Map<u32, BlockView>, id: u32)
    requires
        blocks.contains_key(id),
        thread_step(blocks, id) is Some,
        only_jump(blocks[id].instructions) != Some(BlockId(id)),
        is_linked(blocks),
    ensures
        is_linked(thread_step(blocks, id)->0),
{
    match only_jump(blocks[id].instructions) {
        None => {},
        Some(target) => {
            let after = thread_step(blocks, id)->0;
            let entries = blocks[id].predecessors;
            assert forall|k: u32, i: int, t: u32|
                after.contains_key(k) && 0 <= i < after[k].instructions.len() && goes_to(
                    #[trigger] after[k].instructions[i],
                    t,
                ) implies #[trigger] after.contains_key(t) && after[t].predecessors.contains(
                k,
            ) by {
                let old_one = blocks[k].instructions[i];
                if entries.contains(k) {
                    assert(blocks.contains_key(k));
                    assert(leads_to(old_one, id));
                    assert(after[k].instructions[i] == redirected(old_one, id, target));
                    if t != target.0 {
                        assert(goes_to(old_one, t) && t != id);
                        assert(blocks.contains_key(t));
                    }
                } else {
                    assert(goes_to(old_one, t));
                    assert(blocks.contains_key(t));
                }
            }
        },
    }
}

/// Dropping blocks that are nothing but a jump keeps the graph in order: all that
/// is jumped to exists, and knows where it is entered from.
pub proof fn law_threading_keeps_links(blocks: Map<u32, BlockView>, ids: Seq<u32>, n: nat)
    requires
        lists(ids, blocks.dom()),
        n <= ids.len(),
        thread_upto(blocks, ids, n) is Some,
        free_of_rings(blocks, ids, n),
        is_linked(blocks),
    ensures
        is_linked(thread_upto(blocks, ids, n)->0),
    decreases n,
{
    if n > 0 {
        law_threading_keeps_links(blocks, ids, (n - 1) as nat);
        lemma_thread_keeps(blocks, ids, (n - 1) as nat);
        let before = thread_upto(blocks, ids, (n - 1) as nat)->0;
        assert(before.contains_key(ids[n - 1]));
        lemma_thread_step_links(before, ids[n - 1]);
    }
}

/// Dropping a block that is entered from nowhere keeps the graph in order.
pub proof fn law_dropping_keeps_links(blocks: Map<u32, BlockView>, id: u32)
    requires
        blocks.contains_key(id),
        is_dead(blocks, id),
        is_linked(blocks),
    ensures
        dead_step(blocks, id) is Some,
        is_linked(dead_step(blocks, id)->0),
{
    let after = dead_step(blocks, id)->0;
    assert forall|k: u32, i: int, t: u32|
        after.contains_key(k) && 0 <= i < after[k].instructions.len() && goes_to(
            #[trigger] after[k].instructions[i],
            t,
        ) implies #[trigger] after.contains_key(t) && after[t].predecessors.contains(k) by {
        assert(after[k].instructions[i] == blocks[k].instructions[i]);
        assert(blocks.contains_key(k));
        assert(blocks.contains_key(t));
    }
}

/// Whether instructions, once their branches on known values are jumps, no
/// longer go where the last of those branches does not go.
pub open spec fn leaves_for_good(code: Seq<InstructionView>) -> bool {
    abandoned(code, code.len()) matches Some(target) ==> forall|i: int|
        0 <= i < code.len() ==> !goes_to(settled(#[trigger] code[i]), target.0)
}

pub(crate) proof fn lemma_dead_step_links(blocks: Map<u32, BlockView>, id: u32)
    requires
        blocks.contains_key(id),
        dead_step(blocks, id) is Some,
        is_linked(blocks),
        leaves_for_good(blocks[id].instructions),
    ensures
        is_linked(dead_step(blocks, id)->0),
{
    let after = dead_step(blocks, id)->0;
    if is_dead(blocks, id) {
        law_dropping_keeps_links(blocks, id);
    } else {
        let code = blocks[id].instructions;
        assert forall|k: u32, i: int, t: u32|
            after.contains_key(k) && 0 <= i < after[k].instructions.len() && goes_to(
                #[trigger] after[k].instructions[i],
                t,
            ) implies #[trigger] after.contains_key(t) && after[t].predecessors.contains(k) by {
            let instruction = blocks[k].instructions[i];
            assert(blocks.contains_key(k));
            assert(goes_to(instruction, t));
            assert(blocks.contains_key(t));
            if k == id && abandoned(code, code.len()) is Some {
                assert(after[k].instructions[i] == settled(code[i]));
            }
        }
    }
}

/// Where a branch does not go is one of its targets.
pub(crate) proof fn lemma_abandoned(code: Seq<InstructionView>, n: nat)
    requires
        n <= code.len(),
        abandoned(code, n) is Some,
    ensures
        exists|i: int| 0 <= i < n && goes_to(#[trigger] code[i], (abandoned(code, n)->0).0),
    decreases n,
{
    if is_settled_branch(code[n - 1]) {
        assert(goes_to(code[n - 1], (abandoned(code, n)->0).0));
    } else {
        lemma_abandoned(code, (n - 1) as nat);
    }
}

pub(crate) proof fn lemma_dead_links(blocks: Map<u32, BlockView>, ids: Seq<u32>, n: nat)
    requires
        lists(ids, blocks.dom()),
        n <= ids.len(),
        is_linked(blocks),
        forall|id: u32| #[trigger]
            blocks.contains_key(id) ==> leaves_for_good(blocks[id].instructions) && all_on_bools(
                blocks[id].instructions,
            ),
    ensures
        dead_upto(blocks, ids, n) is Some,
        is_linked(dead_upto(blocks, ids, n)->0),
    decreases n,
{
    if n > 0 {
        lemma_dead_links(blocks, ids, (n - 1) as nat);
        lemma_dead_settles(blocks, ids, (n - 1) as nat);
        lemma_dead_keeps(blocks, ids, (n - 1) as nat);
        let before = dead_upto(blocks, ids, (n - 1) as nat)->0;
        let id = ids[n - 1];
        assert(ids.to_set().contains(id));
        assert(blocks.contains_key(id));
        assert(before.contains_key(id));
        let code = before[id].instructions;
        assert(code == blocks[id].instructions);
        if !is_dead(before, id) && abandoned(code, code.len()) is Some {
            let target = abandoned(code, code.len())->0;
            lemma_abandoned(code, code.len());
            let i = choose|i: int| 0 <= i < code.len() && goes_to(#[trigger] code[i], target.0);
            assert(goes_to(before[id].instructions[i], target.0));
            assert(before.contains_key(target.0));
        }
        lemma_dead_step_links(before, id);
    }
}

/// Dead blocks can be dropped from a graph in order, and it stays in order, where
/// the known values that are branched on are booleans, and where no block goes
/// in two ways to a target that a branch of it on a known value does not go to.
pub proof fn law_elimination_keeps_links(blocks: Map<u32, BlockView>)
    requires
        blocks.dom().finite(),
        is_linked(blocks),
        forall|id: u32| #[trigger]
            blocks.contains_key(id) ==> leaves_for_good(blocks[id].instructions) && all_on_bools(
                blocks[id].instructions,
            ),
    ensures
        without_dead(blocks) is Some,
        is_linked(without_dead(blocks)->0),
{
    let ids = ascending(blocks.dom());
    crate::collections::lemma_ascending(blocks.dom());
    lemma_dead_links(blocks, ids, ids.len());
    lemma_dead_keeps(blocks, ids, ids.len());
    let swept = dead_upto(blocks, ids, ids.len())->0;
    vstd::set_lib::lemma_set_subset_finite(blocks.dom(), swept.dom());
    lemma_dropped_keeps(swept, swept.dom().len());
}

} // verus!
