//! Joining the blocks of operators, loops and conditionals, and the steps that
//! leave them.

use crate::frontend::ast::UnaryOperatorKind;
use crate::index::Index;
use crate::middle::hir;
use crate::middle::hir::{Expression, HirId};
use crate::middle::lir::hir_lowering::emit::{
    loop_list, lower_type, BodyLoweringContext, ExpressionContext,
};
use crate::middle::lir::hir_lowering::rules::{
    assigned_place, branch_merged, break_rule, breaks_patched, cast_kind, cast_rule,
    conditional_joined, continue_rule, deref_rule, is_main, is_trivial_cast, logical_joined,
    logical_sources, loop_joined, return_rule, selects, unary_value_rule, width_rank, Branching,
    ConditionalBlocks, LogicalBlocks, LoopBlocks,
};
use crate::middle::lir::hir_lowering::state::{Emitted, Lowering};
use crate::middle::lir::{
    code, BlockId, BlockView, Immediate, Instruction, InstructionView, IntegerCastKind,
    IntegerWidth, Operand, RegisterId, Type,
};
use crate::middle::primitive::UIntKind;
use crate::middle::ty::{same_kind, TypeKind};
use crate::text::same_text;
use std::collections::BTreeMap;
use std::rc::Rc;
use vstd::prelude::*;

verus! {

broadcast use vstd::std_specs::btree::group_btree_axioms;

/// Whether the first of two widths is at least the second.
fn at_least_as_wide(a: IntegerWidth, b: IntegerWidth) -> (r: bool)
    ensures
        r == (width_rank(a)
            >= width_rank(b)),
{
    match (a, b) {
        (IntegerWidth::I64, _) => true,
        (IntegerWidth::I32, IntegerWidth::I64) => false,
        (IntegerWidth::I32, _) => true,
        (IntegerWidth::I16, IntegerWidth::I64 | IntegerWidth::I32) => false,
        (IntegerWidth::I16, _) => true,
        (IntegerWidth::I8, IntegerWidth::I8) => true,
        (IntegerWidth::I8, _) => false,
    }
}

/// The width of an integer type.
fn integer_width(kind: &TypeKind) -> (r: IntegerWidth)
    requires
        kind is Integer || kind is UnsignedInteger,
    ensures
        match *kind {
            TypeKind::Integer(k) => r == crate::middle::lir::signed_width(k),
            TypeKind::UnsignedInteger(k) => r == crate::middle::lir::unsigned_width(k),
            _ => true,
        },
{
    match kind {
        TypeKind::Integer(k) => IntegerWidth::from(*k),
        TypeKind::UnsignedInteger(k) => IntegerWidth::from(*k),
        _ => vstd::pervasive::unreached(),
    }
}

/// How an integer is cast from one type to another.
fn integer_cast(from: &TypeKind, to: &TypeKind) -> (r: IntegerCastKind)
    requires
        cast_kind(from.model(), to.model()) is Some,
    ensures
        cast_kind(from.model(), to.model()) == Some(r),
{
    if at_least_as_wide(integer_width(from), integer_width(to)) {
        IntegerCastKind::Truncate
    } else if matches!(from, TypeKind::UnsignedInteger(_)) {
        IntegerCastKind::ZeroExtension
    } else {
        IntegerCastKind::SignExtension
    }
}

/// Whether a cast leaves a value as it is.
fn trivial_cast(from: &TypeKind, to: &TypeKind) -> (r: bool)
    ensures
        r == is_trivial_cast(from.model(), to.model()),
{
    same_kind(from, to) || (matches!(from, TypeKind::UnsignedInteger(UIntKind::USize))
        && to.is_pointer_like()) || (from.is_pointer_like() && to.is_pointer_like()) || (matches!(
        from,
        TypeKind::Char
    ) && matches!(to, TypeKind::UnsignedInteger(UIntKind::U32)))
}

proof fn lemma_breaks_prefix(
    st: Lowering,
    breaks: Seq<(BlockId, usize)>,
    end: BlockId,
    n: nat,
    m: nat,
)
    requires
        n <= m <= breaks.len(),
        breaks_patched(st, breaks, end, m) is Some,
    ensures
        breaks_patched(st, breaks, end, n) is Some,
    decreases m,
{
    if n < m {
        lemma_breaks_prefix(st, breaks, end, n, (m - 1) as nat);
    }
}

impl<'hir> BodyLoweringContext<'hir> {
    /// Joins the blocks of a logical operator.
    pub(crate) fn join_logical(
        &mut self,
        b: LogicalBlocks,
        is_and: bool,
        lhs: Operand,
        rhs: Operand,
    ) -> (r: RegisterId)
        requires
            old(self).names.well_formed(),
            logical_joined(old(self)@, b, is_and, lhs, rhs) is Some,
        ensures
            final(self).follows(old(self)),
            logical_joined(old(self)@, b, is_and, lhs, rhs) == Some(
                (Emitted { st: final(self)@, reg: r }),
            ),
    {
        proof {
            reveal(logical_joined);
        }
        if is_and {
            self.push_into(
                b.lhs_last,
                Instruction::Branch {
                    condition: lhs,
                    positive: b.rhs_first,
                    negative: b.merge,
                },
            );
            self.push_into(
                b.rhs_last,
                Instruction::Branch {
                    condition: rhs,
                    positive: b.fallthrough,
                    negative: b.merge,
                },
            );
        } else {
            self.push_into(
                b.lhs_last,
                Instruction::Branch {
                    condition: lhs,
                    positive: b.merge,
                    negative: b.rhs_first,
                },
            );
            self.push_into(
                b.rhs_last,
                Instruction::Branch {
                    condition: rhs,
                    positive: b.merge,
                    negative: b.fallthrough,
                },
            );
        }
        self.push_into(b.fallthrough, Instruction::Jump { destination: b.merge });
        self.link(b.rhs_first, b.lhs_last);
        self.link(b.fallthrough, b.rhs_last);
        self.link(b.merge, b.lhs_last);
        self.link(b.merge, b.rhs_last);
        self.link(b.merge, b.fallthrough);
        self.leave_block();
        self.enter_block(b.merge);
        // coming from the operands we branched away, coming from the block
        // behind them we did not
        let mut sources: BTreeMap<u32, Operand> = BTreeMap::new();
        sources.insert(b.lhs_last.0, Operand::Immediate(Immediate::Bool(!is_and)));
        sources.insert(b.rhs_last.0, Operand::Immediate(Immediate::Bool(!is_and)));
        sources.insert(b.fallthrough.0, Operand::Immediate(Immediate::Bool(is_and)));
        assert(sources@ =~= logical_sources(b, is_and));
        self.emit_phi(sources, Type::Integer(IntegerWidth::I8))
    }

    pub(crate) fn lower_cast(&mut self, id: HirId, castee: &Expression, ty: &hir::Type)
        requires
            old(self).names.well_formed(),
            cast_rule(old(self).src(), old(self)@, id, *castee, *ty) is Some,
        ensures
            final(self).follows(old(self)),
            cast_rule(old(self).src(), old(self)@, id, *castee, *ty) == Some(final(self)@),
    {
        proof {
            reveal(cast_rule);
        }
        let src_ty = self.type_of(castee.hir_id);
        let dest_ty = self.type_of(ty.hir_id);
        let lir_ty = lower_type(dest_ty.kind());
        let value = self.operand(castee.hir_id);
        // trivial cast, just copy
        if trivial_cast(src_ty.kind(), dest_ty.kind()) {
            let dest = self.lower_copy(self.destination_register, value, &lir_ty);
            self.set_operand(id, dest);
            return;
        }
        // only integers and pointers can be casted
        let kind = integer_cast(src_ty.kind(), dest_ty.kind());
        let dest_reg = self.emit_integer_cast(kind, value, lir_ty);
        self.set_operand(id, Operand::Register(dest_reg));
    }

    pub(crate) fn lower_deref(&mut self, id: HirId, operand: &Expression)
        requires
            old(self).names.well_formed(),
            deref_rule(old(self).src(), old(self)@, id, *operand) is Some,
        ensures
            final(self).follows(old(self)),
            deref_rule(old(self).src(), old(self)@, id, *operand) == Some(final(self)@),
    {
        proof {
            reveal(deref_rule);
        }
        let ptr = self.operand(operand.hir_id);
        let dest = match self.expression_context {
            // return the pointer r-value as an l-value (maps between contexts)
            ExpressionContext::Place => ptr,
            // perform a memory load of the pointer
            ExpressionContext::Value => {
                let ty = self.type_of(id);
                let lir_ty = lower_type(ty.kind());
                Operand::Register(
                    self.emit_load_from_ptr(self.destination_register, ptr, &lir_ty),
                )
            }
        };
        self.set_operand(id, dest);
    }

    pub(crate) fn lower_unary_value(
        &mut self,
        id: HirId,
        operator: UnaryOperatorKind,
        operand: &Expression,
    )
        requires
            old(self).names.well_formed(),
            unary_value_rule(old(self).src(), old(self)@, id, operator, *operand) is Some,
        ensures
            final(self).follows(old(self)),
            unary_value_rule(old(self).src(), old(self)@, id, operator, *operand) == Some(
                final(self)@,
            ),
    {
        proof {
            reveal(unary_value_rule);
        }
        let ty = self.type_of(id);
        let lir_ty = lower_type(ty.kind());
        let value = self.operand(operand.hir_id);
        let dest_reg = self.emit_unary(operator, value, lir_ty);
        self.set_operand(id, Operand::Register(dest_reg));
    }

    /// Whether the function is the main one.
    pub(crate) fn within_main(&self) -> (r: bool)
        requires
            self.local_symbol_name.0 < self@.names.len(),
        ensures
            r == is_main(self.src(), self@),
    {
        same_text(self.names.value(self.local_symbol_name), "main")
    }

    pub(crate) fn lower_return(&mut self, value: &Option<Rc<Expression>>)
        requires
            old(self).names.well_formed(),
            return_rule(old(self).src(), old(self)@, *value) is Some,
        ensures
            final(self).follows(old(self)),
            return_rule(old(self).src(), old(self)@, *value) == Some(final(self)@),
    {
        proof {
            reveal(return_rule);
        }
        if self.struct_return.is_some() {
            self.push_instruction(Instruction::Return { value: None });
            return;
        }
        // Main implicitly returns 0 even if the signature does not say so
        let given = match value {
            Some(e) => Some(self.operand(e.hir_id)),
            None => if self.within_main() {
                Some(Operand::Immediate(Immediate::Int(0, IntegerWidth::I8)))
            } else {
                None
            },
        };
        self.push_instruction(Instruction::Return { value: given });
    }

    pub(crate) fn lower_break(&mut self)
        requires
            old(self).names.well_formed(),
            break_rule(old(self)@) is Some,
        ensures
            final(self).follows(old(self)),
            break_rule(old(self)@) == Some(final(self)@),
    {
        proof {
            reveal(break_rule);
        }
        let current_block = self.block_stack[self.block_stack.len() - 1];
        let idx: usize = match self.block_map.get(current_block) {
            Some(block) => block.instructions.len(),
            None => vstd::pervasive::unreached(),
        };
        self.push_instruction(Instruction::Jump { destination: BlockId(u32::MAX) });
        let ghost before = self.loop_ctx_stack@;
        match self.loop_ctx_stack.pop() {
            Some(mut ctx) => {
                ctx.break_instructions.push((current_block, idx));
                self.loop_ctx_stack.push(ctx);
            }
            None => {}
        }
        assert(loop_list(self.loop_ctx_stack@) =~= break_rule(old(self)@)->0.loops);
    }

    pub(crate) fn lower_continue(&mut self)
        requires
            old(self).names.well_formed(),
            continue_rule(old(self)@) is Some,
        ensures
            final(self).follows(old(self)),
            continue_rule(old(self)@) == Some(final(self)@),
    {
        proof {
            reveal(continue_rule);
        }
        let start_block = self.loop_ctx_stack[self.loop_ctx_stack.len() - 1].start_block;
        let current_block_id = self.last_block();
        self.link(start_block, current_block_id);
        self.push_instruction(Instruction::Jump { destination: start_block });
    }

    /// Lets the jumps out of a loop reach its end.
    fn patch_breaks(&mut self, breaks: &Vec<(BlockId, usize)>, end: BlockId)
        requires
            old(self).names.well_formed(),
            breaks_patched(old(self)@, breaks@, end, breaks@.len()) is Some,
        ensures
            final(self).follows(old(self)),
            breaks_patched(old(self)@, breaks@, end, breaks@.len()) == Some(final(self)@),
    {
        let ghost start = self@;
        let mut i: usize = 0;
        while i < breaks.len()
            invariant
                0 <= i <= breaks@.len(),
                self.follows(old(self)),
                breaks_patched(start, breaks@, end, breaks@.len()) is Some,
                breaks_patched(start, breaks@, end, i as nat) == Some(self@),
            decreases breaks@.len() - i,
        {
            proof {
                lemma_breaks_prefix(start, breaks@, end, i as nat + 1, breaks@.len());
            }
            let ghost before = self@;
            let (block_id, idx) = breaks[i];
            match self.block_map.get_mut(block_id) {
                Some(block) => {
                    let ghost old_code = code(block.instructions@);
                    block.instructions.set(idx, Instruction::Jump { destination: end });
                    assert(code(block.instructions@) =~= old_code.update(
                        idx as int,
                        InstructionView::Jump { destination: end },
                    ));
                }
                None => {}
            }
            assert(self@.blocks =~= before.blocks.update(
                block_id.0 as int,
                BlockView {
                    instructions: before.block(block_id).instructions.update(
                        idx as int,
                        InstructionView::Jump { destination: end },
                    ),
                    ..before.block(block_id)
                },
            ));
            self.link(end, block_id);
            i = i + 1;
        }
    }

    /// Joins the blocks of a loop.
    pub(crate) fn join_loop(&mut self, b: LoopBlocks, condition: &Expression)
        requires
            old(self).names.well_formed(),
            loop_joined(old(self)@, b, *condition) is Some,
        ensures
            final(self).follows(old(self)),
            loop_joined(old(self)@, b, *condition) == Some(final(self)@),
    {
        proof {
            reveal(loop_joined);
        }
        // At the end of the body, insert an unconditional jump back to the
        // condition checking block
        self.push_into(b.body_last, Instruction::Jump { destination: b.condition });
        self.link(b.condition, b.body_last);
        // The end block is reached once the loop breaks or the condition
        // returns false
        let end_block_id = self.create_block();
        // Conditional branch to decide if we continue the loop
        let condition_value = self.operand(condition.hir_id);
        self.push_into(
            b.condition_last,
            Instruction::Branch {
                condition: condition_value,
                positive: b.body,
                negative: end_block_id,
            },
        );
        self.link(b.body, b.condition_last);
        self.link(end_block_id, b.condition_last);
        // Patch break expressions within the loop body
        let ghost before = self@;
        match self.loop_ctx_stack.pop() {
            Some(ctx) => {
                assert(self@.loops =~= before.loops.drop_last());
                self.patch_breaks(&ctx.break_instructions, end_block_id);
            }
            None => vstd::pervasive::unreached(),
        }
        // Continue execution in the new block
        self.leave_block();
        self.enter_block(end_block_id);
    }

    /// Lets a branch of a conditional go on behind it.
    pub(crate) fn merge_branch(
        &mut self,
        sources: &mut BTreeMap<u32, Operand>,
        last: BlockId,
        merge: BlockId,
        value: HirId,
        is_selected: bool,
    )
        requires
            old(self).names.well_formed(),
            branch_merged(old(self)@, old(sources)@, last, merge, value, is_selected) is Some,
        ensures
            final(self).follows(old(self)),
            branch_merged(old(self)@, old(sources)@, last, merge, value, is_selected) == Some(
                (Branching { st: final(self)@, sources: final(sources)@ }),
            ),
    {
        proof {
            reveal(branch_merged);
        }
        let is_returning = match self.block_map.get(last) {
            Some(block) => block.is_returning(),
            None => vstd::pervasive::unreached(),
        };
        if !is_returning {
            self.push_into(last, Instruction::Jump { destination: merge });
            self.link(merge, last);
            if is_selected {
                sources.insert(last.0, self.operand(value));
            }
        }
    }

    /// Joins the blocks of a conditional.
    pub(crate) fn join_conditional(
        &mut self,
        sources: BTreeMap<u32, Operand>,
        b: ConditionalBlocks,
        id: HirId,
        kind: &TypeKind,
        condition: Operand,
        aggregate: Option<RegisterId>,
    )
        requires
            old(self).names.well_formed(),
            conditional_joined(
                (Branching { st: old(self)@, sources: sources@ }),
                b,
                id,
                kind.model(),
                condition,
                aggregate,
            ) is Some,
        ensures
            final(self).follows(old(self)),
            conditional_joined(
                (Branching { st: old(self)@, sources: sources@ }),
                b,
                id,
                kind.model(),
                condition,
                aggregate,
            ) == Some(final(self)@),
    {
        proof {
            reveal(conditional_joined);
        }
        self.push_into(
            b.start,
            Instruction::Branch { condition, positive: b.positive, negative: b.negative },
        );
        self.leave_block();
        self.enter_block(b.merge);
        match aggregate {
            Some(reg) => self.set_operand(id, Operand::Register(reg)),
            None => if is_selected(kind) {
                let reg = self.emit_phi(sources, lower_type(kind));
                self.set_operand(id, Operand::Register(reg));
            },
        }
    }

    /// The address that is assigned to, in a register.
    pub(crate) fn place_register(&mut self, lhs: &Expression) -> (r: RegisterId)
        requires
            old(self).names.well_formed(),
            assigned_place(old(self)@, *lhs) is Some,
        ensures
            final(self).follows(old(self)),
            assigned_place(old(self)@, *lhs) == Some((Emitted { st: final(self)@, reg: r })),
    {
        proof {
            reveal(assigned_place);
        }
        match self.operand(lhs.hir_id) {
            Operand::Register(reg) => reg,
            source => {
                let destination = self.create_register_with_lir_type(Type::Pointer);
                self.push_instruction(Instruction::Copy { destination, source });
                destination
            }
        }
    }
}

/// Whether the value of a conditional is selected by where control came from.
pub(crate) fn is_selected(kind: &TypeKind) -> (r: bool)
    ensures
        r == selects(kind.model()),
{
    !kind.is_aggregate() && !kind.is_unit() && !kind.is_never()
}

} // verus!
