//! Emitting instructions while a body is lowered.

use crate::frontend::ast::{BinaryOperatorKind, UnaryOperatorKind};
use crate::frontend::intern::{InternedSymbol, Interner};
use crate::index::{successor, Index, IndexVec};
use crate::middle::hir::{HirId, LocalDefId, Module};
use crate::middle::lir::hir_lowering::state::{
    emit, emit_alloc, emit_binary, emit_call, emit_cast, emit_element, emit_field, emit_load,
    emit_phi, emit_store, emit_unary, lowered_fields, lowered_indirect, lowered_ty, lowered_upto,
    place_for, with_name, Called, Emitted, LoopView, Lowering, Source,
};
use crate::middle::lir::{
    lemma_code_push, Block, BlockId, BlockView, Instruction, IntegerCastKind, IntegerWidth, Operand,
    Register, RegisterId, RegisterView, StaticLabelId, Struct, Type, TypeView,
};
use crate::middle::ty;
use crate::middle::ty::{fields_of, lemma_parts, types, Ty, TypeKind};
use crate::middle::type_check::ModuleTypeCheckResults;
use std::collections::{BTreeMap, BTreeSet};
use std::rc::Rc;
use vstd::prelude::*;

verus! {

broadcast use vstd::std_specs::btree::group_btree_axioms;

/// A loop that is being lowered.
pub struct LoopContext {
    /// This is where continue expressions will jump to: the first condition
    /// block.
    pub start_block: BlockId,
    /// Indexes of all the break instructions which were inserted within this
    /// loop context and need to be patched with the end block id once it is
    /// known
    pub break_instructions: Vec<(BlockId, usize)>,
}

impl View for LoopContext {
    type V = LoopView;

    open spec fn view(&self) -> LoopView {
        LoopView {
            start_block: self.start_block,
            break_instructions: self.break_instructions@,
        }
    }
}

/// What the registers of a body are.
pub open spec fn register_list(list: Seq<Register>) -> Seq<RegisterView> {
    Seq::new(list.len(), |i: int| list[i]@)
}

/// What the blocks of a body are.
pub open spec fn block_list(list: Seq<Block>) -> Seq<BlockView> {
    Seq::new(list.len(), |i: int| list[i]@)
}

/// What the loops around an expression are.
pub open spec fn loop_list(list: Seq<LoopContext>) -> Seq<LoopView> {
    Seq::new(list.len(), |i: int| list[i]@)
}

/// The semantic context of an expression (the same expression node should be
/// lowered differently based on what parent node it's enclosed in)
#[derive(Debug, Clone, Copy, PartialEq, Eq, Structural)]
pub enum ExpressionContext {
    /// In this context we attempt to lower the current expression node as a
    /// place (memory address) instead of a value
    Place,
    /// In this context we attempt to load the value of the expression into the
    /// destination (read)
    Value,
}

/// The state of lowering a body.
pub struct BodyLoweringContext<'hir> {
    pub module: &'hir Module,
    pub type_map: &'hir ModuleTypeCheckResults,
    pub owner_id: LocalDefId,
    pub local_symbol_name: InternedSymbol,
    pub global_symbol_name: InternedSymbol,
    /// Whether copies of structures that do not change are left out.
    pub elides_copies: bool,
    pub names: Interner,
    pub next_static_label_id: StaticLabelId,
    pub static_strings: BTreeMap<u32, InternedSymbol>,
    pub register_map: IndexVec<RegisterId, Register>,
    pub local_to_register_map: BTreeMap<u32, RegisterId>,
    pub expression_to_operand_map: BTreeMap<u32, Operand>,
    pub struct_return: Option<RegisterId>,
    pub arguments: Vec<RegisterId>,
    pub block_map: IndexVec<BlockId, Block>,
    pub block_stack: Vec<BlockId>,
    pub loop_ctx_stack: Vec<LoopContext>,
    /// If we are lowering an expression where the destination is known (like a
    /// let statement initializer), we use this destination instead of
    /// allocating a new temporary register to avoid unnecessary copying. It
    /// stores a pointer to the place we're writing to if it is there.
    pub destination_register: Option<RegisterId>,
    pub expression_context: ExpressionContext,
}

impl<'hir> View for BodyLoweringContext<'hir> {
    type V = Lowering;

    open spec fn view(&self) -> Lowering {
        Lowering {
            names: self.names@,
            next_label: self.next_static_label_id.0,
            strings: self.static_strings@,
            registers: register_list(self.register_map@),
            locals: self.local_to_register_map@,
            operands: self.expression_to_operand_map@,
            struct_return: self.struct_return,
            arguments: self.arguments@,
            blocks: block_list(self.block_map@),
            stack: self.block_stack@,
            loops: loop_list(self.loop_ctx_stack@),
            dest: self.destination_register,
            place: self.expression_context is Place,
        }
    }
}

/// Two operands as a list.
pub(crate) fn pair(a: Operand, b: Operand) -> (r: Vec<Operand>)
    ensures
        r@ == seq![a, b],
{
    let mut r: Vec<Operand> = Vec::new();
    r.push(a);
    r.push(b);
    assert(r@ =~= seq![a, b]);
    r
}

proof fn lemma_lowered_upto(list: Seq<Ty>, n: nat, m: nat)
    requires
        n < m <= list.len(),
        lowered_upto(list, m) is Some,
    ensures
        lowered_upto(list, n) is Some,
        lowered_ty(list[n as int]) is Some,
    decreases m,
{
    if n + 1 < m {
        lemma_lowered_upto(list, n, (m - 1) as nat);
    }
}

proof fn lemma_lowered_fields(list: Seq<(InternedSymbol, Ty)>, n: nat, m: nat)
    requires
        n < m <= list.len(),
        lowered_fields(list, m) is Some,
    ensures
        lowered_fields(list, n) is Some,
        lowered_ty(list[n as int].1) is Some,
    decreases m,
{
    if n + 1 < m {
        lemma_lowered_fields(list, n, (m - 1) as nat);
    }
}

/// What a list of memory types is.
pub open spec fn type_list(list: Seq<Type>) -> Seq<TypeView> {
    Seq::new(list.len(), |i: int| list[i]@)
}

/// Lowers types for use in memory.
pub fn lower_type(kind: &TypeKind) -> (r: Type)
    requires
        lowered_ty(kind.model()) is Some,
    ensures
        lowered_ty(kind.model()) == Some(r@),
    decreases kind,
{
    proof {
        lemma_parts(*kind);
    }
    match kind {
        TypeKind::Bool => Type::Integer(IntegerWidth::I8),
        TypeKind::Char => Type::Integer(IntegerWidth::I32),
        TypeKind::Integer(int_kind) => Type::Integer(IntegerWidth::from(*int_kind)),
        TypeKind::UnsignedInteger(uint_kind) => Type::Integer(IntegerWidth::from(*uint_kind)),
        TypeKind::Float(float_kind) => {
            Type::Float(crate::middle::lir::FloatWidth::from(*float_kind))
        }
        TypeKind::CStr
        | TypeKind::Pointer(_)
        | TypeKind::FunctionPointer { .. }
        | TypeKind::Any => Type::Pointer,
        TypeKind::Str | TypeKind::Slice(_) => {
            let r = Type::Struct(Struct::slice());
            assert(r@->Struct_0 =~= crate::middle::lir::hir_lowering::state::slice_fields());
            r
        }
        TypeKind::Array { ty, length } => {
            let inner = lower_type(&*ty.0);
            Type::Array(Rc::new(inner), *length)
        }
        TypeKind::Tuple(items) => {
            let mut list: Vec<Type> = Vec::new();
            let mut i: usize = 0;
            assert(type_list(list@) =~= Seq::<TypeView>::empty());
            while i < items.len()
                invariant
                    0 <= i <= items@.len(),
                    kind matches TypeKind::Tuple(f) && f == *items,
                    lowered_upto(types(items@), items@.len()) is Some,
                    lowered_upto(types(items@), i as nat) == Some(type_list(list@)),
                decreases items@.len() - i,
            {
                proof {
                    lemma_lowered_upto(types(items@), i as nat, items@.len());
                    assert(types(items@)[i as int] == items@[i as int]@);
                }
                let ghost before = list@;
                let item = lower_type(&*items[i].0);
                list.push(item);
                assert(type_list(list@) =~= type_list(before).push(item@));
                i = i + 1;
            }
            let r = Type::Struct(Struct(Rc::new(list)));
            assert(r@->Struct_0 =~= type_list(list@));
            r
        }
        TypeKind::Struct { fields, .. } => {
            let mut list: Vec<Type> = Vec::new();
            let mut i: usize = 0;
            assert(type_list(list@) =~= Seq::<TypeView>::empty());
            while i < fields.len()
                invariant
                    0 <= i <= fields@.len(),
                    kind matches TypeKind::Struct { fields: f, .. } && f == *fields,
                    lowered_fields(fields_of(fields@), fields@.len()) is Some,
                    lowered_fields(fields_of(fields@), i as nat) == Some(type_list(list@)),
                decreases fields@.len() - i,
            {
                proof {
                    lemma_lowered_fields(fields_of(fields@), i as nat, fields@.len());
                    assert(fields_of(fields@)[i as int].1 == fields@[i as int].ty@);
                }
                let ghost before = list@;
                let item = lower_type(&*fields[i].ty.0);
                list.push(item);
                assert(type_list(list@) =~= type_list(before).push(item@));
                i = i + 1;
            }
            let r = Type::Struct(Struct(Rc::new(list)));
            assert(r@->Struct_0 =~= type_list(list@));
            r
        }
        TypeKind::Enum { .. } => Type::Integer(IntegerWidth::I32),
        TypeKind::Unit | TypeKind::Never | TypeKind::Infer(_) | TypeKind::Error => {
            vstd::pervasive::unreached()
        }
    }
}

/// Lowers types for indirect usage (aggregates become pointers)
pub fn lower_type_indirect(kind: &TypeKind) -> (r: Type)
    requires
        lowered_indirect(kind.model()) is Some,
    ensures
        lowered_indirect(kind.model()) == Some(r@),
{
    if kind.is_aggregate() {
        Type::Pointer
    } else {
        lower_type(kind)
    }
}

impl<'hir> BodyLoweringContext<'hir> {
    /// What the body is lowered from.
    pub open spec fn src(&self) -> Source {
        Source {
            module: *self.module,
            types: self.type_map@,
            owner: self.owner_id,
            local_symbol: self.local_symbol_name,
            elides_copies: self.elides_copies,
        }
    }

    /// Whether the state follows another one: from the same source, with the
    /// interner in order.
    pub open spec fn follows(&self, before: &Self) -> bool {
        &&& self.names.well_formed()
        &&& self.src() == before.src()
        &&& self.global_symbol_name == before.global_symbol_name
    }

    pub(crate) fn create_static_label_id(&mut self) -> (r: StaticLabelId)
        requires
            old(self).names.well_formed(),
        ensures
            final(self).follows(old(self)),
            r.0 == old(self)@.next_label,
            final(self)@ == (Lowering {
                next_label: crate::index::wrap32(r.0 as int + 1) as u32,
                ..old(self)@
            }),
    {
        let prev = self.next_static_label_id;
        self.next_static_label_id = StaticLabelId(successor(prev.0));
        prev
    }

    pub(crate) fn create_register_with_lir_type(&mut self, ty: Type) -> (r: RegisterId)
        requires
            old(self).names.well_formed(),
        ensures
            final(self).follows(old(self)),
            (Emitted { st: final(self)@, reg: r }) == old(self)@.with_register(ty@),
    {
        let ghost before = self.register_map@;
        let id: RegisterId = self.register_map.next_index();
        self.register_map.push(Register { id, ty });
        assert(register_list(self.register_map@) =~= register_list(before).push(
            RegisterView { id, ty: ty@ },
        ));
        id
    }

    /// Creates a register for values of a type; aggregates are held by
    /// pointer.
    pub(crate) fn create_register(&mut self, ty: &ty::Type) -> (r: RegisterId)
        requires
            old(self).names.well_formed(),
            lowered_indirect(ty@) is Some,
        ensures
            final(self).follows(old(self)),
            (Emitted { st: final(self)@, reg: r }) == old(self)@.with_register(
                lowered_indirect(ty@)->0,
            ),
    {
        let lir = lower_type_indirect(ty.kind());
        self.create_register_with_lir_type(lir)
    }

    pub(crate) fn create_block(&mut self) -> (r: BlockId)
        requires
            old(self).names.well_formed(),
        ensures
            final(self).follows(old(self)),
            final(self)@ == old(self)@.with_block().st,
            r == old(self)@.with_block().id,
    {
        let ghost before = self.block_map@;
        let id: BlockId = self.block_map.next_index();
        let block = Block { id, instructions: Vec::new(), predecessors: BTreeSet::new() };
        assert(block@.instructions =~= Seq::empty());
        assert(block@.predecessors =~= Set::empty());
        self.block_map.push(block);
        assert(block_list(self.block_map@) =~= block_list(before).push(block@));
        id
    }

    /// Adds an instruction to a block.
    pub(crate) fn push_into(&mut self, id: BlockId, instruction: Instruction)
        requires
            old(self).names.well_formed(),
            old(self)@.has_block(id),
        ensures
            final(self).follows(old(self)),
            final(self)@ == old(self)@.with_instruction(id, instruction@),
    {
        let ghost before = self.block_map@;
        match self.block_map.get_mut(id) {
            Some(block) => {
                proof {
                    lemma_code_push(block.instructions@, instruction);
                }
                block.instructions.push(instruction);
            }
            None => {}
        }
        assert(block_list(self.block_map@) =~= old(self)@.with_instruction(
            id,
            instruction@,
        ).blocks);
    }

    /// Adds a predecessor to a block.
    pub(crate) fn link(&mut self, id: BlockId, from: BlockId)
        requires
            old(self).names.well_formed(),
            old(self)@.has_block(id),
        ensures
            final(self).follows(old(self)),
            final(self)@ == old(self)@.with_predecessor(id, from),
    {
        match self.block_map.get_mut(id) {
            Some(block) => {
                block.predecessors.insert(from.0);
            }
            None => {}
        }
        assert(block_list(self.block_map@) =~= old(self)@.with_predecessor(id, from).blocks);
    }

    /// Adds an instruction to the current block.
    pub(crate) fn push_instruction(&mut self, instruction: Instruction)
        requires
            old(self).names.well_formed(),
            emit(old(self)@, instruction@) is Some,
        ensures
            final(self).follows(old(self)),
            emit(old(self)@, instruction@) == Some(final(self)@),
    {
        let current_block = self.block_stack[self.block_stack.len() - 1];
        self.push_into(current_block, instruction);
    }

    pub(crate) fn emit_get_struct_elem_ptr(
        &mut self,
        source: Operand,
        ty: &Struct,
        index: usize,
    ) -> (r: RegisterId)
        requires
            old(self).names.well_formed(),
            emit_field(old(self)@, source, ty@, index) is Some,
        ensures
            final(self).follows(old(self)),
            emit_field(old(self)@, source, ty@, index) == Some(
                (Emitted { st: final(self)@, reg: r }),
            ),
    {
        let destination = self.create_register_with_lir_type(Type::Pointer);
        let instruction = Instruction::GetStructElementPointer {
            destination,
            source,
            ty: ty.duplicate(),
            index,
        };
        self.push_instruction(instruction);
        destination
    }

    pub(crate) fn emit_get_array_elem_ptr(
        &mut self,
        source: Operand,
        ty: Type,
        index: Operand,
    ) -> (r: RegisterId)
        requires
            old(self).names.well_formed(),
            emit_element(old(self)@, source, ty@, index) is Some,
        ensures
            final(self).follows(old(self)),
            emit_element(old(self)@, source, ty@, index) == Some(
                (Emitted { st: final(self)@, reg: r }),
            ),
    {
        let destination = self.create_register_with_lir_type(Type::Pointer);
        self.push_instruction(
            Instruction::GetArrayElementPointer { destination, source, ty, index },
        );
        destination
    }

    pub(crate) fn emit_alloc_stack(&mut self, ty: Type) -> (r: RegisterId)
        requires
            old(self).names.well_formed(),
            emit_alloc(old(self)@, ty@) is Some,
        ensures
            final(self).follows(old(self)),
            emit_alloc(old(self)@, ty@) == Some((Emitted { st: final(self)@, reg: r })),
    {
        let destination = self.create_register_with_lir_type(Type::Pointer);
        self.push_instruction(Instruction::AllocStack { destination, ty });
        destination
    }

    pub(crate) fn emit_load_mem(&mut self, source: Operand, ty: Type) -> (r: RegisterId)
        requires
            old(self).names.well_formed(),
            emit_load(old(self)@, source, ty@) is Some,
        ensures
            final(self).follows(old(self)),
            emit_load(old(self)@, source, ty@) == Some((Emitted { st: final(self)@, reg: r })),
    {
        let destination = self.create_register_with_lir_type(ty);
        self.push_instruction(Instruction::LoadMem { destination, source });
        destination
    }

    pub(crate) fn emit_store_mem(&mut self, destination: Operand, source: Operand, ty: &Type)
        requires
            old(self).names.well_formed(),
            emit_store(old(self)@, destination, source, ty@) is Some,
        ensures
            final(self).follows(old(self)),
            emit_store(old(self)@, destination, source, ty@) == Some(final(self)@),
    {
        self.push_instruction(Instruction::StoreMem { destination, source });
    }

    /// Emits a function call instruction and returns the destination register
    /// (if applicable)
    pub(crate) fn emit_function_call(
        &mut self,
        target: Operand,
        arguments: Vec<Operand>,
        return_ty: Option<Type>,
    ) -> (r: Option<RegisterId>)
        requires
            old(self).names.well_formed(),
            emit_call(old(self)@, target, arguments@, optional(return_ty)) is Some,
        ensures
            final(self).follows(old(self)),
            emit_call(old(self)@, target, arguments@, optional(return_ty)) == Some(
                (Called { st: final(self)@, reg: r }),
            ),
    {
        let destination = match return_ty {
            Some(ty) => Some(self.create_register_with_lir_type(ty)),
            None => None,
        };
        self.push_instruction(Instruction::FunctionCall { target, arguments, destination });
        destination
    }

    pub(crate) fn emit_unary(
        &mut self,
        operator: UnaryOperatorKind,
        operand: Operand,
        ty: Type,
    ) -> (r: RegisterId)
        requires
            old(self).names.well_formed(),
            emit_unary(old(self)@, operator, operand, ty@) is Some,
        ensures
            final(self).follows(old(self)),
            emit_unary(old(self)@, operator, operand, ty@) == Some(
                (Emitted { st: final(self)@, reg: r }),
            ),
    {
        let destination = self.create_register_with_lir_type(ty);
        self.push_instruction(Instruction::UnaryOperation { operator, destination, operand });
        destination
    }

    pub(crate) fn emit_integer_cast(
        &mut self,
        kind: IntegerCastKind,
        operand: Operand,
        ty: Type,
    ) -> (r: RegisterId)
        requires
            old(self).names.well_formed(),
            emit_cast(old(self)@, kind, operand, ty@) is Some,
        ensures
            final(self).follows(old(self)),
            emit_cast(old(self)@, kind, operand, ty@) == Some(
                (Emitted { st: final(self)@, reg: r }),
            ),
    {
        let destination = self.create_register_with_lir_type(ty);
        self.push_instruction(Instruction::IntegerCast { kind, destination, operand });
        destination
    }

    pub(crate) fn emit_phi(&mut self, sources: BTreeMap<u32, Operand>, ty: Type) -> (r: RegisterId)
        requires
            old(self).names.well_formed(),
            emit_phi(old(self)@, sources@, ty@) is Some,
        ensures
            final(self).follows(old(self)),
            emit_phi(old(self)@, sources@, ty@) == Some((Emitted { st: final(self)@, reg: r })),
    {
        let destination = self.create_register_with_lir_type(ty);
        self.push_instruction(Instruction::Phi { destination, sources });
        destination
    }

    pub(crate) fn emit_binary_op(
        &mut self,
        operator: BinaryOperatorKind,
        lhs: Operand,
        rhs: Operand,
        output_ty: Type,
    ) -> (r: RegisterId)
        requires
            old(self).names.well_formed(),
            emit_binary(old(self)@, operator, lhs, rhs, output_ty@) is Some,
        ensures
            final(self).follows(old(self)),
            emit_binary(old(self)@, operator, lhs, rhs, output_ty@) == Some(
                (Emitted { st: final(self)@, reg: r }),
            ),
    {
        let destination = self.create_register_with_lir_type(output_ty);
        self.push_instruction(Instruction::BinaryOperation { operator, destination, lhs, rhs });
        destination
    }

    /// Where an aggregate is to be put.
    pub(crate) fn place_or_alloc(&mut self, dest: Option<RegisterId>, ty: &Type) -> (r: RegisterId)
        requires
            old(self).names.well_formed(),
            place_for(old(self)@, dest, ty@) is Some,
        ensures
            final(self).follows(old(self)),
            place_for(old(self)@, dest, ty@) == Some((Emitted { st: final(self)@, reg: r })),
    {
        match dest {
            Some(reg) => reg,
            None => self.emit_alloc_stack(ty.duplicate()),
        }
    }

    /// The symbol for a text.
    pub(crate) fn symbol(&mut self, text: &str) -> (r: InternedSymbol)
        requires
            old(self).names.well_formed(),
            with_name(old(self)@, text@) is Some,
        ensures
            final(self).follows(old(self)),
            with_name(old(self)@, text@) == Some((final(self)@, r)),
    {
        self.names.intern(text)
    }

    /// Records the value of an expression.
    pub(crate) fn set_operand(&mut self, id: HirId, value: Operand)
        requires
            old(self).names.well_formed(),
        ensures
            final(self).follows(old(self)),
            final(self)@ == old(self)@.with_operand(id, value),
    {
        self.expression_to_operand_map.insert(id.local_id.0, value);
    }

    /// The value of an expression.
    pub(crate) fn operand(&self, id: HirId) -> (r: Operand)
        requires
            self@.has_operand(id),
        ensures
            r == self@.operand(id),
    {
        match self.expression_to_operand_map.get(&id.local_id.0) {
            Some(value) => *value,
            None => vstd::pervasive::unreached(),
        }
    }

    /// Fills a block next.
    pub(crate) fn enter_block(&mut self, id: BlockId)
        requires
            old(self).names.well_formed(),
        ensures
            final(self).follows(old(self)),
            final(self)@ == old(self)@.pushed(id),
    {
        self.block_stack.push(id);
    }

    /// Leaves the current block.
    pub(crate) fn leave_block(&mut self)
        requires
            old(self).names.well_formed(),
        ensures
            final(self).follows(old(self)),
            final(self)@ == old(self)@.popped(),
    {
        let _ = self.block_stack.pop();
    }

    /// The block that was made last.
    pub(crate) fn last_block(&self) -> (r: BlockId)
        requires
            self@.blocks.len() > 0,
        ensures
            r == self@.last_block(),
    {
        let r: BlockId = BlockId::new(self.block_map.len() - 1);
        r
    }

    /// Enters another context.
    pub(crate) fn enter_context(&mut self, dest: Option<RegisterId>, ctx: ExpressionContext)
        requires
            old(self).names.well_formed(),
        ensures
            final(self).follows(old(self)),
            final(self)@ == old(self)@.entering(dest, ctx is Place),
    {
        self.destination_register = dest;
        self.expression_context = ctx;
    }
}

/// What an optional type is.
pub open spec fn optional(ty: Option<Type>) -> Option<TypeView> {
    match ty {
        Some(t) => Some(t@),
        None => None,
    }
}

/// What a map by number holds for the elements of a list.
pub open spec fn numbered<T>(list: Seq<T>, n: nat) -> Map<u32, T>
    decreases n,
{
    if n == 0 {
        Map::empty()
    } else {
        numbered(list, (n - 1) as nat).insert(
            crate::index::wrap32(n - 1) as u32,
            list[n - 1],
        )
    }
}

} // verus!
