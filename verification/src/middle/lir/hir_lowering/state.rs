//! The state of lowering a body, and what single steps make of it.

use crate::frontend::ast::{BinaryOperatorKind, UnaryOperatorKind};
use crate::frontend::intern::{interned, symbol_of, InternedSymbol};
use crate::frontend::source::width;
use crate::index::wrap32;
use crate::middle::hir::{HirId, LocalDefId, Module};
use crate::middle::lir::{
    float_width, signed_width, unsigned_width, BlockId, BlockView, Immediate, InstructionView,
    IntegerCastKind, IntegerWidth, Operand, RegisterId, RegisterView, StaticLabelId, TypeView,
};
use crate::middle::ty::Ty;
use crate::middle::type_check::ModuleFindings;
use vstd::prelude::*;

verus! {

/// A loop that is being lowered: where its condition starts, and the jumps out
/// of it that are to be patched.
pub struct LoopView {
    pub start_block: BlockId,
    pub break_instructions: Seq<(BlockId, usize)>,
}

/// The state of lowering a body.
pub struct Lowering {
    pub names: Seq<Seq<char>>,
    pub next_label: u32,
    pub strings: Map<u32, InternedSymbol>,
    pub registers: Seq<RegisterView>,
    /// The registers of local variables.
    pub locals: Map<u32, RegisterId>,
    /// The values of expressions.
    pub operands: Map<u32, Operand>,
    pub struct_return: Option<RegisterId>,
    pub arguments: Seq<RegisterId>,
    pub blocks: Seq<BlockView>,
    /// The blocks that are being filled, the current one last.
    pub stack: Seq<BlockId>,
    pub loops: Seq<LoopView>,
    /// Where the value of the current expression is to be put.
    pub dest: Option<RegisterId>,
    /// Whether the place of the current expression is asked for, and not its
    /// value.
    pub place: bool,
}

/// What a body is lowered from.
pub struct Source {
    pub module: Module,
    pub types: ModuleFindings,
    pub owner: LocalDefId,
    pub local_symbol: InternedSymbol,
    /// Whether copies of structures that do not change are left out.
    pub elides_copies: bool,
}

/// A state and the register that holds what was computed.
pub struct Emitted {
    pub st: Lowering,
    pub reg: RegisterId,
}

/// A state and the value that was computed.
pub struct Valued {
    pub st: Lowering,
    pub value: Operand,
}

/// A state and the block that was made.
pub struct Blocked {
    pub st: Lowering,
    pub id: BlockId,
}

/// The number of the next element of a vector of so many.
pub open spec fn next_number(len: nat) -> u32 {
    wrap32(len as int) as u32
}

/// The structure of a slice.
pub open spec fn slice_fields() -> Seq<TypeView> {
    seq![TypeView::Pointer, TypeView::Integer(IntegerWidth::I64)]
}

/// The types of the first `n` of a list.
pub open spec fn lowered_upto(list: Seq<Ty>, n: nat) -> Option<Seq<TypeView>>
    decreases list, n,
{
    if n == 0 || n > list.len() {
        Some(Seq::empty())
    } else {
        match (lowered_upto(list, (n - 1) as nat), lowered_ty(list[n - 1])) {
            (Some(before), Some(last)) => Some(before.push(last)),
            _ => None,
        }
    }
}

/// The types of the first `n` fields of a list.
pub open spec fn lowered_fields(list: Seq<(InternedSymbol, Ty)>, n: nat) -> Option<Seq<TypeView>>
    decreases list, n,
{
    if n == 0 || n > list.len() {
        Some(Seq::empty())
    } else {
        match (lowered_fields(list, (n - 1) as nat), lowered_ty(list[n - 1].1)) {
            (Some(before), Some(last)) => Some(before.push(last)),
            _ => None,
        }
    }
}

/// How values of a type are kept in memory. Types without values, and types
/// that are not known, are not kept at all.
pub open spec fn lowered_ty(ty: Ty) -> Option<TypeView>
    decreases ty, 0nat,
{
    match ty {
        Ty::Unit | Ty::Never | Ty::Infer(_) | Ty::Error => None,
        Ty::Bool => Some(TypeView::Integer(IntegerWidth::I8)),
        Ty::Char => Some(TypeView::Integer(IntegerWidth::I32)),
        Ty::Integer(kind) => Some(TypeView::Integer(signed_width(kind))),
        Ty::UnsignedInteger(kind) => Some(TypeView::Integer(unsigned_width(kind))),
        Ty::Float(kind) => Some(TypeView::Float(float_width(kind))),
        Ty::CStr | Ty::Pointer(_) | Ty::FunctionPointer { .. } | Ty::Any => Some(
            TypeView::Pointer,
        ),
        Ty::Str | Ty::Slice(_) => Some(TypeView::Struct(slice_fields())),
        Ty::Array { ty: inner, length } => match lowered_ty(*inner) {
            Some(item) => Some(TypeView::Array(Box::new(item), length)),
            None => None,
        },
        Ty::Tuple(list) => match lowered_upto(list, list.len()) {
            Some(fields) => Some(TypeView::Struct(fields)),
            None => None,
        },
        Ty::Struct { fields, .. } => match lowered_fields(fields, fields.len()) {
            Some(list) => Some(TypeView::Struct(list)),
            None => None,
        },
        Ty::Enum { .. } => Some(TypeView::Integer(IntegerWidth::I32)),
    }
}

/// How values of a type are passed: aggregates by pointer.
pub open spec fn lowered_indirect(ty: Ty) -> Option<TypeView> {
    if ty.is_aggregate() {
        Some(TypeView::Pointer)
    } else {
        lowered_ty(ty)
    }
}

impl Lowering {
    /// With a register more.
    pub open spec fn with_register(self, ty: TypeView) -> Emitted {
        let id = RegisterId(next_number(self.registers.len()));
        Emitted {
            st: Lowering { registers: self.registers.push(RegisterView { id, ty }), ..self },
            reg: id,
        }
    }

    /// With an empty block more.
    pub open spec fn with_block(self) -> Blocked {
        let id = BlockId(next_number(self.blocks.len()));
        Blocked {
            st: Lowering {
                blocks: self.blocks.push(
                    BlockView { id, instructions: Seq::empty(), predecessors: Set::empty() },
                ),
                ..self
            },
            id,
        }
    }

    /// Whether a block exists.
    pub open spec fn has_block(self, id: BlockId) -> bool {
        (id.0 as int) < self.blocks.len()
    }

    /// The block with a number.
    pub open spec fn block(self, id: BlockId) -> BlockView {
        self.blocks[id.0 as int]
    }

    /// With an instruction more in a block.
    pub open spec fn with_instruction(self, id: BlockId, instruction: InstructionView) -> Lowering {
        let block = self.block(id);
        Lowering {
            blocks: self.blocks.update(
                id.0 as int,
                BlockView { instructions: block.instructions.push(instruction), ..block },
            ),
            ..self
        }
    }

    /// With a predecessor more for a block.
    pub open spec fn with_predecessor(self, id: BlockId, from: BlockId) -> Lowering {
        let block = self.block(id);
        Lowering {
            blocks: self.blocks.update(
                id.0 as int,
                BlockView { predecessors: block.predecessors.insert(from.0), ..block },
            ),
            ..self
        }
    }

    /// With the value of an expression.
    pub open spec fn with_operand(self, id: HirId, value: Operand) -> Lowering {
        Lowering { operands: self.operands.insert(id.local_id.0, value), ..self }
    }

    /// Whether the value of an expression is known.
    pub open spec fn has_operand(self, id: HirId) -> bool {
        self.operands.contains_key(id.local_id.0)
    }

    /// The value of an expression.
    pub open spec fn operand(self, id: HirId) -> Operand {
        self.operands[id.local_id.0]
    }

    /// About to lower an expression in another context.
    pub open spec fn entering(self, dest: Option<RegisterId>, place: bool) -> Lowering {
        Lowering { dest, place, ..self }
    }

    /// Back in the context of `outer`.
    pub open spec fn leaving(self, outer: Lowering) -> Lowering {
        Lowering { dest: outer.dest, place: outer.place, ..self }
    }

    /// With a block to be filled next.
    pub open spec fn pushed(self, id: BlockId) -> Lowering {
        Lowering { stack: self.stack.push(id), ..self }
    }

    /// With the current block left.
    pub open spec fn popped(self) -> Lowering {
        Lowering {
            stack: if self.stack.len() > 0 {
                self.stack.drop_last()
            } else {
                self.stack
            },
            ..self
        }
    }

    /// Whether there is a current block.
    pub open spec fn has_current(self) -> bool {
        self.stack.len() > 0 && self.has_block(self.stack.last())
    }

    /// The block that was made last.
    pub open spec fn last_block(self) -> BlockId {
        BlockId(wrap32(self.blocks.len() - 1) as u32)
    }
}

/// A state once a text has been interned, and its symbol.
pub open spec fn with_name(st: Lowering, text: Seq<char>) -> Option<(Lowering, InternedSymbol)> {
    if st.names.contains(text) || st.names.len() < 0x1_0000_0000 {
        Some(
            (
                Lowering { names: interned(st.names, text), ..st },
                InternedSymbol(symbol_of(st.names, text) as u32),
            ),
        )
    } else {
        None
    }
}

/// Adds an instruction to the current block.
pub open spec fn emit(st: Lowering, instruction: InstructionView) -> Option<Lowering> {
    if st.has_current() {
        Some(st.with_instruction(st.stack.last(), instruction))
    } else {
        None
    }
}

/// Adds an instruction that fills a register.
pub open spec fn emit_into(
    made: Emitted,
    instruction: InstructionView,
) -> Option<Emitted> {
    match emit(made.st, instruction) {
        Some(st) => Some(Emitted { st, reg: made.reg }),
        None => None,
    }
}

/// Computes the address of a field.
pub open spec fn emit_field(
    st: Lowering,
    source: Operand,
    ty: Seq<TypeView>,
    index: usize,
) -> Option<Emitted> {
    let made = st.with_register(TypeView::Pointer);
    emit_into(
        made,
        InstructionView::GetStructElementPointer { destination: made.reg, source, ty, index },
    )
}

/// Computes the address of an element.
pub open spec fn emit_element(
    st: Lowering,
    source: Operand,
    ty: TypeView,
    index: Operand,
) -> Option<Emitted> {
    let made = st.with_register(TypeView::Pointer);
    emit_into(
        made,
        InstructionView::GetArrayElementPointer { destination: made.reg, source, ty, index },
    )
}

/// Makes room for a value on the stack.
pub open spec fn emit_alloc(st: Lowering, ty: TypeView) -> Option<Emitted> {
    let made = st.with_register(TypeView::Pointer);
    emit_into(made, InstructionView::AllocStack { destination: made.reg, ty })
}

/// Loads a scalar from memory.
pub open spec fn emit_load(st: Lowering, source: Operand, ty: TypeView) -> Option<Emitted> {
    if ty.is_scalar() {
        let made = st.with_register(ty);
        emit_into(made, InstructionView::LoadMem { destination: made.reg, source })
    } else {
        None
    }
}

/// Stores a scalar to memory.
pub open spec fn emit_store(
    st: Lowering,
    destination: Operand,
    source: Operand,
    ty: TypeView,
) -> Option<Lowering> {
    if ty.is_scalar() {
        emit(st, InstructionView::StoreMem { destination, source })
    } else {
        None
    }
}

/// A state, and the register that holds what was computed if anything was.
pub struct Called {
    pub st: Lowering,
    pub reg: Option<RegisterId>,
}

/// Calls a function, which may return a scalar.
pub open spec fn emit_call(
    st: Lowering,
    target: Operand,
    arguments: Seq<Operand>,
    returned: Option<TypeView>,
) -> Option<Called> {
    match returned {
        None => match emit(
            st,
            InstructionView::FunctionCall { target, arguments, destination: None },
        ) {
            Some(after) => Some(Called { st: after, reg: None }),
            None => None,
        },
        Some(ty) => if !ty.is_scalar() {
            None
        } else {
            let made = st.with_register(ty);
            match emit(
                made.st,
                InstructionView::FunctionCall {
                    target,
                    arguments,
                    destination: Some(made.reg),
                },
            ) {
                Some(after) => Some(Called { st: after, reg: Some(made.reg) }),
                None => None,
            }
        },
    }
}

/// Applies a unary operator.
pub open spec fn emit_unary(
    st: Lowering,
    operator: UnaryOperatorKind,
    operand: Operand,
    ty: TypeView,
) -> Option<Emitted> {
    let made = st.with_register(ty);
    emit_into(
        made,
        InstructionView::UnaryOperation { operator, destination: made.reg, operand },
    )
}

/// Casts an integer.
pub open spec fn emit_cast(
    st: Lowering,
    kind: IntegerCastKind,
    operand: Operand,
    ty: TypeView,
) -> Option<Emitted> {
    let made = st.with_register(ty);
    emit_into(made, InstructionView::IntegerCast { kind, destination: made.reg, operand })
}

/// Selects a value by where control came from.
pub open spec fn emit_phi(st: Lowering, sources: Map<u32, Operand>, ty: TypeView) -> Option<
    Emitted,
> {
    let made = st.with_register(ty);
    emit_into(made, InstructionView::Phi { destination: made.reg, sources })
}

/// Applies a binary operator.
pub open spec fn emit_binary(
    st: Lowering,
    operator: BinaryOperatorKind,
    lhs: Operand,
    rhs: Operand,
    ty: TypeView,
) -> Option<Emitted> {
    let made = st.with_register(ty);
    emit_into(
        made,
        InstructionView::BinaryOperation { operator, destination: made.reg, lhs, rhs },
    )
}

/// Where an aggregate is to be put: in the place that is asked for, or in a
/// new one.
pub open spec fn place_for(st: Lowering, dest: Option<RegisterId>, ty: TypeView) -> Option<
    Emitted,
> {
    match dest {
        Some(reg) => Some(Emitted { st, reg }),
        None => emit_alloc(st, ty),
    }
}

/// The operand for the label of a function.
pub open spec fn function_label(symbol: InternedSymbol) -> Operand {
    Operand::Immediate(Immediate::FunctionLabel(symbol))
}

/// An integer of 64 bits that stands in the code.
pub open spec fn word(n: u64) -> Operand {
    Operand::Immediate(Immediate::Int(n, IntegerWidth::I64))
}

/// Builds a string on the stack: the address of its text, which is put into
/// static memory, and its length in bytes.
pub open spec fn constant_string(st: Lowering, symbol: InternedSymbol) -> Option<Emitted> {
    if (symbol.0 as int) >= st.names.len() {
        None
    } else {
        match place_for(st, st.dest, TypeView::Struct(slice_fields())) {
            None => None,
            Some(base) => match emit_field(
                base.st,
                Operand::Register(base.reg),
                slice_fields(),
                0,
            ) {
                None => None,
                Some(pointer) => {
                    let label = StaticLabelId(pointer.st.next_label);
                    let labelled = Lowering {
                        next_label: wrap32(label.0 as int + 1) as u32,
                        strings: pointer.st.strings.insert(label.0, symbol),
                        ..pointer.st
                    };
                    match emit(
                        labelled,
                        InstructionView::StoreMem {
                            destination: Operand::Register(pointer.reg),
                            source: Operand::Immediate(Immediate::AnonymousStaticLabel(label)),
                        },
                    ) {
                        None => None,
                        Some(pointed) => match emit_field(
                            pointed,
                            Operand::Register(base.reg),
                            slice_fields(),
                            1,
                        ) {
                            None => None,
                            Some(length) => match emit(
                                length.st,
                                InstructionView::StoreMem {
                                    destination: Operand::Register(length.reg),
                                    source: word(width(st.names[symbol.0 as int]) as u64),
                                },
                            ) {
                                None => None,
                                Some(done) => Some(Emitted { st: done, reg: base.reg }),
                            },
                        },
                    }
                },
            },
        }
    }
}

/// Prints the string at an address.
pub open spec fn print_string(st: Lowering, string: Operand) -> Option<Emitted> {
    match emit_field(st, string, slice_fields(), 0) {
        None => None,
        Some(pointer_at) => match emit_load(
            pointer_at.st,
            Operand::Register(pointer_at.reg),
            TypeView::Pointer,
        ) {
            None => None,
            Some(pointer) => match emit_field(pointer.st, string, slice_fields(), 1) {
                None => None,
                Some(length_at) => match emit_load(
                    length_at.st,
                    Operand::Register(length_at.reg),
                    TypeView::Integer(IntegerWidth::I64),
                ) {
                    None => None,
                    Some(length) => call_named(
                        length.st,
                        "__$print_str"@,
                        seq![Operand::Register(pointer.reg), Operand::Register(length.reg)],
                    ),
                },
            },
        },
    }
}

/// Calls a function of the runtime, which returns an integer of 64 bits.
pub open spec fn call_named(st: Lowering, name: Seq<char>, arguments: Seq<Operand>) -> Option<
    Emitted,
> {
    match with_name(st, name) {
        None => None,
        Some((named, symbol)) => match emit_call(
            named,
            function_label(symbol),
            arguments,
            Some(TypeView::Integer(IntegerWidth::I64)),
        ) {
            None => None,
            Some(called) => Some(Emitted { st: called.st, reg: called.reg->0 }),
        },
    }
}

/// Copies the first `n` fields of a structure from one place to another.
pub open spec fn copied_fields(
    st: Lowering,
    dest: RegisterId,
    src: Operand,
    fields: Seq<TypeView>,
    n: nat,
) -> Option<Lowering>
    decreases fields, n,
{
    if n == 0 || n > fields.len() {
        Some(st)
    } else {
        match copied_fields(st, dest, src, fields, (n - 1) as nat) {
            None => None,
            Some(before) => {
                let i = (n - 1) as usize;
                match fields[n - 1] {
                    TypeView::Array(_, _) => None,
                    TypeView::Struct(inner) => match emit_field(
                        before,
                        Operand::Register(dest),
                        fields,
                        i,
                    ) {
                        None => None,
                        Some(to) => match emit_field(to.st, src, fields, i) {
                            None => None,
                            Some(from) => copied_fields(
                                from.st,
                                to.reg,
                                Operand::Register(from.reg),
                                inner,
                                inner.len(),
                            ),
                        },
                    },
                    field => match emit_field(before, src, fields, i) {
                        None => None,
                        Some(from) => match emit_load(
                            from.st,
                            Operand::Register(from.reg),
                            field,
                        ) {
                            None => None,
                            Some(loaded) => match emit_field(
                                loaded.st,
                                Operand::Register(dest),
                                fields,
                                i,
                            ) {
                                None => None,
                                Some(to) => emit_store(
                                    to.st,
                                    Operand::Register(to.reg),
                                    Operand::Register(loaded.reg),
                                    field,
                                ),
                            },
                        },
                    },
                }
            },
        }
    }
}

/// Copies a value: a scalar is its own copy, a structure is copied field by
/// field to the place that is asked for or to a new one.
pub open spec fn copied_value(
    st: Lowering,
    dest: Option<RegisterId>,
    src: Operand,
    ty: TypeView,
) -> Option<Valued> {
    match ty {
        TypeView::Struct(fields) => match place_for(st, dest, ty) {
            None => None,
            Some(base) => match copied_fields(base.st, base.reg, src, fields, fields.len()) {
                None => None,
                Some(done) => Some(Valued { st: done, value: Operand::Register(base.reg) }),
            },
        },
        TypeView::Array(_, _) => None,
        _ => Some(Valued { st, value: src }),
    }
}

/// Loads the value at an address: a scalar into a register, a structure as a
/// copy.
pub open spec fn loaded_from(
    st: Lowering,
    dest: Option<RegisterId>,
    src: Operand,
    ty: TypeView,
) -> Option<Emitted> {
    match ty {
        TypeView::Struct(_) => match copied_value(st, dest, src, ty) {
            Some(Valued { st: done, value: Operand::Register(reg) }) => Some(
                Emitted { st: done, reg },
            ),
            _ => None,
        },
        TypeView::Array(_, _) => None,
        _ => emit_load(st, src, ty),
    }
}

/// The results of comparing the first `n` elements of two tuples.
pub struct Compared {
    pub st: Lowering,
    pub results: Seq<RegisterId>,
}

/// Compares the first `n` elements of two tuples.
pub open spec fn compared_upto(
    st: Lowering,
    output: Ty,
    elements: Seq<Ty>,
    fields: Seq<TypeView>,
    operator: BinaryOperatorKind,
    lhs: Operand,
    rhs: Operand,
    n: nat,
) -> Option<Compared>
    decreases elements, n,
{
    if n == 0 || n > elements.len() {
        Some(Compared { st, results: Seq::empty() })
    } else {
        match compared_upto(st, output, elements, fields, operator, lhs, rhs, (n - 1) as nat) {
            None => None,
            Some(before) => {
                let i = (n - 1) as usize;
                let element = elements[n - 1];
                match (emit_field(before.st, lhs, fields, i), lowered_ty(element)) {
                    (Some(left_at), Some(ty)) => match emit_field(left_at.st, rhs, fields, i) {
                        None => None,
                        Some(right_at) => {
                            let compared = if element.is_aggregate() {
                                binary_on(
                                    right_at.st,
                                    output,
                                    element,
                                    operator,
                                    Operand::Register(left_at.reg),
                                    Operand::Register(right_at.reg),
                                )
                            } else {
                                match emit_load(
                                    right_at.st,
                                    Operand::Register(left_at.reg),
                                    ty,
                                ) {
                                    None => None,
                                    Some(left) => match emit_load(
                                        left.st,
                                        Operand::Register(right_at.reg),
                                        ty,
                                    ) {
                                        None => None,
                                        Some(right) => binary_on(
                                            right.st,
                                            output,
                                            element,
                                            operator,
                                            Operand::Register(left.reg),
                                            Operand::Register(right.reg),
                                        ),
                                    },
                                }
                            };
                            match compared {
                                None => None,
                                Some(result) => Some(
                                    Compared {
                                        st: result.st,
                                        results: before.results.push(result.reg),
                                    },
                                ),
                            }
                        },
                    },
                    _ => None,
                }
            },
        }
    }
}

/// Whether all of the first `n` results are true.
pub open spec fn all_results(st: Lowering, results: Seq<RegisterId>, n: nat) -> Option<Emitted>
    decreases n,
{
    if n <= 1 {
        Some(Emitted { st, reg: results[0] })
    } else {
        match all_results(st, results, (n - 1) as nat) {
            None => None,
            Some(before) => emit_binary(
                before.st,
                BinaryOperatorKind::LogicalAnd,
                Operand::Register(before.reg),
                Operand::Register(results[n - 1]),
                TypeView::Integer(IntegerWidth::I8),
            ),
        }
    }
}

/// Applies an operator that has no control flow: to scalars at once, to tuples
/// element by element. There is no result for other types.
pub open spec fn binary_on(
    st: Lowering,
    output: Ty,
    operand: Ty,
    operator: BinaryOperatorKind,
    lhs: Operand,
    rhs: Operand,
) -> Option<Emitted>
    decreases operand, 0nat,
{
    match operand {
        Ty::Bool
        | Ty::Char
        | Ty::Integer(_)
        | Ty::UnsignedInteger(_)
        | Ty::Float(_)
        | Ty::Pointer(_)
        | Ty::FunctionPointer { .. }
        | Ty::Enum { .. }
        | Ty::Any => match lowered_ty(output) {
            Some(ty) => emit_binary(st, operator, lhs, rhs, ty),
            None => None,
        },
        Ty::Tuple(elements) => if !(operator is Equals || operator is NotEquals) {
            None
        } else {
            match lowered_upto(elements, elements.len()) {
                None => None,
                Some(fields) => match compared_upto(
                    st,
                    output,
                    elements,
                    fields,
                    operator,
                    lhs,
                    rhs,
                    elements.len(),
                ) {
                    None => None,
                    Some(compared) => if compared.results.len() == 0 {
                        None
                    } else {
                        all_results(compared.st, compared.results, compared.results.len())
                    },
                },
            }
        },
        _ => None,
    }
}

} // verus!
