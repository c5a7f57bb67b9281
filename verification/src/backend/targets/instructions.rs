//! The assembly of single instructions.

use crate::backend::assemblers::x86_64::{
    address_of, binary, binary_text, code_line, loading, moved, register_bits, storing,
    Assembler, Frame, Line, X86FullRegister, X86Register,
};
use crate::frontend::ast::{BinaryOperatorKind, UnaryOperatorKind};
use crate::middle::lir::pretty_print::label_text;
use crate::middle::lir::{
    align_to, aligned, extent, fields_end, fields_fit, fits, law_aligned, lemma_alignments,
    lemma_powers, BlockId, Immediate, Instruction, InstructionView, IntegerWidth, Operand,
    RegisterId, Struct, Type, TypeView,
};
use crate::text;
use crate::text::{decimal, extends, push_decimal, texts};
use vstd::prelude::*;

verus! {

broadcast use {text::group_extends, vstd::std_specs::btree::group_btree_axioms};

/// The registers that arguments are passed in.
pub open spec fn argument_registers() -> Seq<X86FullRegister> {
    seq![
        X86FullRegister::Rdi,
        X86FullRegister::Rsi,
        X86FullRegister::Rdx,
        X86FullRegister::R10,
        X86FullRegister::R8,
        X86FullRegister::R9,
    ]
}

/// The register that an argument is passed in.
pub(crate) fn argument_register(i: usize) -> (r: X86FullRegister)
    requires
        i < 6,
    ensures
        r == argument_registers()[i as int],
{
    match i {
        0 => X86FullRegister::Rdi,
        1 => X86FullRegister::Rsi,
        2 => X86FullRegister::Rdx,
        3 => X86FullRegister::R10,
        4 => X86FullRegister::R8,
        _ => X86FullRegister::R9,
    }
}

/// Loads from memory.
pub open spec fn load_lines(frame: Frame, destination: RegisterId, source: Operand) -> Option<
    Seq<Line>,
> {
    match (
        loading(frame, X86FullRegister::Rax, source),
        register_bits(frame, destination),
        storing(frame, destination, X86FullRegister::Rax),
    ) {
        (Some(l), Some(bits), Some(end)) => Some(
            l.lines + seq![moved(X86FullRegister::Rax, bits, "[rax]"@)] + end,
        ),
        _ => None,
    }
}

/// Stores to memory.
pub open spec fn store_lines(frame: Frame, destination: Operand, source: Operand) -> Option<
    Seq<Line>,
> {
    match (
        loading(frame, X86FullRegister::Rax, source),
        loading(frame, X86FullRegister::Rcx, destination),
    ) {
        (Some(value), Some(at)) => Some(
            value.lines + at.lines + seq![
                code_line(
                    binary_text("mov"@, "[rcx]"@, X86FullRegister::Rax.low_part(value.bits)),
                ),
            ],
        ),
        _ => None,
    }
}

/// Makes room on the stack, at an address with the alignment of the type.
pub open spec fn alloc_lines(frame: Frame, destination: RegisterId, ty: TypeView) -> Option<
    Seq<Line>,
> {
    match storing(frame, destination, X86FullRegister::Rsp) {
        Some(end) => if fits(ty) && extent(ty).size + extent(ty).alignment - 1 <= usize::MAX {
            Some(
                seq![
                    code_line(
                        "sub rsp, "@ + decimal(
                            aligned(extent(ty).size, extent(ty).alignment) as nat,
                        ),
                    ),
                ] + (if extent(ty).alignment > 1 {
                    seq![code_line("and rsp, -"@ + decimal(extent(ty).alignment as nat))]
                } else {
                    seq![]
                }) + end,
            )
        } else {
            None
        },
        None => None,
    }
}

/// Computes the address of a field.
pub open spec fn field_lines(
    frame: Frame,
    destination: RegisterId,
    source: Operand,
    ty: Seq<TypeView>,
    index: usize,
) -> Option<Seq<Line>> {
    match (
        loading(frame, X86FullRegister::Rax, source),
        storing(frame, destination, X86FullRegister::Rax),
    ) {
        (Some(l), Some(end)) => if index < ty.len() && fields_fit(ty, index as nat) {
            Some(
                l.lines + seq![
                    code_line(
                        "lea rax, [rax + "@ + decimal(fields_end(ty, index as nat) as nat) + "]"@,
                    ),
                ] + end,
            )
        } else {
            None
        },
        _ => None,
    }
}

/// Computes the address of an element.
pub open spec fn element_lines(
    frame: Frame,
    destination: RegisterId,
    source: Operand,
    ty: TypeView,
    index: Operand,
) -> Option<Seq<Line>> {
    match (
        loading(frame, X86FullRegister::Rax, source),
        loading(frame, X86FullRegister::Rbx, index),
        storing(frame, destination, X86FullRegister::Rax),
    ) {
        (Some(base), Some(at), Some(end)) => if fits(ty) {
            Some(
                base.lines + at.lines + seq![
                    code_line("mul rbx, "@ + decimal(extent(ty).size as nat)),
                    code_line("lea rax, [rax + rbx]"@),
                ] + end,
            )
        } else {
            None
        },
        _ => None,
    }
}

/// Copies a value.
pub open spec fn copy_lines(frame: Frame, destination: RegisterId, source: Operand) -> Option<
    Seq<Line>,
> {
    match (
        loading(frame, X86FullRegister::Rax, source),
        storing(frame, destination, X86FullRegister::Rax),
    ) {
        (Some(l), Some(end)) => Some(l.lines + end),
        _ => None,
    }
}

/// Takes the address of a register's place or of a static variable.
pub open spec fn address_lines(frame: Frame, operand: Operand) -> Option<Seq<Line>> {
    match operand {
        Operand::Register(id) => if frame.offsets.contains_key(id.0) {
            Some(seq![address_of(frame, X86FullRegister::Rax, id)])
        } else {
            None
        },
        Operand::Immediate(Immediate::NamedStaticLabel(label)) => if (label.0 as int)
            < frame.names.len() {
            Some(seq![code_line("mov rax, "@ + frame.names[label.0 as int])])
        } else {
            None
        },
        _ => None,
    }
}

/// Applies a unary operator.
pub open spec fn unary_lines(
    frame: Frame,
    operator: UnaryOperatorKind,
    destination: RegisterId,
    operand: Operand,
) -> Option<Seq<Line>> {
    if operator is AddressOf {
        match (
            address_lines(frame, operand),
            storing(frame, destination, X86FullRegister::Rax),
        ) {
            (Some(l), Some(end)) => Some(l + end),
            _ => None,
        }
    } else {
        let result = if operator is LogicalNot {
            X86FullRegister::Rcx
        } else {
            X86FullRegister::Rax
        };
        match (
            loading(frame, X86FullRegister::Rax, operand),
            storing(frame, destination, result),
        ) {
            (Some(l), Some(end)) => {
                let part = X86FullRegister::Rax.low_part(l.bits);
                Some(
                    l.lines + (match operator {
                        UnaryOperatorKind::Deref => seq![
                            code_line("mov "@ + part + ", ["@ + part + "]"@),
                        ],
                        UnaryOperatorKind::LogicalNot => seq![
                            code_line("xor rcx, rcx"@),
                            code_line(binary_text("test"@, part, part)),
                            code_line("sete cl"@),
                        ],
                        UnaryOperatorKind::BitwiseNot => seq![code_line("not "@ + part)],
                        _ => seq![code_line("neg "@ + part)],
                    }) + end,
                )
            },
            _ => None,
        }
    }
}

/// The instruction that widens a dividend of so many bits.
pub open spec fn widening(bits: int) -> Option<Seq<char>> {
    if bits == 16 {
        Some("cwd"@)
    } else if bits == 32 {
        Some("cdq"@)
    } else if bits == 64 {
        Some("cqo"@)
    } else {
        None
    }
}

/// The instruction that tells how a comparison came out.
pub open spec fn comparison(operator: BinaryOperatorKind) -> Option<Seq<char>> {
    match operator {
        BinaryOperatorKind::Equals => Some("sete al"@),
        BinaryOperatorKind::NotEquals => Some("setne al"@),
        BinaryOperatorKind::LessThan => Some("setl al"@),
        BinaryOperatorKind::LessThanOrEqualTo => Some("setle al"@),
        BinaryOperatorKind::GreaterThan => Some("setg al"@),
        BinaryOperatorKind::GreaterThanOrEqualTo => Some("setge al"@),
        _ => None,
    }
}

/// The instruction for an operator that has one of its own.
pub open spec fn arithmetic(operator: BinaryOperatorKind) -> Option<Seq<char>> {
    match operator {
        BinaryOperatorKind::Add => Some("add"@),
        BinaryOperatorKind::Subtract => Some("sub"@),
        BinaryOperatorKind::Multiply => Some("imul"@),
        BinaryOperatorKind::ShiftLeft => Some("shl"@),
        _ => None,
    }
}

/// Applies a binary operator to parts of two registers.
pub open spec fn operation_lines(
    operator: BinaryOperatorKind,
    bits: Option<int>,
    lhs: Seq<char>,
    rhs: Seq<char>,
) -> Option<Seq<Line>> {
    match (arithmetic(operator), comparison(operator)) {
        (Some(name), _) => Some(seq![code_line(binary_text(name, lhs, rhs))]),
        (None, Some(test)) => Some(
            seq![code_line(binary_text("cmp"@, lhs, rhs)), code_line(test)],
        ),
        (None, None) => match operator {
            BinaryOperatorKind::Divide | BinaryOperatorKind::Modulus => match bits {
                Some(b) => match widening(b) {
                    Some(widen) => Some(
                        (if operator is Modulus {
                            seq![code_line("xor rdx, rdx"@)]
                        } else {
                            seq![]
                        }) + seq![code_line(widen), code_line("idiv "@ + rhs)],
                    ),
                    None => None,
                },
                None => None,
            },
            BinaryOperatorKind::LogicalAnd | BinaryOperatorKind::LogicalOr => Some(
                seq![
                    code_line(binary_text("test"@, lhs, lhs)),
                    code_line("setnz "@ + lhs),
                    code_line(binary_text("test"@, rhs, rhs)),
                    code_line("setnz "@ + rhs),
                    code_line(
                        binary_text(
                            if operator is LogicalAnd {
                                "and"@
                            } else {
                                "or"@
                            },
                            lhs,
                            rhs,
                        ),
                    ),
                ],
            ),
            _ => None,
        },
    }
}

/// Applies a binary operator.
pub open spec fn binary_lines(
    frame: Frame,
    operator: BinaryOperatorKind,
    destination: RegisterId,
    lhs: Operand,
    rhs: Operand,
) -> Option<Seq<Line>> {
    match (
        loading(frame, X86FullRegister::Rax, lhs),
        loading(frame, X86FullRegister::Rcx, rhs),
        storing(
            frame,
            destination,
            if operator is Modulus {
                X86FullRegister::Rdx
            } else {
                X86FullRegister::Rax
            },
        ),
    ) {
        (Some(a), Some(b), Some(end)) => match operation_lines(
            operator,
            register_bits(frame, destination),
            X86FullRegister::Rax.low_part(a.bits),
            X86FullRegister::Rcx.low_part(b.bits),
        ) {
            Some(lines) => Some(a.lines + b.lines + lines + end),
            None => None,
        },
        _ => None,
    }
}

/// Whether a value decides a branch.
pub open spec fn is_condition(frame: Frame, condition: Operand) -> bool {
    match condition {
        Operand::Immediate(immediate) => immediate is Bool,
        Operand::Register(id) => frame.function.registers.contains_key(id.0)
            && frame.function.registers[id.0].ty == TypeView::Integer(IntegerWidth::I8),
    }
}

/// Branches on a value.
pub open spec fn branch_lines(
    frame: Frame,
    condition: Operand,
    positive: BlockId,
    negative: BlockId,
) -> Option<Seq<Line>> {
    match loading(frame, X86FullRegister::Rax, condition) {
        Some(l) => if is_condition(frame, condition) {
            Some(
                l.lines + seq![
                    code_line("test al, al"@),
                    code_line("jnz "@ + label_text(positive)),
                    code_line("jmp "@ + label_text(negative)),
                ],
            )
        } else {
            None
        },
        None => None,
    }
}

/// Returns from the function.
pub open spec fn return_lines(frame: Frame, value: Option<Operand>) -> Option<Seq<Line>> {
    match value {
        None => Some(seq![code_line("jmp .exit"@)]),
        Some(v) => match loading(frame, X86FullRegister::Rax, v) {
            Some(l) => Some(l.lines + seq![code_line("jmp .exit"@)]),
            None => None,
        },
    }
}

/// Loads the first `n` arguments of a call, of which at most six are passed.
pub open spec fn argument_lines(frame: Frame, arguments: Seq<Operand>, n: nat) -> Option<Seq<Line>>
    decreases n,
{
    if n == 0 {
        Some(Seq::empty())
    } else {
        match (
            argument_lines(frame, arguments, (n - 1) as nat),
            loading(frame, argument_registers()[n - 1], arguments[n - 1]),
        ) {
            (Some(before), Some(l)) => Some(before + l.lines),
            _ => None,
        }
    }
}

/// Jumps to the target of a call.
pub open spec fn target_lines(frame: Frame, target: Operand) -> Option<Seq<Line>> {
    match target {
        Operand::Immediate(Immediate::FunctionLabel(name)) => if (name.0 as int)
            < frame.names.len() {
            Some(seq![code_line("call "@ + frame.names[name.0 as int])])
        } else {
            None
        },
        _ => match loading(frame, X86FullRegister::Rax, target) {
            Some(l) => Some(l.lines + seq![code_line("call rax"@)]),
            None => None,
        },
    }
}

/// Calls a function.
pub open spec fn call_lines(
    frame: Frame,
    target: Operand,
    arguments: Seq<Operand>,
    destination: Option<RegisterId>,
) -> Option<Seq<Line>> {
    if !frame.function.has_operand(target) || !(frame.function.operand_type(target) is Pointer)
        || arguments.len() > 6 {
        None
    } else {
        let end = match destination {
            Some(id) => storing(frame, id, X86FullRegister::Rax),
            None => Some(Seq::empty()),
        };
        match (
            argument_lines(frame, arguments, arguments.len()),
            target_lines(frame, target),
            end,
        ) {
            (Some(passed), Some(called), Some(stored)) => Some(passed + called + stored),
            _ => None,
        }
    }
}

/// The assembly of an instruction. There is no result where an operand has no
/// place, for casts, and for a phi.
pub open spec fn instruction_lines(frame: Frame, debug: bool, instruction: InstructionView) -> Option<
    Seq<Line>,
> {
    match instruction {
        InstructionView::LoadMem { destination, source } => load_lines(frame, destination, source),
        InstructionView::StoreMem { destination, source } => store_lines(
            frame,
            destination,
            source,
        ),
        InstructionView::AllocStack { destination, ty } => alloc_lines(frame, destination, ty),
        InstructionView::GetStructElementPointer {
            destination,
            source,
            ty,
            index,
        } => field_lines(frame, destination, source, ty, index),
        InstructionView::GetArrayElementPointer {
            destination,
            source,
            ty,
            index,
        } => element_lines(frame, destination, source, ty, index),
        InstructionView::Copy { destination, source } => copy_lines(frame, destination, source),
        InstructionView::IntegerCast { .. } => None,
        InstructionView::UnaryOperation { operator, destination, operand } => unary_lines(
            frame,
            operator,
            destination,
            operand,
        ),
        InstructionView::BinaryOperation { operator, destination, lhs, rhs } => binary_lines(
            frame,
            operator,
            destination,
            lhs,
            rhs,
        ),
        InstructionView::Branch { condition, positive, negative } => branch_lines(
            frame,
            condition,
            positive,
            negative,
        ),
        InstructionView::Jump { destination } => Some(
            seq![code_line("jmp "@ + label_text(destination))],
        ),
        InstructionView::Return { value } => return_lines(frame, value),
        InstructionView::FunctionCall { target, arguments, destination } => call_lines(
            frame,
            target,
            arguments,
            destination,
        ),
        InstructionView::Phi { .. } => None,
        InstructionView::Comment(text) => Some(
            if debug {
                seq![code_line("; "@ + text)]
            } else {
                Seq::empty()
            },
        ),
    }
}

proof fn lemma_arguments_prefix(frame: Frame, arguments: Seq<Operand>, n: nat, m: nat)
    requires
        n <= m,
        argument_lines(frame, arguments, m) is Some,
    ensures
        argument_lines(frame, arguments, n) is Some,
    decreases m,
{
    if n < m {
        lemma_arguments_prefix(frame, arguments, n, (m - 1) as nat);
    }
}

impl<'a> Assembler<'a> {
    /// Writes an operator in front of a text.
    fn emit_with(&mut self, head: &str, text: &str)
        requires
            old(self).well_formed(),
        ensures
            final(self).adds(old(self), seq![code_line(head@ + text@)]),
    {
        let mut line = head.to_owned();
        line.append(text);
        self.emit(line.as_str());
    }

    /// Writes an operator in front of a number.
    fn emit_number(&mut self, head: &str, number: usize)
        requires
            old(self).well_formed(),
        ensures
            final(self).adds(old(self), seq![code_line(head@ + decimal(number as nat))]),
    {
        let mut line = head.to_owned();
        push_decimal(&mut line, number as u64);
        self.emit(line.as_str());
    }

    fn load_memory(&mut self, destination: RegisterId, source: Operand)
        requires
            old(self).well_formed(),
            load_lines(old(self).frame(), destination, source) is Some,
        ensures
            final(self).adds(old(self), load_lines(old(self).frame(), destination, source)->0),
    {
        let _ = self.load_operand(X86FullRegister::Rax, source);
        let part = self.sized(destination, X86FullRegister::Rax);
        self.emit(binary("mov", part.name(), "[rax]").as_str());
        self.store_operand(destination, X86FullRegister::Rax);
        assert(self.shape@ =~= old(self).shape@ + load_lines(
            old(self).frame(),
            destination,
            source,
        )->0);
    }

    fn store_memory(&mut self, destination: Operand, source: Operand)
        requires
            old(self).well_formed(),
            store_lines(old(self).frame(), destination, source) is Some,
        ensures
            final(self).adds(old(self), store_lines(old(self).frame(), destination, source)->0),
    {
        let part = self.load_operand(X86FullRegister::Rax, source);
        let _ = self.load_operand(X86FullRegister::Rcx, destination);
        self.emit(binary("mov", "[rcx]", part.name()).as_str());
        assert(self.shape@ =~= old(self).shape@ + store_lines(
            old(self).frame(),
            destination,
            source,
        )->0);
    }

    fn alloc_stack(&mut self, destination: RegisterId, ty: &Type)
        requires
            old(self).well_formed(),
            alloc_lines(old(self).frame(), destination, ty@) is Some,
        ensures
            final(self).adds(old(self), alloc_lines(old(self).frame(), destination, ty@)->0),
    {
        let layout = ty.layout();
        proof {
            lemma_alignments(ty@);
            lemma_powers(extent(ty@).alignment);
        }
        self.emit_number("sub rsp, ", align_to(layout.size, layout.alignment));
        if layout.alignment > 1 {
            self.emit_number("and rsp, -", layout.alignment);
        }
        self.store_operand(destination, X86FullRegister::Rsp);
        assert(self.shape@ =~= old(self).shape@ + alloc_lines(
            old(self).frame(),
            destination,
            ty@,
        )->0);
    }

    fn field_address(
        &mut self,
        destination: RegisterId,
        source: Operand,
        ty: &Struct,
        index: usize,
    )
        requires
            old(self).well_formed(),
            field_lines(old(self).frame(), destination, source, ty@, index) is Some,
        ensures
            final(self).adds(
                old(self),
                field_lines(old(self).frame(), destination, source, ty@, index)->0,
            ),
    {
        let _ = self.load_operand(X86FullRegister::Rax, source);
        let mut line = "lea rax, [rax + ".to_owned();
        push_decimal(&mut line, ty.offset_of(index) as u64);
        line.append("]");
        self.emit(line.as_str());
        self.store_operand(destination, X86FullRegister::Rax);
        assert(self.shape@ =~= old(self).shape@ + field_lines(
            old(self).frame(),
            destination,
            source,
            ty@,
            index,
        )->0);
    }

    fn element_address(
        &mut self,
        destination: RegisterId,
        source: Operand,
        ty: &Type,
        index: Operand,
    )
        requires
            old(self).well_formed(),
            element_lines(old(self).frame(), destination, source, ty@, index) is Some,
        ensures
            final(self).adds(
                old(self),
                element_lines(old(self).frame(), destination, source, ty@, index)->0,
            ),
    {
        let _ = self.load_operand(X86FullRegister::Rax, source);
        let _ = self.load_operand(X86FullRegister::Rbx, index);
        self.emit_number("mul rbx, ", ty.layout().size);
        self.emit("lea rax, [rax + rbx]");
        self.store_operand(destination, X86FullRegister::Rax);
        assert(self.shape@ =~= old(self).shape@ + element_lines(
            old(self).frame(),
            destination,
            source,
            ty@,
            index,
        )->0);
    }

    fn copy_value(&mut self, destination: RegisterId, source: Operand)
        requires
            old(self).well_formed(),
            copy_lines(old(self).frame(), destination, source) is Some,
        ensures
            final(self).adds(old(self), copy_lines(old(self).frame(), destination, source)->0),
    {
        let _ = self.load_operand(X86FullRegister::Rax, source);
        self.store_operand(destination, X86FullRegister::Rax);
        assert(self.shape@ =~= old(self).shape@ + copy_lines(
            old(self).frame(),
            destination,
            source,
        )->0);
    }

    fn take_address(&mut self, operand: Operand)
        requires
            old(self).well_formed(),
            address_lines(old(self).frame(), operand) is Some,
        ensures
            final(self).adds(old(self), address_lines(old(self).frame(), operand)->0),
    {
        match operand {
            Operand::Register(id) => self.load_register_address(X86FullRegister::Rax, id),
            Operand::Immediate(Immediate::NamedStaticLabel(label)) => {
                self.emit_with("mov rax, ", self.names.value(label))
            }
            _ => vstd::pervasive::unreached(),
        }
    }

    fn apply_unary(
        &mut self,
        operator: UnaryOperatorKind,
        destination: RegisterId,
        operand: Operand,
    )
        requires
            old(self).well_formed(),
            unary_lines(old(self).frame(), operator, destination, operand) is Some,
        ensures
            final(self).adds(
                old(self),
                unary_lines(old(self).frame(), operator, destination, operand)->0,
            ),
    {
        match operator {
            UnaryOperatorKind::AddressOf { .. } => {
                self.take_address(operand);
                self.store_operand(destination, X86FullRegister::Rax);
            }
            UnaryOperatorKind::Deref => {
                let part = self.load_operand(X86FullRegister::Rax, operand);
                let mut line = "mov ".to_owned();
                line.append(part.name());
                line.append(", [");
                line.append(part.name());
                line.append("]");
                self.emit(line.as_str());
                self.store_operand(destination, X86FullRegister::Rax);
            }
            UnaryOperatorKind::LogicalNot => {
                let part = self.load_operand(X86FullRegister::Rax, operand);
                self.emit("xor rcx, rcx");
                self.emit(binary("test", part.name(), part.name()).as_str());
                self.emit("sete cl");
                self.store_operand(destination, X86FullRegister::Rcx);
            }
            UnaryOperatorKind::BitwiseNot => {
                let part = self.load_operand(X86FullRegister::Rax, operand);
                self.emit_with("not ", part.name());
                self.store_operand(destination, X86FullRegister::Rax);
            }
            UnaryOperatorKind::Negate => {
                let part = self.load_operand(X86FullRegister::Rax, operand);
                self.emit_with("neg ", part.name());
                self.store_operand(destination, X86FullRegister::Rax);
            }
        }
        assert(self.shape@ =~= old(self).shape@ + unary_lines(
            old(self).frame(),
            operator,
            destination,
            operand,
        )->0);
    }

    /// Compares two parts of registers.
    fn compare(&mut self, lhs: X86Register, rhs: X86Register, test: &str)
        requires
            old(self).well_formed(),
            !lhs.is_high(),
            !rhs.is_high(),
        ensures
            final(self).adds(
                old(self),
                seq![
                    code_line(
                        binary_text(
                            "cmp"@,
                            lhs.full().low_part(lhs.bits()),
                            rhs.full().low_part(rhs.bits()),
                        ),
                    ),
                    code_line(test@),
                ],
            ),
    {
        self.emit(binary("cmp", lhs.name(), rhs.name()).as_str());
        self.emit(test);
        assert(self.shape@ =~= old(self).shape@ + seq![
            code_line(
                binary_text(
                    "cmp"@,
                    lhs.full().low_part(lhs.bits()),
                    rhs.full().low_part(rhs.bits()),
                ),
            ),
            code_line(test@),
        ]);
    }

    /// Divides by a part of a register.
    fn divide(&mut self, part: X86Register, rhs: X86Register)
        requires
            old(self).well_formed(),
            !rhs.is_high(),
            part.full() is Rax,
            !part.is_high(),
            widening(part.bits()) is Some,
        ensures
            final(self).adds(
                old(self),
                seq![
                    code_line(widening(part.bits())->0),
                    code_line("idiv "@ + rhs.full().low_part(rhs.bits())),
                ],
            ),
    {
        match part {
            X86Register::Ax => self.emit("cwd"),
            X86Register::Eax => self.emit("cdq"),
            _ => self.emit("cqo"),
        }
        self.emit_with("idiv ", rhs.name());
        assert(self.shape@ =~= old(self).shape@ + seq![
            code_line(widening(part.bits())->0),
            code_line("idiv "@ + rhs.full().low_part(rhs.bits())),
        ]);
    }

    /// Makes booleans of two parts of registers, and joins them.
    fn join_booleans(&mut self, operator: &str, lhs: X86Register, rhs: X86Register)
        requires
            old(self).well_formed(),
            !lhs.is_high(),
            !rhs.is_high(),
        ensures
            final(self).adds(
                old(self),
                seq![
                    code_line(binary_text("test"@, lhs.called(), lhs.called())),
                    code_line("setnz "@ + lhs.called()),
                    code_line(binary_text("test"@, rhs.called(), rhs.called())),
                    code_line("setnz "@ + rhs.called()),
                    code_line(binary_text(operator@, lhs.called(), rhs.called())),
                ],
            ),
    {
        self.emit(binary("test", lhs.name(), lhs.name()).as_str());
        self.emit_with("setnz ", lhs.name());
        self.emit(binary("test", rhs.name(), rhs.name()).as_str());
        self.emit_with("setnz ", rhs.name());
        self.emit(binary(operator, lhs.name(), rhs.name()).as_str());
        assert(self.shape@ =~= old(self).shape@ + seq![
            code_line(binary_text("test"@, lhs.called(), lhs.called())),
            code_line("setnz "@ + lhs.called()),
            code_line(binary_text("test"@, rhs.called(), rhs.called())),
            code_line("setnz "@ + rhs.called()),
            code_line(binary_text(operator@, lhs.called(), rhs.called())),
        ]);
    }

    /// Applies a binary operator to parts of two registers.
    fn operate(
        &mut self,
        operator: BinaryOperatorKind,
        part: X86Register,
        lhs: X86Register,
        rhs: X86Register,
    )
        requires
            old(self).well_formed(),
            part.full() is Rax,
            !part.is_high(),
            !lhs.is_high(),
            !rhs.is_high(),
            operation_lines(operator, Some(part.bits()), lhs.called(), rhs.called()) is Some,
        ensures
            final(self).adds(
                old(self),
                operation_lines(operator, Some(part.bits()), lhs.called(), rhs.called())->0,
            ),
    {
        match operator {
            BinaryOperatorKind::Add => {
                self.emit(binary("add", lhs.name(), rhs.name()).as_str())
            }
            BinaryOperatorKind::Subtract => {
                self.emit(binary("sub", lhs.name(), rhs.name()).as_str())
            }
            BinaryOperatorKind::Multiply => {
                self.emit(binary("imul", lhs.name(), rhs.name()).as_str())
            }
            BinaryOperatorKind::Divide => self.divide(part, rhs),
            BinaryOperatorKind::Modulus => {
                self.emit("xor rdx, rdx");
                self.divide(part, rhs);
            }
            BinaryOperatorKind::Equals => self.compare(lhs, rhs, "sete al"),
            BinaryOperatorKind::NotEquals => self.compare(lhs, rhs, "setne al"),
            BinaryOperatorKind::LessThan => self.compare(lhs, rhs, "setl al"),
            BinaryOperatorKind::LessThanOrEqualTo => self.compare(lhs, rhs, "setle al"),
            BinaryOperatorKind::GreaterThan => self.compare(lhs, rhs, "setg al"),
            BinaryOperatorKind::GreaterThanOrEqualTo => self.compare(lhs, rhs, "setge al"),
            BinaryOperatorKind::LogicalAnd => self.join_booleans("and", lhs, rhs),
            BinaryOperatorKind::LogicalOr => self.join_booleans("or", lhs, rhs),
            BinaryOperatorKind::ShiftLeft => {
                self.emit(binary("shl", lhs.name(), rhs.name()).as_str())
            }
            _ => vstd::pervasive::unreached(),
        }
        assert(self.shape@ =~= old(self).shape@ + operation_lines(
            operator,
            Some(part.bits()),
            lhs.called(),
            rhs.called(),
        )->0);
    }

    #[verifier::rlimit(40)]
    fn apply_binary(
        &mut self,
        operator: BinaryOperatorKind,
        destination: RegisterId,
        lhs: Operand,
        rhs: Operand,
    )
        requires
            old(self).well_formed(),
            binary_lines(old(self).frame(), operator, destination, lhs, rhs) is Some,
        ensures
            final(self).adds(
                old(self),
                binary_lines(old(self).frame(), operator, destination, lhs, rhs)->0,
            ),
    {
        let lhs_part = self.load_operand(X86FullRegister::Rax, lhs);
        let rhs_part = self.load_operand(X86FullRegister::Rcx, rhs);
        let part = self.sized(destination, X86FullRegister::Rax);
        self.operate(operator, part, lhs_part, rhs_part);
        self.store_operand(
            destination,
            match operator {
                BinaryOperatorKind::Modulus => X86FullRegister::Rdx,
                _ => X86FullRegister::Rax,
            },
        );
        assert(self.shape@ =~= old(self).shape@ + binary_lines(
            old(self).frame(),
            operator,
            destination,
            lhs,
            rhs,
        )->0);
    }

    fn branch(&mut self, condition: Operand, positive: BlockId, negative: BlockId)
        requires
            old(self).well_formed(),
            branch_lines(old(self).frame(), condition, positive, negative) is Some,
        ensures
            final(self).adds(
                old(self),
                branch_lines(old(self).frame(), condition, positive, negative)->0,
            ),
    {
        let _ = self.load_operand(X86FullRegister::Rax, condition);
        self.emit("test al, al");
        self.emit_with("jnz ", positive.display().as_str());
        self.emit_with("jmp ", negative.display().as_str());
        assert(self.shape@ =~= old(self).shape@ + branch_lines(
            old(self).frame(),
            condition,
            positive,
            negative,
        )->0);
    }

    fn leave(&mut self, value: Option<Operand>)
        requires
            old(self).well_formed(),
            return_lines(old(self).frame(), value) is Some,
        ensures
            final(self).adds(old(self), return_lines(old(self).frame(), value)->0),
    {
        // load return value into rax
        match value {
            Some(v) => {
                let _ = self.load_operand(X86FullRegister::Rax, v);
            }
            None => {}
        }
        self.emit("jmp .exit");
        assert(self.shape@ =~= old(self).shape@ + return_lines(old(self).frame(), value)->0);
    }

    /// Loads the arguments of a call.
    fn pass_arguments(&mut self, arguments: &Vec<Operand>)
        requires
            old(self).well_formed(),
            arguments@.len() <= 6,
            argument_lines(old(self).frame(), arguments@, arguments@.len()) is Some,
        ensures
            final(self).adds(
                old(self),
                argument_lines(old(self).frame(), arguments@, arguments@.len())->0,
            ),
    {
        let ghost frame = self.frame();
        let ghost before = self.shape@;
        let mut i: usize = 0;
        assert(self.shape@ =~= before + argument_lines(frame, arguments@, 0)->0);
        while i < arguments.len()
            invariant
                0 <= i <= arguments@.len() <= 6,
                frame == self.frame(),
                frame == old(self).frame(),
                extends(texts(self.lines@), texts(old(self).lines@)),
                self.well_formed(),
                argument_lines(frame, arguments@, arguments@.len()) is Some,
                argument_lines(frame, arguments@, i as nat) is Some,
                self.shape@ == before + argument_lines(frame, arguments@, i as nat)->0,
            decreases arguments@.len() - i,
        {
            proof {
                lemma_arguments_prefix(frame, arguments@, i as nat + 1, arguments@.len());
            }
            let _ = self.load_operand(argument_register(i), arguments[i]);
            i = i + 1;
            assert(self.shape@ =~= before + argument_lines(frame, arguments@, i as nat)->0);
        }
    }

    /// Jumps to the target of a call.
    fn jump_to(&mut self, target: Operand)
        requires
            old(self).well_formed(),
            target_lines(old(self).frame(), target) is Some,
        ensures
            final(self).adds(old(self), target_lines(old(self).frame(), target)->0),
    {
        match target {
            Operand::Immediate(Immediate::FunctionLabel(name)) => {
                self.emit_with("call ", self.names.value(name))
            }
            _ => {
                let _ = self.load_operand(X86FullRegister::Rax, target);
                self.emit("call rax");
            }
        }
        assert(self.shape@ =~= old(self).shape@ + target_lines(old(self).frame(), target)->0);
    }

    /// First 6 integer arguments are passed in rdi, rsi, rdx, r10, r8, r9
    fn call(&mut self, target: Operand, arguments: &Vec<Operand>, destination: Option<RegisterId>)
        requires
            old(self).well_formed(),
            call_lines(old(self).frame(), target, arguments@, destination) is Some,
        ensures
            final(self).adds(
                old(self),
                call_lines(old(self).frame(), target, arguments@, destination)->0,
            ),
    {
        self.pass_arguments(arguments);
        self.jump_to(target);
        match destination {
            Some(dest) => self.store_operand(dest, X86FullRegister::Rax),
            None => {}
        }
        assert(self.shape@ =~= old(self).shape@ + call_lines(
            old(self).frame(),
            target,
            arguments@,
            destination,
        )->0);
    }

    /// Writes the assembly of an instruction.
    pub fn translate(&mut self, instruction: &Instruction, emit_debug_info: bool)
        requires
            old(self).well_formed(),
            instruction_lines(old(self).frame(), emit_debug_info, instruction@) is Some,
        ensures
            final(self).adds(
                old(self),
                instruction_lines(old(self).frame(), emit_debug_info, instruction@)->0,
            ),
    {
        match instruction {
            Instruction::LoadMem { destination, source } => {
                self.load_memory(*destination, *source)
            }
            Instruction::StoreMem { destination, source } => {
                self.store_memory(*destination, *source)
            }
            Instruction::AllocStack { destination, ty } => self.alloc_stack(*destination, ty),
            Instruction::GetStructElementPointer { destination, source, ty, index } => {
                self.field_address(*destination, *source, ty, *index)
            }
            Instruction::GetArrayElementPointer { destination, source, ty, index } => {
                self.element_address(*destination, *source, ty, *index)
            }
            Instruction::Copy { destination, source } => self.copy_value(*destination, *source),
            Instruction::UnaryOperation { operator, destination, operand } => {
                self.apply_unary(*operator, *destination, *operand)
            }
            Instruction::BinaryOperation { operator, destination, lhs, rhs } => {
                self.apply_binary(*operator, *destination, *lhs, *rhs)
            }
            Instruction::Branch { condition, positive, negative } => {
                self.branch(*condition, *positive, *negative)
            }
            Instruction::Jump { destination } => {
                self.emit_with("jmp ", destination.display().as_str())
            }
            Instruction::Return { value } => self.leave(*value),
            Instruction::FunctionCall { target, arguments, destination } => {
                self.call(*target, arguments, *destination)
            }
            Instruction::Comment(text) => {
                if emit_debug_info {
                    self.comment(text.as_str());
                } else {
                    assert(self.shape@ =~= old(self).shape@ + Seq::<Line>::empty());
                }
            }
            Instruction::IntegerCast { .. } | Instruction::Phi { .. } => {
                vstd::pervasive::unreached()
            }
        }
    }
}

/// Where room for a type starts that is made below an address: the address less
/// the size, and then the bits that stand for less than the alignment cleared.
pub open spec fn room_below(address: u64, ty: TypeView) -> u64 {
    ((address - aligned(extent(ty).size, extent(ty).alignment)) as u64) & !((extent(ty).alignment
        - 1) as u64)
}

/// Room that is made on the stack is aligned as its type asks for, and reaches
/// at most up to what was there before.
pub proof fn law_room_is_aligned(address: u64, ty: TypeView)
    requires
        extent(ty).size + 2 * extent(ty).alignment <= address,
    ensures
        room_below(address, ty) as int % extent(ty).alignment == 0,
        room_below(address, ty) + extent(ty).size <= address,
{
    lemma_alignments(ty);
    let a = extent(ty).alignment as u64;
    law_aligned(extent(ty).size, extent(ty).alignment);
    let x = (address - aligned(extent(ty).size, extent(ty).alignment)) as u64;
    let r = x & !((a - 1) as u64);
    assert(x & !0u64 == x) by (bit_vector);
    assert((x & !1u64) % 2 == 0 && x & !1u64 <= x) by (bit_vector);
    assert((x & !3u64) % 4 == 0 && x & !3u64 <= x) by (bit_vector);
    assert((x & !7u64) % 8 == 0 && x & !7u64 <= x) by (bit_vector);
    assert(r % a == 0 && r <= x);
}

} // verus!
