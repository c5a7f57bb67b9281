//! What the code for single expressions is.

use crate::frontend::intern::InternedSymbol;
use crate::middle::hir::{
    Expression, ExpressionKind, HirId, Identifier, LetStatement, Literal, LiteralIntegerKind,
};
use crate::middle::lir::hir_lowering::branching::valued;
use crate::middle::lir::hir_lowering::copies::{added, written};
use crate::middle::lir::hir_lowering::lowered::{
    assignment_lowered, expression_lowered, let_lowered, within,
};
use crate::middle::lir::hir_lowering::rules::{
    assigned_place, cast_kind, comment, deref_rule, field_rule, function_called, last_field,
    literal_rule, local_rule, return_rule, stored, unary_value_rule,
};
use crate::middle::lir::hir_lowering::state::{
    emit_alloc, emit_field, loaded_from, lowered_fields, lowered_ty, Lowering, Source,
};
use crate::middle::lir::{
    Immediate, InstructionView, IntegerCastKind, IntegerWidth, Operand, RegisterId, TypeView,
};
use crate::middle::primitive::{IntKind, UIntKind};
use crate::middle::ty::Ty;
use std::rc::Rc;
use vstd::prelude::*;

verus! {

/// The bits of integers of a width.
pub open spec fn bits_of(width: IntegerWidth) -> nat {
    match width {
        IntegerWidth::I8 => 8,
        IntegerWidth::I16 => 16,
        IntegerWidth::I32 => 32,
        IntegerWidth::I64 => 64,
    }
}

/// How many values integers of a width have.
pub open spec fn count_of(width: IntegerWidth) -> int {
    match width {
        IntegerWidth::I8 => 0x100,
        IntegerWidth::I16 => 0x1_0000,
        IntegerWidth::I32 => 0x1_0000_0000,
        IntegerWidth::I64 => 0x1_0000_0000_0000_0000,
    }
}

/// The width of an integer type, and whether it has a sign.
pub open spec fn integer_of(ty: Ty) -> Option<(IntegerWidth, bool)> {
    match ty {
        Ty::Integer(IntKind::I8) => Some((IntegerWidth::I8, true)),
        Ty::Integer(IntKind::I16) => Some((IntegerWidth::I16, true)),
        Ty::Integer(IntKind::I32) => Some((IntegerWidth::I32, true)),
        Ty::Integer(_) => Some((IntegerWidth::I64, true)),
        Ty::UnsignedInteger(UIntKind::U8) => Some((IntegerWidth::I8, false)),
        Ty::UnsignedInteger(UIntKind::U16) => Some((IntegerWidth::I16, false)),
        Ty::UnsignedInteger(UIntKind::U32) => Some((IntegerWidth::I32, false)),
        Ty::UnsignedInteger(_) => Some((IntegerWidth::I64, false)),
        _ => None,
    }
}

/// Whether a number is a value of an integer type.
pub open spec fn is_value_of(ty: Ty, x: int) -> bool {
    match integer_of(ty) {
        Some((width, true)) => -count_of(width) / 2 <= x < count_of(width) / 2,
        Some((width, false)) => 0 <= x < count_of(width),
        None => false,
    }
}

/// What a cast makes of the bits of an integer of one width, taken as a number
/// without a sign, for another width.
pub open spec fn cast_bits(
    kind: IntegerCastKind,
    from: IntegerWidth,
    to: IntegerWidth,
    bits: int,
) -> int {
    match kind {
        IntegerCastKind::Truncate => bits % count_of(to),
        IntegerCastKind::ZeroExtension => bits,
        IntegerCastKind::SignExtension => if bits >= count_of(from) / 2 {
            bits + count_of(to) - count_of(from)
        } else {
            bits
        },
    }
}

/// A cast between integer types keeps the number, as far as the bits of the new
/// type can tell.
pub proof fn law_cast_keeps_number(from: Ty, to: Ty, x: int)
    requires
        cast_kind(from, to) is Some,
        is_value_of(from, x),
    ensures
        integer_of(from) is Some,
        integer_of(to) is Some,
        ({
            let (a, b) = ((integer_of(from)->0).0, (integer_of(to)->0).0);
            cast_bits(cast_kind(from, to)->0, a, b, x % count_of(a)) == x % count_of(b)
        }),
{
    assert(integer_of(from) is Some && integer_of(to) is Some);
    let (a, b) = ((integer_of(from)->0).0, (integer_of(to)->0).0);
    let bits = x % count_of(a);
    if cast_kind(from, to)->0 is Truncate {
        lemma_mod_mod(x, a, b);
    }
}

proof fn lemma_mod_mod(x: int, a: IntegerWidth, b: IntegerWidth)
    requires
        count_of(b) <= count_of(a),
    ensures
        (x % count_of(a)) % count_of(b) == x % count_of(b),
{
    vstd::arithmetic::div_mod::lemma_mod_mod(x, 0x100, 0x100);
    vstd::arithmetic::div_mod::lemma_mod_mod(x, 0x100, 0x100_0000);
    vstd::arithmetic::div_mod::lemma_mod_mod(x, 0x1_0000, 0x1_0000);
    vstd::arithmetic::div_mod::lemma_mod_mod(x, 0x100, 0x100_0000_0000_0000);
    vstd::arithmetic::div_mod::lemma_mod_mod(x, 0x1_0000, 0x1_0000_0000_0000);
    vstd::arithmetic::div_mod::lemma_mod_mod(x, 0x1_0000_0000, 0x1_0000_0000);
    vstd::arithmetic::div_mod::lemma_mod_twice(x, count_of(a));
}

/// The instructions that were added to the current block are one.
proof fn lemma_added_one(st: Lowering, after: Lowering, instruction: InstructionView)
    requires
        written(after) == written(st).push(instruction),
    ensures
        added(st, after) == seq![instruction],
{
    assert(added(st, after) =~= seq![instruction]);
}

/// Whether values of a type are kept in one register.
pub open spec fn is_single(ty: Ty) -> bool {
    match ty {
        Ty::Bool
        | Ty::Char
        | Ty::Integer(_)
        | Ty::UnsignedInteger(_)
        | Ty::Float(_)
        | Ty::Pointer(_)
        | Ty::FunctionPointer { .. }
        | Ty::Enum { .. }
        | Ty::Any => true,
        _ => false,
    }
}

/// The code of an operator on single values is that of its operands, the first one
/// first, and an instruction that applies that operator to their values in that
/// order. The value is what it yields.
pub proof fn law_binary_operator(src: Source, st: Lowering, e: &Expression)
    requires
        e.kind matches ExpressionKind::Binary { lhs, operator, .. } && !(operator is LogicalAnd)
            && !(operator is LogicalOr) && is_single(src.types.at(lhs.hir_id)),
        expression_lowered(src, st, *e) is Some,
    ensures
        ({
            let (lhs, rhs) = (e.kind->Binary_lhs, e.kind->Binary_rhs);
            let left = valued(src, st, &*lhs)->0;
            let right = valued(src, left, &*rhs)->0;
            let after = expression_lowered(src, st, *e)->0;
            &&& valued(src, st, &*lhs) is Some
            &&& valued(src, left, &*rhs) is Some
            &&& after.operand(e.hir_id) matches Operand::Register(reg) && added(right, after)
                == seq![
                InstructionView::BinaryOperation {
                    operator: e.kind->Binary_operator,
                    destination: reg,
                    lhs: right.operand(lhs.hir_id),
                    rhs: right.operand(rhs.hir_id),
                },
            ]
        }),
{
    let (lhs, rhs) = (e.kind->Binary_lhs, e.kind->Binary_rhs);
    let left = valued(src, st, &*lhs)->0;
    let right = valued(src, left, &*rhs)->0;
    let after = expression_lowered(src, st, *e)->0;
    let instruction = InstructionView::BinaryOperation {
        operator: e.kind->Binary_operator,
        destination: after.operand(e.hir_id)->Register_0,
        lhs: right.operand(lhs.hir_id),
        rhs: right.operand(rhs.hir_id),
    };
    assert(written(after) == written(right).push(instruction));
    lemma_added_one(right, after, instruction);
}

/// The code of an operator on one value is that of its operand, and an instruction
/// that applies the operator to its value. The address of something is its place,
/// and takes no more code.
pub proof fn law_unary_operator(src: Source, st: Lowering, e: &Expression)
    requires
        e.kind is Unary,
        !(e.kind->Unary_operator is Deref),
        expression_lowered(src, st, *e) is Some,
    ensures
        ({
            let operand = e.kind->Unary_operand;
            let operator = e.kind->Unary_operator;
            let after = expression_lowered(src, st, *e)->0;
            if operator is AddressOf {
                let placed = place(src, st, &*operand)->0;
                &&& place(src, st, &*operand) is Some
                &&& after.blocks == placed.blocks
                &&& after.operand(e.hir_id) == placed.operand(operand.hir_id)
            } else {
                let before = valued(src, st, &*operand)->0;
                &&& valued(src, st, &*operand) is Some
                &&& after.operand(e.hir_id) matches Operand::Register(reg) && added(before, after)
                    == seq![
                    InstructionView::UnaryOperation {
                        operator,
                        destination: reg,
                        operand: before.operand(operand.hir_id),
                    },
                ]
            }
        }),
{
    reveal(unary_value_rule);
    let operand = e.kind->Unary_operand;
    let after = expression_lowered(src, st, *e)->0;
    if !(e.kind->Unary_operator is AddressOf) {
        let before = valued(src, st, &*operand)->0;
        let instruction = InstructionView::UnaryOperation {
            operator: e.kind->Unary_operator,
            destination: after.operand(e.hir_id)->Register_0,
            operand: before.operand(operand.hir_id),
        };
        assert(written(after) == written(before).push(instruction));
        lemma_added_one(before, after, instruction);
    }
}

/// The state once the place of an expression is known.
pub open spec fn place(src: Source, st: Lowering, e: &Expression) -> Option<Lowering> {
    within(src, st, None, true, *e)
}

/// The value of a literal is the one that it denotes, and takes no code: a boolean,
/// the number of a character, or a number of the width of its type.
pub proof fn law_literal(src: Source, st: Lowering, id: HirId, literal: Literal)
    requires
        literal_rule(src, st, id, literal) is Some,
        !(literal is String),
    ensures
        ({
            let after = literal_rule(src, st, id, literal)->0;
            &&& after.blocks == st.blocks
            &&& match literal {
                Literal::Boolean(value) => after.operand(id) == Operand::Immediate(
                    Immediate::Bool(value),
                ),
                Literal::Char(c) => after.operand(id) == Operand::Immediate(
                    Immediate::Int(c as u32 as u64, IntegerWidth::I32),
                ),
                Literal::Integer(value, kind) => after.operand(
                    id,
                ) matches Operand::Immediate(Immediate::Int(v, width)) && v == value
                    && match kind {
                    LiteralIntegerKind::Signed(k) => integer_of(Ty::Integer(k)) == Some(
                        (width, true),
                    ),
                    LiteralIntegerKind::Unsigned(k) => integer_of(Ty::UnsignedInteger(k)) == Some(
                        (width, false),
                    ),
                    LiteralIntegerKind::Unsuffixed => match integer_of(src.types.at(id)) {
                        Some((w, _)) => width == w,
                        None => width == IntegerWidth::I64,
                    },
                },
                _ => false,
            }
        }),
{
    reveal(literal_rule);
}

/// Where the value of a local variable is asked for, and is single, it is loaded
/// from the variable's place, or is the argument itself. Where its place is asked
/// for, that is its register.
pub proof fn law_local_variable(src: Source, st: Lowering, id: HirId, local: u32)
    requires
        st.has_current(),
        local_rule(src, st, id, local) is Some,
    ensures
        ({
            let after = local_rule(src, st, id, local)->0;
            let own = Operand::Register(st.locals[local]);
            &&& st.locals.contains_key(local)
            &&& st.place ==> after.operand(id) == own && after.blocks == st.blocks
            &&& !st.place && is_single(src.types.at(id)) && st.arguments.contains(
                st.locals[local],
            ) ==> after.operand(id) == own && after.blocks == st.blocks
            &&& !st.place && is_single(src.types.at(id)) && !st.arguments.contains(
                st.locals[local],
            ) ==> (after.operand(id) matches Operand::Register(reg) && added(st, after) == seq![
                InstructionView::LoadMem { destination: reg, source: own },
            ])
        }),
{
    reveal(local_rule);
    let after = local_rule(src, st, id, local)->0;
    let own = Operand::Register(st.locals[local]);
    if !st.place && is_single(src.types.at(id)) && !st.arguments.contains(st.locals[local]) {
        let instruction = InstructionView::LoadMem {
            destination: after.operand(id)->Register_0,
            source: own,
        };
        assert(written(after) == written(st).push(instruction));
        lemma_added_one(st, after, instruction);
    }
}

/// An assignment of a single value finds the place of its left side, then computes
/// the value of its right side, and then stores the value in the place.
pub proof fn law_assignment(src: Source, st: Lowering, e: &Expression)
    requires
        e.kind matches ExpressionKind::Assignment { lhs, rhs } && is_single(
            src.types.at(rhs.hir_id),
        ) && place(src, st, &*lhs)->0.operand(lhs.hir_id) is Register,
        assignment_lowered(src, st, *e) is Some,
    ensures
        ({
            let (lhs, rhs) = (e.kind->Assignment_lhs, e.kind->Assignment_rhs);
            let placed = place(src, st, &*lhs)->0;
            let computed = valued(src, placed, &*rhs)->0;
            let after = assignment_lowered(src, st, *e)->0;
            &&& place(src, st, &*lhs) is Some
            &&& valued(src, placed, &*rhs) is Some
            &&& added(computed, after) == seq![
                InstructionView::StoreMem {
                    destination: placed.operand(lhs.hir_id),
                    source: computed.operand(rhs.hir_id),
                },
            ]
        }),
{
    reveal(assigned_place);
    reveal(stored);
    let (lhs, rhs) = (e.kind->Assignment_lhs, e.kind->Assignment_rhs);
    let placed = place(src, st, &*lhs)->0;
    let computed = valued(src, placed, &*rhs)->0;
    let after = assignment_lowered(src, st, *e)->0;
    let instruction = InstructionView::StoreMem {
        destination: placed.operand(lhs.hir_id),
        source: computed.operand(rhs.hir_id),
    };
    assert(written(after) == written(computed).push(instruction));
    lemma_added_one(computed, after, instruction);
}

/// Returning a single value leaves the function with that value. The main function
/// returns zero where nothing else is said, and others nothing.
pub proof fn law_return(src: Source, st: Lowering, value: Option<Rc<Expression>>)
    requires
        st.struct_return is None,
        return_rule(src, st, value) is Some,
    ensures
        ({
            let after = return_rule(src, st, value)->0;
            added(st, after) == seq![
                InstructionView::Return {
                    value: match value {
                        Some(e) => Some(st.operand(e.hir_id)),
                        None => if st.names[src.local_symbol.0 as int] == "main"@ {
                            Some(Operand::Immediate(Immediate::Int(0, IntegerWidth::I8)))
                        } else {
                            None
                        },
                    },
                },
            ]
        }),
{
    reveal(return_rule);
    let after = return_rule(src, st, value)->0;
    let instruction = written(after).last();
    lemma_added_one(st, after, instruction);
}

/// What a pointer points to is found at the pointer: its place is the pointer's
/// value, and its value, where it is single, is loaded from there.
pub proof fn law_dereference(src: Source, st: Lowering, id: HirId, operand: &Expression)
    requires
        st.has_current(),
        deref_rule(src, st, id, *operand) is Some,
    ensures
        ({
            let after = deref_rule(src, st, id, *operand)->0;
            let pointer = st.operand(operand.hir_id);
            &&& st.place ==> after.operand(id) == pointer && after.blocks == st.blocks
            &&& !st.place && is_single(src.types.at(id)) ==> (after.operand(
                id,
            ) matches Operand::Register(reg) && added(st, after) == seq![
                InstructionView::LoadMem { destination: reg, source: pointer },
            ])
        }),
{
    reveal(deref_rule);
    let after = deref_rule(src, st, id, *operand)->0;
    if !st.place && is_single(src.types.at(id)) {
        let instruction = written(after).last();
        lemma_added_one(st, after, instruction);
    }
}

/// The place of a field of a structure is found from that of the structure by the
/// number of the field with the name. Its value, where it is single, is loaded
/// from there.
pub proof fn law_field(
    src: Source,
    st: Lowering,
    id: HirId,
    target: &Expression,
    name: Identifier,
    dereference: bool,
)
    requires
        st.has_current(),
        field_rule(src, st, id, *target, name, dereference) is Some,
        is_structure_at(src, target, dereference),
        fields_at(src, target, dereference).len() <= usize::MAX,
    ensures
        ({
            let fields = fields_at(src, target, dereference);
            let after = field_rule(src, st, id, *target, name, dereference)->0;
            let code = added(st, after);
            &&& code.len() > 0
            &&& code[0] matches InstructionView::GetStructElementPointer {
                destination,
                source,
                ty,
                index,
            } && {
                &&& source == st.operand(target.hir_id)
                &&& index < fields.len()
                &&& fields[index as int].0 == name.symbol
                &&& lowered_fields(fields, fields.len()) == Some(ty)
                &&& st.place ==> code.len() == 1 && after.operand(id) == Operand::Register(
                    destination,
                )
                &&& !st.place && ty[index as int].is_scalar() ==> {
                    &&& code.len() == 2
                    &&& after.operand(id) matches Operand::Register(reg) && code[1]
                        == (InstructionView::LoadMem {
                        destination: reg,
                        source: Operand::Register(destination),
                    })
                }
            }
        }),
{
    reveal(field_rule);
    let fields = fields_at(src, target, dereference);
    lemma_last_field(fields, name.symbol, fields.len());
    let after = field_rule(src, st, id, *target, name, dereference)->0;
    let index = last_field(fields, name.symbol, fields.len())->0;
    let ty = lowered_fields(fields, fields.len())->0;
    lemma_fields_count(fields, fields.len());
    let pointer = emit_field(st, st.operand(target.hir_id), ty, index as usize)->0;
    let first = written(pointer.st).last();
    assert(written(pointer.st) == written(st).push(first));
    if st.place {
        lemma_added_one(st, after, first);
    } else {
        assert(added(st, pointer.st) =~= seq![first]);
        if ty[index as int].is_scalar() {
            let second = written(after).last();
            assert(written(after) == written(st).push(first).push(second));
            assert(added(st, after) =~= seq![first, second]);
        } else {
            lemma_kept_first(
                st,
                pointer.st,
                st.dest,
                Operand::Register(pointer.reg),
                ty[index as int],
                after,
                first,
            );
        }
    }
}

/// Loading from an address only adds to what was written.
proof fn lemma_kept_first(
    st: Lowering,
    before: Lowering,
    dest: Option<RegisterId>,
    source: Operand,
    ty: TypeView,
    after: Lowering,
    first: InstructionView,
)
    requires
        st.has_current(),
        before.stack == st.stack,
        before.blocks.len() == st.blocks.len(),
        written(before) == written(st).push(first),
        loaded_from(before, dest, source, ty) matches Some(e) && e.st.blocks == after.blocks
            && e.st.stack == after.stack,
    ensures
        added(st, after).len() > 0,
        added(st, after)[0] == first,
{
    crate::middle::lir::hir_lowering::laws::lemma_loaded_from(before, dest, source, ty);
    reveal(crate::middle::lir::hir_lowering::laws::goes_straight);
    let k = st.stack.last().0 as int;
    assert(crate::middle::lir::hir_lowering::laws::only_longer(
        before.blocks[k],
        after.blocks[k],
    ));
    let n = written(st).len() as int;
    assert(written(before)[n] == first);
    assert(written(after)[n] == written(before)[n]);
}

/// The structure that a field is looked for in.
pub open spec fn fields_at(src: Source, target: &Expression, dereference: bool) -> Seq<
    (InternedSymbol, Ty),
> {
    match src.types.at(target.hir_id) {
        Ty::Pointer(inner) => (*inner)->Struct_fields,
        ty => ty->Struct_fields,
    }
}

/// Whether a field is looked for in a structure.
pub open spec fn is_structure_at(src: Source, target: &Expression, dereference: bool) -> bool {
    match src.types.at(target.hir_id) {
        Ty::Pointer(inner) => dereference && *inner is Struct,
        ty => ty is Struct,
    }
}

proof fn lemma_last_field(fields: Seq<(InternedSymbol, Ty)>, name: InternedSymbol, n: nat)
    requires
        n <= fields.len(),
    ensures
        last_field(fields, name, n) matches Some(k) ==> k < n && fields[k as int].0 == name,
    decreases n,
{
    if n > 0 {
        lemma_last_field(fields, name, (n - 1) as nat);
    }
}

proof fn lemma_fields_count(fields: Seq<(InternedSymbol, Ty)>, n: nat)
    requires
        n <= fields.len(),
    ensures
        lowered_fields(fields, n) matches Some(list) ==> list.len() == n,
    decreases n,
{
    if n > 0 {
        lemma_fields_count(fields, (n - 1) as nat);
    }
}

/// A call passes the place for a structure that it returns, if it does, then
/// `self`, if there is one, and then the arguments in order, to the function with
/// the name.
pub proof fn law_call(
    st: Lowering,
    symbol: InternedSymbol,
    own: Option<Operand>,
    values: Seq<Operand>,
    returned: Option<Ty>,
)
    requires
        st.has_current(),
        function_called(st, symbol, own, values, returned) is Some,
    ensures
        ({
            let called = function_called(st, symbol, own, values, returned)->0;
            let returns_structure = returned matches Some(ty) && lowered_ty(ty)->0.is_aggregate();
            let rest = match own {
                Some(value) => seq![value] + values,
                None => values,
            };
            &&& written(called.st).len() > 0
            &&& written(called.st).last() matches InstructionView::FunctionCall {
                target,
                arguments,
                destination,
            } && {
                &&& target == Operand::Immediate(Immediate::FunctionLabel(symbol))
                &&& !returns_structure ==> arguments == rest && destination == called.reg
                    && called.reg is Some == returned is Some
                &&& returns_structure ==> {
                    &&& destination is None
                    &&& called.reg is Some
                    &&& arguments == seq![Operand::Register(called.reg->0)] + rest
                    &&& st.dest matches Some(reg) ==> called.reg == Some(reg)
                }
            }
        }),
{
    reveal(function_called);
    let rest = match own {
        Some(value) => seq![value] + values,
        None => values,
    };
    assert((match own {
        Some(value) => seq![value],
        None => Seq::empty(),
    }) + values =~= rest);
}

/// A let statement makes room on the stack for its variable, which is found there
/// from then on. Where its initial value is single, it is computed then, and
/// stored in that room.
pub proof fn law_let(src: Source, st: Lowering, statement: &LetStatement)
    requires
        statement.initializer is Some,
        is_single(src.types.at(statement.hir_id)),
        let_lowered(src, st, *statement) is Some,
    ensures
        ({
            let init = statement.initializer->0;
            let text = "let "@ + st.names[statement.name.symbol.0 as int] + " = ..."@;
            let room = emit_alloc(comment(st, text)->0, lowered_ty(
                src.types.at(statement.hir_id),
            )->0)->0;
            let own = statement.hir_id.local_id.0;
            let bound = Lowering { locals: room.st.locals.insert(own, room.reg), ..room.st };
            let computed = valued(src, bound, &*init)->0;
            let after = let_lowered(src, st, *statement)->0;
            &&& valued(src, bound, &*init) is Some
            &&& after.locals == computed.locals
            &&& added(computed, after) == seq![
                InstructionView::StoreMem {
                    destination: Operand::Register(room.reg),
                    source: computed.operand(init.hir_id),
                },
            ]
            &&& written(room.st).last() matches InstructionView::AllocStack { destination, ty }
                && destination == room.reg && lowered_ty(src.types.at(statement.hir_id)) == Some(ty)
        }),
{
    let init = statement.initializer->0;
    let text = "let "@ + st.names[statement.name.symbol.0 as int] + " = ..."@;
    let room = emit_alloc(
        comment(st, text)->0,
        lowered_ty(src.types.at(statement.hir_id))->0,
    )->0;
    let bound = Lowering {
        locals: room.st.locals.insert(statement.hir_id.local_id.0, room.reg),
        ..room.st
    };
    let computed = valued(src, bound, &*init)->0;
    let after = let_lowered(src, st, *statement)->0;
    let instruction = written(after).last();
    assert(written(after) == written(computed).push(instruction));
    lemma_added_one(computed, after, instruction);
}

} // verus!
