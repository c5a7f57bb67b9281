//! What lowering keeps.

use crate::frontend::ast::{BinaryOperatorKind, UnaryOperatorKind};
use crate::frontend::intern::InternedSymbol;
use crate::index::wrap32;
use crate::middle::hir;
use crate::middle::hir::{Expression, HirId, Identifier, Literal, LocalDefId, Path};
use crate::middle::lir::hir_lowering::rules::{
    assigned_place, branch_merged, break_rule, breaks_patched, cast_rule, conditional_joined,
    continue_rule, deref_rule, field_rule, function_called, function_rule, interned_pieces,
    literal_rule, local_rule, logical_joined, path_rule, piece_printed, pieces_printed,
    return_rule, static_rule, stored, string_built, subscript_rule, this_rule, unary_value_rule,
    variant_rule, Branching, ConditionalBlocks, FormatPiece, FormatStringItem, LogicalBlocks,
};
use crate::middle::lir::hir_lowering::state::{
    all_results, binary_on, call_named, compared_upto, constant_string, copied_fields,
    copied_value, emit, emit_alloc, emit_binary, emit_call, emit_cast, emit_element, emit_field,
    emit_load, emit_phi, emit_store, emit_unary, loaded_from, place_for, print_string, with_name,
    Lowering, Source,
};
use crate::middle::lir::{
    BlockId, BlockView, InstructionView, IntegerCastKind, Operand, RegisterId, TypeView,
};
use crate::middle::ty::Ty;
use std::rc::Rc;
use vstd::prelude::*;

verus! {

/// Whether every register and every block is found under its own number.
#[verifier::opaque]
pub open spec fn is_numbered(st: Lowering) -> bool {
    &&& forall|i: int|
        0 <= i < st.registers.len() ==> (#[trigger] st.registers[i]).id.0 as int == wrap32(i)
    &&& forall|i: int|
        0 <= i < st.blocks.len() ==> (#[trigger] st.blocks[i]).id.0 as int == wrap32(i)
}

/// Whether lowering has gone on from one state to another within a part of a
/// body: the context, the arguments, and the blocks and loops further out are
/// the same, nothing was taken away, and numbers are still right.
#[verifier::opaque]
pub open spec fn goes_on(a: Lowering, b: Lowering) -> bool {
    &&& b.dest == a.dest
    &&& b.place == a.place
    &&& b.struct_return == a.struct_return
    &&& b.arguments == a.arguments
    &&& b.stack.len() == a.stack.len()
    &&& a.stack.len() > 0 ==> b.stack.drop_last() == a.stack.drop_last()
    &&& b.loops.len() == a.loops.len()
    &&& a.loops.len() > 0 ==> b.loops.drop_last() == a.loops.drop_last()
        && b.loops.last().start_block == a.loops.last().start_block
    &&& a.registers.len() <= b.registers.len()
    &&& a.blocks.len() <= b.blocks.len()
    &&& is_numbered(a) ==> is_numbered(b)
}

/// Whether an instruction goes on with the next one, and needs nothing to be
/// known of the blocks around it.
pub open spec fn is_plain(instruction: InstructionView) -> bool {
    !(instruction is Jump || instruction is Branch || instruction is Phi)
}

/// Whether a block was only added plain instructions to.
pub open spec fn only_longer(a: BlockView, b: BlockView) -> bool {
    &&& b.predecessors == a.predecessors
    &&& a.instructions.len() <= b.instructions.len()
    &&& forall|i: int|
        0 <= i < a.instructions.len() ==> (#[trigger] b.instructions[i]) == a.instructions[i]
    &&& forall|i: int|
        a.instructions.len() <= i < b.instructions.len() ==> is_plain(
            #[trigger] b.instructions[i],
        )
}

/// Whether lowering has gone straight on: no block was made or left, and only
/// plain instructions were added.
#[verifier::opaque]
pub open spec fn goes_straight(a: Lowering, b: Lowering) -> bool {
    &&& goes_on(a, b)
    &&& b.stack == a.stack
    &&& b.loops == a.loops
    &&& b.blocks.len() == a.blocks.len()
    &&& forall|k: int|
        0 <= k < a.blocks.len() ==> only_longer(#[trigger] a.blocks[k], b.blocks[k])
}

pub(crate) broadcast proof fn lemma_straight_goes_on(a: Lowering, b: Lowering)
    requires
        #[trigger] goes_straight(a, b),
    ensures
        goes_on(a, b),
{
    reveal(goes_straight);
}

pub(crate) broadcast proof fn lemma_straight_same(a: Lowering)
    ensures
        #[trigger] goes_straight(a, a),
{
    reveal(goes_straight);
    reveal(goes_on);
}

pub(crate) broadcast proof fn lemma_straight_further(a: Lowering, b: Lowering, c: Lowering)
    requires
        #[trigger] goes_straight(a, b),
        #[trigger] goes_straight(b, c),
    ensures
        goes_straight(a, c),
{
    reveal(goes_straight);
    lemma_goes_on_further(a, b, c);
    assert forall|k: int| 0 <= k < a.blocks.len() implies only_longer(
        #[trigger] a.blocks[k],
        c.blocks[k],
    ) by {
        let x = a.blocks[k];
        let y = b.blocks[k];
        let z = c.blocks[k];
        assert(only_longer(x, y));
        assert(only_longer(y, z));
        assert forall|i: int| 0 <= i < x.instructions.len() implies (#[trigger] z.instructions[i])
            == x.instructions[i] by {
            assert(y.instructions[i] == x.instructions[i]);
        }
        assert forall|i: int|
            x.instructions.len() <= i < z.instructions.len() implies is_plain(
            #[trigger] z.instructions[i],
        ) by {
            if i < y.instructions.len() {
                assert(z.instructions[i] == y.instructions[i]);
                assert(is_plain(y.instructions[i]));
            }
        }
    }
}

pub(crate) broadcast proof fn lemma_goes_on_same(a: Lowering)
    ensures
        #[trigger] goes_on(a, a),
{
    reveal(goes_on);
}

pub(crate) broadcast proof fn lemma_goes_on_further(a: Lowering, b: Lowering, c: Lowering)
    requires
        #[trigger] goes_on(a, b),
        #[trigger] goes_on(b, c),
    ensures
        goes_on(a, c),
{
    reveal(goes_on);
}

pub(crate) broadcast proof fn lemma_with_register(st: Lowering, ty: TypeView)
    ensures
        goes_straight(st, (#[trigger] st.with_register(ty)).st),
{
    reveal(goes_straight);
    reveal(goes_on);
    reveal(is_numbered);
}

pub(crate) broadcast proof fn lemma_with_block(st: Lowering)
    ensures
        goes_on(st, (#[trigger] st.with_block()).st),
{
    reveal(goes_on);
    reveal(is_numbered);
}

pub(crate) broadcast proof fn lemma_with_instruction(
    st: Lowering,
    id: BlockId,
    instruction: InstructionView,
)
    ensures
        st.has_block(id) ==> goes_on(st, #[trigger] st.with_instruction(id, instruction)),
{
    reveal(goes_on);
    reveal(is_numbered);
}

pub(crate) broadcast proof fn lemma_with_predecessor(st: Lowering, id: BlockId, from: BlockId)
    ensures
        st.has_block(id) ==> goes_on(st, #[trigger] st.with_predecessor(id, from)),
{
    reveal(goes_on);
    reveal(is_numbered);
}

pub(crate) broadcast proof fn lemma_with_operand(
    st: Lowering,
    id: HirId,
    value: Operand,
)
    ensures
        goes_straight(st, #[trigger] st.with_operand(id, value)),
{
    reveal(goes_straight);
    reveal(goes_on);
    reveal(is_numbered);
}

pub(crate) broadcast proof fn lemma_with_name(st: Lowering, text: Seq<char>)
    ensures
        (#[trigger] with_name(st, text)) matches Some((after, _)) ==> goes_straight(st, after),
{
    reveal(goes_straight);
    reveal(goes_on);
    reveal(is_numbered);
}

pub(crate) broadcast group group_state {
    lemma_goes_on_same,
    lemma_goes_on_further,
    lemma_straight_goes_on,
    lemma_straight_same,
    lemma_straight_further,
    lemma_with_register,
    lemma_with_block,
    lemma_with_instruction,
    lemma_with_predecessor,
    lemma_with_operand,
    lemma_with_name,
}

pub(crate) broadcast proof fn lemma_straight_instruction(
    st: Lowering,
    id: BlockId,
    instruction: InstructionView,
)
    ensures
        st.has_block(id) && is_plain(instruction) ==> goes_straight(
            st,
            #[trigger] st.with_instruction(id, instruction),
        ),
{
    lemma_with_instruction(st, id, instruction);
    reveal(goes_straight);
}

pub(crate) broadcast proof fn lemma_emit(st: Lowering, instruction: InstructionView)
    ensures
        (#[trigger] emit(st, instruction)) matches Some(after) ==> goes_on(st, after) && (is_plain(
            instruction,
        ) ==> goes_straight(st, after)),
{
    broadcast use lemma_with_instruction, lemma_straight_instruction;

}

pub(crate) broadcast proof fn lemma_emit_field(
    st: Lowering,
    source: Operand,
    ty: Seq<TypeView>,
    index: usize,
)
    ensures
        (#[trigger] emit_field(st, source, ty, index)) matches Some(
            after,
        ) ==> goes_straight(st, after.st),
{
    broadcast use
        lemma_straight_same,
        lemma_straight_further,
        lemma_with_register,
        lemma_straight_instruction,
    ;

}

pub(crate) broadcast proof fn lemma_emit_element(
    st: Lowering,
    source: Operand,
    ty: TypeView,
    index: Operand,
)
    ensures
        (#[trigger] emit_element(st, source, ty, index)) matches Some(
            after,
        ) ==> goes_straight(st, after.st),
{
    broadcast use
        lemma_straight_same,
        lemma_straight_further,
        lemma_with_register,
        lemma_straight_instruction,
    ;

}

pub(crate) broadcast proof fn lemma_emit_alloc(st: Lowering, ty: TypeView)
    ensures
        (#[trigger] emit_alloc(st, ty)) matches Some(after) ==> goes_straight(st, after.st),
{
    broadcast use
        lemma_straight_same,
        lemma_straight_further,
        lemma_with_register,
        lemma_straight_instruction,
    ;

}

pub(crate) broadcast proof fn lemma_emit_load(st: Lowering, source: Operand, ty: TypeView)
    ensures
        (#[trigger] emit_load(st, source, ty)) matches Some(after) ==> goes_straight(st, after.st),
{
    broadcast use
        lemma_straight_same,
        lemma_straight_further,
        lemma_with_register,
        lemma_straight_instruction,
    ;

}

pub(crate) broadcast proof fn lemma_emit_store(
    st: Lowering,
    destination: Operand,
    source: Operand,
    ty: TypeView,
)
    ensures
        (#[trigger] emit_store(st, destination, source, ty)) matches Some(
            after,
        ) ==> goes_straight(st, after),
{
    broadcast use
        lemma_straight_same,
        lemma_straight_further,
        lemma_with_register,
        lemma_straight_instruction,
    ;

}

pub(crate) broadcast proof fn lemma_emit_call(
    st: Lowering,
    target: Operand,
    arguments: Seq<Operand>,
    returned: Option<TypeView>,
)
    ensures
        (#[trigger] emit_call(st, target, arguments, returned)) matches Some(
            after,
        ) ==> goes_straight(st, after.st),
{
    broadcast use
        lemma_straight_same,
        lemma_straight_further,
        lemma_with_register,
        lemma_straight_instruction,
    ;

}

pub(crate) broadcast proof fn lemma_emit_unary(
    st: Lowering,
    operator: UnaryOperatorKind,
    operand: Operand,
    ty: TypeView,
)
    ensures
        (#[trigger] emit_unary(st, operator, operand, ty)) matches Some(
            after,
        ) ==> goes_straight(st, after.st),
{
    broadcast use
        lemma_straight_same,
        lemma_straight_further,
        lemma_with_register,
        lemma_straight_instruction,
    ;

}

pub(crate) broadcast proof fn lemma_emit_cast(
    st: Lowering,
    kind: IntegerCastKind,
    operand: Operand,
    ty: TypeView,
)
    ensures
        (#[trigger] emit_cast(st, kind, operand, ty)) matches Some(after) ==> goes_straight(st, after.st),
{
    broadcast use
        lemma_straight_same,
        lemma_straight_further,
        lemma_with_register,
        lemma_straight_instruction,
    ;

}

pub(crate) broadcast proof fn lemma_emit_phi(st: Lowering, sources: Map<u32, Operand>, ty: TypeView)
    ensures
        (#[trigger] emit_phi(st, sources, ty)) matches Some(after) ==> goes_on(st, after.st),
{
    broadcast use group_state, lemma_emit;

}

pub(crate) broadcast proof fn lemma_emit_binary(
    st: Lowering,
    operator: BinaryOperatorKind,
    lhs: Operand,
    rhs: Operand,
    ty: TypeView,
)
    ensures
        (#[trigger] emit_binary(st, operator, lhs, rhs, ty)) matches Some(
            after,
        ) ==> goes_straight(st, after.st),
{
    broadcast use
        lemma_straight_same,
        lemma_straight_further,
        lemma_with_register,
        lemma_straight_instruction,
    ;

}

pub(crate) broadcast proof fn lemma_place_for(st: Lowering, dest: Option<RegisterId>, ty: TypeView)
    ensures
        (#[trigger] place_for(st, dest, ty)) matches Some(after) ==> goes_straight(st, after.st),
{
    broadcast use lemma_straight_same, lemma_emit_alloc;

}

pub(crate) broadcast group group_emit {
    group_state,
    lemma_emit,
    lemma_emit_field,
    lemma_emit_element,
    lemma_emit_alloc,
    lemma_emit_load,
    lemma_emit_store,
    lemma_emit_call,
    lemma_emit_unary,
    lemma_emit_cast,
    lemma_emit_phi,
    lemma_emit_binary,
    lemma_place_for,
}

/// What goes straight on, one instruction after the other.
pub(crate) broadcast group group_straight {
    lemma_straight_same,
    lemma_straight_further,
    lemma_with_register,
    lemma_with_operand,
    lemma_with_name,
    lemma_straight_instruction,
    lemma_emit_field,
    lemma_emit_element,
    lemma_emit_alloc,
    lemma_emit_load,
    lemma_emit_store,
    lemma_emit_call,
    lemma_emit_unary,
    lemma_emit_cast,
    lemma_emit_binary,
    lemma_place_for,
}

pub(crate) broadcast proof fn lemma_call_named(
    st: Lowering,
    name: Seq<char>,
    arguments: Seq<Operand>,
)
    ensures
        (#[trigger] call_named(st, name, arguments)) matches Some(after) ==> goes_straight(st, after.st),
{
    broadcast use group_straight;

}

pub(crate) broadcast proof fn lemma_constant_string(st: Lowering, symbol: InternedSymbol)
    ensures
        (#[trigger] constant_string(st, symbol)) matches Some(after) ==> goes_straight(st, after.st),
{
    broadcast use group_straight;

    if constant_string(st, symbol) is Some {
        let base = place_for(
            st,
            st.dest,
            TypeView::Struct(crate::middle::lir::hir_lowering::state::slice_fields()),
        )->0;
        let pointer = emit_field(
            base.st,
            Operand::Register(base.reg),
            crate::middle::lir::hir_lowering::state::slice_fields(),
            0,
        )->0;
        let label = pointer.st.next_label;
        let labelled = Lowering {
            next_label: wrap32(label as int + 1) as u32,
            strings: pointer.st.strings.insert(label, symbol),
            ..pointer.st
        };
        assert(goes_straight(pointer.st, labelled)) by {
            reveal(goes_straight);
            reveal(goes_on);
            reveal(is_numbered);
        }
    }
}

pub(crate) broadcast proof fn lemma_print_string(st: Lowering, string: Operand)
    ensures
        (#[trigger] print_string(st, string)) matches Some(after) ==> goes_straight(st, after.st),
{
    broadcast use group_straight, lemma_call_named;

}

pub(crate) broadcast proof fn lemma_copied_fields(
    st: Lowering,
    dest: RegisterId,
    src: Operand,
    fields: Seq<TypeView>,
    n: nat,
)
    ensures
        (#[trigger] copied_fields(st, dest, src, fields, n)) matches Some(after) ==> goes_straight(
            st,
            after,
        ),
    decreases fields, n,
{
    broadcast use group_straight;

    if copied_fields(st, dest, src, fields, n) is Some && n > 0 && n <= fields.len() {
        lemma_copied_fields(st, dest, src, fields, (n - 1) as nat);
        let before = copied_fields(st, dest, src, fields, (n - 1) as nat)->0;
        match fields[n - 1] {
            TypeView::Struct(inner) => {
                let to = emit_field(before, Operand::Register(dest), fields, (n - 1) as usize)->0;
                let from = emit_field(to.st, src, fields, (n - 1) as usize)->0;
                lemma_copied_fields(
                    from.st,
                    to.reg,
                    Operand::Register(from.reg),
                    inner,
                    inner.len(),
                );
            },
            _ => {},
        }
    }
}

pub(crate) broadcast proof fn lemma_copied_value(
    st: Lowering,
    dest: Option<RegisterId>,
    src: Operand,
    ty: TypeView,
)
    ensures
        (#[trigger] copied_value(st, dest, src, ty)) matches Some(after) ==> goes_straight(st, after.st),
{
    broadcast use group_straight, lemma_copied_fields;

}

pub(crate) broadcast proof fn lemma_loaded_from(
    st: Lowering,
    dest: Option<RegisterId>,
    src: Operand,
    ty: TypeView,
)
    ensures
        (#[trigger] loaded_from(st, dest, src, ty)) matches Some(after) ==> goes_straight(st, after.st),
{
    broadcast use group_straight, lemma_copied_value;

}

proof fn lemma_compared_upto(
    st: Lowering,
    output: Ty,
    elements: Seq<Ty>,
    fields: Seq<TypeView>,
    operator: BinaryOperatorKind,
    lhs: Operand,
    rhs: Operand,
    n: nat,
)
    ensures
        compared_upto(st, output, elements, fields, operator, lhs, rhs, n) matches Some(after)
            ==> goes_straight(st, after.st),
    decreases elements, n,
{
    broadcast use group_straight;

    if compared_upto(st, output, elements, fields, operator, lhs, rhs, n) is Some && n > 0 && n
        <= elements.len() {
        lemma_compared_upto(
            st,
            output,
            elements,
            fields,
            operator,
            lhs,
            rhs,
            (n - 1) as nat,
        );
        let before = compared_upto(
            st,
            output,
            elements,
            fields,
            operator,
            lhs,
            rhs,
            (n - 1) as nat,
        )->0;
        let i = (n - 1) as usize;
        let element = elements[n - 1];
        let left_at = emit_field(before.st, lhs, fields, i)->0;
        let right_at = emit_field(left_at.st, rhs, fields, i)->0;
        if element.is_aggregate() {
            lemma_binary_on(
                right_at.st,
                output,
                element,
                operator,
                Operand::Register(left_at.reg),
                Operand::Register(right_at.reg),
            );
        } else {
            let ty = crate::middle::lir::hir_lowering::state::lowered_ty(element)->0;
            let left = emit_load(right_at.st, Operand::Register(left_at.reg), ty)->0;
            let right = emit_load(left.st, Operand::Register(right_at.reg), ty)->0;
            lemma_binary_on(
                right.st,
                output,
                element,
                operator,
                Operand::Register(left.reg),
                Operand::Register(right.reg),
            );
        }
    }
}

proof fn lemma_all_results(st: Lowering, results: Seq<RegisterId>, n: nat)
    ensures
        all_results(st, results, n) matches Some(after) ==> goes_straight(st, after.st),
    decreases n,
{
    broadcast use group_straight;

    if n > 1 {
        lemma_all_results(st, results, (n - 1) as nat);
    }
}

pub(crate) broadcast proof fn lemma_binary_on(
    st: Lowering,
    output: Ty,
    operand: Ty,
    operator: BinaryOperatorKind,
    lhs: Operand,
    rhs: Operand,
)
    ensures
        (#[trigger] binary_on(st, output, operand, operator, lhs, rhs)) matches Some(after)
            ==> goes_straight(st, after.st),
    decreases operand, 0nat,
{
    broadcast use group_straight;

    match operand {
        Ty::Tuple(elements) => {
            if binary_on(st, output, operand, operator, lhs, rhs) is Some {
                let fields = crate::middle::lir::hir_lowering::state::lowered_upto(
                    elements,
                    elements.len(),
                )->0;
                lemma_compared_upto(
                    st,
                    output,
                    elements,
                    fields,
                    operator,
                    lhs,
                    rhs,
                    elements.len(),
                );
                let compared = compared_upto(
                    st,
                    output,
                    elements,
                    fields,
                    operator,
                    lhs,
                    rhs,
                    elements.len(),
                )->0;
                lemma_all_results(compared.st, compared.results, compared.results.len());
            }
        },
        _ => {},
    }
}

pub(crate) broadcast group group_values {
    group_straight,
    lemma_call_named,
    lemma_constant_string,
    lemma_print_string,
    lemma_copied_value,
    lemma_loaded_from,
    lemma_binary_on,
}

pub(crate) broadcast proof fn lemma_literal_rule(
    src: Source,
    st: Lowering,
    id: HirId,
    literal: Literal,
)
    ensures
        (#[trigger] literal_rule(src, st, id, literal)) matches Some(after) ==> goes_straight(st, after),
{
    broadcast use group_values;

    reveal(literal_rule);
}

pub(crate) broadcast proof fn lemma_local_rule(src: Source, st: Lowering, id: HirId, local: u32)
    ensures
        (#[trigger] local_rule(src, st, id, local)) matches Some(after) ==> goes_straight(st, after),
{
    broadcast use group_values;

    reveal(local_rule);
}

pub(crate) broadcast proof fn lemma_static_rule(
    src: Source,
    st: Lowering,
    id: HirId,
    def_id: LocalDefId,
)
    ensures
        (#[trigger] static_rule(src, st, id, def_id)) matches Some(after) ==> goes_straight(st, after),
{
    broadcast use group_values;

    reveal(static_rule);
}

pub(crate) broadcast proof fn lemma_variant_rule(
    src: Source,
    st: Lowering,
    id: HirId,
    def_id: LocalDefId,
)
    ensures
        (#[trigger] variant_rule(src, st, id, def_id)) matches Some(after) ==> goes_straight(st, after),
{
    broadcast use group_values;

    reveal(variant_rule);
}

pub(crate) broadcast proof fn lemma_function_rule(
    src: Source,
    st: Lowering,
    id: HirId,
    def_id: LocalDefId,
)
    ensures
        (#[trigger] function_rule(src, st, id, def_id)) matches Some(after) ==> goes_straight(st, after),
{
    broadcast use group_values;

    reveal(function_rule);
}

pub(crate) broadcast proof fn lemma_path_rule(src: Source, st: Lowering, id: HirId, path: Path)
    ensures
        (#[trigger] path_rule(src, st, id, path)) matches Some(after) ==> goes_straight(st, after),
{
    broadcast use group_values, lemma_local_rule, lemma_static_rule, lemma_variant_rule, lemma_function_rule;

    reveal(path_rule);
}

pub(crate) broadcast proof fn lemma_this_rule(src: Source, st: Lowering, id: HirId)
    ensures
        (#[trigger] this_rule(src, st, id)) matches Some(after) ==> goes_straight(st, after),
{
    broadcast use group_values;

    reveal(this_rule);
}

pub(crate) broadcast proof fn lemma_stored(st: Lowering, id: HirId, at: RegisterId, ty: TypeView)
    ensures
        (#[trigger] stored(st, id, at, ty)) matches Some(after) ==> goes_straight(st, after),
{
    broadcast use group_values;

    reveal(stored);
}

pub(crate) broadcast proof fn lemma_field_rule(
    src: Source,
    st: Lowering,
    id: HirId,
    target: Expression,
    name: Identifier,
    dereference: bool,
)
    ensures
        (#[trigger] field_rule(src, st, id, target, name, dereference)) matches Some(
            after,
        ) ==> goes_straight(st, after),
{
    broadcast use group_values;

    reveal(field_rule);
}

pub(crate) broadcast proof fn lemma_string_built(
    st: Lowering,
    id: HirId,
    pointer: Operand,
    length: Operand,
)
    ensures
        (#[trigger] string_built(st, id, pointer, length)) matches Some(
            after,
        ) ==> goes_straight(st, after),
{
    broadcast use group_values;

    reveal(string_built);
}

pub(crate) broadcast proof fn lemma_function_called(
    st: Lowering,
    symbol: InternedSymbol,
    own: Option<Operand>,
    values: Seq<Operand>,
    returned: Option<Ty>,
)
    ensures
        (#[trigger] function_called(st, symbol, own, values, returned)) matches Some(
            after,
        ) ==> goes_straight(st, after.st),
{
    broadcast use group_values;

    reveal(function_called);
}

pub(crate) broadcast proof fn lemma_subscript_rule(
    src: Source,
    st: Lowering,
    id: HirId,
    target: Expression,
    index: Expression,
)
    ensures
        (#[trigger] subscript_rule(src, st, id, target, index)) matches Some(
            after,
        ) ==> goes_straight(st, after),
{
    broadcast use group_values;

    reveal(subscript_rule);
}

pub(crate) broadcast proof fn lemma_cast_rule(
    src: Source,
    st: Lowering,
    id: HirId,
    castee: Expression,
    ty: hir::Type,
)
    ensures
        (#[trigger] cast_rule(src, st, id, castee, ty)) matches Some(after) ==> goes_straight(st, after),
{
    broadcast use group_values;

    reveal(cast_rule);
}

pub(crate) broadcast proof fn lemma_deref_rule(
    src: Source,
    st: Lowering,
    id: HirId,
    operand: Expression,
)
    ensures
        (#[trigger] deref_rule(src, st, id, operand)) matches Some(after) ==> goes_straight(st, after),
{
    broadcast use group_values;

    reveal(deref_rule);
}

pub(crate) broadcast proof fn lemma_unary_value_rule(
    src: Source,
    st: Lowering,
    id: HirId,
    operator: UnaryOperatorKind,
    operand: Expression,
)
    ensures
        (#[trigger] unary_value_rule(src, st, id, operator, operand)) matches Some(
            after,
        ) ==> goes_straight(st, after),
{
    broadcast use group_values;

    reveal(unary_value_rule);
}

pub(crate) broadcast proof fn lemma_return_rule(
    src: Source,
    st: Lowering,
    value: Option<Rc<Expression>>,
)
    ensures
        (#[trigger] return_rule(src, st, value)) matches Some(after) ==> goes_straight(st, after),
{
    broadcast use group_values;

    reveal(return_rule);
}

pub(crate) broadcast proof fn lemma_continue_rule(st: Lowering)
    ensures
        (#[trigger] continue_rule(st)) matches Some(after) ==> goes_on(st, after),
{
    broadcast use group_emit;

    reveal(continue_rule);
}

pub(crate) broadcast proof fn lemma_assigned_place(st: Lowering, lhs: Expression)
    ensures
        (#[trigger] assigned_place(st, lhs)) matches Some(after) ==> goes_straight(st, after.st),
{
    broadcast use group_values;

    reveal(assigned_place);
}

pub(crate) broadcast proof fn lemma_piece_printed(
    src: Source,
    st: Lowering,
    id: HirId,
    item: FormatStringItem,
    arguments: Seq<Rc<Expression>>,
)
    ensures
        (#[trigger] piece_printed(src, st, id, item, arguments)) matches Some(
            after,
        ) ==> goes_straight(st, after),
{
    broadcast use group_values;

    reveal(piece_printed);
}

pub(crate) broadcast proof fn lemma_pieces_printed(
    src: Source,
    st: Lowering,
    id: HirId,
    items: Seq<FormatStringItem>,
    arguments: Seq<Rc<Expression>>,
    n: nat,
)
    ensures
        (#[trigger] pieces_printed(src, st, id, items, arguments, n)) matches Some(after)
            ==> goes_straight(st, after),
    decreases n,
{
    broadcast use group_straight, lemma_piece_printed;

    if n > 0 {
        lemma_pieces_printed(src, st, id, items, arguments, (n - 1) as nat);
    }
}

pub(crate) broadcast proof fn lemma_interned_pieces(st: Lowering, pieces: Seq<FormatPiece>, n: nat)
    ensures
        (#[trigger] interned_pieces(st, pieces, n)) matches Some(after) ==> goes_straight(st, after.st),
    decreases n,
{
    broadcast use group_straight;

    if n > 0 {
        lemma_interned_pieces(st, pieces, (n - 1) as nat);
    }
}

pub(crate) broadcast proof fn lemma_break_rule(st: Lowering)
    ensures
        (#[trigger] break_rule(st)) matches Some(after) ==> goes_on(st, after),
{
    reveal(break_rule);
    reveal(goes_on);
    reveal(is_numbered);
    if break_rule(st) is Some {
        assert(break_rule(st)->0.loops.drop_last() =~= st.loops.drop_last());
    }
}

/// Filling another block instead of the current one.
pub(crate) broadcast proof fn lemma_replaced(st: Lowering, id: BlockId)
    requires
        st.stack.len() > 0,
    ensures
        goes_on(st, #[trigger] st.popped().pushed(id)),
{
    reveal(goes_on);
    reveal(is_numbered);
    assert(st.popped().pushed(id).stack.drop_last() =~= st.stack.drop_last());
}

pub(crate) broadcast proof fn lemma_logical_joined(
    st: Lowering,
    b: LogicalBlocks,
    is_and: bool,
    lhs: Operand,
    rhs: Operand,
)
    requires
        st.stack.len() > 0,
    ensures
        (#[trigger] logical_joined(st, b, is_and, lhs, rhs)) matches Some(after) ==> goes_on(
            st,
            after.st,
        ),
{
    broadcast use group_emit, lemma_replaced;

    reveal(logical_joined);
}

pub(crate) proof fn lemma_breaks_patched(
    st: Lowering,
    breaks: Seq<(BlockId, usize)>,
    end: BlockId,
    n: nat,
)
    ensures
        breaks_patched(st, breaks, end, n) matches Some(after) ==> goes_on(st, after) && after.stack
            == st.stack && after.loops == st.loops,
    decreases n,
{
    broadcast use group_state;

    if n > 0 && breaks_patched(st, breaks, end, n) is Some {
        lemma_breaks_patched(st, breaks, end, (n - 1) as nat);
        let before = breaks_patched(st, breaks, end, (n - 1) as nat)->0;
        let (id, at) = breaks[n - 1];
        let block = before.block(id);
        let patched = Lowering {
            blocks: before.blocks.update(
                id.0 as int,
                BlockView {
                    instructions: block.instructions.update(
                        at as int,
                        InstructionView::Jump { destination: end },
                    ),
                    ..block
                },
            ),
            ..before
        };
        assert(goes_on(before, patched)) by {
            reveal(goes_on);
            reveal(is_numbered);
        }
    }
}

pub(crate) broadcast proof fn lemma_branch_merged(
    st: Lowering,
    sources: Map<u32, Operand>,
    last: BlockId,
    merge: BlockId,
    value: HirId,
    is_selected: bool,
)
    ensures
        (#[trigger] branch_merged(st, sources, last, merge, value, is_selected)) matches Some(after)
            ==> goes_on(st, after.st) && after.st.stack == st.stack,
{
    broadcast use group_state;

    reveal(branch_merged);
}

pub(crate) broadcast proof fn lemma_conditional_joined(
    branching: Branching,
    b: ConditionalBlocks,
    id: HirId,
    ty: Ty,
    condition: Operand,
    aggregate: Option<RegisterId>,
)
    requires
        branching.st.stack.len() > 0,
    ensures
        (#[trigger] conditional_joined(branching, b, id, ty, condition, aggregate)) matches Some(
            after,
        ) ==> goes_on(branching.st, after),
{
    broadcast use group_emit, lemma_replaced;

    reveal(conditional_joined);
}

} // verus!
