//! What bodies are lowered to.

use crate::frontend::ast::UnaryOperatorKind;
use crate::frontend::intern::InternedSymbol;
use crate::middle::hir;
use crate::middle::hir::{
    ArrayInitializer, Block, BodyId, Expression, ExpressionKind, FunctionParameter,
    FunctionSignature, HirId, Item, ItemKind, LetStatement, Literal, Path, Resolution, Statement,
    StatementKind, StructInitializerField,
};
use crate::middle::lir::hir_lowering::elision::{
    immutable_parameters, is_passed_as_is, is_renaming,
};
use crate::middle::lir::hir_lowering::rules::{
    argument_count, assigned_place, branch_merged, break_rule, called_as, cast_rule, comment,
    conditional_joined, continue_rule, deref_rule, dest_for, emitted_as, field_rule, format_of,
    function_called, interned_pieces, is_main, item_at, literal_rule, logical_joined,
    loop_joined, operand_list, path_rule, pieces_printed, return_rule, return_ty, selects,
    self_value, stored, string_built, subscript_rule, this_rule, unary_value_rule, with_symbol,
    zero, Branching, ConditionalBlocks, LogicalBlocks, LoopBlocks,
};
use crate::middle::lir::hir_lowering::state::{
    binary_on, call_named, copied_value, emit, emit_alloc, emit_call, emit_element, emit_field,
    emit_load, emit_store, function_label, lowered_indirect, lowered_ty, place_for, print_string,
    slice_fields, with_name, word, Emitted, LoopView, Lowering, Source,
};
use crate::middle::lir::{BlockId, InstructionView, Operand, RegisterId, TypeView};
use crate::middle::ty::Ty;
use crate::text::decimal;
use std::rc::Rc;
use vstd::prelude::*;

verus! {

/// An expression in a context of its own.
pub open spec fn within(
    src: Source,
    st: Lowering,
    dest: Option<RegisterId>,
    place: bool,
    e: Expression,
) -> Option<Lowering>
    decreases e, 6nat,
{
    match expression_lowered(src, st.entering(dest, place), e) {
        Some(done) => Some(done.leaving(st)),
        None => None,
    }
}

/// The values of a list of expressions, up to the first `n`.
pub open spec fn values_lowered(
    src: Source,
    st: Lowering,
    list: Vec<Rc<Expression>>,
    first: nat,
    n: nat,
) -> Option<Lowering>
    decreases list, n,
{
    if n <= first || n > list@.len() {
        Some(st)
    } else {
        match values_lowered(src, st, list, first, (n - 1) as nat) {
            None => None,
            Some(before) => within(src, before, None, false, *list@[n - 1]),
        }
    }
}

/// The values of a list of expressions, and the state once they are known.
pub struct Passed {
    pub st: Lowering,
    pub values: Seq<Operand>,
}

/// The values of the first `n` arguments of a call.
pub open spec fn arguments_lowered(
    src: Source,
    st: Lowering,
    immutable: Seq<bool>,
    list: Vec<Rc<Expression>>,
    n: nat,
) -> Option<Passed>
    decreases list, n,
{
    if n == 0 || n > list@.len() {
        Some(Passed { st, values: Seq::empty() })
    } else {
        match arguments_lowered(src, st, immutable, list, (n - 1) as nat) {
            None => None,
            Some(before) => match within(
                src,
                before.st,
                None,
                is_passed_as_is(src, immutable, n - 1, *list@[n - 1]),
                *list@[n - 1],
            ) {
                None => None,
                Some(after) => if after.has_operand(list@[n - 1].hir_id) {
                    Some(
                        Passed {
                            st: after,
                            values: before.values.push(after.operand(list@[n - 1].hir_id)),
                        },
                    )
                } else {
                    None
                },
            },
        }
    }
}

/// The elements of an array, up to the first `n`, each in its place.
pub open spec fn elements_lowered(
    src: Source,
    st: Lowering,
    base: RegisterId,
    item: TypeView,
    list: Vec<Rc<Expression>>,
    n: nat,
) -> Option<Lowering>
    decreases list, n,
{
    if n == 0 || n > list@.len() {
        Some(st)
    } else {
        match elements_lowered(src, st, base, item, list, (n - 1) as nat) {
            None => None,
            Some(before) => match emit_element(
                before,
                Operand::Register(base),
                item,
                word((n - 1) as u64),
            ) {
                None => None,
                Some(at) => match within(
                    src,
                    at.st,
                    dest_for(item, at.reg),
                    false,
                    *list@[n - 1],
                ) {
                    None => None,
                    Some(valued) => stored(valued, list@[n - 1].hir_id, at.reg, item),
                },
            },
        }
    }
}

/// The elements of a tuple, up to the first `n`, each in its place.
pub open spec fn tuple_lowered(
    src: Source,
    st: Lowering,
    base: RegisterId,
    fields: Seq<TypeView>,
    list: Vec<Rc<Expression>>,
    n: nat,
) -> Option<Lowering>
    decreases list, n,
{
    if n == 0 || n > list@.len() {
        Some(st)
    } else {
        let e = *list@[n - 1];
        match tuple_lowered(src, st, base, fields, list, (n - 1) as nat) {
            None => None,
            Some(before) => match comment(before, "field "@ + decimal((n - 1) as nat)) {
                None => None,
                Some(noted) => match emit_field(
                    noted,
                    Operand::Register(base),
                    fields,
                    (n - 1) as usize,
                ) {
                    None => None,
                    Some(at) => if !src.types.has(e.hir_id) {
                        None
                    } else {
                        match lowered_ty(src.types.at(e.hir_id)) {
                            None => None,
                            Some(ty) => match within(
                                src,
                                at.st,
                                dest_for(ty, at.reg),
                                false,
                                e,
                            ) {
                                None => None,
                                Some(valued) => stored(valued, e.hir_id, at.reg, ty),
                            },
                        }
                    },
                },
            },
        }
    }
}

/// The fields of a structure, up to the first `n`, each in its place.
pub open spec fn fields_lowered(
    src: Source,
    st: Lowering,
    base: RegisterId,
    fields: Seq<TypeView>,
    list: Vec<Rc<StructInitializerField>>,
    n: nat,
) -> Option<Lowering>
    decreases list, n,
{
    if n == 0 || n > list@.len() {
        Some(st)
    } else {
        let field = list@[n - 1];
        match fields_lowered(src, st, base, fields, list, (n - 1) as nat) {
            None => None,
            Some(before) => if (field.name.symbol.0 as int) >= before.names.len() {
                None
            } else {
                match comment(
                    before,
                    "field "@ + decimal((n - 1) as nat) + " ("@
                        + before.names[field.name.symbol.0 as int] + ")"@,
                ) {
                    None => None,
                    Some(noted) => match emit_field(
                        noted,
                        Operand::Register(base),
                        fields,
                        (n - 1) as usize,
                    ) {
                        None => None,
                        Some(at) => if !src.types.has(field.value.hir_id) {
                            None
                        } else {
                            match lowered_ty(src.types.at(field.value.hir_id)) {
                                None => None,
                                Some(ty) => match within(
                                    src,
                                    at.st,
                                    dest_for(ty, at.reg),
                                    false,
                                    *field.value,
                                ) {
                                    None => None,
                                    Some(valued) => stored(
                                        valued,
                                        field.value.hir_id,
                                        at.reg,
                                        ty,
                                    ),
                                },
                            }
                        },
                    },
                }
            },
        }
    }
}

/// The structure that the value of an expression is, and the place for it.
pub open spec fn structure_of(src: Source, st: Lowering, id: HirId) -> Option<
    (Emitted, Seq<TypeView>),
> {
    if !src.types.has(id) {
        None
    } else {
        match lowered_ty(src.types.at(id)) {
            Some(TypeView::Struct(fields)) => match place_for(
                st,
                st.dest,
                TypeView::Struct(fields),
            ) {
                Some(base) => Some((base, fields)),
                None => None,
            },
            _ => None,
        }
    }
}

/// An array is built element by element.
pub open spec fn array_lowered(
    src: Source,
    st: Lowering,
    id: HirId,
    list: Vec<Rc<Expression>>,
) -> Option<Lowering>
    decreases list, list@.len() + 1,
{
    if !src.types.has(id) {
        None
    } else {
        match lowered_ty(src.types.at(id)) {
            Some(TypeView::Array(item, length)) => if length != list@.len() {
                None
            } else {
                match place_for(st, st.dest, TypeView::Array(item, length)) {
                    None => None,
                    Some(base) => match elements_lowered(
                        src,
                        base.st,
                        base.reg,
                        *item,
                        list,
                        list@.len(),
                    ) {
                        None => None,
                        Some(done) => Some(
                            done.with_operand(id, Operand::Register(base.reg)),
                        ),
                    },
                }
            },
            _ => None,
        }
    }
}

/// Calls a function of the program.
pub open spec fn function_call_lowered(
    src: Source,
    st: Lowering,
    id: HirId,
    name: Path,
    signature: FunctionSignature,
    body: BodyId,
    own: Option<Expression>,
    arguments: Vec<Rc<Expression>>,
) -> Option<Lowering>
    decreases arguments, arguments@.len() + 1,
{
    match (with_symbol(src, st, name), return_ty(src, signature)) {
        (Some((named, symbol)), Some(returned)) => {
            let own_value = match own {
                None => Some(None),
                Some(target) => match signature.self_parameter {
                    None => None,
                    Some(parameter) => match self_value(src, named, parameter, target) {
                        Some(value) => Some(Some(value)),
                        None => None,
                    },
                },
            };
            match own_value {
                None => None,
                Some(first) => match arguments_lowered(
                    src,
                    named,
                    immutable_parameters(src, body),
                    arguments,
                    arguments@.len(),
                ) {
                    None => None,
                    Some(passed) => called_as(
                        id,
                        function_called(passed.st, symbol, first, passed.values, returned),
                    ),
                },
            }
        },
        _ => None,
    }
}

/// Prints a format string with its arguments.
pub open spec fn print_lowered(
    src: Source,
    st: Lowering,
    id: HirId,
    arguments: Vec<Rc<Expression>>,
) -> Option<Lowering>
    decreases arguments, arguments@.len() + 1,
{
    if arguments@.len() == 0 {
        None
    } else {
        match arguments@[0].kind {
            ExpressionKind::Literal(Literal::String(symbol)) => if (symbol.0 as int)
                >= st.names.len() {
                None
            } else {
                let pieces = format_of(st.names[symbol.0 as int]);
                match interned_pieces(st, pieces, pieces.len()) {
                    None => None,
                    Some(parsed) => if arguments@.len() - 1 != argument_count(
                        pieces,
                        pieces.len(),
                    ) {
                        None
                    } else if arguments@.len() == 1 {
                        match values_lowered(src, parsed.st, arguments, 0, arguments@.len()) {
                            None => None,
                            Some(valued) => if valued.has_operand(arguments@[0].hir_id) {
                                emitted_as(
                                    id,
                                    print_string(valued, valued.operand(arguments@[0].hir_id)),
                                )
                            } else {
                                None
                            },
                        }
                    } else {
                        match values_lowered(src, parsed.st, arguments, 1, arguments@.len()) {
                            None => None,
                            Some(valued) => pieces_printed(
                                src,
                                valued,
                                id,
                                parsed.items,
                                arguments@,
                                parsed.items.len(),
                            ),
                        }
                    },
                }
            },
            _ => None,
        }
    }
}

/// Makes a string of an address and a length.
pub open spec fn str_lowered(
    src: Source,
    st: Lowering,
    id: HirId,
    arguments: Vec<Rc<Expression>>,
) -> Option<Lowering>
    decreases arguments, arguments@.len() + 1,
{
    if arguments@.len() < 2 {
        None
    } else {
        match values_lowered(src, st, arguments, 0, 2) {
            None => None,
            Some(valued) => match operand_list(valued, arguments@, 2) {
                None => None,
                Some(values) => string_built(valued, id, values[0], values[1]),
            },
        }
    }
}

/// Ends the program.
pub open spec fn exit_lowered(src: Source, st: Lowering, arguments: Vec<Rc<Expression>>) -> Option<
    Lowering,
>
    decreases arguments, arguments@.len() + 1,
{
    if arguments@.len() < 1 {
        None
    } else {
        match values_lowered(src, st, arguments, 0, 1) {
            None => None,
            Some(valued) => match (
                operand_list(valued, arguments@, 1),
                with_name(valued, "__$exit"@),
            ) {
                (Some(values), Some((named, symbol))) => match emit_call(
                    named,
                    function_label(symbol),
                    values,
                    None,
                ) {
                    Some(called) => Some(called.st),
                    None => None,
                },
                _ => None,
            },
        }
    }
}

/// Calls the operating system with a number and arguments.
pub open spec fn system_lowered(
    src: Source,
    st: Lowering,
    id: HirId,
    name: Seq<char>,
    number: u64,
    arguments: Vec<Rc<Expression>>,
) -> Option<Lowering>
    decreases arguments, arguments@.len() + 1,
{
    match values_lowered(src, st, arguments, 0, arguments@.len()) {
        None => None,
        Some(valued) => match operand_list(valued, arguments@, arguments@.len()) {
            None => None,
            Some(values) => emitted_as(
                id,
                call_named(valued, name, seq![word(number)] + values),
            ),
        },
    }
}

/// Opens a file.
pub open spec fn open_lowered(
    src: Source,
    st: Lowering,
    id: HirId,
    arguments: Vec<Rc<Expression>>,
) -> Option<Lowering>
    decreases arguments, arguments@.len() + 1,
{
    match arguments_lowered(src, st, Seq::empty(), arguments, arguments@.len()) {
        None => None,
        Some(passed) => if passed.values.len() < 3 {
            None
        } else {
            match emit_field(passed.st, passed.values[0], slice_fields(), 0) {
                None => None,
                Some(at) => match emit_load(
                    at.st,
                    Operand::Register(at.reg),
                    TypeView::Pointer,
                ) {
                    None => None,
                    Some(pointer) => emitted_as(
                        id,
                        call_named(
                            pointer.st,
                            "__$syscall_3"@,
                            seq![
                                word(2),
                                Operand::Register(pointer.reg),
                                passed.values[1],
                                passed.values[2],
                            ],
                        ),
                    ),
                },
            }
        },
    }
}

/// Calls a built-in function.
pub open spec fn intrinsic_lowered(
    src: Source,
    st: Lowering,
    id: HirId,
    name: InternedSymbol,
    arguments: Vec<Rc<Expression>>,
) -> Option<Lowering>
    decreases arguments, arguments@.len() + 2,
{
    if (name.0 as int) >= st.names.len() {
        None
    } else {
        let text = st.names[name.0 as int];
        if text == "print"@ {
            print_lowered(src, st, id, arguments)
        } else if text == "str"@ {
            str_lowered(src, st, id, arguments)
        } else if text == "exit"@ {
            exit_lowered(src, st, arguments)
        } else if text == "read"@ {
            system_lowered(src, st, id, "__$syscall_3"@, 0, arguments)
        } else if text == "open"@ {
            open_lowered(src, st, id, arguments)
        } else if text == "close"@ {
            system_lowered(src, st, id, "__$syscall_1"@, 3, arguments)
        } else {
            None
        }
    }
}

/// A call whose target has been lowered.
pub open spec fn call_lowered(
    src: Source,
    st: Lowering,
    id: HirId,
    target: Expression,
    arguments: Vec<Rc<Expression>>,
) -> Option<Lowering>
    decreases arguments, arguments@.len() + 3,
{
    match target.kind {
        ExpressionKind::Path(path) => if path.segments@.len() == 0 {
            None
        } else {
            match path.segments@.last().resolution {
                Resolution::Definition(kind, def_id) => if kind is Function
                    || kind is AssociatedFunction {
                    match item_at(src.module, def_id) {
                        Some(
                            Item { kind: ItemKind::Function { name, signature, body }, .. },
                        ) => function_call_lowered(
                            src,
                            st,
                            id,
                            name,
                            signature,
                            body,
                            None,
                            arguments,
                        ),
                        _ => None,
                    }
                } else {
                    None
                },
                Resolution::IntrinsicFunction(name) => intrinsic_lowered(
                    src,
                    st,
                    id,
                    name,
                    arguments,
                ),
                _ => None,
            }
        },
        ExpressionKind::FieldAccess {
            target: owner,
            is_method_call,
            ..
        } => if !is_method_call || !src.types.function_results.contains_key(src.owner.0)
            || !src.types.function_results[src.owner.0].method_resolutions.contains_key(
            target.hir_id.local_id.0,
        ) {
            None
        } else {
            match item_at(
                src.module,
                src.types.function_results[src.owner.0].method_resolutions[
                    target.hir_id.local_id.0
                ],
            ) {
                Some(
                    Item { kind: ItemKind::Function { name, signature, body }, .. },
                ) => function_call_lowered(
                    src,
                    st,
                    id,
                    name,
                    signature,
                    body,
                    Some(*owner),
                    arguments,
                ),
                _ => None,
            }
        },
        _ => None,
    }
}

/// A logical operator: its second operand is skipped where the first one
/// decides.
pub open spec fn logical_lowered(src: Source, st: Lowering, e: Expression) -> Option<Lowering>
    decreases e, 3nat,
{
    match e.kind {
        ExpressionKind::Binary { lhs, operator, rhs } => {
            let is_and = operator is LogicalAnd;
            if !src.types.has(e.hir_id) || !src.types.has(lhs.hir_id) || (is_and && !(src.types.at(
                e.hir_id,
            ).is_bool() && src.types.at(lhs.hir_id).is_bool())) {
                None
            } else {
                match within(src, st, None, false, *lhs) {
                    None => None,
                    Some(left) => if left.stack.len() == 0 {
                        None
                    } else {
                        let first = left.with_block();
                        match within(src, first.st.pushed(first.id), None, false, *rhs) {
                            None => None,
                            Some(right) => logical_ended(
                                right.popped(),
                                e.hir_id,
                                is_and,
                                left.stack.last(),
                                first.id,
                                lhs.hir_id,
                                rhs.hir_id,
                            ),
                        }
                    },
                }
            }
        },
        _ => None,
    }
}

/// The end of a logical operator whose operands have been lowered.
pub open spec fn logical_ended(
    st: Lowering,
    id: HirId,
    is_and: bool,
    lhs_last: BlockId,
    rhs_first: BlockId,
    lhs: HirId,
    rhs: HirId,
) -> Option<Lowering> {
    if st.blocks.len() == 0 {
        None
    } else {
        let fallthrough = st.with_block();
        let merge = fallthrough.st.with_block();
        if !merge.st.has_operand(lhs) || !merge.st.has_operand(rhs) {
            None
        } else {
            emitted_as(
                id,
                logical_joined(
                    merge.st,
                    LogicalBlocks {
                        lhs_last,
                        rhs_first,
                        rhs_last: st.last_block(),
                        fallthrough: fallthrough.id,
                        merge: merge.id,
                    },
                    is_and,
                    merge.st.operand(lhs),
                    merge.st.operand(rhs),
                ),
            )
        }
    }
}

/// A binary operator.
pub open spec fn binary_lowered(src: Source, st: Lowering, e: Expression) -> Option<Lowering>
    decreases e, 4nat,
{
    match e.kind {
        ExpressionKind::Binary { lhs, operator, rhs } => if operator is LogicalAnd
            || operator is LogicalOr {
            logical_lowered(src, st, e)
        } else if !src.types.has(e.hir_id) || !src.types.has(lhs.hir_id) {
            None
        } else {
            match within(src, st, None, false, *lhs) {
                None => None,
                Some(left) => match within(src, left, None, false, *rhs) {
                    None => None,
                    Some(right) => if !right.has_operand(lhs.hir_id) || !right.has_operand(
                        rhs.hir_id,
                    ) {
                        None
                    } else {
                        emitted_as(
                            e.hir_id,
                            binary_on(
                                right,
                                src.types.at(e.hir_id),
                                src.types.at(lhs.hir_id),
                                operator,
                                right.operand(lhs.hir_id),
                                right.operand(rhs.hir_id),
                            ),
                        )
                    },
                },
            }
        },
        _ => None,
    }
}

/// A unary operator.
pub open spec fn unary_lowered(src: Source, st: Lowering, e: Expression) -> Option<Lowering>
    decreases e, 4nat,
{
    match e.kind {
        ExpressionKind::Unary { operator, operand } => match operator {
            UnaryOperatorKind::Deref => match within(src, st, None, false, *operand) {
                None => None,
                Some(valued) => deref_rule(src, valued, e.hir_id, *operand),
            },
            UnaryOperatorKind::AddressOf { .. } => if st.place {
                None
            } else {
                match within(src, st, None, true, *operand) {
                    None => None,
                    Some(placed) => if placed.has_operand(operand.hir_id) {
                        Some(placed.with_operand(e.hir_id, placed.operand(operand.hir_id)))
                    } else {
                        None
                    },
                }
            },
            _ => match within(src, st, None, false, *operand) {
                None => None,
                Some(valued) => unary_value_rule(src, valued, e.hir_id, operator, *operand),
            },
        },
        _ => None,
    }
}

/// The place for the value of a conditional that is an aggregate.
pub struct AggregatePlace {
    pub st: Lowering,
    pub reg: Option<RegisterId>,
}

/// The place for the value of a conditional that is an aggregate.
pub open spec fn aggregate_place(st: Lowering, ty: Ty) -> Option<AggregatePlace> {
    if ty.is_aggregate() {
        match lowered_ty(ty) {
            None => None,
            Some(lir) => match place_for(st, st.dest, lir) {
                Some(base) => Some(AggregatePlace { st: base.st, reg: Some(base.reg) }),
                None => None,
            },
        }
    } else {
        Some(AggregatePlace { st, reg: None })
    }
}

/// A conditional whose condition has been lowered, with what it needs further
/// on.
#[derive(Clone, Copy)]
pub struct Conditional {
    pub condition: Operand,
    pub aggregate: Option<RegisterId>,
    pub start: BlockId,
    pub positive: BlockId,
}

/// The start of a conditional: its condition, the place for its value, and the
/// block of its first branch.
pub open spec fn conditional_started(
    src: Source,
    st: Lowering,
    id: HirId,
    condition: HirId,
) -> Option<(Lowering, Conditional)> {
    if !st.has_operand(condition) || !src.types.has(id) {
        None
    } else {
        match aggregate_place(st, src.types.at(id)) {
            None => None,
            Some(placed) => if placed.st.stack.len() == 0 {
                None
            } else {
                let start = placed.st.stack.last();
                let positive = placed.st.with_block();
                if !positive.st.has_block(positive.id) {
                    None
                } else {
                    Some(
                        (
                            positive.st.with_predecessor(positive.id, start),
                            Conditional {
                                condition: st.operand(condition),
                                aggregate: placed.reg,
                                start,
                                positive: positive.id,
                            },
                        ),
                    )
                }
            },
        }
    }
}

/// The end of a conditional without a second branch.
pub open spec fn short_conditional(
    st: Lowering,
    started: Conditional,
    id: HirId,
    ty: Ty,
    value: HirId,
) -> Option<Lowering> {
    if st.blocks.len() == 0 {
        None
    } else {
        let last = st.last_block();
        let merge = st.with_block();
        if !merge.st.has_block(merge.id) {
            None
        } else {
            match branch_merged(
                merge.st.with_predecessor(merge.id, started.start),
                Map::empty(),
                last,
                merge.id,
                value,
                selects(ty),
            ) {
                None => None,
                Some(branching) => conditional_joined(
                    branching,
                    ConditionalBlocks {
                        start: started.start,
                        positive: started.positive,
                        negative: merge.id,
                        merge: merge.id,
                    },
                    id,
                    ty,
                    started.condition,
                    started.aggregate,
                ),
            }
        }
    }
}

/// The end of a conditional whose two branches have been lowered.
pub open spec fn long_conditional(
    src: Source,
    st: Lowering,
    started: Conditional,
    id: HirId,
    ty: Ty,
    positive_value: HirId,
    positive_last: BlockId,
    negative: BlockId,
    negative_value: HirId,
) -> Option<Lowering> {
    let merge = st.with_block();
    if !src.types.has(negative_value) || merge.st.blocks.len() < 2 {
        None
    } else {
        let negative_last = BlockId(crate::index::wrap32(merge.st.blocks.len() - 2) as u32);
        let first = if src.types.at(negative_value).is_never() {
            Some(Branching { st: merge.st, sources: Map::empty() })
        } else {
            branch_merged(
                merge.st,
                Map::empty(),
                negative_last,
                merge.id,
                negative_value,
                selects(ty),
            )
        };
        match first {
            None => None,
            Some(one) => match branch_merged(
                one.st,
                one.sources,
                positive_last,
                merge.id,
                positive_value,
                selects(ty),
            ) {
                None => None,
                Some(branching) => conditional_joined(
                    branching,
                    ConditionalBlocks {
                        start: started.start,
                        positive: started.positive,
                        negative,
                        merge: merge.id,
                    },
                    id,
                    ty,
                    started.condition,
                    started.aggregate,
                ),
            },
        }
    }
}

/// A conditional.
pub open spec fn if_lowered(src: Source, st: Lowering, e: Expression) -> Option<Lowering>
    decreases e, 4nat,
{
    match e.kind {
        ExpressionKind::If { condition, positive, negative } => match within(
            src,
            st,
            None,
            false,
            *condition,
        ) {
            None => None,
            Some(tested) => match conditional_started(src, tested, e.hir_id, condition.hir_id) {
                None => None,
                Some((begun, started)) => {
                    let ty = src.types.at(e.hir_id);
                    let entered = begun.pushed(started.positive);
                    match block_lowered(
                        src,
                        entered.entering(started.aggregate, false),
                        *positive,
                    ) {
                        None => None,
                        Some(done) => {
                            let taken = done.leaving(entered).popped();
                            match negative {
                                None => short_conditional(
                                    taken,
                                    started,
                                    e.hir_id,
                                    ty,
                                    positive.hir_id,
                                ),
                                Some(other) => if taken.blocks.len() == 0 {
                                    None
                                } else {
                                    let positive_last = taken.last_block();
                                    let block = taken.with_block();
                                    if !block.st.has_block(block.id) {
                                        None
                                    } else {
                                        let inside = block.st.with_predecessor(
                                            block.id,
                                            started.start,
                                        ).pushed(block.id);
                                        match within(
                                            src,
                                            inside,
                                            started.aggregate,
                                            false,
                                            *other,
                                        ) {
                                            None => None,
                                            Some(refused) => long_conditional(
                                                src,
                                                refused.popped(),
                                                started,
                                                e.hir_id,
                                                ty,
                                                positive.hir_id,
                                                positive_last,
                                                block.id,
                                                other.hir_id,
                                            ),
                                        }
                                    }
                                },
                            }
                        },
                    }
                },
            },
        },
        _ => None,
    }
}

/// A loop.
pub open spec fn while_lowered(src: Source, st: Lowering, e: Expression) -> Option<Lowering>
    decreases e, 4nat,
{
    match e.kind {
        ExpressionKind::While { condition, block } => if st.stack.len() == 0 {
            None
        } else {
            let made = st.with_block();
            if !made.st.has_block(made.id) {
                None
            } else {
                let linked = made.st.with_predecessor(made.id, st.stack.last());
                let looped = Lowering {
                    loops: linked.loops.push(
                        LoopView { start_block: made.id, break_instructions: Seq::empty() },
                    ),
                    ..linked
                };
                match within(src, looped.pushed(made.id), None, false, *condition) {
                    None => None,
                    Some(tested) => {
                        let tested_done = tested.popped();
                        if tested_done.blocks.len() == 0 {
                            None
                        } else {
                            let body = tested_done.with_block();
                            let entered = body.st.pushed(body.id);
                            match block_lowered(src, entered.entering(None, false), *block) {
                                None => None,
                                Some(done) => {
                                    let run = done.leaving(entered).popped();
                                    if run.blocks.len() == 0 {
                                        None
                                    } else {
                                        loop_joined(
                                            run,
                                            LoopBlocks {
                                                condition: made.id,
                                                condition_last: tested_done.last_block(),
                                                body: body.id,
                                                body_last: run.last_block(),
                                            },
                                            *condition,
                                        )
                                    }
                                },
                            }
                        }
                    },
                }
            }
        },
        _ => None,
    }
}

/// An assignment.
pub open spec fn assignment_lowered(src: Source, st: Lowering, e: Expression) -> Option<Lowering>
    decreases e, 4nat,
{
    match e.kind {
        ExpressionKind::Assignment { lhs, rhs } => match within(src, st, None, true, *lhs) {
            None => None,
            Some(placed) => match assigned_place(placed, *lhs) {
                None => None,
                Some(at) => if !src.types.has(rhs.hir_id) {
                    None
                } else {
                    match lowered_ty(src.types.at(rhs.hir_id)) {
                        None => None,
                        Some(ty) => match within(
                            src,
                            at.st,
                            dest_for(ty, at.reg),
                            false,
                            *rhs,
                        ) {
                            None => None,
                            Some(valued) => stored(valued, rhs.hir_id, at.reg, ty),
                        },
                    }
                },
            },
        },
        _ => None,
    }
}

/// An expression: the code for its value, or for its place where that is asked
/// for. There is no result where a rule has none.
pub open spec fn expression_lowered(src: Source, st: Lowering, e: Expression) -> Option<Lowering>
    decreases e, 5nat,
{
    match e.kind {
        ExpressionKind::Literal(literal) => literal_rule(src, st, e.hir_id, literal),
        ExpressionKind::Path(path) => path_rule(src, st, e.hir_id, path),
        ExpressionKind::This => this_rule(src, st, e.hir_id),
        ExpressionKind::Array(ArrayInitializer::Repeated { .. }) => None,
        ExpressionKind::Array(ArrayInitializer::Specific(list)) => array_lowered(
            src,
            st,
            e.hir_id,
            list,
        ),
        ExpressionKind::Tuple(list) => match structure_of(src, st, e.hir_id) {
            None => None,
            Some((base, fields)) => match tuple_lowered(
                src,
                base.st,
                base.reg,
                fields,
                list,
                list@.len(),
            ) {
                None => None,
                Some(done) => Some(done.with_operand(e.hir_id, Operand::Register(base.reg))),
            },
        },
        ExpressionKind::Struct { fields: list, .. } => match structure_of(src, st, e.hir_id) {
            None => None,
            Some((base, fields)) => match fields_lowered(
                src,
                base.st,
                base.reg,
                fields,
                list,
                list@.len(),
            ) {
                None => None,
                Some(done) => Some(done.with_operand(e.hir_id, Operand::Register(base.reg))),
            },
        },
        ExpressionKind::Block(block) => match block_lowered(
            src,
            st.entering(st.dest, false),
            *block,
        ) {
            None => None,
            Some(done) => {
                let left = done.leaving(st);
                if left.has_operand(block.hir_id) {
                    Some(left.with_operand(e.hir_id, left.operand(block.hir_id)))
                } else {
                    Some(left)
                }
            },
        },
        ExpressionKind::FieldAccess { target, name, is_method_call, dereference } => match within(
            src,
            st,
            None,
            true,
            *target,
        ) {
            None => None,
            Some(placed) => if is_method_call {
                Some(placed)
            } else {
                field_rule(src, placed, e.hir_id, *target, name, dereference)
            },
        },
        ExpressionKind::FunctionCall { target, arguments } => match within(
            src,
            st,
            None,
            false,
            *target,
        ) {
            None => None,
            Some(targeted) => call_lowered(src, targeted, e.hir_id, *target, arguments),
        },
        ExpressionKind::Subscript { target, index } => match within(src, st, None, true, *target) {
            None => None,
            Some(placed) => match within(src, placed, None, false, *index) {
                None => None,
                Some(indexed) => subscript_rule(src, indexed, e.hir_id, *target, *index),
            },
        },
        ExpressionKind::Binary { .. } => binary_lowered(src, st, e),
        ExpressionKind::Unary { .. } => unary_lowered(src, st, e),
        ExpressionKind::Cast { expression, ty } => match within(
            src,
            st,
            None,
            false,
            *expression,
        ) {
            None => None,
            Some(valued) => cast_rule(src, valued, e.hir_id, *expression, *ty),
        },
        ExpressionKind::If { .. } => if_lowered(src, st, e),
        ExpressionKind::While { .. } => while_lowered(src, st, e),
        ExpressionKind::Assignment { .. } => assignment_lowered(src, st, e),
        ExpressionKind::OperatorAssignment { .. } => None,
        ExpressionKind::Break => break_rule(st),
        ExpressionKind::Continue => continue_rule(st),
        ExpressionKind::Return(value) => match value {
            None => return_rule(src, st, value),
            Some(v) => match within(src, st, st.struct_return, false, *v) {
                None => None,
                Some(valued) => return_rule(src, valued, value),
            },
        },
    }
}

/// A let statement that gives another name to a structure: the new variable
/// has the place of the old one.
pub open spec fn renaming_lowered(
    src: Source,
    st: Lowering,
    statement: LetStatement,
) -> Option<Lowering>
    decreases statement, 0nat,
{
    match statement.initializer {
        None => None,
        Some(init) => match within(src, st, None, true, *init) {
            None => None,
            Some(placed) => if !placed.has_operand(init.hir_id) {
                None
            } else {
                match placed.operand(init.hir_id) {
                    Operand::Register(reg) => Some(
                        Lowering {
                            locals: placed.locals.insert(statement.hir_id.local_id.0, reg),
                            ..placed
                        },
                    ),
                    _ => None,
                }
            },
        },
    }
}

/// A let statement: room on the stack, and the initial value there. Where it
/// only gives another name to a structure, no room is needed.
pub open spec fn let_lowered(src: Source, st: Lowering, statement: LetStatement) -> Option<Lowering>
    decreases statement, 1nat,
{
    let name = statement.name.symbol;
    if (name.0 as int) >= st.names.len() || !src.types.has(statement.hir_id) {
        None
    } else if is_renaming(src, statement) {
        match comment(st, "let "@ + st.names[name.0 as int] + " = ..."@) {
            Some(noted) => renaming_lowered(src, noted, statement),
            None => None,
        }
    } else {
        let ty = src.types.at(statement.hir_id);
        match (comment(st, "let "@ + st.names[name.0 as int] + " = ..."@), lowered_ty(ty)) {
            (Some(noted), Some(lir)) => match emit_alloc(noted, lir) {
                None => None,
                Some(room) => {
                    let bound = Lowering {
                        locals: room.st.locals.insert(statement.hir_id.local_id.0, room.reg),
                        ..room.st
                    };
                    match statement.initializer {
                        None => Some(bound),
                        Some(init) => {
                            let dest = if ty.is_aggregate() {
                                Some(room.reg)
                            } else {
                                None
                            };
                            match within(src, bound, dest, false, *init) {
                                None => None,
                                Some(valued) => if !valued.has_operand(init.hir_id) {
                                    None
                                } else if ty.is_aggregate() {
                                    Some(valued)
                                } else {
                                    emit_store(
                                        valued,
                                        Operand::Register(room.reg),
                                        valued.operand(init.hir_id),
                                        lir,
                                    )
                                },
                            }
                        },
                    }
                },
            },
            _ => None,
        }
    }
}

/// A statement in a context of its own.
pub open spec fn statement_lowered(src: Source, st: Lowering, statement: Statement) -> Option<
    Lowering,
>
    decreases statement, 0nat,
{
    let entered = st.entering(None, false);
    let done = match statement.kind {
        StatementKind::Let(binding) => let_lowered(src, entered, *binding),
        StatementKind::BareExpression(e) => expression_lowered(src, entered, *e),
        StatementKind::SemiExpression(e) => expression_lowered(src, entered, *e),
    };
    match done {
        Some(after) => Some(after.leaving(st)),
        None => None,
    }
}

/// The statements of a list, up to the first `n`.
pub open spec fn statements_lowered(
    src: Source,
    st: Lowering,
    list: Vec<Rc<Statement>>,
    n: nat,
) -> Option<Lowering>
    decreases list, n,
{
    if n == 0 || n > list@.len() {
        Some(st)
    } else {
        match statements_lowered(src, st, list, (n - 1) as nat) {
            None => None,
            Some(before) => statement_lowered(src, before, *list@[n - 1]),
        }
    }
}

/// A block has the value of the expression at its end.
pub open spec fn block_lowered(src: Source, st: Lowering, block: Block) -> Option<Lowering>
    decreases block, 0nat,
{
    match statements_lowered(src, st, block.statements, block.statements@.len()) {
        None => None,
        Some(listed) => match block.expression {
            None => Some(listed),
            Some(e) => match expression_lowered(src, listed, *e) {
                None => None,
                Some(valued) => if !src.types.has(e.hir_id) {
                    None
                } else if src.types.at(e.hir_id).is_unit() || src.types.at(e.hir_id).is_never() {
                    Some(valued)
                } else if valued.has_operand(e.hir_id) {
                    Some(valued.with_operand(block.hir_id, valued.operand(e.hir_id)))
                } else {
                    None
                },
            },
        },
    }
}

/// With a register for an argument.
pub open spec fn with_argument(st: Lowering, ty: Ty) -> Option<Emitted> {
    match lowered_indirect(ty) {
        None => None,
        Some(lir) => {
            let made = st.with_register(lir);
            Some(
                Emitted {
                    st: Lowering { arguments: made.st.arguments.push(made.reg), ..made.st },
                    reg: made.reg,
                },
            )
        },
    }
}

/// Registers for the first `n` parameters.
pub open spec fn parameters_lowered(
    src: Source,
    st: Lowering,
    params: Seq<Rc<FunctionParameter>>,
    tys: Seq<Rc<hir::Type>>,
    n: nat,
) -> Option<Lowering>
    decreases n,
{
    if n == 0 {
        Some(st)
    } else {
        match parameters_lowered(src, st, params, tys, (n - 1) as nat) {
            None => None,
            Some(before) => if !src.types.has(tys[n - 1].hir_id) {
                None
            } else {
                match with_argument(before, src.types.at(tys[n - 1].hir_id)) {
                    None => None,
                    Some(made) => Some(
                        Lowering {
                            locals: made.st.locals.insert(
                                params[n - 1].hir_id.local_id.0,
                                made.reg,
                            ),
                            ..made.st
                        },
                    ),
                }
            },
        }
    }
}

/// Returns from a function at its end.
pub open spec fn end_lowered(src: Source, st: Lowering, block: Block) -> Option<Lowering> {
    match block.expression {
        Some(e) => if !src.types.has(e.hir_id) {
            None
        } else if src.types.at(e.hir_id).is_aggregate() {
            match (st.struct_return, lowered_ty(src.types.at(e.hir_id))) {
                (Some(to), Some(lir)) => if !st.has_operand(e.hir_id) {
                    None
                } else {
                    match copied_value(st, Some(to), st.operand(e.hir_id), lir) {
                        None => None,
                        Some(copied) => emit(
                            copied.st,
                            InstructionView::Return { value: None },
                        ),
                    }
                },
                _ => None,
            }
        } else {
            end_returned(
                src,
                st,
                if st.has_operand(e.hir_id) {
                    Some(st.operand(e.hir_id))
                } else {
                    None
                },
            )
        },
        None => end_returned(src, st, None),
    }
}

/// Returns a scalar, or nothing, from the last block of a function. The main
/// function returns zero if nothing else is said.
pub open spec fn end_returned(src: Source, st: Lowering, value: Option<Operand>) -> Option<
    Lowering,
> {
    if st.blocks.len() == 0 || (src.local_symbol.0 as int) >= st.names.len() {
        None
    } else {
        let given = match value {
            Some(v) => Some(v),
            None => if is_main(src, st) {
                Some(zero())
            } else {
                None
            },
        };
        Some(
            st.with_instruction(st.last_block(), InstructionView::Return { value: given }),
        )
    }
}

/// The registers of a function before its body: for a structure that it
/// returns, for `self` and for the parameters.
pub open spec fn entry_lowered(
    src: Source,
    st: Lowering,
    signature: FunctionSignature,
    params: Seq<Rc<FunctionParameter>>,
) -> Option<Lowering> {
    match return_ty(src, signature) {
        None => None,
        Some(returned) => {
            let prepared = if returned is Some && returned->0.is_aggregate() {
                let made = st.with_register(TypeView::Pointer);
                Lowering { struct_return: Some(made.reg), ..made.st }
            } else {
                st
            };
            if !src.types.function_results.contains_key(src.owner.0) {
                None
            } else {
                let owned = match src.types.function_results[src.owner.0].self_type {
                    None => Some(prepared),
                    Some(ty) => match with_argument(prepared, ty) {
                        Some(made) => Some(made.st),
                        None => None,
                    },
                };
                let tys = signature.parameters@;
                match owned {
                    None => None,
                    Some(before) => parameters_lowered(
                        src,
                        before,
                        params,
                        tys,
                        if params.len() < tys.len() {
                            params.len()
                        } else {
                            tys.len()
                        },
                    ),
                }
            }
        },
    }
}

/// A function: its registers, its first block, its body and its end.
#[verifier::opaque]
pub open spec fn function_lowered(
    src: Source,
    st: Lowering,
    signature: FunctionSignature,
    body: BodyId,
) -> Option<Lowering> {
    if !src.module.has_body(body) {
        None
    } else {
        match entry_lowered(src, st, signature, src.module.body(body).params@) {
            None => None,
            Some(entered) => {
                let made = entered.with_block();
                match block_lowered(
                    src,
                    made.st.pushed(made.id),
                    *src.module.body(body).block,
                ) {
                    None => None,
                    Some(done) => end_lowered(src, done, *src.module.body(body).block),
                }
            },
        }
    }
}

} // verus!
