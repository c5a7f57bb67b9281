//! What lowering a whole body keeps.

use crate::frontend::intern::InternedSymbol;
use crate::middle::hir;
use crate::middle::hir::{
    ArrayInitializer, Block, BodyId, Expression, ExpressionKind, FunctionParameter,
    FunctionSignature, HirId, ItemKind, LetStatement, Path, Resolution, Statement, StatementKind,
    StructInitializerField,
};
use crate::middle::lir::{InstructionView, Operand, RegisterId, TypeView};
use crate::middle::lir::hir_lowering::elision::{immutable_parameters, is_renaming};
use crate::middle::lir::hir_lowering::flow;
use crate::middle::lir::hir_lowering::flow::{
    all_fit, all_noted, fits_in, flows, flows_on, grows, is_countable, is_noted, lemma_countable,
    lemma_flows_break, lemma_flows_continue, pending,
};
use crate::middle::lir::hir_lowering::laws;
use crate::middle::lir::hir_lowering::laws::{
    goes_on, goes_straight, is_numbered, lemma_assigned_place, lemma_call_named, lemma_cast_rule,
    lemma_deref_rule, lemma_field_rule, lemma_function_called, lemma_interned_pieces,
    lemma_literal_rule, lemma_logical_joined, lemma_path_rule, lemma_pieces_printed,
    lemma_return_rule, lemma_stored, lemma_string_built, lemma_subscript_rule, lemma_this_rule,
    lemma_unary_value_rule,
};
use crate::middle::lir::hir_lowering::lowered::{
    arguments_lowered, array_lowered, assignment_lowered, binary_lowered, block_lowered,
    call_lowered, conditional_started, elements_lowered, end_lowered, entry_lowered, exit_lowered,
    expression_lowered, fields_lowered, function_call_lowered, function_lowered, if_lowered,
    intrinsic_lowered, let_lowered, logical_lowered, open_lowered, parameters_lowered,
    print_lowered, statement_lowered, statements_lowered, str_lowered, structure_of, system_lowered,
    tuple_lowered, unary_lowered, values_lowered, while_lowered, with_argument, within,
};
use crate::middle::lir::hir_lowering::rules::{
    assigned_place, cast_rule, comment, dest_for, field_rule, format_of, interned_pieces, item_at,
    logical_joined, return_ty, subscript_rule, with_symbol, LogicalBlocks, LoopBlocks,
};
use crate::middle::lir::hir_lowering::state::{
    emit_alloc, emit_element, emit_field, emit_store, lowered_ty, place_for, word, Emitted,
    LoopView, Lowering, Source,
};
use crate::middle::lir::hir_lowering::turns::{
    is_wired, lemma_context, lemma_entered_later, lemma_logical_flows, lemma_long,
    lemma_loop_joined, lemma_nested, lemma_nested_context, lemma_opened, lemma_same_flow,
    lemma_short, lemma_started,
};
use crate::middle::lir::hir_lowering::visit::own_expression;
use crate::middle::ty::Ty;
use crate::text::decimal;
use std::rc::Rc;
use vstd::prelude::*;

verus! {

/// An expression in a context of its own.
spec fn within_of(
    src: Source,
    st: Lowering,
    dest: Option<RegisterId>,
    place: bool,
    e: &Expression,
) -> Option<Lowering> {
    within(src, st, dest, place, *e)
}

spec fn expression_of(src: Source, st: Lowering, e: &Expression) -> Option<Lowering> {
    expression_lowered(src, st, *e)
}

spec fn block_of(src: Source, st: Lowering, block: &Block) -> Option<Lowering> {
    block_lowered(src, st, *block)
}

spec fn let_of(src: Source, st: Lowering, statement: &LetStatement) -> Option<Lowering> {
    let_lowered(src, st, *statement)
}

spec fn renames(src: Source, statement: &LetStatement) -> bool {
    is_renaming(src, *statement)
}

spec fn place_of(st: Lowering, lhs: &Expression) -> Option<Emitted> {
    assigned_place(st, *lhs)
}

proof fn lemma_within(
    src: Source,
    st: Lowering,
    dest: Option<RegisterId>,
    place: bool,
    e: &Expression,
)
    ensures
        within(src, st, dest, place, *e) matches Some(after) ==> flows_on(st, after),
    decreases e, 6nat,
{
    lemma_expression(src, st.entering(dest, place), e);
    match expression_of(src, st.entering(dest, place), &*e) {
        Some(done) => lemma_context(st, dest, place, done),
        None => {},
    }
}

proof fn lemma_values(
    src: Source,
    st: Lowering,
    list: Vec<Rc<Expression>>,
    first: nat,
    n: nat,
)
    ensures
        values_lowered(src, st, list, first, n) matches Some(after) ==> flows_on(st, after),
    decreases list, n,
{
    broadcast use flow::group_flows, laws::group_straight;

    if n > first && n <= list@.len() {
        lemma_values(src, st, list, first, (n - 1) as nat);
        match values_lowered(src, st, list, first, (n - 1) as nat) {
            Some(before) => lemma_within(src, before, None, false, &*list@[n - 1]),
            None => {},
        }
    }
}

proof fn lemma_arguments(
    src: Source,
    st: Lowering,
    immutable: Seq<bool>,
    list: Vec<Rc<Expression>>,
    n: nat,
)
    ensures
        arguments_lowered(src, st, immutable, list, n) matches Some(after) ==> flows_on(st, after.st),
    decreases list, n,
{
    broadcast use flow::group_flows, laws::group_straight;

    if n > 0 && n <= list@.len() {
        lemma_arguments(src, st, immutable, list, (n - 1) as nat);
        match arguments_lowered(src, st, immutable, list, (n - 1) as nat) {
            Some(before) => {
                lemma_within(src, before.st, None, true, &*list@[n - 1]);
                lemma_within(src, before.st, None, false, &*list@[n - 1]);
            },
            None => {},
        }
    }
}

proof fn lemma_elements(
    src: Source,
    st: Lowering,
    base: RegisterId,
    item: TypeView,
    list: Vec<Rc<Expression>>,
    n: nat,
)
    ensures
        elements_lowered(src, st, base, item, list, n) matches Some(after) ==> flows_on(st, after),
    decreases list, n,
{
    broadcast use flow::group_flows, laws::group_straight, lemma_stored;

    if n > 0 && n <= list@.len() {
        lemma_elements(src, st, base, item, list, (n - 1) as nat);
        match elements_lowered(src, st, base, item, list, (n - 1) as nat) {
            Some(before) => {
                match emit_element(before, Operand::Register(base), item, word((n - 1) as u64)) {
                    Some(at) => {
                        lemma_within(src, at.st, dest_for(item, at.reg), false, &*list@[n - 1]);
                    },
                    None => {},
                }
            },
            None => {},
        }
    }
}

proof fn lemma_tuple(
    src: Source,
    st: Lowering,
    base: RegisterId,
    fields: Seq<TypeView>,
    list: Vec<Rc<Expression>>,
    n: nat,
)
    ensures
        tuple_lowered(src, st, base, fields, list, n) matches Some(after) ==> flows_on(st, after),
    decreases list, n,
{
    broadcast use flow::group_flows, laws::group_straight, lemma_stored;

    if n > 0 && n <= list@.len() && tuple_lowered(src, st, base, fields, list, n) is Some {
        let e = &*list@[n - 1];
        lemma_tuple(src, st, base, fields, list, (n - 1) as nat);
        let before = tuple_lowered(src, st, base, fields, list, (n - 1) as nat)->0;
        let noted = comment(before, "field "@ + decimal((n - 1) as nat))->0;
        let at = emit_field(noted, Operand::Register(base), fields, (n - 1) as usize)->0;
        let ty = lowered_ty(src.types.at(e.hir_id))->0;
        lemma_within(src, at.st, dest_for(ty, at.reg), false, e);
    }
}

proof fn lemma_fields(
    src: Source,
    st: Lowering,
    base: RegisterId,
    fields: Seq<TypeView>,
    list: Vec<Rc<StructInitializerField>>,
    n: nat,
)
    ensures
        fields_lowered(src, st, base, fields, list, n) matches Some(after) ==> flows_on(st, after),
    decreases list, n,
{
    broadcast use flow::group_flows, laws::group_straight, lemma_stored;

    if n > 0 && n <= list@.len() && fields_lowered(src, st, base, fields, list, n) is Some {
        let field = list@[n - 1];
        lemma_fields(src, st, base, fields, list, (n - 1) as nat);
        let before = fields_lowered(src, st, base, fields, list, (n - 1) as nat)->0;
        let noted = comment(
            before,
            "field "@ + decimal((n - 1) as nat) + " ("@ + before.names[field.name.symbol.0 as int]
                + ")"@,
        )->0;
        let at = emit_field(noted, Operand::Register(base), fields, (n - 1) as usize)->0;
        let ty = lowered_ty(src.types.at(field.value.hir_id))->0;
        lemma_within(src, at.st, dest_for(ty, at.reg), false, &*field.value);
    }
}

proof fn lemma_array(src: Source, st: Lowering, id: HirId, list: Vec<Rc<Expression>>)
    ensures
        array_lowered(src, st, id, list) matches Some(after) ==> flows_on(st, after),
    decreases list, list@.len() + 1,
{
    broadcast use flow::group_flows, laws::group_straight;

    if array_lowered(src, st, id, list) is Some {
        let ty = lowered_ty(src.types.at(id))->0;
        match ty {
            TypeView::Array(item, length) => {
                let base = place_for(st, st.dest, ty)->0;
                lemma_elements(src, base.st, base.reg, *item, list, list@.len());
            },
            _ => {},
        }
    }
}

proof fn lemma_function_call(
    src: Source,
    st: Lowering,
    id: HirId,
    name: Path,
    signature: FunctionSignature,
    body: BodyId,
    own: Option<&Expression>,
    arguments: Vec<Rc<Expression>>,
)
    ensures
        function_call_lowered(
            src,
            st,
            id,
            name,
            signature,
            body,
            own_expression(own),
            arguments,
        ) matches Some(after) ==> flows_on(st, after),
    decreases arguments, arguments@.len() + 1,
{
    broadcast use flow::group_flows, laws::group_straight, lemma_function_called;

    match with_symbol(src, st, name) {
        Some((named, symbol)) => {
            lemma_arguments(
                src,
                named,
                immutable_parameters(src, body),
                arguments,
                arguments@.len(),
            );
        },
        None => {},
    }
}

proof fn lemma_print(src: Source, st: Lowering, id: HirId, arguments: Vec<Rc<Expression>>)
    ensures
        print_lowered(src, st, id, arguments) matches Some(after) ==> flows_on(st, after),
    decreases arguments, arguments@.len() + 1,
{
    broadcast use flow::group_flows, laws::group_values, lemma_interned_pieces, lemma_pieces_printed;

    if print_lowered(src, st, id, arguments) is Some {
        match arguments@[0].kind {
            ExpressionKind::Literal(hir::Literal::String(symbol)) => {
                let pieces = format_of(st.names[symbol.0 as int]);
                let parsed = interned_pieces(st, pieces, pieces.len())->0;
                lemma_values(src, parsed.st, arguments, 0, arguments@.len());
                lemma_values(src, parsed.st, arguments, 1, arguments@.len());
            },
            _ => {},
        }
    }
}

proof fn lemma_str(src: Source, st: Lowering, id: HirId, arguments: Vec<Rc<Expression>>)
    ensures
        str_lowered(src, st, id, arguments) matches Some(after) ==> flows_on(st, after),
    decreases arguments, arguments@.len() + 1,
{
    broadcast use flow::group_flows, laws::group_straight, lemma_string_built;

    if arguments@.len() >= 2 {
        lemma_values(src, st, arguments, 0, 2);
    }
}

proof fn lemma_exit(src: Source, st: Lowering, arguments: Vec<Rc<Expression>>)
    ensures
        exit_lowered(src, st, arguments) matches Some(after) ==> flows_on(st, after),
    decreases arguments, arguments@.len() + 1,
{
    broadcast use flow::group_flows, laws::group_straight;

    if arguments@.len() >= 1 {
        lemma_values(src, st, arguments, 0, 1);
    }
}

proof fn lemma_system(
    src: Source,
    st: Lowering,
    id: HirId,
    name: Seq<char>,
    number: u64,
    arguments: Vec<Rc<Expression>>,
)
    ensures
        system_lowered(src, st, id, name, number, arguments) matches Some(after) ==> flows_on(
            st,
            after,
        ),
    decreases arguments, arguments@.len() + 1,
{
    broadcast use flow::group_flows, laws::group_straight, lemma_call_named;

    lemma_values(src, st, arguments, 0, arguments@.len());
}

proof fn lemma_open(src: Source, st: Lowering, id: HirId, arguments: Vec<Rc<Expression>>)
    ensures
        open_lowered(src, st, id, arguments) matches Some(after) ==> flows_on(st, after),
    decreases arguments, arguments@.len() + 1,
{
    broadcast use flow::group_flows, laws::group_straight, lemma_call_named;

    lemma_arguments(src, st, Seq::empty(), arguments, arguments@.len());
}

proof fn lemma_intrinsic(
    src: Source,
    st: Lowering,
    id: HirId,
    name: InternedSymbol,
    arguments: Vec<Rc<Expression>>,
)
    ensures
        intrinsic_lowered(src, st, id, name, arguments) matches Some(after) ==> flows_on(st, after),
    decreases arguments, arguments@.len() + 2,
{
    lemma_print(src, st, id, arguments);
    lemma_str(src, st, id, arguments);
    lemma_exit(src, st, arguments);
    lemma_system(src, st, id, "__$syscall_3"@, 0, arguments);
    lemma_system(src, st, id, "__$syscall_1"@, 3, arguments);
    lemma_open(src, st, id, arguments);
}

proof fn lemma_call(
    src: Source,
    st: Lowering,
    id: HirId,
    target: &Expression,
    arguments: Vec<Rc<Expression>>,
)
    ensures
        call_lowered(src, st, id, *target, arguments) matches Some(after) ==> flows_on(st, after),
    decreases arguments, arguments@.len() + 3,
{
    match target.kind {
        ExpressionKind::Path(path) => {
            if path.segments@.len() > 0 {
                match path.segments@.last().resolution {
                    Resolution::Definition(_, def_id) => match item_at(src.module, def_id) {
                        Some(item) => match item.kind {
                            ItemKind::Function { name, signature, body } => lemma_function_call(
                                src,
                                st,
                                id,
                                name,
                                signature,
                                body,
                                None,
                                arguments,
                            ),
                            _ => {},
                        },
                        None => {},
                    },
                    Resolution::IntrinsicFunction(name) => lemma_intrinsic(
                        src,
                        st,
                        id,
                        name,
                        arguments,
                    ),
                    _ => {},
                }
            }
        },
        ExpressionKind::FieldAccess { target: owner, .. } => {
            if src.types.function_results.contains_key(src.owner.0)
                && src.types.function_results[src.owner.0].method_resolutions.contains_key(
                target.hir_id.local_id.0,
            ) {
                match item_at(
                    src.module,
                    src.types.function_results[src.owner.0].method_resolutions[
                        target.hir_id.local_id.0
                    ],
                ) {
                    Some(item) => match item.kind {
                        ItemKind::Function { name, signature, body } => lemma_function_call(
                            src,
                            st,
                            id,
                            name,
                            signature,
                            body,
                            Some(&*owner),
                            arguments,
                        ),
                        _ => {},
                    },
                    None => {},
                }
            }
        },
        _ => {},
    }
}

proof fn lemma_logical(src: Source, st: Lowering, e: &Expression)
    ensures
        logical_lowered(src, st, *e) matches Some(after) ==> flows_on(st, after),
    decreases e, 3nat,
{
    broadcast use flow::group_grows, flow::group_flows, laws::group_state, lemma_logical_joined;

    match e.kind {
        ExpressionKind::Binary { lhs, operator, rhs } => {
            if logical_lowered(src, st, *e) is Some {
                let is_and = operator is LogicalAnd;
                lemma_within(src, st, None, false, &*lhs);
                let left = within_of(src, st, None, false, &*lhs)->0;
                let first = left.with_block();
                let entered = first.st.pushed(first.id);
                lemma_within(src, entered, None, false, &*rhs);
                let right = within_of(src, entered, None, false, &*rhs)->0;
                lemma_nested(first.st, first.id, right);
                let run = right.popped();
                let fallthrough = run.with_block();
                let merge = fallthrough.st.with_block();
                assert(goes_on(st, merge.st));
                let b = LogicalBlocks {
                    lhs_last: left.stack.last(),
                    rhs_first: first.id,
                    rhs_last: run.last_block(),
                    fallthrough: fallthrough.id,
                    merge: merge.id,
                };
                let after = logical_lowered(src, st, *e)->0;
                lemma_logical_flows(
                    run,
                    merge.st,
                    b,
                    is_and,
                    merge.st.operand(lhs.hir_id),
                    merge.st.operand(rhs.hir_id),
                );
                let joined = logical_joined(
                    merge.st,
                    b,
                    is_and,
                    merge.st.operand(lhs.hir_id),
                    merge.st.operand(rhs.hir_id),
                )->0;
                assert(after == joined.st.with_operand(e.hir_id, Operand::Register(joined.reg)));
                assert(goes_on(st, after));
                assert(grows(st, run));
                assert(grows(run, joined.st));
                assert(grows(joined.st, after));
                assert(flows_on(st, after)) by {
                    reveal(flows_on);
                    if is_countable(after) && flows(st) {
                        lemma_countable(joined.st, after);
                        lemma_countable(run, joined.st);
                        assert(grows(first.st, run));
                        lemma_countable(first.st, run);
                        assert(grows(left, first.st));
                        lemma_countable(left, first.st);
                        assert(flows(left));
                        assert(first.st.blocks.len() == left.blocks.len() + 1);
                        lemma_opened(left, entered);
                        assert(is_wired(run));
                        assert(flows(joined.st));
                        lemma_same_flow(joined.st, after);
                    }
                }
            }
        },
        _ => {},
    }
}

proof fn lemma_binary(src: Source, st: Lowering, e: &Expression)
    ensures
        binary_lowered(src, st, *e) matches Some(after) ==> flows_on(st, after),
    decreases e, 4nat,
{
    broadcast use flow::group_flows, laws::group_values;

    match e.kind {
        ExpressionKind::Binary { lhs, operator, rhs } => {
            lemma_logical(src, st, e);
            lemma_within(src, st, None, false, &*lhs);
            match within_of(src, st, None, false, &*lhs) {
                Some(left) => lemma_within(src, left, None, false, &*rhs),
                None => {},
            }
        },
        _ => {},
    }
}

proof fn lemma_unary(src: Source, st: Lowering, e: &Expression)
    ensures
        unary_lowered(src, st, *e) matches Some(after) ==> flows_on(st, after),
    decreases e, 4nat,
{
    broadcast use flow::group_flows, laws::group_straight, lemma_deref_rule, lemma_unary_value_rule;

    match e.kind {
        ExpressionKind::Unary { operator, operand } => {
            lemma_within(src, st, None, false, &*operand);
            lemma_within(src, st, None, true, &*operand);
        },
        _ => {},
    }
}

proof fn lemma_assignment(src: Source, st: Lowering, e: &Expression)
    ensures
        assignment_lowered(src, st, *e) matches Some(after) ==> flows_on(st, after),
    decreases e, 4nat,
{
    broadcast use flow::group_flows, laws::group_straight, lemma_assigned_place, lemma_stored;

    match e.kind {
        ExpressionKind::Assignment { lhs, rhs } => {
            if assignment_lowered(src, st, *e) is Some {
                lemma_within(src, st, None, true, &*lhs);
                let placed = within_of(src, st, None, true, &*lhs)->0;
                let at = place_of(placed, &*lhs)->0;
                let ty = lowered_ty(src.types.at(rhs.hir_id))->0;
                lemma_within(src, at.st, dest_for(ty, at.reg), false, &*rhs);
            }
        },
        _ => {},
    }
}

proof fn lemma_if(src: Source, st: Lowering, e: &Expression)
    ensures
        if_lowered(src, st, *e) matches Some(after) ==> flows_on(st, after),
    decreases e, 4nat,
{
    broadcast use flow::group_grows, flow::group_flows, laws::group_state;

    match e.kind {
        ExpressionKind::If { condition, positive, negative } => {
            if if_lowered(src, st, *e) is Some {
                let after = if_lowered(src, st, *e)->0;
                lemma_within(src, st, None, false, &*condition);
                let tested = within_of(src, st, None, false, &*condition)->0;
                lemma_started(src, tested, e.hir_id, condition.hir_id);
                let (begun, started) = conditional_started(
                    src,
                    tested,
                    e.hir_id,
                    condition.hir_id,
                )->0;
                let ty = src.types.at(e.hir_id);
                let entered = begun.pushed(started.positive);
                lemma_block(src, entered.entering(started.aggregate, false), &*positive);
                let done = block_of(
                    src,
                    entered.entering(started.aggregate, false),
                    &*positive,
                )->0;
                lemma_nested_context(begun, started.positive, started.aggregate, false, done);
                let taken = done.leaving(entered).popped();
                assert(grows(st, tested) && grows(tested, begun) && grows(begun, taken));
                assert(grows(tested, taken));
                assert(grows(st, taken));
                assert(goes_on(st, taken));
                lemma_entered_later(begun, taken, started.positive, started.start);
                match negative {
                    None => {
                        lemma_short(taken, started, e.hir_id, ty, positive.hir_id);
                        assert(flows_on(st, after)) by {
                            reveal(flows_on);
                            if is_countable(after) && flows(st) {
                                lemma_countable(taken, after);
                                lemma_countable(begun, taken);
                                lemma_countable(tested, begun);
                            }
                        }
                    },
                    Some(other) => {
                        let positive_last = taken.last_block();
                        let block = taken.with_block();
                        let linked = block.st.with_predecessor(block.id, started.start);
                        let inside = linked.pushed(block.id);
                        assert(grows(taken, block.st) && grows(block.st, linked));
                        assert(grows(taken, linked));
                        assert(grows(linked, inside));
                        assert(goes_on(st, linked));
                        lemma_within(src, inside, started.aggregate, false, &*other);
                        let refused = within_of(
                            src,
                            inside,
                            started.aggregate,
                            false,
                            &*other,
                        )->0;
                        lemma_nested(linked, block.id, refused);
                        let run = refused.popped();
                        assert(grows(taken, run));
                        assert(linked.blocks[block.id.0 as int].predecessors.contains(
                            started.start.0,
                        ));
                        lemma_entered_later(linked, run, block.id, started.start);
                        lemma_entered_later(taken, run, started.positive, started.start);
                        lemma_long(
                            src,
                            run,
                            started,
                            e.hir_id,
                            ty,
                            positive.hir_id,
                            positive_last,
                            block.id,
                            other.hir_id,
                        );
                        assert(grows(st, run));
                        assert(goes_on(st, run));
                        assert(flows_on(st, after)) by {
                            reveal(flows_on);
                            if is_countable(after) && flows(st) {
                                lemma_countable(run, after);
                                lemma_countable(linked, run);
                                lemma_countable(taken, linked);
                                lemma_countable(begun, taken);
                                lemma_countable(tested, begun);
                                lemma_opened(taken, inside);
                            }
                        }
                    },
                }
            }
        },
        _ => {},
    }
}

proof fn lemma_while(src: Source, st: Lowering, e: &Expression)
    ensures
        while_lowered(src, st, *e) matches Some(after) ==> flows_on(st, after),
    decreases e, 4nat,
{
    broadcast use flow::group_grows, flow::group_flows, laws::group_state;

    match e.kind {
        ExpressionKind::While { condition, block } => {
            if while_lowered(src, st, *e) is Some {
                let after = while_lowered(src, st, *e)->0;
                let made = st.with_block();
                let linked = made.st.with_predecessor(made.id, st.stack.last());
                let looped = Lowering {
                    loops: linked.loops.push(
                        LoopView { start_block: made.id, break_instructions: Seq::empty() },
                    ),
                    ..linked
                };
                assert(goes_on(st, linked) && linked.stack == st.stack);
                assert(grows(st, made.st) && grows(made.st, linked));
                assert(grows(linked, looped)) by {
                    reveal(grows);
                }
                assert(grows(st, linked));
                assert(grows(st, looped));
                let first = looped.pushed(made.id);
                lemma_within(src, first, None, false, &*condition);
                let tested = within_of(src, first, None, false, &*condition)->0;
                lemma_nested(looped, made.id, tested);
                let tested_done = tested.popped();
                let body = tested_done.with_block();
                let entered = body.st.pushed(body.id);
                lemma_block(src, entered.entering(None, false), &*block);
                let done = block_of(src, entered.entering(None, false), &*block)->0;
                lemma_nested_context(body.st, body.id, None, false, done);
                let run = done.leaving(entered).popped();
                assert(goes_on(looped, run) && run.stack == st.stack);
                assert(looped.loops.drop_last() =~= linked.loops);
                let b = LoopBlocks {
                    condition: made.id,
                    condition_last: tested_done.last_block(),
                    body: body.id,
                    body_last: run.last_block(),
                };
                assert(grows(looped, tested_done) && grows(tested_done, body.st) && grows(
                    body.st,
                    run,
                ));
                assert(grows(tested_done, run));
                assert(grows(looped, run));
                assert(grows(st, run));
                lemma_loop_joined(linked, looped, run, b, &*condition);
                assert(goes_on(st, after));
                assert(grows(st, after));
                assert(flows_on(st, after)) by {
                    reveal(flows_on);
                    if is_countable(after) && flows(st) {
                        lemma_countable(run, after);
                        lemma_countable(body.st, run);
                        lemma_countable(tested_done, body.st);
                        lemma_countable(looped, tested_done);
                        lemma_opened(st, first);
                        assert(is_wired(tested_done));
                        assert(grows(tested_done, entered));
                        lemma_opened(tested_done, entered);
                        assert(is_wired(run));
                    }
                }
            }
        },
        _ => {},
    }
}

proof fn lemma_expression(src: Source, st: Lowering, e: &Expression)
    ensures
        expression_lowered(src, st, *e) matches Some(after) ==> flows_on(st, after),
    decreases e, 5nat,
{
    broadcast use flow::group_flows, laws::group_straight;

    match e.kind {
        ExpressionKind::Literal(literal) => lemma_literal_rule(src, st, e.hir_id, literal),
        ExpressionKind::Path(path) => lemma_path_rule(src, st, e.hir_id, path),
        ExpressionKind::This => lemma_this_rule(src, st, e.hir_id),
        ExpressionKind::Array(ArrayInitializer::Repeated { .. }) => {},
        ExpressionKind::Array(ArrayInitializer::Specific(list)) => lemma_array(
            src,
            st,
            e.hir_id,
            list,
        ),
        ExpressionKind::Tuple(list) => {
            lemma_structure(src, st, e.hir_id);
            match structure_of(src, st, e.hir_id) {
                Some((base, fields)) => lemma_tuple(
                    src,
                    base.st,
                    base.reg,
                    fields,
                    list,
                    list@.len(),
                ),
                None => {},
            }
        },
        ExpressionKind::Struct { fields: list, .. } => {
            lemma_structure(src, st, e.hir_id);
            match structure_of(src, st, e.hir_id) {
                Some((base, fields)) => lemma_fields(
                    src,
                    base.st,
                    base.reg,
                    fields,
                    list,
                    list@.len(),
                ),
                None => {},
            }
        },
        ExpressionKind::Block(block) => {
            lemma_block(src, st.entering(st.dest, false), &*block);
            match block_of(src, st.entering(st.dest, false), &*block) {
                Some(done) => lemma_context(st, st.dest, false, done),
                None => {},
            }
        },
        ExpressionKind::FieldAccess { target, name, is_method_call, dereference } => {
            lemma_within(src, st, None, true, &*target);
            match within_of(src, st, None, true, &*target) {
                Some(placed) => lemma_field(
                    src,
                    placed,
                    e.hir_id,
                    &*target,
                    name,
                    dereference,
                ),
                None => {},
            }
        },
        ExpressionKind::FunctionCall { target, arguments } => {
            lemma_within(src, st, None, false, &*target);
            match within_of(src, st, None, false, &*target) {
                Some(targeted) => lemma_call(src, targeted, e.hir_id, &*target, arguments),
                None => {},
            }
        },
        ExpressionKind::Subscript { target, index } => {
            lemma_within(src, st, None, true, &*target);
            match within_of(src, st, None, true, &*target) {
                Some(placed) => {
                    lemma_within(src, placed, None, false, &*index);
                    match within_of(src, placed, None, false, &*index) {
                        Some(indexed) => lemma_subscript(
                            src,
                            indexed,
                            e.hir_id,
                            &*target,
                            &*index,
                        ),
                        None => {},
                    }
                },
                None => {},
            }
        },
        ExpressionKind::Binary { .. } => lemma_binary(src, st, e),
        ExpressionKind::Unary { .. } => lemma_unary(src, st, e),
        ExpressionKind::Cast { expression, ty } => {
            lemma_within(src, st, None, false, &*expression);
            match within_of(src, st, None, false, &*expression) {
                Some(valued) => lemma_cast(src, valued, e.hir_id, &*expression, &*ty),
                None => {},
            }
        },
        ExpressionKind::If { .. } => lemma_if(src, st, e),
        ExpressionKind::While { .. } => lemma_while(src, st, e),
        ExpressionKind::Assignment { .. } => lemma_assignment(src, st, e),
        ExpressionKind::OperatorAssignment { .. } => {},
        ExpressionKind::Break => lemma_flows_break(st),
        ExpressionKind::Continue => lemma_flows_continue(st),
        ExpressionKind::Return(value) => match value {
            None => lemma_return_rule(src, st, value),
            Some(v) => {
                lemma_within(src, st, st.struct_return, false, &*v);
                match within_of(src, st, st.struct_return, false, &*v) {
                    Some(valued) => lemma_return_rule(src, valued, value),
                    None => {},
                }
            },
        },
    }
}

proof fn lemma_field(
    src: Source,
    st: Lowering,
    id: HirId,
    target: &Expression,
    name: hir::Identifier,
    dereference: bool,
)
    ensures
        field_rule(src, st, id, *target, name, dereference) matches Some(after) ==> flows_on(
            st,
            after,
        ),
{
    broadcast use flow::group_flows, lemma_field_rule;

}

proof fn lemma_subscript(
    src: Source,
    st: Lowering,
    id: HirId,
    target: &Expression,
    index: &Expression,
)
    ensures
        subscript_rule(src, st, id, *target, *index) matches Some(after) ==> flows_on(st, after),
{
    broadcast use flow::group_flows, lemma_subscript_rule;

}

proof fn lemma_cast(src: Source, st: Lowering, id: HirId, castee: &Expression, ty: &hir::Type)
    ensures
        cast_rule(src, st, id, *castee, *ty) matches Some(after) ==> flows_on(st, after),
{
    broadcast use flow::group_flows, lemma_cast_rule;

}

proof fn lemma_structure(src: Source, st: Lowering, id: HirId)
    ensures
        structure_of(src, st, id) matches Some((base, _)) ==> flows_on(st, base.st),
{
    broadcast use flow::group_flows, laws::group_straight;

}

proof fn lemma_let(src: Source, st: Lowering, statement: &LetStatement)
    ensures
        let_lowered(src, st, *statement) matches Some(after) ==> flows_on(st, after),
    decreases statement, 1nat,
{
    if let_of(src, st, &*statement) is Some && renames(src, statement) {
        let text = "let "@ + st.names[statement.name.symbol.0 as int] + " = ..."@;
        let noted = comment(st, text)->0;
        laws::lemma_emit(st, InstructionView::Comment(text));
        flow::lemma_flows_straight(st, noted);
        let init = statement.initializer->0;
        lemma_within(src, noted, None, true, &*init);
        let placed = within_of(src, noted, None, true, &*init)->0;
        let after = let_of(src, st, &*statement)->0;
        assert(goes_straight(placed, after)) by {
            reveal(goes_straight);
            reveal(goes_on);
            reveal(is_numbered);
        }
        flow::lemma_flows_straight(placed, after);
        flow::lemma_flows_further(st, noted, placed);
        flow::lemma_flows_further(st, placed, after);
    } else if let_of(src, st, &*statement) is Some {
        let ty = src.types.at(statement.hir_id);
        let lir = lowered_ty(ty)->0;
        let text = "let "@ + st.names[statement.name.symbol.0 as int] + " = ..."@;
        let noted = comment(st, text)->0;
        laws::lemma_emit(st, InstructionView::Comment(text));
        let room = emit_alloc(noted, lir)->0;
        laws::lemma_emit_alloc(noted, lir);
        let bound = Lowering {
            locals: room.st.locals.insert(statement.hir_id.local_id.0, room.reg),
            ..room.st
        };
        assert(goes_straight(room.st, bound)) by {
            reveal(goes_straight);
            reveal(goes_on);
            reveal(is_numbered);
        }
        laws::lemma_straight_further(st, noted, room.st);
        laws::lemma_straight_further(st, room.st, bound);
        flow::lemma_flows_straight(st, bound);
        match statement.initializer {
            None => {},
            Some(init) => {
                let dest = if ty.is_aggregate() {
                    Some(room.reg)
                } else {
                    None
                };
                lemma_within(src, bound, dest, false, &*init);
                let valued = within_of(src, bound, dest, false, &*init)->0;
                flow::lemma_flows_further(st, bound, valued);
                if !ty.is_aggregate() {
                    let value = valued.operand(init.hir_id);
                    laws::lemma_emit_store(valued, Operand::Register(room.reg), value, lir);
                    let after = emit_store(valued, Operand::Register(room.reg), value, lir)->0;
                    flow::lemma_flows_straight(valued, after);
                    flow::lemma_flows_further(st, valued, after);
                }
            },
        }
    }
}

proof fn lemma_statement(src: Source, st: Lowering, statement: &Statement)
    ensures
        statement_lowered(src, st, *statement) matches Some(after) ==> flows_on(st, after),
    decreases statement, 0nat,
{
    let entered = st.entering(None, false);
    let done = match statement.kind {
        StatementKind::Let(binding) => {
            lemma_let(src, entered, &*binding);
            let_of(src, entered, &*binding)
        },
        StatementKind::BareExpression(e) => {
            lemma_expression(src, entered, &*e);
            expression_of(src, entered, &*e)
        },
        StatementKind::SemiExpression(e) => {
            lemma_expression(src, entered, &*e);
            expression_of(src, entered, &*e)
        },
    };
    match done {
        Some(after) => lemma_context(st, None, false, after),
        None => {},
    }
}

proof fn lemma_statements(src: Source, st: Lowering, list: Vec<Rc<Statement>>, n: nat)
    ensures
        statements_lowered(src, st, list, n) matches Some(after) ==> flows_on(st, after),
    decreases list, n,
{
    broadcast use flow::group_flows, laws::group_straight;

    if n > 0 && n <= list@.len() {
        lemma_statements(src, st, list, (n - 1) as nat);
        match statements_lowered(src, st, list, (n - 1) as nat) {
            Some(before) => lemma_statement(src, before, &*list@[n - 1]),
            None => {},
        }
    }
}

proof fn lemma_block(src: Source, st: Lowering, block: &Block)
    ensures
        block_lowered(src, st, *block) matches Some(after) ==> flows_on(st, after),
    decreases block, 0nat,
{
    broadcast use flow::group_flows, laws::group_straight;

    lemma_statements(src, st, block.statements, block.statements@.len());
    match statements_lowered(src, st, block.statements, block.statements@.len()) {
        Some(listed) => match block.expression {
            Some(e) => lemma_expression(src, listed, &*e),
            None => {},
        },
        None => {},
    }
}

/// Lowering an expression keeps the context that it is in, the arguments of the
/// function, and the blocks and loops further out; every register and block
/// keeps being found under its own number; and control keeps flowing as the
/// blocks say.
pub proof fn law_expression_flows(src: Source, st: Lowering, e: &Expression)
    ensures
        expression_lowered(src, st, *e) matches Some(after) ==> {
            &&& goes_on(st, after)
            &&& is_countable(after) && flows(st) ==> flows(after)
        },
{
    lemma_expression(src, st, e);
    reveal(flows_on);
}

/// Lowering a block goes on, as lowering an expression does.
pub proof fn law_block_flows(src: Source, st: Lowering, block: &Block)
    ensures
        block_lowered(src, st, *block) matches Some(after) ==> {
            &&& goes_on(st, after)
            &&& is_countable(after) && flows(st) ==> flows(after)
        },
{
    lemma_block(src, st, block);
    reveal(flows_on);
}

proof fn lemma_argument(st: Lowering, ty: Ty)
    requires
        is_numbered(st),
    ensures
        with_argument(st, ty) matches Some(made) ==> is_numbered(made.st),
{
    reveal(is_numbered);
}

proof fn lemma_parameters(
    src: Source,
    st: Lowering,
    params: Seq<Rc<FunctionParameter>>,
    tys: Seq<Rc<hir::Type>>,
    n: nat,
)
    requires
        is_numbered(st),
    ensures
        parameters_lowered(src, st, params, tys, n) matches Some(after) ==> is_numbered(after),
    decreases n,
{
    if n > 0 {
        lemma_parameters(src, st, params, tys, (n - 1) as nat);
        match parameters_lowered(src, st, params, tys, (n - 1) as nat) {
            Some(before) => {
                lemma_argument(before, src.types.at(tys[n - 1].hir_id));
                reveal(is_numbered);
            },
            None => {},
        }
    }
}

proof fn lemma_entry(
    src: Source,
    st: Lowering,
    signature: FunctionSignature,
    params: Seq<Rc<FunctionParameter>>,
)
    requires
        is_numbered(st),
    ensures
        entry_lowered(src, st, signature, params) matches Some(after) ==> is_numbered(after),
{
    if entry_lowered(src, st, signature, params) is Some {
        let returned = return_ty(src, signature)->0;
        let prepared = if returned is Some && returned->0.is_aggregate() {
            let made = st.with_register(TypeView::Pointer);
            Lowering { struct_return: Some(made.reg), ..made.st }
        } else {
            st
        };
        assert(is_numbered(prepared)) by {
            reveal(is_numbered);
        }
        let owned = match src.types.function_results[src.owner.0].self_type {
            None => Some(prepared),
            Some(ty) => {
                lemma_argument(prepared, ty);
                match with_argument(prepared, ty) {
                    Some(made) => Some(made.st),
                    None => None,
                }
            },
        };
        let tys = signature.parameters@;
        lemma_parameters(
            src,
            owned->0,
            params,
            tys,
            if params.len() < tys.len() {
                params.len()
            } else {
                tys.len()
            },
        );
    }
}

proof fn lemma_end(src: Source, st: Lowering, block: &Block)
    ensures
        end_lowered(src, st, *block) matches Some(after) ==> flows_on(st, after),
{
    broadcast use flow::group_flows, laws::group_values;

}

/// Every register and every block of a function that was lowered is found under
/// its own number.
pub proof fn law_function_numbered(
    src: Source,
    st: Lowering,
    signature: FunctionSignature,
    body: BodyId,
)
    requires
        is_numbered(st),
    ensures
        function_lowered(src, st, signature, body) matches Some(after) ==> is_numbered(after),
{
    reveal(function_lowered);
    if function_lowered(src, st, signature, body) is Some {
        let code = src.module.body(body);
        lemma_entry(src, st, signature, code.params@);
        let entered = entry_lowered(src, st, signature, code.params@)->0;
        let made = entered.with_block();
        let inside = made.st.pushed(made.id);
        assert(is_numbered(inside)) by {
            reveal(is_numbered);
        }
        lemma_block(src, inside, &*code.block);
        let done = block_of(src, inside, &*code.block)->0;
        lemma_end(src, done, &*code.block);
        reveal(flows_on);
    reveal(goes_on);
    }
}

/// Whether nothing but registers and arguments differs.
spec fn same_blocks(a: Lowering, b: Lowering) -> bool {
    a.blocks == b.blocks && a.loops == b.loops && a.stack == b.stack
}

proof fn lemma_parameters_blocks(
    src: Source,
    st: Lowering,
    params: Seq<Rc<FunctionParameter>>,
    tys: Seq<Rc<hir::Type>>,
    n: nat,
)
    ensures
        parameters_lowered(src, st, params, tys, n) matches Some(after) ==> same_blocks(st, after),
    decreases n,
{
    if n > 0 {
        lemma_parameters_blocks(src, st, params, tys, (n - 1) as nat);
    }
}

proof fn lemma_entry_blocks(
    src: Source,
    st: Lowering,
    signature: FunctionSignature,
    params: Seq<Rc<FunctionParameter>>,
)
    ensures
        entry_lowered(src, st, signature, params) matches Some(after) ==> same_blocks(st, after),
{
    if entry_lowered(src, st, signature, params) is Some {
        let returned = return_ty(src, signature)->0;
        let prepared = if returned is Some && returned->0.is_aggregate() {
            let made = st.with_register(TypeView::Pointer);
            Lowering { struct_return: Some(made.reg), ..made.st }
        } else {
            st
        };
        let owned = match src.types.function_results[src.owner.0].self_type {
            None => Some(prepared),
            Some(ty) => match with_argument(prepared, ty) {
                Some(made) => Some(made.st),
                None => None,
            },
        };
        let tys = signature.parameters@;
        lemma_parameters_blocks(
            src,
            owned->0,
            params,
            tys,
            if params.len() < tys.len() {
                params.len()
            } else {
                tys.len()
            },
        );
    }
}

/// Whether every instruction fits, and no jump is open.
pub open spec fn is_settled(st: Lowering) -> bool {
    forall|k: int, i: int|
        0 <= k < st.blocks.len() && 0 <= i < st.blocks[k].instructions.len() ==> {
            &&& fits_in(st, k, #[trigger] st.blocks[k].instructions[i])
            &&& st.blocks[k].instructions[i] != pending()
        }
}

/// In a function that was lowered every jump leads to a block that exists and
/// knows that it is entered from there, and every value is selected by blocks
/// that are left for the current one.
pub proof fn law_function_flows(
    src: Source,
    st: Lowering,
    signature: FunctionSignature,
    body: BodyId,
)
    requires
        st.blocks.len() == 0,
        st.loops.len() == 0,
        st.stack.len() == 0,
    ensures
        function_lowered(src, st, signature, body) matches Some(after) ==> (is_countable(after)
            ==> is_settled(after)),
{
    reveal(function_lowered);
    if function_lowered(src, st, signature, body) is Some && is_countable(
        function_lowered(src, st, signature, body)->0,
    ) {
        let after = function_lowered(src, st, signature, body)->0;
        let code = src.module.body(body);
        lemma_entry_blocks(src, st, signature, code.params@);
        let entered = entry_lowered(src, st, signature, code.params@)->0;
        let made = entered.with_block();
        let inside = made.st.pushed(made.id);
        assert(flows(inside)) by {
            reveal(all_fit);
            reveal(all_noted);
        }
        lemma_block(src, inside, &*code.block);
        let done = block_of(src, inside, &*code.block)->0;
        lemma_end(src, done, &*code.block);
        flow::lemma_flows_further(inside, done, after);
        reveal(flows_on);
        reveal(goes_on);
        reveal(all_fit);
        reveal(all_noted);
        assert forall|k: int, i: int|
            0 <= k < after.blocks.len() && 0 <= i < after.blocks[k].instructions.len() implies {
            &&& fits_in(after, k, #[trigger] after.blocks[k].instructions[i])
            &&& after.blocks[k].instructions[i] != pending()
        } by {
            if after.blocks[k].instructions[i] == pending() {
                assert(is_noted(after.loops, k, i));
            }
        }
    }
}

} // verus!
