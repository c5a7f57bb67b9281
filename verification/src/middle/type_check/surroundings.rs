//! What checking keeps of the surroundings of an expression, and what it looks up.

use crate::frontend::intern::InternedSymbol;
use crate::frontend::lexer::Span;
use crate::middle::hir;
use crate::middle::hir::{
    ArrayInitializer, Block, DefinitionKind, Expression, ExpressionKind, HirId, Identifier,
    ItemKind, LetStatement, LocalDefId, Module, Path, Resolution, Statement, StatementKind,
    StructInitializerField,
};
use crate::middle::primitive::UIntKind;
use crate::middle::ty::{Ty, TypeVariable};
use crate::middle::type_check::context::resolution_ty;
use crate::middle::type_check::rules::{
    arguments_equal, assigned, bare_checked, block_checked, elements_equal, expression_checked,
    expression_rule, expressions_checked, extra_fields, fields_checked, fields_equal, find_method,
    let_checked, method_rule, missing_fields, parts_checked, path_upto,
    statement_checked, statements_checked, type_checked, types_checked, types_upto, Checking, Place,
};
use crate::middle::type_check::solve::{applied, cast_solved, Binding};
use std::rc::Rc;
use vstd::prelude::*;

verus! {

/// Whether checking has gone on in the same surroundings, and took no error back.
pub open spec fn stays_within(a: Checking, b: Checking) -> bool {
    &&& b.within_loop == a.within_loop
    &&& b.return_type == a.return_type
    &&& b.self_type == a.self_type
    &&& a.errors.len() <= b.errors.len()
}

spec fn checked(p: Place, st: Checking, e: &Expression) -> Option<Checking> {
    expression_checked(p, st, *e)
}

spec fn parts_of(p: Place, st: Checking, e: &Expression) -> Option<Checking> {
    parts_checked(p, st, *e)
}

spec fn block_of(p: Place, st: Checking, block: &Block, is_loop: bool) -> Option<Checking> {
    block_checked(p, st, *block, is_loop)
}

spec fn type_of(p: Place, st: Checking, ty: &hir::Type) -> Option<Checking> {
    type_checked(p, st, *ty)
}

spec fn path_of(p: Place, st: Checking, path: &Path) -> Option<Checking> {
    path_upto(p, st, *path, path.segments@.len())
}

proof fn lemma_elements(st: Checking, list: Seq<Rc<Expression>>, tys: Seq<Ty>, n: nat)
    ensures
        stays_within(st, elements_equal(st, list, tys, n)),
    decreases n,
{
    if n > 1 {
        lemma_elements(st, list, tys, (n - 1) as nat);
    }
}

proof fn lemma_missing(
    st: Checking,
    span: Span,
    fields: Seq<(InternedSymbol, Ty)>,
    list: Seq<Rc<StructInitializerField>>,
    n: nat,
)
    ensures
        stays_within(st, missing_fields(st, span, fields, list, n)),
    decreases n,
{
    if n > 0 {
        lemma_missing(st, span, fields, list, (n - 1) as nat);
    }
}

proof fn lemma_extra(
    st: Checking,
    fields: Seq<(InternedSymbol, Ty)>,
    list: Seq<Rc<StructInitializerField>>,
    n: nat,
)
    ensures
        stays_within(st, extra_fields(st, fields, list, n)),
    decreases n,
{
    if n > 0 {
        lemma_extra(st, fields, list, (n - 1) as nat);
    }
}

proof fn lemma_fields_equal(
    st: Checking,
    fields: Seq<(InternedSymbol, Ty)>,
    list: Seq<Rc<StructInitializerField>>,
    n: nat,
)
    ensures
        fields_equal(st, fields, list, n) matches Some(after) ==> stays_within(st, after),
    decreases n,
{
    if n > 0 {
        lemma_fields_equal(st, fields, list, (n - 1) as nat);
    }
}

proof fn lemma_arguments(
    st: Checking,
    expected: Seq<Ty>,
    arguments: Seq<Rc<Expression>>,
    n: nat,
)
    ensures
        arguments_equal(st, expected, arguments, n) matches Some(after) ==> stays_within(st, after),
    decreases n,
{
    if n > 0 {
        lemma_arguments(st, expected, arguments, (n - 1) as nat);
    }
}

proof fn lemma_path(p: Place, st: Checking, path: &Path, n: nat)
    ensures
        path_upto(p, st, *path, n) matches Some(after) ==> stays_within(st, after),
    decreases n,
{
    if n > 0 {
        lemma_path(p, st, path, (n - 1) as nat);
    }
}

proof fn lemma_types(p: Place, st: Checking, list: Vec<Rc<hir::Type>>, n: nat)
    ensures
        types_checked(p, st, list, n) matches Some(after) ==> stays_within(st, after),
    decreases list, n,
{
    if 0 < n <= list@.len() {
        lemma_types(p, st, list, (n - 1) as nat);
        if let Some(before) = types_checked(p, st, list, (n - 1) as nat) {
            lemma_type(p, before, &*list@[n - 1]);
        }
    }
}

proof fn lemma_type(p: Place, st: Checking, ty: &hir::Type)
    ensures
        type_checked(p, st, *ty) matches Some(after) ==> stays_within(st, after),
    decreases *ty, 0nat,
{
    match ty.kind {
        hir::TypeKind::Unit | hir::TypeKind::Any => {},
        hir::TypeKind::Path(path) => lemma_path(p, st, &path, path.segments@.len()),
        hir::TypeKind::Pointer(inner) => lemma_type(p, st, &*inner),
        hir::TypeKind::Slice(inner) => lemma_type(p, st, &*inner),
        hir::TypeKind::Array { ty: inner, .. } => lemma_type(p, st, &*inner),
        hir::TypeKind::Tuple(list) => lemma_types(p, st, list, list@.len()),
        hir::TypeKind::FunctionPointer { parameters, return_type, .. } => {
            lemma_types(p, st, parameters, parameters@.len());
            if let Some(listed) = types_checked(p, st, parameters, parameters@.len()) {
                if let Some(returned) = return_type {
                    lemma_type(p, listed, &*returned);
                }
            }
        },
    }
}

/// No rule changes the surroundings.
#[verifier::rlimit(40)]
proof fn lemma_rule(p: Place, st: Checking, e: &Expression)
    ensures
        expression_rule(p, st, *e) matches Some(after) ==> stays_within(st, after) && (
        !st.within_loop && (e.kind is Break || e.kind is Continue) ==> st.errors.len()
            < after.errors.len()),
{
    match e.kind {
        ExpressionKind::Array(ArrayInitializer::Specific(list)) => {
            if let Some(tys) = types_upto(
                st,
                list@,
                list@.len(),
            ) {
                lemma_elements(st, list@, tys, tys.len());
            }
        },
        ExpressionKind::Struct { name, fields: list } => {
            if name.segments@.len() > 0 {
                if let Some(Ty::Struct { fields, .. }) = resolution_ty(
                    p.env,
                    name.segments@.last().resolution,
                ) {
                    let missed = missing_fields(st, e.span, fields, list@, fields.len());
                    lemma_missing(st, e.span, fields, list@, fields.len());
                    lemma_extra(missed, fields, list@, list@.len());
                    let reported = extra_fields(missed, fields, list@, list@.len());
                    lemma_fields_equal(reported, fields, list@, list@.len());
                }
            }
        },
        ExpressionKind::FunctionCall { target, arguments } => {
            if let Ty::FunctionPointer { parameters, return_type, .. } = st.at(target.hir_id) {
                if let Some(typed) = assigned(
                    p,
                    st,
                    e.hir_id,
                    *return_type,
                ) {
                    lemma_arguments(typed, parameters, arguments@, parameters.len());
                    lemma_arguments(
                        typed,
                        parameters.skip(1),
                        arguments@,
                        parameters.skip(1).len(),
                    );
                }
            }
        },
        _ => {},
    }
}

/// Whether the jumps in the first `n` expressions of a list stand in loops.
pub open spec fn list_jumps_stand(list: Vec<Rc<Expression>>, n: nat, inside: bool) -> bool
    decreases list, n,
{
    n == 0 || n > list@.len() || (list_jumps_stand(list, (n - 1) as nat, inside) && jumps_stand(
        *list@[n - 1],
        inside,
    ))
}

/// Whether the jumps in the values of the first `n` fields of a list stand in loops.
pub open spec fn field_jumps_stand(
    list: Vec<Rc<StructInitializerField>>,
    n: nat,
    inside: bool,
) -> bool
    decreases list, n,
{
    n == 0 || n > list@.len() || (field_jumps_stand(list, (n - 1) as nat, inside) && jumps_stand(
        *list@[n - 1].value,
        inside,
    ))
}

/// Whether the jumps in the first `n` statements of a list stand in loops.
pub open spec fn statement_jumps_stand(list: Vec<Rc<Statement>>, n: nat, inside: bool) -> bool
    decreases list, n,
{
    n == 0 || n > list@.len() || (statement_jumps_stand(list, (n - 1) as nat, inside)
        && single_jumps_stand(*list@[n - 1], inside))
}

/// Whether the jumps in a statement stand in loops.
pub open spec fn single_jumps_stand(statement: Statement, inside: bool) -> bool
    decreases statement, 0nat,
{
    match statement.kind {
        StatementKind::Let(binding) => let_jumps_stand(*binding, inside),
        StatementKind::BareExpression(e) => jumps_stand(*e, inside),
        StatementKind::SemiExpression(e) => jumps_stand(*e, inside),
    }
}

/// Whether the jumps in the initial value of a variable stand in loops.
pub open spec fn let_jumps_stand(statement: LetStatement, inside: bool) -> bool
    decreases statement, 0nat,
{
    match statement.initializer {
        Some(e) => jumps_stand(*e, inside),
        None => true,
    }
}

/// Whether the jumps in a block stand in loops.
pub open spec fn block_jumps_stand(block: Block, inside: bool) -> bool
    decreases block, 0nat,
{
    &&& statement_jumps_stand(block.statements, block.statements@.len(), inside)
    &&& match block.expression {
        Some(e) => jumps_stand(*e, inside),
        None => true,
    }
}

/// Whether the jumps out of a loop and back to its start, in an expression, stand in
/// the block of a loop of that expression, or may stand anywhere.
pub open spec fn jumps_stand(e: Expression, inside: bool) -> bool
    decreases e, 0nat,
{
    match e.kind {
        ExpressionKind::Literal(_) | ExpressionKind::This | ExpressionKind::Path(_) => true,
        ExpressionKind::Break | ExpressionKind::Continue => inside,
        ExpressionKind::Array(ArrayInitializer::Repeated { value, .. }) => jumps_stand(
            *value,
            inside,
        ),
        ExpressionKind::Array(ArrayInitializer::Specific(list)) => list_jumps_stand(
            list,
            list@.len(),
            inside,
        ),
        ExpressionKind::Tuple(list) => list_jumps_stand(list, list@.len(), inside),
        ExpressionKind::Struct { fields, .. } => field_jumps_stand(fields, fields@.len(), inside),
        ExpressionKind::Block(block) => block_jumps_stand(*block, inside),
        ExpressionKind::FieldAccess { target, .. } => jumps_stand(*target, inside),
        ExpressionKind::FunctionCall { target, arguments } => jumps_stand(*target, inside)
            && list_jumps_stand(arguments, arguments@.len(), inside),
        ExpressionKind::Subscript { target, index } => jumps_stand(*target, inside) && jumps_stand(
            *index,
            inside,
        ),
        ExpressionKind::Binary { lhs, rhs, .. } => jumps_stand(*lhs, inside) && jumps_stand(
            *rhs,
            inside,
        ),
        ExpressionKind::Unary { operand, .. } => jumps_stand(*operand, inside),
        ExpressionKind::Cast { expression, .. } => jumps_stand(*expression, inside),
        ExpressionKind::If { condition, positive, negative } => {
            &&& jumps_stand(*condition, inside)
            &&& block_jumps_stand(*positive, inside)
            &&& match negative {
                Some(other) => jumps_stand(*other, inside),
                None => true,
            }
        },
        ExpressionKind::While { condition, block } => jumps_stand(*condition, inside)
            && block_jumps_stand(*block, true),
        ExpressionKind::Assignment { lhs, rhs } => jumps_stand(*lhs, inside) && jumps_stand(
            *rhs,
            inside,
        ),
        ExpressionKind::OperatorAssignment { lhs, rhs, .. } => jumps_stand(*lhs, inside)
            && jumps_stand(*rhs, inside),
        ExpressionKind::Return(value) => match value {
            Some(v) => jumps_stand(*v, inside),
            None => true,
        },
    }
}

/// Whether checking stayed in its surroundings, and reported an error unless jumps
/// stand in loops.
spec fn is_strict(st: Checking, after: Checking, stand: bool) -> bool {
    stays_within(st, after) && (after.errors.len() == st.errors.len() ==> stand)
}

proof fn lemma_list(p: Place, st: Checking, list: Vec<Rc<Expression>>, n: nat)
    ensures
        expressions_checked(p, st, list, n) matches Some(after) ==> is_strict(
            st,
            after,
            list_jumps_stand(list, n, st.within_loop),
        ),
    decreases list, n,
{
    if 0 < n <= list@.len() {
        lemma_list(p, st, list, (n - 1) as nat);
        if let Some(before) = expressions_checked(p, st, list, (n - 1) as nat) {
            lemma_expression(p, before, &*list@[n - 1]);
        }
    }
}

proof fn lemma_fields(p: Place, st: Checking, list: Vec<Rc<StructInitializerField>>, n: nat)
    ensures
        fields_checked(p, st, list, n) matches Some(after) ==> is_strict(
            st,
            after,
            field_jumps_stand(list, n, st.within_loop),
        ),
    decreases list, n,
{
    if 0 < n <= list@.len() {
        lemma_fields(p, st, list, (n - 1) as nat);
        if let Some(before) = fields_checked(p, st, list, (n - 1) as nat) {
            lemma_expression(p, before, &*list@[n - 1].value);
        }
    }
}

proof fn lemma_statements(p: Place, st: Checking, list: Vec<Rc<Statement>>, n: nat)
    ensures
        statements_checked(p, st, list, n) matches Some(after) ==> is_strict(
            st,
            after,
            statement_jumps_stand(list, n, st.within_loop),
        ),
    decreases list, n,
{
    if 0 < n <= list@.len() {
        lemma_statements(p, st, list, (n - 1) as nat);
        if let Some(before) = statements_checked(p, st, list, (n - 1) as nat) {
            lemma_statement(p, before, &*list@[n - 1]);
        }
    }
}

proof fn lemma_statement(p: Place, st: Checking, statement: &Statement)
    ensures
        statement_checked(p, st, *statement) matches Some(after) ==> is_strict(
            st,
            after,
            single_jumps_stand(*statement, st.within_loop),
        ),
    decreases *statement, 0nat,
{
    match statement.kind {
        StatementKind::Let(binding) => lemma_let(p, st, &*binding),
        StatementKind::BareExpression(e) => lemma_expression(p, st, &*e),
        StatementKind::SemiExpression(e) => lemma_expression(p, st, &*e),
    }
}

proof fn lemma_let(p: Place, st: Checking, statement: &LetStatement)
    ensures
        let_checked(p, st, *statement) matches Some(after) ==> is_strict(
            st,
            after,
            let_jumps_stand(*statement, st.within_loop),
        ),
    decreases *statement, 0nat,
{
    let typed = match statement.ty {
        Some(ty) => type_of(p, st, &*ty),
        None => Some(st),
    };
    if let Some(ty) = statement.ty {
        lemma_type(p, st, &*ty);
    }
    if let Some(before) = typed {
        if let Some(e) = statement.initializer {
            lemma_expression(p, before, &*e);
        }
    }
}

proof fn lemma_bare(st: Checking, list: Seq<Rc<Statement>>, n: nat)
    ensures
        bare_checked(st, list, n) matches Some(after) ==> stays_within(st, after),
    decreases n,
{
    if n > 0 {
        lemma_bare(st, list, (n - 1) as nat);
    }
}

proof fn lemma_block(p: Place, st: Checking, block: &Block, is_loop: bool)
    ensures
        block_checked(p, st, *block, is_loop) matches Some(after) ==> is_strict(
            st,
            after,
            block_jumps_stand(*block, st.within_loop || is_loop),
        ),
    decreases *block, 0nat,
{
    let entered = Checking { within_loop: st.within_loop || is_loop, ..st };
    lemma_statements(p, entered, block.statements, block.statements@.len());
    if let Some(listed) = statements_checked(
        p,
        entered,
        block.statements,
        block.statements@.len(),
    ) {
        let ended = match block.expression {
            Some(e) => checked(p, listed, &*e),
            None => Some(listed),
        };
        if let Some(e) = block.expression {
            lemma_expression(p, listed, &*e);
        }
        if let Some(last) = ended {
            let left = Checking { within_loop: st.within_loop, ..last };
            lemma_bare(left, block.statements@, block.statements@.len());
        }
    }
}

#[verifier::rlimit(40)]
proof fn lemma_parts(p: Place, st: Checking, e: &Expression)
    ensures
        parts_checked(p, st, *e) matches Some(after) ==> is_strict(
            st,
            after,
            e.kind is Break || e.kind is Continue || jumps_stand(*e, st.within_loop),
        ),
    decreases *e, 0nat,
{
    match e.kind {
        ExpressionKind::Path(path) => lemma_path(p, st, &path, path.segments@.len()),
        ExpressionKind::Array(ArrayInitializer::Repeated { value, .. }) => {
            lemma_expression(p, st, &*value)
        },
        ExpressionKind::Array(ArrayInitializer::Specific(list)) => {
            lemma_list(p, st, list, list@.len())
        },
        ExpressionKind::Tuple(list) => lemma_list(p, st, list, list@.len()),
        ExpressionKind::Struct { name, fields } => {
            lemma_path(p, st, &name, name.segments@.len());
            if let Some(named) = path_of(p, st, &name) {
                lemma_fields(p, named, fields, fields@.len());
            }
        },
        ExpressionKind::Block(block) => lemma_block(p, st, &*block, false),
        ExpressionKind::FieldAccess { target, .. } => lemma_expression(p, st, &*target),
        ExpressionKind::FunctionCall { target, arguments } => {
            lemma_expression(p, st, &*target);
            if let Some(targeted) = checked(p, st, &*target) {
                lemma_list(p, targeted, arguments, arguments@.len());
            }
        },
        ExpressionKind::Subscript { target, index } => {
            lemma_expression(p, st, &*target);
            if let Some(targeted) = checked(p, st, &*target) {
                lemma_expression(p, targeted, &*index);
            }
        },
        ExpressionKind::Binary { lhs, rhs, .. }
        | ExpressionKind::Assignment { lhs, rhs }
        | ExpressionKind::OperatorAssignment { lhs, rhs, .. } => {
            lemma_expression(p, st, &*lhs);
            if let Some(left) = checked(p, st, &*lhs) {
                lemma_expression(p, left, &*rhs);
            }
        },
        ExpressionKind::Unary { operand, .. } => lemma_expression(p, st, &*operand),
        ExpressionKind::Cast { expression, ty } => {
            lemma_expression(p, st, &*expression);
            if let Some(valued) = checked(p, st, &*expression) {
                lemma_type(p, valued, &*ty);
            }
        },
        ExpressionKind::If { condition, positive, negative } => {
            lemma_expression(p, st, &*condition);
            if let Some(tested) = checked(p, st, &*condition) {
                lemma_block(p, tested, &*positive, false);
                if let Some(taken) = block_of(p, tested, &*positive, false) {
                    if let Some(other) = negative {
                        lemma_expression(p, taken, &*other);
                    }
                }
            }
        },
        ExpressionKind::While { condition, block } => {
            lemma_expression(p, st, &*condition);
            if let Some(tested) = checked(p, st, &*condition) {
                lemma_block(p, tested, &*block, true);
            }
        },
        ExpressionKind::Return(value) => {
            if let Some(v) = value {
                lemma_expression(p, st, &*v);
            }
        },
        _ => {},
    }
}

proof fn lemma_expression(p: Place, st: Checking, e: &Expression)
    ensures
        expression_checked(p, st, *e) matches Some(after) ==> is_strict(
            st,
            after,
            jumps_stand(*e, st.within_loop),
        ),
    decreases *e, 1nat,
{
    lemma_parts(p, st, e);
    if let Some(before) = parts_of(p, st, e) {
        lemma_rule(p, before, e);
    }
}

/// Checking an expression keeps what it stands in: whether that is a loop, what the
/// function returns, and what `self` is. Where it reports no error, every jump out
/// of a loop or back to its start stands in the block of a loop: of one in the
/// expression, or of one that the expression stands in.
pub proof fn law_jumps_stand_in_loops(p: Place, st: Checking, e: &Expression)
    requires
        expression_checked(p, st, *e) is Some,
    ensures
        ({
            let after = expression_checked(p, st, *e)->0;
            &&& after.within_loop == st.within_loop
            &&& after.return_type == st.return_type
            &&& after.self_type == st.self_type
            &&& after.errors.len() == st.errors.len() ==> jumps_stand(*e, st.within_loop)
        }),
{
    lemma_expression(p, st, e);
}

/// Whether an owner is a function with a name in a structure.
pub open spec fn is_method_of(
    module: Module,
    k: int,
    def_id: LocalDefId,
    name: InternedSymbol,
) -> bool {
    &&& module.owners@[k].item().kind matches ItemKind::Function { name: path, .. } && {
        &&& path.segments@.len() >= 2
        &&& path.segments@[0].resolution matches Resolution::Definition(_, id) && id == def_id
        &&& path.segments@[1].identifier.symbol == name
    }
}

/// What the whole name of the function with a number stands for.
pub open spec fn stands_for(module: Module, k: int) -> Resolution<hir::ItemLocalId> {
    module.owners@[k].item().kind->Function_name.segments@.last().resolution
}

proof fn lemma_find_method(module: Module, def_id: LocalDefId, name: InternedSymbol, from: nat)
    ensures
        find_method(module, def_id, name, from) matches Some(found) ==> match found {
            Some(resolution) => exists|k: int|
                {
                    &&& from <= k < module.owners@.len()
                    &&& #[trigger] is_method_of(module, k, def_id, name)
                    &&& forall|j: int|
                        from <= j < k ==> !#[trigger] is_method_of(module, j, def_id, name)
                    &&& resolution == stands_for(module, k)
                },
            None => forall|j: int|
                from <= j < module.owners@.len() ==> !#[trigger] is_method_of(
                    module,
                    j,
                    def_id,
                    name,
                ),
        },
    decreases module.owners@.len() - from,
{
    if from < module.owners@.len() {
        if is_method_of(module, from as int, def_id, name) {
        } else {
            lemma_find_method(module, def_id, name, from + 1);
        }
    }
}

/// A method is the first function of its structure that has its name, and that is
/// noted for it. Where there is none, an error is reported.
pub proof fn law_method_is_found(
    p: Place,
    st: Checking,
    id: HirId,
    target: Ty,
    def_id: LocalDefId,
    name: Identifier,
)
    requires
        method_rule(p, st, id, target, def_id, name) is Some,
    ensures
        ({
            let after = method_rule(p, st, id, target, def_id, name)->0;
            let module = p.env.module;
            if exists|k: int|
                0 <= k < module.owners@.len() && #[trigger] is_method_of(
                    module,
                    k,
                    def_id,
                    name.symbol,
                ) {
                exists|k: int|
                    {
                        &&& 0 <= k < module.owners@.len()
                        &&& #[trigger] is_method_of(module, k, def_id, name.symbol)
                        &&& forall|j: int|
                            0 <= j < k ==> !#[trigger] is_method_of(
                                module,
                                j,
                                def_id,
                                name.symbol,
                            )
                        &&& stands_for(module, k) matches Resolution::Definition(
                            DefinitionKind::Function,
                            function,
                        ) && after.methods == st.methods.insert(id.local_id.0, function)
                        &&& resolution_ty(p.env, stands_for(module, k)) == Some(after.at(id))
                        &&& after.errors == st.errors
                    }
            } else {
                after.errors.len() == st.errors.len() + 1 && after.methods == st.methods
            }
        }),
{
    lemma_find_method(p.env.module, def_id, name.symbol, 0);
}

/// Whether a type is one of numbers.
pub open spec fn is_number(ty: Ty) -> bool {
    ty is Integer || ty is UnsignedInteger || ty is Float
}

/// Whether a value can be cast: between numbers, between integers and booleans, of
/// a character to its number, of an address to a pointer and between pointers, and
/// to its own type.
pub open spec fn can_cast(from: Ty, to: Ty) -> bool {
    match from {
        Ty::Integer(_) => is_number(to) || to is Bool,
        Ty::UnsignedInteger(UIntKind::USize) => is_number(to) || to is Bool || to is Pointer
            || to is Any,
        Ty::UnsignedInteger(_) => is_number(to) || to is Bool,
        Ty::Float(_) => is_number(to),
        Ty::Bool => to is Bool || to is Integer || to is UnsignedInteger,
        Ty::Char => to is Char || to == Ty::UnsignedInteger(UIntKind::U32),
        Ty::Pointer(_) | Ty::Any => to is Pointer || to is Any,
        _ => from == to,
    }
}

/// A cast of a known type succeeds just where its value can be cast, and settles
/// nothing. A number whose type is open is taken to have the type that it is cast
/// to, where that is allowed and is a type of its kind.
pub proof fn law_casts(bindings: Seq<Binding>, from: Ty, to: Ty, coerce: bool)
    requires
        !(to is Infer),
    ensures
        ({
            let known = applied(bindings, from);
            let solved = cast_solved(bindings, from, to, coerce);
            match known {
                Ty::Infer(TypeVariable::Int(n)) => if coerce && (to is Integer
                    || to is UnsignedInteger || to is Pointer || to is Any) {
                    solved.result is Ok && solved.bindings == bindings.push(
                        (TypeVariable::Int(n), to),
                    )
                } else {
                    solved.result is Err && solved.bindings == bindings
                },
                Ty::Infer(TypeVariable::Float(n)) => if coerce && to is Float {
                    solved.result is Ok && solved.bindings == bindings.push(
                        (TypeVariable::Float(n), to),
                    )
                } else {
                    solved.result is Err && solved.bindings == bindings
                },
                _ => solved.bindings == bindings && solved.result is Ok == can_cast(known, to),
            }
        }),
{
}

} // verus!
