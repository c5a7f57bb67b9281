//! The types that checking finds fit together.

use crate::frontend::ast::{BinaryOperatorKind, UnaryOperatorKind};
use crate::frontend::intern::InternedSymbol;
use crate::middle::hir::{
    ArrayInitializer, Block, DefinitionKind, Expression, ExpressionKind, FunctionSignature, HirId,
    ItemKind, LetStatement, Literal, LiteralFloatKind, LiteralIntegerKind, Node, Resolution,
    Statement, StatementKind, StructInitializerField,
};
use crate::middle::hir;
use crate::middle::primitive::{FloatKind, IntKind, PrimitiveKind, UIntKind};
use crate::middle::ty::{Ty, TypeVariable};
use crate::middle::type_check::context::{hir_ty, hir_tys, resolution_ty, Env};
use crate::middle::type_check::error::Mistake;
use crate::middle::type_check::output::{
    concluded, defaulted, lemma_defaulted_enough, lemma_defaulted_none, Findings,
};
use crate::middle::type_check::rules::{
    arguments_equal, assignment_target, bare_checked, block_rule, declared_ty, declares, diverges,
    elements_equal, expression_rule, extra_fields, fields_equal, find_field, gives,
    implicit_return, is_method, let_rule, missing_fields, statement_value, types_upto, Checking,
    Place, Target,
};
use crate::middle::type_check::solve::{
    agree, applied, in_order, law_apply_idempotent, law_constraints_hold, lemma_applied_clear,
    lemma_applied_parts, reach, solution, unified, Binding, Demand, Solved,
};
use std::rc::Rc;
use vstd::prelude::*;

verus! {

/// What a type is in the end.
pub open spec fn final_ty(bindings: Seq<Binding>, ty: Ty) -> Ty {
    defaulted(applied(bindings, ty))
}

/// The type of a node in the end.
pub open spec fn ty_of(found: Findings, id: HirId) -> Ty {
    found.node_types[id.local_id.0]
}

/// Whether checking has gone on from one state to another: nothing was taken back,
/// and no node was given another type.
pub open spec fn comes_later(a: Checking, b: Checking) -> bool {
    &&& forall|id: u32| #[trigger]
        a.nodes.contains_key(id) ==> b.nodes.contains_key(id) && b.nodes[id] == a.nodes[id]
    &&& a.constraints.is_prefix_of(b.constraints)
    &&& a.errors.is_prefix_of(b.errors)
}

proof fn lemma_agree_defaulted(a: Ty, b: Ty)
    requires
        agree(a, b),
    ensures
        agree(defaulted(a), defaulted(b)),
    decreases a,
{
    if a != b {
        match (a, b) {
            (Ty::Pointer(x), Ty::Pointer(y)) => lemma_agree_defaulted(*x, *y),
            (Ty::Slice(x), Ty::Slice(y)) => lemma_agree_defaulted(*x, *y),
            (Ty::Array { ty: x, .. }, Ty::Array { ty: y, .. }) => lemma_agree_defaulted(*x, *y),
            (Ty::Tuple(x), Ty::Tuple(y)) => {
                let p = defaulted(a)->Tuple_0;
                let q = defaulted(b)->Tuple_0;
                assert forall|i: int| #![trigger p[i]] 0 <= i < p.len() implies agree(p[i], q[i]) by {
                    assert(agree(x[i], y[i]));
                    lemma_agree_defaulted(x[i], y[i]);
                }
            },
            (Ty::Slice(x), Ty::Pointer(y)) => {
                if let Ty::Array { ty: z, .. } = *y {
                    lemma_agree_defaulted(*x, *z);
                }
            },
            _ => {},
        }
    }
}

/// Whether a slice occurs in a type where a pointer to an array would do for it.
pub open spec fn has_slice(ty: Ty) -> bool
    decreases ty,
{
    match ty {
        Ty::Slice(_) => true,
        Ty::Pointer(inner) => has_slice(*inner),
        Ty::Array { ty: inner, .. } => has_slice(*inner),
        Ty::Tuple(list) => exists|i: int| 0 <= i < list.len() && has_slice(#[trigger] list[i]),
        _ => false,
    }
}

/// Types that agree are equal where there are no slices.
pub proof fn law_agreeing_types_are_equal(a: Ty, b: Ty)
    requires
        agree(a, b),
        !has_slice(a),
    ensures
        a == b,
    decreases a,
{
    if a != b {
        match (a, b) {
            (Ty::Pointer(x), Ty::Pointer(y)) => law_agreeing_types_are_equal(*x, *y),
            (Ty::Array { ty: x, .. }, Ty::Array { ty: y, .. }) => {
                law_agreeing_types_are_equal(*x, *y)
            },
            (Ty::Tuple(x), Ty::Tuple(y)) => {
                assert forall|i: int| 0 <= i < x.len() implies x[i] == y[i] by {
                    assert(agree(x[i], y[i]));
                    law_agreeing_types_are_equal(x[i], y[i]);
                }
                assert(x =~= y);
            },
            _ => {},
        }
    }
}

/// What parts of types are in the end.
proof fn lemma_final_parts(bindings: Seq<Binding>, ty: Ty)
    ensures
        match ty {
            Ty::Infer(_) => true,
            Ty::Pointer(inner) => final_ty(bindings, ty) == Ty::Pointer(
                Box::new(final_ty(bindings, *inner)),
            ),
            Ty::Slice(inner) => final_ty(bindings, ty) == Ty::Slice(
                Box::new(final_ty(bindings, *inner)),
            ),
            Ty::Array { ty: inner, length } => final_ty(bindings, ty) == (Ty::Array {
                ty: Box::new(final_ty(bindings, *inner)),
                length,
            }),
            Ty::Tuple(list) => final_ty(bindings, ty) == Ty::Tuple(
                list.map_values(|part: Ty| final_ty(bindings, part)),
            ),
            Ty::FunctionPointer { parameters, return_type, is_variadic } => final_ty(bindings, ty)
                == (Ty::FunctionPointer {
                parameters: parameters.map_values(|part: Ty| final_ty(bindings, part)),
                return_type: Box::new(final_ty(bindings, *return_type)),
                is_variadic,
            }),
            _ => final_ty(bindings, ty) == ty,
        },
{
    lemma_applied_parts(bindings, ty);
    match ty {
        Ty::Tuple(list) => {
            assert(final_ty(bindings, ty)->Tuple_0 =~= list.map_values(
                |part: Ty| final_ty(bindings, part),
            ));
        },
        Ty::FunctionPointer { parameters, .. } => {
            assert(final_ty(bindings, ty)->parameters =~= parameters.map_values(
                |part: Ty| final_ty(bindings, part),
            ));
        },
        _ => {},
    }
}

/// Whether a constraint is that two types be equal.
pub open spec fn asks_for(demand: Demand, l: Ty, r: Ty) -> bool {
    demand matches Demand::Equal { left, right, .. } && left == l && right == r
}

/// Whether it was noted that two types have to be equal.
pub open spec fn asks(st: Checking, l: Ty, r: Ty) -> bool {
    exists|i: int| 0 <= i < st.constraints.len() && asks_for(#[trigger] st.constraints[i], l, r)
}

/// Whether a type has no variables that could still come to stand for something.
pub open spec fn is_closed(ty: Ty) -> bool {
    reach(ty) == Set::<TypeVariable>::empty()
}

proof fn lemma_closed(bindings: Seq<Binding>, ty: Ty)
    requires
        is_closed(ty),
    ensures
        final_ty(bindings, ty) == ty,
{
    lemma_applied_clear(bindings, ty);
    lemma_defaulted_enough(Set::empty(), ty);
    lemma_defaulted_none(ty);
}

/// What it means that a body was accepted: nothing was wrong, every type that was
/// noted is the final one of what was noted, and what was to be equal agrees.
proof fn lemma_accepted(p: Place, st: Checking, done: Checking, found: Findings) -> (b: Seq<Binding>)
    requires
        comes_later(st, done),
        concluded(p, done) == Some(Ok::<Findings, Seq<Mistake>>(found)),
    ensures
        st.errors.len() == 0,
        forall|id: u32| #[trigger]
            st.nodes.contains_key(id) ==> found.node_types.contains_key(id)
                && found.node_types[id] == final_ty(b, st.nodes[id]),
        forall|l: Ty, r: Ty| #[trigger]
            asks(st, l, r) ==> agree(final_ty(b, l), final_ty(b, r)),
{
    let solved = solution(done.constraints)->0;
    let b = solved.bindings;
    assert((done.errors + solved.errors).len() == 0);
    law_constraints_hold(done.constraints);
    assert forall|l: Ty, r: Ty| #[trigger] asks(st, l, r) implies agree(
        final_ty(b, l),
        final_ty(b, r),
    ) by {
        let i = choose|i: int|
            0 <= i < st.constraints.len() && asks_for(#[trigger] st.constraints[i], l, r);
        assert(done.constraints[i] == st.constraints[i]);
        lemma_agree_defaulted(applied(b, l), applied(b, r));
    }
    b
}

/// Whether a type can be used by an operator that calculates.
pub open spec fn is_calculable(ty: Ty) -> bool {
    ty is Char || ty is Integer || ty is UnsignedInteger || ty is Float || ty is Pointer
        || ty is Any
}

/// Whether an operator compares.
pub open spec fn compares(operator: BinaryOperatorKind) -> bool {
    match operator {
        BinaryOperatorKind::Equals
        | BinaryOperatorKind::NotEquals
        | BinaryOperatorKind::LessThan
        | BinaryOperatorKind::LessThanOrEqualTo
        | BinaryOperatorKind::GreaterThan
        | BinaryOperatorKind::GreaterThanOrEqualTo => true,
        _ => false,
    }
}

/// Whether an operator is a logical one.
pub open spec fn is_logical(operator: BinaryOperatorKind) -> bool {
    operator is LogicalAnd || operator is LogicalOr
}

/// Whether a field is the last one with a name.
pub open spec fn is_last_named(
    fields: Seq<(InternedSymbol, Ty)>,
    k: int,
    name: InternedSymbol,
) -> bool {
    0 <= k < fields.len() && fields[k].0 == name && (forall|j: int|
        k < j < fields.len() ==> (#[trigger] fields[j]).0 != name)
}

/// Whether a field is the first one with a name.
pub open spec fn is_first_named(
    fields: Seq<(InternedSymbol, Ty)>,
    k: int,
    name: InternedSymbol,
) -> bool {
    0 <= k < fields.len() && fields[k].0 == name && (forall|j: int|
        0 <= j < k ==> (#[trigger] fields[j]).0 != name)
}

/// Whether a field is given a value.
pub open spec fn is_given(list: Seq<Rc<StructInitializerField>>, name: InternedSymbol) -> bool {
    exists|i: int| 0 <= i < list.len() && (#[trigger] list[i]).name.symbol == name
}

/// Whether a field that is given a value is declared, with a type that the value's
/// agrees with.
pub open spec fn fits_declared(
    found: Findings,
    fields: Seq<(InternedSymbol, Ty)>,
    field: &StructInitializerField,
) -> bool {
    exists|k: int|
        #[trigger] is_last_named(fields, k, field.name.symbol) && (is_closed(fields[k].1) ==> agree(
            ty_of(found, field.hir_id),
            fields[k].1,
        ))
}

/// Whether the type of an expression fits those of its parts.
pub open spec fn is_well_typed(p: Place, context: Checking, found: Findings, e: Expression) -> bool {
    let own = ty_of(found, e.hir_id);
    match e.kind {
        ExpressionKind::Literal(literal) => match literal {
            Literal::Boolean(_) => own == Ty::Bool,
            Literal::Char(_) => own == Ty::Char,
            Literal::Integer(_, LiteralIntegerKind::Unsigned(kind)) => own == Ty::UnsignedInteger(
                kind,
            ),
            Literal::Integer(_, LiteralIntegerKind::Signed(kind)) => own == Ty::Integer(kind),
            Literal::Float(_, LiteralFloatKind::Suffixed(kind)) => own == Ty::Float(kind),
            Literal::String(_) => own == Ty::Str,
            Literal::ByteString(_) => own == Ty::Slice(
                Box::new(Ty::UnsignedInteger(UIntKind::U8)),
            ),
            Literal::CString(_) => own == Ty::CStr,
            _ => true,
        },
        ExpressionKind::Path(path) => match path.segments@.last().resolution {
            Resolution::Local(local) => own == found.node_types[local.0],
            Resolution::Definition(_, def_id) => is_closed(p.env.defs[def_id.0]) ==> own
                == p.env.defs[def_id.0],
            _ => true,
        },
        ExpressionKind::This => context.self_type matches Some(ty) && (is_closed(ty) ==> own == ty),
        ExpressionKind::Array(ArrayInitializer::Repeated { value, length }) => own == (Ty::Array {
            ty: Box::new(ty_of(found, value.hir_id)),
            length,
        }),
        ExpressionKind::Array(ArrayInitializer::Specific(list)) => {
            &&& own matches Ty::Array { ty, length } && length == list@.len() && (forall|i: int|
                0 <= i < list@.len() ==> agree(*ty, ty_of(found, (#[trigger] list@[i]).hir_id)))
        },
        ExpressionKind::Tuple(list) => own matches Ty::Tuple(parts) && parts.len() == list@.len()
            && (forall|i: int|
            0 <= i < list@.len() ==> parts[i] == ty_of(found, (#[trigger] list@[i]).hir_id)),
        ExpressionKind::Struct { fields: list, .. } => own matches Ty::Struct { fields, .. } && {
            &&& forall|k: int| 0 <= k < fields.len() ==> is_given(list@, (#[trigger] fields[k]).0)
            &&& forall|i: int|
                0 <= i < list@.len() ==> fits_declared(found, fields, &*(#[trigger] list@[i]))
        },
        ExpressionKind::FieldAccess { target, name, is_method_call, .. } => match ty_of(
            found,
            target.hir_id,
        ) {
            Ty::Struct { fields, .. } => !is_method_call ==> exists|k: int|
                is_first_named(fields, k, name.symbol) && (is_closed((#[trigger] fields[k]).1)
                    ==> own == fields[k].1),
            _ => true,
        },
        ExpressionKind::Block(block) => own == ty_of(found, block.hir_id),
        ExpressionKind::FunctionCall { target, arguments } => ty_of(
            found,
            target.hir_id,
        ) matches Ty::FunctionPointer { parameters, return_type, is_variadic } && {
            let skipped = if is_method(*target) {
                1int
            } else {
                0
            };
            &&& own == *return_type
            &&& arguments@.len() >= parameters.len() - skipped
            &&& !is_variadic ==> arguments@.len() == parameters.len() - skipped
            &&& forall|i: int|
                0 <= i < parameters.len() - skipped ==> agree(
                    parameters[i + skipped],
                    ty_of(found, (#[trigger] arguments@[i]).hir_id),
                )
        },
        ExpressionKind::Binary { lhs, operator, rhs } => {
            let (l, r) = (ty_of(found, lhs.hir_id), ty_of(found, rhs.hir_id));
            if is_logical(operator) {
                own == Ty::Bool && l == Ty::Bool && r == Ty::Bool
            } else if compares(operator) {
                own == Ty::Bool && agree(l, r)
            } else {
                &&& own == l
                &&& agree(l, r) || ((l is Pointer || l is Any) && agree(
                    r,
                    Ty::UnsignedInteger(UIntKind::USize),
                ))
            }
        },
        ExpressionKind::Unary { operator, operand } => {
            let inner = ty_of(found, operand.hir_id);
            match operator {
                UnaryOperatorKind::Deref => inner == Ty::Pointer(Box::new(own)) || inner
                    == Ty::Error,
                UnaryOperatorKind::AddressOf { .. } => own == Ty::Pointer(Box::new(inner)),
                UnaryOperatorKind::LogicalNot => own == Ty::Bool && inner == Ty::Bool,
                _ => own == inner,
            }
        },
        ExpressionKind::Cast { ty, .. } => own == ty_of(found, ty.hir_id),
        ExpressionKind::If { condition, positive, negative } => {
            let (c, t) = (ty_of(found, condition.hir_id), ty_of(found, positive.hir_id));
            &&& c == Ty::Bool || c == Ty::Error
            &&& own == t
            &&& negative matches Some(other) ==> {
                let f = ty_of(found, other.hir_id);
                t == Ty::Never || f == Ty::Never || agree(t, f)
            }
        },
        ExpressionKind::While { condition, block } => {
            let (c, t) = (ty_of(found, condition.hir_id), ty_of(found, block.hir_id));
            &&& c == Ty::Bool || c == Ty::Error
            &&& t == Ty::Unit || t == Ty::Never
            &&& own == Ty::Unit
        },
        ExpressionKind::Assignment { lhs, rhs } => {
            ||| own == Ty::Unit && agree(ty_of(found, lhs.hir_id), ty_of(found, rhs.hir_id))
                && can_be_assigned(p, *lhs)
            ||| lhs.kind matches ExpressionKind::Unary { operand, .. } && ty_of(
                found,
                operand.hir_id,
            ) == Ty::Error
        },
        ExpressionKind::OperatorAssignment { lhs, rhs, .. } => own == Ty::Unit && agree(
            ty_of(found, lhs.hir_id),
            ty_of(found, rhs.hir_id),
        ),
        ExpressionKind::Break | ExpressionKind::Continue => own == Ty::Never && context.within_loop,
        ExpressionKind::Return(value) => own == Ty::Never && (
        context.return_type matches Some(returned) && match value {
            Some(v) => is_closed(returned) ==> agree(ty_of(found, v.hir_id), returned),
            None => returned == Ty::Unit,
        }),
        _ => true,
    }
}

/// Whether an expression is something that can be assigned to: a variable that is
/// declared as mutable, what a pointer points to, or a field.
pub open spec fn can_be_assigned(p: Place, e: Expression) -> bool {
    match e.kind {
        ExpressionKind::Path(path) => match path.segments@.last().resolution {
            Resolution::Local(id) => p.env.module.parented(
                HirId { owner: p.owner, local_id: id },
            ).node matches Node::LetStatement(local) && local.is_mutable,
            Resolution::Definition(DefinitionKind::Static, def_id) => p.env.module.owner(
                def_id,
            ).item().kind matches ItemKind::Static { is_mutable, .. } && is_mutable,
            _ => false,
        },
        ExpressionKind::Unary { operator, .. } => operator is Deref,
        ExpressionKind::FieldAccess { .. } => true,
        _ => false,
    }
}

proof fn lemma_types_upto(st: Checking, list: Seq<Rc<Expression>>, n: nat)
    requires
        n <= list.len(),
        types_upto(st, list, n) is Some,
    ensures
        types_upto(st, list, n)->0.len() == n,
        forall|i: int|
            0 <= i < n ==> st.has((#[trigger] list[i]).hir_id) && types_upto(st, list, n)->0[i]
                == st.at(list[i].hir_id),
    decreases n,
{
    if n > 0 {
        lemma_types_upto(st, list, (n - 1) as nat);
    }
}

proof fn lemma_asks_more(st: Checking, l: Ty, r: Ty, after: Checking)
    requires
        st.constraints.is_prefix_of(after.constraints),
        asks(st, l, r),
    ensures
        asks(after, l, r),
{
    let i = choose|i: int|
        0 <= i < st.constraints.len() && asks_for(#[trigger] st.constraints[i], l, r);
    assert(after.constraints[i] == st.constraints[i]);
}

proof fn lemma_asks_new(st: Checking, l: Ty, r: Ty, demand: Demand)
    requires
        asks_for(demand, l, r),
    ensures
        asks((Checking { constraints: st.constraints.push(demand), ..st }), l, r),
{
    let after = Checking { constraints: st.constraints.push(demand), ..st };
    assert(after.constraints[st.constraints.len() as int] == demand);
}

proof fn lemma_prefix_push<T>(a: Seq<T>, b: Seq<T>, x: T)
    requires
        a.is_prefix_of(b),
    ensures
        a.is_prefix_of(b.push(x)),
        b.is_prefix_of(b.push(x)),
{
    assert(a =~= b.push(x).take(a.len() as int)) by {
        assert(a =~= b.take(a.len() as int));
        assert forall|i: int| 0 <= i < a.len() implies a[i] == b.push(x)[i] by {
            assert(b.take(a.len() as int)[i] == b[i]);
        }
    }
    assert(b =~= b.push(x).take(b.len() as int));
}

proof fn lemma_elements_equal(st: Checking, list: Seq<Rc<Expression>>, tys: Seq<Ty>, n: nat)
    ensures
        ({
            let after = elements_equal(st, list, tys, n);
            &&& after.nodes == st.nodes
            &&& after.errors == st.errors
            &&& forall|i: int| 1 <= i < n ==> asks(after, tys[0], #[trigger] tys[i])
        }),
    decreases n,
{
    if n > 1 {
        lemma_elements_equal(st, list, tys, (n - 1) as nat);
        let before = elements_equal(st, list, tys, (n - 1) as nat);
        let after = elements_equal(st, list, tys, n);
        let demand = after.constraints.last();
        lemma_asks_new(before, tys[0], tys[n - 1], demand);
        lemma_prefix_push(before.constraints, before.constraints, demand);
        assert(after.constraints == before.constraints.push(demand));
        assert forall|i: int| 1 <= i < n implies asks(after, tys[0], #[trigger] tys[i]) by {
            if i < n - 1 {
                lemma_asks_more(before, tys[0], tys[i], after);
            }
        }
    }
}

proof fn lemma_missing(
    st: Checking,
    span: crate::frontend::lexer::Span,
    fields: Seq<(InternedSymbol, Ty)>,
    list: Seq<Rc<StructInitializerField>>,
    n: nat,
)
    requires
        n <= fields.len(),
    ensures
        ({
            let after = missing_fields(st, span, fields, list, n);
            &&& after.nodes == st.nodes
            &&& st.errors.len() <= after.errors.len()
            &&& after.errors.len() == 0 ==> forall|k: int|
                0 <= k < n ==> gives(list, list.len() as int, (#[trigger] fields[k]).0)
        }),
    decreases n,
{
    if n > 0 {
        lemma_missing(st, span, fields, list, (n - 1) as nat);
        let after = missing_fields(st, span, fields, list, n);
        if after.errors.len() == 0 {
            assert forall|k: int| 0 <= k < n implies gives(
                list,
                list.len() as int,
                (#[trigger] fields[k]).0,
            ) by {
                if k == n - 1 && declares(fields, n - 1, fields[n - 1].0) {
                    let j = choose|j: int|
                        0 <= j < n - 1 && (#[trigger] fields[j]).0 == fields[n - 1].0;
                    assert(gives(list, list.len() as int, fields[j].0));
                }
            }
        }
    }
}

proof fn lemma_extra(
    st: Checking,
    fields: Seq<(InternedSymbol, Ty)>,
    list: Seq<Rc<StructInitializerField>>,
    n: nat,
)
    requires
        n <= list.len(),
    ensures
        ({
            let after = extra_fields(st, fields, list, n);
            &&& after.nodes == st.nodes
            &&& st.errors.len() <= after.errors.len()
            &&& after.errors.len() == 0 ==> forall|i: int|
                0 <= i < n ==> declares(
                    fields,
                    fields.len() as int,
                    (#[trigger] list[i]).name.symbol,
                )
        }),
    decreases n,
{
    if n > 0 {
        lemma_extra(st, fields, list, (n - 1) as nat);
        let after = extra_fields(st, fields, list, n);
        if after.errors.len() == 0 {
            assert forall|i: int| 0 <= i < n implies declares(
                fields,
                fields.len() as int,
                (#[trigger] list[i]).name.symbol,
            ) by {
                if i == n - 1 && gives(list, n - 1, list[n - 1].name.symbol) {
                    let j = choose|j: int|
                        0 <= j < n - 1 && (#[trigger] list[j]).name.symbol
                            == list[n - 1].name.symbol;
                    assert(declares(fields, fields.len() as int, list[j].name.symbol));
                }
            }
        }
    }
}

proof fn lemma_declared(fields: Seq<(InternedSymbol, Ty)>, n: nat, name: InternedSymbol) -> (k: int)
    requires
        n <= fields.len(),
        declares(fields, n as int, name),
    ensures
        0 <= k < n,
        fields[k].0 == name,
        declared_ty(fields, n, name) == fields[k].1,
        forall|j: int| k < j < n ==> (#[trigger] fields[j]).0 != name,
    decreases n,
{
    if fields[n - 1].0 == name {
        n - 1
    } else {
        let j = choose|j: int| 0 <= j < n && (#[trigger] fields[j]).0 == name;
        assert(fields[j].0 == name && j < n - 1);
        lemma_declared(fields, (n - 1) as nat, name)
    }
}

proof fn lemma_fields_equal(
    st: Checking,
    fields: Seq<(InternedSymbol, Ty)>,
    list: Seq<Rc<StructInitializerField>>,
    n: nat,
)
    requires
        n <= list.len(),
        fields_equal(st, fields, list, n) is Some,
    ensures
        ({
            let after = fields_equal(st, fields, list, n)->0;
            &&& after.nodes == st.nodes
            &&& after.errors == st.errors
            &&& forall|i: int|
                0 <= i < n && declares(
                    fields,
                    fields.len() as int,
                    (#[trigger] list[i]).name.symbol,
                ) ==> st.has(list[i].hir_id) && asks(
                    after,
                    st.at(list[i].hir_id),
                    declared_ty(fields, fields.len(), list[i].name.symbol),
                )
        }),
    decreases n,
{
    if n > 0 {
        lemma_fields_equal(st, fields, list, (n - 1) as nat);
        let before = fields_equal(st, fields, list, (n - 1) as nat)->0;
        let after = fields_equal(st, fields, list, n)->0;
        let name = list[n - 1].name.symbol;
        let wanted = declared_ty(fields, fields.len(), name);
        if declares(fields, fields.len() as int, name) {
            let demand = after.constraints.last();
            lemma_asks_new(before, before.at(list[n - 1].hir_id), wanted, demand);
            lemma_prefix_push(before.constraints, before.constraints, demand);
            assert(after.constraints == before.constraints.push(demand));
        } else {
            assert(before.constraints.is_prefix_of(before.constraints)) by {
                assert(before.constraints =~= before.constraints.take(
                    before.constraints.len() as int,
                ));
            }
        }
        assert forall|i: int|
            0 <= i < n && declares(
                fields,
                fields.len() as int,
                (#[trigger] list[i]).name.symbol,
            ) implies st.has(list[i].hir_id) && asks(
            after,
            st.at(list[i].hir_id),
            declared_ty(fields, fields.len(), list[i].name.symbol),
        ) by {
            if i < n - 1 {
                lemma_asks_more(
                    before,
                    st.at(list[i].hir_id),
                    declared_ty(fields, fields.len(), list[i].name.symbol),
                    after,
                );
            }
        }
    }
}

proof fn lemma_arguments_equal(
    st: Checking,
    expected: Seq<Ty>,
    arguments: Seq<Rc<Expression>>,
    n: nat,
)
    requires
        n <= arguments.len(),
        arguments_equal(st, expected, arguments, n) is Some,
    ensures
        ({
            let after = arguments_equal(st, expected, arguments, n)->0;
            &&& after.nodes == st.nodes
            &&& after.errors == st.errors
            &&& forall|i: int|
                0 <= i < n ==> st.has((#[trigger] arguments[i]).hir_id) && asks(
                    after,
                    expected[i],
                    st.at(arguments[i].hir_id),
                )
        }),
    decreases n,
{
    if n > 0 {
        lemma_arguments_equal(st, expected, arguments, (n - 1) as nat);
        let before = arguments_equal(st, expected, arguments, (n - 1) as nat)->0;
        let after = arguments_equal(st, expected, arguments, n)->0;
        let demand = after.constraints.last();
        lemma_asks_new(before, expected[n - 1], before.at(arguments[n - 1].hir_id), demand);
        lemma_prefix_push(before.constraints, before.constraints, demand);
        assert(after.constraints == before.constraints.push(demand));
        assert forall|i: int| 0 <= i < n implies st.has((#[trigger] arguments[i]).hir_id) && asks(
            after,
            expected[i],
            st.at(arguments[i].hir_id),
        ) by {
            if i < n - 1 {
                lemma_asks_more(before, expected[i], st.at(arguments[i].hir_id), after);
            }
        }
    }
}

proof fn lemma_found_field(fields: Seq<(InternedSymbol, Ty)>, name: InternedSymbol, k: nat)
    requires
        k <= fields.len(),
        forall|j: int| 0 <= j < k ==> (#[trigger] fields[j]).0 != name,
    ensures
        find_field(fields, name, k) matches Some(at) ==> is_first_named(fields, at as int, name),
    decreases fields.len() - k,
{
    if k < fields.len() && fields[k as int].0 != name {
        lemma_found_field(fields, name, k + 1);
    }
}

/// Where a body is accepted, the type of every expression in it fits those of its
/// parts. In a conditional both branches agree unless control does not reach the
/// end of one, and the condition is a boolean; the operands of an operator agree;
/// arguments agree with parameters and what is returned with what is to be
/// returned; fields are all given, with values of their types; and so on. The
/// expression is checked in a state that knows the types of its parts, and none of
/// them is given another type later.
pub proof fn law_expressions_are_well_typed(
    p: Place,
    st: Checking,
    e: &Expression,
    after: Checking,
    done: Checking,
    found: Findings,
)
    requires
        expression_rule(p, st, *e) == Some(after),
        !st.has(e.hir_id),
        comes_later(after, done),
        concluded(p, done) == Some(Ok::<Findings, Seq<Mistake>>(found)),
    ensures
        is_well_typed(p, st, found, *e),
{
    let b = lemma_accepted(p, after, done, found);
    assert forall|id: u32| st.nodes.contains_key(id) && after.nodes.contains_key(id)
        && after.nodes[id] == st.nodes[id] implies #[trigger] found.node_types[id] == final_ty(
        b,
        st.nodes[id],
    ) by {}
    assert(after.errors.len() == 0);
    let own = ty_of(found, e.hir_id);
    match e.kind {
        ExpressionKind::Literal(literal) => lemma_literal(p, st, e, after, b, found),
        ExpressionKind::Path(_) => lemma_path(p, st, e, after, b, found),
        ExpressionKind::This => {
            if let Some(ty) = st.self_type {
                assert(after.nodes.contains_key(e.hir_id.local_id.0));
                if is_closed(ty) {
                    lemma_closed(b, ty);
                }
            }
        },
        ExpressionKind::Array(_) => lemma_array(p, st, e, after, b, found),
        ExpressionKind::Tuple(list) => lemma_tuple(p, st, e, after, b, found),
        ExpressionKind::Struct { .. } => lemma_struct(p, st, e, after, b, found),
        ExpressionKind::FieldAccess { .. } => lemma_field(p, st, e, after, b, found),
        ExpressionKind::FunctionCall { .. } => lemma_call(p, st, e, after, b, found),
        ExpressionKind::Binary { .. } => lemma_binary(p, st, e, after, b, found),
        ExpressionKind::Unary { .. } => lemma_unary(p, st, e, after, b, found),
        ExpressionKind::If { .. } => lemma_if(p, st, e, after, b, found),
        ExpressionKind::While { .. } => lemma_while(p, st, e, after, b, found),
        ExpressionKind::Assignment { .. } => lemma_assignment(p, st, e, after, b, found),
        ExpressionKind::OperatorAssignment { .. } => {
            lemma_operator_assignment(p, st, e, after, b, found)
        },
        ExpressionKind::Return(_) => lemma_return(p, st, e, after, b, found),
        ExpressionKind::Break | ExpressionKind::Continue => {
            lemma_final_parts(b, Ty::Never);
            assert(after.nodes.contains_key(e.hir_id.local_id.0));
        },
        ExpressionKind::Block(block) => {
            assert(after.nodes.contains_key(e.hir_id.local_id.0));
            assert(after.nodes.contains_key(block.hir_id.local_id.0));
        },
        ExpressionKind::Cast { ty, .. } => {
            assert(after.nodes.contains_key(e.hir_id.local_id.0));
            assert(after.nodes.contains_key(ty.hir_id.local_id.0));
        },
        ExpressionKind::Subscript { .. } => {},
    }
}

/// Whether an accepted body has final types for what is noted after a rule.
spec fn is_accepted(after: Checking, b: Seq<Binding>, found: Findings) -> bool {
    &&& after.errors.len() == 0
    &&& forall|id: u32| #[trigger]
        after.nodes.contains_key(id) ==> found.node_types.contains_key(id)
            && found.node_types[id] == final_ty(b, after.nodes[id])
    &&& forall|l: Ty, r: Ty| #[trigger] asks(after, l, r) ==> agree(final_ty(b, l), final_ty(b, r))
}

proof fn lemma_literal(
    p: Place,
    st: Checking,
    e: &Expression,
    after: Checking,
    b: Seq<Binding>,
    found: Findings,
)
    requires
        e.kind is Literal,
        expression_rule(p, st, *e) == Some(after),
        !st.has(e.hir_id),
        is_accepted(after, b, found),
    ensures
        is_well_typed(p, st, found, *e),
{
    let own = after.at(e.hir_id);
    assert(after.nodes.contains_key(e.hir_id.local_id.0));
    lemma_final_parts(b, own);
    if let Ty::Slice(inner) = own {
        lemma_final_parts(b, *inner);
    }
}

proof fn lemma_path(
    p: Place,
    st: Checking,
    e: &Expression,
    after: Checking,
    b: Seq<Binding>,
    found: Findings,
)
    requires
        e.kind is Path,
        expression_rule(p, st, *e) == Some(after),
        !st.has(e.hir_id),
        is_accepted(after, b, found),
    ensures
        is_well_typed(p, st, found, *e),
{
    let path = e.kind->Path_0;
    assert(after.nodes.contains_key(e.hir_id.local_id.0));
    match path.segments@.last().resolution {
        Resolution::Local(local) => {
            assert(after.nodes.contains_key(local.0));
        },
        Resolution::Definition(_, def_id) => {
            if is_closed(p.env.defs[def_id.0]) {
                lemma_closed(b, p.env.defs[def_id.0]);
            }
        },
        _ => {},
    }
}

proof fn lemma_array(
    p: Place,
    st: Checking,
    e: &Expression,
    after: Checking,
    b: Seq<Binding>,
    found: Findings,
)
    requires
        e.kind is Array,
        expression_rule(p, st, *e) == Some(after),
        !st.has(e.hir_id),
        is_accepted(after, b, found),
    ensures
        is_well_typed(p, st, found, *e),
{
    assert(after.nodes.contains_key(e.hir_id.local_id.0));
    lemma_final_parts(b, after.at(e.hir_id));
    match e.kind->Array_0 {
        ArrayInitializer::Repeated { value, length } => {
            assert(after.nodes.contains_key(value.hir_id.local_id.0));
        },
        ArrayInitializer::Specific(list) => {
            assert(list@.len() == list.len());
            let tys = types_upto(st, list@, list@.len())->0;
            lemma_types_upto(st, list@, list@.len());
            lemma_elements_equal(st, list@, tys, tys.len());
            let asked = elements_equal(st, list@, tys, tys.len());
            assert forall|i: int| 0 <= i < list@.len() implies agree(
                final_ty(b, tys[0]),
                ty_of(found, (#[trigger] list@[i]).hir_id),
            ) by {
                assert(st.has(list@[i].hir_id));
                assert(after.nodes.contains_key(list@[i].hir_id.local_id.0));
                if i > 0 {
                    assert(asks(asked, tys[0], tys[i]));
                    assert(after.constraints == asked.constraints);
                    assert(asks(after, tys[0], tys[i])) by {
                        let k = choose|k: int|
                            0 <= k < asked.constraints.len() && asks_for(
                                #[trigger] asked.constraints[k],
                                tys[0],
                                tys[i],
                            );
                        assert(asks_for(after.constraints[k], tys[0], tys[i]));
                    }
                }
            }
        },
    }
}

proof fn lemma_tuple(
    p: Place,
    st: Checking,
    e: &Expression,
    after: Checking,
    b: Seq<Binding>,
    found: Findings,
)
    requires
        e.kind is Tuple,
        expression_rule(p, st, *e) == Some(after),
        !st.has(e.hir_id),
        is_accepted(after, b, found),
    ensures
        is_well_typed(p, st, found, *e),
{
    let list = e.kind->Tuple_0;
    let tys = types_upto(st, list@, list@.len())->0;
    lemma_types_upto(st, list@, list@.len());
    assert(after.nodes.contains_key(e.hir_id.local_id.0));
    lemma_final_parts(b, Ty::Tuple(tys));
    let parts = ty_of(found, e.hir_id)->Tuple_0;
    assert forall|i: int| 0 <= i < list@.len() implies parts[i] == ty_of(
        found,
        (#[trigger] list@[i]).hir_id,
    ) by {
        assert(st.has(list@[i].hir_id));
        assert(after.nodes.contains_key(list@[i].hir_id.local_id.0));
    }
}

proof fn lemma_struct(
    p: Place,
    st: Checking,
    e: &Expression,
    after: Checking,
    b: Seq<Binding>,
    found: Findings,
)
    requires
        e.kind is Struct,
        expression_rule(p, st, *e) == Some(after),
        !st.has(e.hir_id),
        is_accepted(after, b, found),
    ensures
        is_well_typed(p, st, found, *e),
{
    let list = e.kind->Struct_fields;
    assert(after.nodes.contains_key(e.hir_id.local_id.0));
    let ty = after.at(e.hir_id);
    lemma_final_parts(b, ty);
    let fields = ty->Struct_fields;
    let missed = missing_fields(st, e.span, fields, list@, fields.len());
    let reported = extra_fields(missed, fields, list@, list@.len());
    lemma_missing(st, e.span, fields, list@, fields.len());
    lemma_extra(missed, fields, list@, list@.len());
    lemma_fields_equal(reported, fields, list@, list@.len());
    let asked = fields_equal(reported, fields, list@, list@.len())->0;
    assert(after.errors == asked.errors && after.constraints == asked.constraints);
    assert(after.nodes == st.nodes.insert(e.hir_id.local_id.0, ty));
    assert forall|k: int| 0 <= k < fields.len() implies is_given(list@, fields[k].0) by {
        assert(gives(list@, list@.len() as int, fields[k].0));
    }
    assert forall|i: int| 0 <= i < list@.len() implies fits_declared(
        found,
        fields,
        &*(#[trigger] list@[i]),
    ) by {
        let name = list@[i].name.symbol;
        assert(declares(fields, fields.len() as int, name));
        let k = lemma_declared(fields, fields.len(), name);
        assert(is_last_named(fields, k, name));
        let (l, r) = (st.at(list@[i].hir_id), fields[k].1);
        assert(asks(asked, l, r));
        lemma_asks_same(asked, after, l, r);
        assert(after.nodes.contains_key(list@[i].hir_id.local_id.0));
        if is_closed(r) {
            lemma_closed(b, r);
        }
    }
}

proof fn lemma_asks_same(a: Checking, b: Checking, l: Ty, r: Ty)
    requires
        a.constraints == b.constraints,
        asks(a, l, r),
    ensures
        asks(b, l, r),
{
    let k = choose|k: int|
        0 <= k < a.constraints.len() && asks_for(#[trigger] a.constraints[k], l, r);
    assert(asks_for(b.constraints[k], l, r));
}

proof fn lemma_field(
    p: Place,
    st: Checking,
    e: &Expression,
    after: Checking,
    b: Seq<Binding>,
    found: Findings,
)
    requires
        e.kind is FieldAccess,
        expression_rule(p, st, *e) == Some(after),
        !st.has(e.hir_id),
        is_accepted(after, b, found),
    ensures
        is_well_typed(p, st, found, *e),
{
    let target = e.kind->FieldAccess_target;
    let name = e.kind->FieldAccess_name;
    let ty = st.at(target.hir_id);
    assert(after.nodes.contains_key(e.hir_id.local_id.0));
    assert(after.nodes.contains_key(target.hir_id.local_id.0));
    lemma_final_parts(b, ty);
    if let Ty::Struct { fields, .. } = ty {
        lemma_found_field(fields, name.symbol, 0);
        if let Some(k) = find_field(fields, name.symbol, 0) {
            assert(is_first_named(fields, k as int, name.symbol));
            if is_closed(fields[k as int].1) {
                lemma_closed(b, fields[k as int].1);
            }
        }
    }
}

proof fn lemma_call(
    p: Place,
    st: Checking,
    e: &Expression,
    after: Checking,
    b: Seq<Binding>,
    found: Findings,
)
    requires
        e.kind is FunctionCall,
        expression_rule(p, st, *e) == Some(after),
        !st.has(e.hir_id),
        is_accepted(after, b, found),
    ensures
        is_well_typed(p, st, found, *e),
{
    let target = e.kind->FunctionCall_target;
    let list = e.kind->FunctionCall_arguments;
    let ty = st.at(target.hir_id);
    assert(after.nodes.contains_key(e.hir_id.local_id.0)) by {
        call_notes(p, st, e, after);
    }
    call_notes(p, st, e, after);
    lemma_final_parts(b, ty);
    match ty {
        Ty::FunctionPointer { parameters, return_type, is_variadic } => {
            let typed = st.with_type(e.hir_id.local_id.0, *return_type);
            let skipped = if is_method_call(&*target) {
                1int
            } else {
                0
            };
            let expected = if is_method_call(&*target) {
                parameters.skip(1)
            } else {
                parameters
            };
            lemma_arguments_equal(typed, expected, list@, expected.len());
            let finals = ty_of(found, target.hir_id)->parameters;
            assert forall|i: int| 0 <= i < finals.len() - skipped implies agree(
                finals[i + skipped],
                ty_of(found, (#[trigger] list@[i]).hir_id),
            ) by {
                assert(asks(after, expected[i], typed.at(list@[i].hir_id)));
                assert(expected[i] == parameters[i + skipped]);
                assert(after.nodes.contains_key(list@[i].hir_id.local_id.0));
            }
        },
        _ => {},
    }
}

/// Whether an expression names a method to be called.
spec fn is_method_call(e: &Expression) -> bool {
    is_method(*e)
}

proof fn call_notes(p: Place, st: Checking, e: &Expression, after: Checking)
    requires
        e.kind is FunctionCall,
        expression_rule(p, st, *e) == Some(after),
        !st.has(e.hir_id),
        after.errors.len() == 0,
    ensures
        ({
            let target = e.kind->FunctionCall_target;
            let list = e.kind->FunctionCall_arguments;
            &&& st.has(target.hir_id)
            &&& after.nodes.contains_key(target.hir_id.local_id.0)
            &&& after.at(target.hir_id) == st.at(target.hir_id)
            &&& st.at(target.hir_id) matches Ty::FunctionPointer {
                parameters,
                return_type,
                is_variadic,
            } && {
                let typed = st.with_type(e.hir_id.local_id.0, *return_type);
                let expected = if is_method_call(&*target) {
                    parameters.skip(1)
                } else {
                    parameters
                };
                &&& is_method_call(&*target) ==> parameters.len() > 0
                &&& expected.len() <= list@.len()
                &&& !is_variadic ==> expected.len() == list@.len()
                &&& arguments_equal(typed, expected, list@, expected.len()) == Some(after)
                &&& after.nodes.contains_key(e.hir_id.local_id.0)
                &&& after.at(e.hir_id) == *return_type
            }
        }),
{
    let target = e.kind->FunctionCall_target;
    let list = e.kind->FunctionCall_arguments;
    if let Ty::FunctionPointer { parameters, return_type, is_variadic } = st.at(target.hir_id) {
        let typed = st.with_type(e.hir_id.local_id.0, *return_type);
        let expected = if is_method_call(&*target) {
            parameters.skip(1)
        } else {
            parameters
        };
        if expected.len() <= list@.len() {
            if arguments_equal(typed, expected, list@, expected.len()) is Some {
                lemma_arguments_equal(typed, expected, list@, expected.len());
            }
        }
    }
}

proof fn lemma_binary(
    p: Place,
    st: Checking,
    e: &Expression,
    after: Checking,
    b: Seq<Binding>,
    found: Findings,
)
    requires
        e.kind is Binary,
        expression_rule(p, st, *e) == Some(after),
        !st.has(e.hir_id),
        is_accepted(after, b, found),
    ensures
        is_well_typed(p, st, found, *e),
{
    let (lhs, rhs) = (e.kind->Binary_lhs, e.kind->Binary_rhs);
    let (l, r) = (st.at(lhs.hir_id), st.at(rhs.hir_id));
    assert(after.nodes.contains_key(e.hir_id.local_id.0));
    assert(after.nodes.contains_key(lhs.hir_id.local_id.0));
    assert(after.nodes.contains_key(rhs.hir_id.local_id.0));
    lemma_final_parts(b, l);
    lemma_final_parts(b, r);
    lemma_final_parts(b, Ty::Bool);
    let usize_ty = Ty::UnsignedInteger(UIntKind::USize);
    lemma_final_parts(b, usize_ty);
    if after.constraints.len() > st.constraints.len() {
        let n = st.constraints.len() as int;
        assert(asks_for(after.constraints[n], l, r) || asks_for(after.constraints[n], r, usize_ty));
        assert(asks(after, l, r) || asks(after, r, usize_ty));
    }
}

proof fn lemma_unary(
    p: Place,
    st: Checking,
    e: &Expression,
    after: Checking,
    b: Seq<Binding>,
    found: Findings,
)
    requires
        e.kind is Unary,
        expression_rule(p, st, *e) == Some(after),
        !st.has(e.hir_id),
        is_accepted(after, b, found),
    ensures
        is_well_typed(p, st, found, *e),
{
    let operand = e.kind->Unary_operand;
    let ty = st.at(operand.hir_id);
    assert(after.nodes.contains_key(e.hir_id.local_id.0));
    assert(after.nodes.contains_key(operand.hir_id.local_id.0));
    lemma_final_parts(b, ty);
    lemma_final_parts(b, after.at(e.hir_id));
}

proof fn lemma_if(
    p: Place,
    st: Checking,
    e: &Expression,
    after: Checking,
    b: Seq<Binding>,
    found: Findings,
)
    requires
        e.kind is If,
        expression_rule(p, st, *e) == Some(after),
        !st.has(e.hir_id),
        is_accepted(after, b, found),
    ensures
        is_well_typed(p, st, found, *e),
{
    let (condition, positive) = (e.kind->If_condition, e.kind->If_positive);
    let t = st.at(positive.hir_id);
    assert(after.nodes.contains_key(e.hir_id.local_id.0));
    assert(after.nodes.contains_key(condition.hir_id.local_id.0));
    assert(after.nodes.contains_key(positive.hir_id.local_id.0));
    lemma_final_parts(b, st.at(condition.hir_id));
    lemma_final_parts(b, t);
    if let Some(other) = e.kind->If_negative {
        let f = st.at(other.hir_id);
        assert(after.nodes.contains_key(other.hir_id.local_id.0));
        lemma_final_parts(b, f);
        if !t.is_never() && !f.is_never() {
            let n = st.constraints.len() as int;
            assert(asks_for(after.constraints[n], t, f));
            assert(asks(after, t, f));
        }
    }
}

proof fn lemma_while(
    p: Place,
    st: Checking,
    e: &Expression,
    after: Checking,
    b: Seq<Binding>,
    found: Findings,
)
    requires
        e.kind is While,
        expression_rule(p, st, *e) == Some(after),
        !st.has(e.hir_id),
        is_accepted(after, b, found),
    ensures
        is_well_typed(p, st, found, *e),
{
    let (condition, block) = (e.kind->While_condition, e.kind->While_block);
    assert(after.nodes.contains_key(e.hir_id.local_id.0));
    assert(after.nodes.contains_key(condition.hir_id.local_id.0));
    assert(after.nodes.contains_key(block.hir_id.local_id.0));
    lemma_final_parts(b, st.at(condition.hir_id));
    lemma_final_parts(b, st.at(block.hir_id));
    lemma_final_parts(b, Ty::Unit);
}

proof fn lemma_assignment(
    p: Place,
    st: Checking,
    e: &Expression,
    after: Checking,
    b: Seq<Binding>,
    found: Findings,
)
    requires
        e.kind is Assignment,
        expression_rule(p, st, *e) == Some(after),
        !st.has(e.hir_id),
        is_accepted(after, b, found),
    ensures
        is_well_typed(p, st, found, *e),
{
    let (lhs, rhs) = (e.kind->Assignment_lhs, e.kind->Assignment_rhs);
    lemma_final_parts(b, Ty::Unit);
    lemma_final_parts(b, Ty::Error);
    match target_of(p, st, &*lhs) {
        Target::Ignored => {
            if let ExpressionKind::Unary { operand, .. } = &lhs.kind {
                assert(after.nodes.contains_key(operand.hir_id.local_id.0));
            }
        },
        Target::Fine => {
            let (l, r) = (st.at(lhs.hir_id), st.at(rhs.hir_id));
            assert(after.nodes.contains_key(e.hir_id.local_id.0));
            assert(after.nodes.contains_key(lhs.hir_id.local_id.0));
            assert(after.nodes.contains_key(rhs.hir_id.local_id.0));
            let n = st.constraints.len() as int;
            assert(asks_for(after.constraints[n], l, r));
            assert(asks(after, l, r));
        },
        _ => {},
    }
}

/// Whether an expression can be assigned to.
spec fn target_of(p: Place, st: Checking, lhs: &Expression) -> Target {
    assignment_target(p, st, *lhs)
}

proof fn lemma_operator_assignment(
    p: Place,
    st: Checking,
    e: &Expression,
    after: Checking,
    b: Seq<Binding>,
    found: Findings,
)
    requires
        e.kind is OperatorAssignment,
        expression_rule(p, st, *e) == Some(after),
        !st.has(e.hir_id),
        is_accepted(after, b, found),
    ensures
        is_well_typed(p, st, found, *e),
{
    let (lhs, rhs) = (e.kind->OperatorAssignment_lhs, e.kind->OperatorAssignment_rhs);
    let (l, r) = (st.at(lhs.hir_id), st.at(rhs.hir_id));
    assert(after.nodes.contains_key(e.hir_id.local_id.0));
    assert(after.nodes.contains_key(lhs.hir_id.local_id.0));
    assert(after.nodes.contains_key(rhs.hir_id.local_id.0));
    lemma_final_parts(b, Ty::Unit);
    let n = st.constraints.len() as int;
    if after.constraints.len() > st.constraints.len() {
        assert(asks_for(after.constraints[n], l, r));
        assert(asks(after, l, r));
    }
}

proof fn lemma_return(
    p: Place,
    st: Checking,
    e: &Expression,
    after: Checking,
    b: Seq<Binding>,
    found: Findings,
)
    requires
        e.kind is Return,
        expression_rule(p, st, *e) == Some(after),
        !st.has(e.hir_id),
        is_accepted(after, b, found),
    ensures
        is_well_typed(p, st, found, *e),
{
    let value = e.kind->Return_0;
    let returned = st.return_type->0;
    assert(after.nodes.contains_key(e.hir_id.local_id.0));
    lemma_final_parts(b, Ty::Never);
    if is_closed(returned) {
        lemma_closed(b, returned);
    }
    if let Some(v) = value {
        assert(after.nodes.contains_key(v.hir_id.local_id.0));
        let ty = st.at(v.hir_id);
        if ty != returned {
            let n = st.constraints.len() as int;
            assert(asks_for(after.constraints[n], ty, returned));
            assert(asks(after, ty, returned));
        }
    }
}

/// Where a body is accepted, a variable has its declared type, which that of its
/// initial value agrees with, or else the type of its initial value.
pub proof fn law_variables_are_well_typed(
    p: Place,
    st: Checking,
    statement: &LetStatement,
    after: Checking,
    done: Checking,
    found: Findings,
)
    requires
        let_rule(p, st, *statement) == Some(after),
        !st.has(statement.hir_id),
        comes_later(after, done),
        concluded(p, done) == Some(Ok::<Findings, Seq<Mistake>>(found)),
    ensures
        ({
            let own = ty_of(found, statement.hir_id);
            match (statement.ty, statement.initializer) {
                (Some(ty), Some(e)) => own == ty_of(found, ty.hir_id) && agree(
                    own,
                    ty_of(found, e.hir_id),
                ),
                (Some(ty), None) => own == ty_of(found, ty.hir_id),
                (None, Some(e)) => own == ty_of(found, e.hir_id),
                (None, None) => false,
            }
        }),
{
    let b = lemma_accepted(p, after, done, found);
    assert(after.nodes.contains_key(statement.hir_id.local_id.0));
    if let Some(ty) = statement.ty {
        assert(after.nodes.contains_key(ty.hir_id.local_id.0));
    }
    if let Some(e) = statement.initializer {
        assert(after.nodes.contains_key(e.hir_id.local_id.0));
    }
    if let (Some(ty), Some(e)) = (statement.ty, statement.initializer) {
        let (l, r) = (st.at(ty.hir_id), st.at(e.hir_id));
        let n = st.constraints.len() as int;
        assert(asks_for(after.constraints[n], l, r));
        assert(asks(after, l, r));
    }
}

proof fn lemma_bare(st: Checking, list: Seq<Rc<Statement>>, n: nat)
    requires
        n <= list.len(),
        bare_checked(st, list, n) is Some,
    ensures
        ({
            let after = bare_checked(st, list, n)->0;
            &&& after.nodes == st.nodes
            &&& after.constraints == st.constraints
            &&& st.errors.len() <= after.errors.len()
            &&& after.errors.len() == 0 ==> forall|i: int|
                0 <= i < n ==> ((#[trigger] list[i]).kind matches StatementKind::BareExpression(e)
                    ==> st.has(e.hir_id) && (st.at(e.hir_id) is Unit || st.at(e.hir_id) is Never
                    || st.at(e.hir_id) is Error))
        }),
    decreases n,
{
    if n > 0 {
        lemma_bare(st, list, (n - 1) as nat);
    }
}

/// Where a body is accepted, a block has the type of the expression at its end, or
/// none, and the expressions before it that end without a semicolon have no value.
pub proof fn law_blocks_are_well_typed(
    p: Place,
    st: Checking,
    block: &Block,
    after: Checking,
    done: Checking,
    found: Findings,
)
    requires
        block_rule(p, st, *block) == Some(after),
        !st.has(block.hir_id),
        comes_later(after, done),
        concluded(p, done) == Some(Ok::<Findings, Seq<Mistake>>(found)),
    ensures
        ty_of(found, block.hir_id) == match block.expression {
            Some(e) => ty_of(found, e.hir_id),
            None => Ty::Unit,
        },
        forall|i: int|
            0 <= i < block.statements@.len() ==> ((
            #[trigger] block.statements@[i]).kind matches StatementKind::BareExpression(e) ==> {
                let ty = ty_of(found, e.hir_id);
                ty is Unit || ty is Never || ty is Error
            }),
{
    let b = lemma_accepted(p, after, done, found);
    let list = block.statements@;
    lemma_bare(st, list, list.len());
    assert(after.nodes.contains_key(block.hir_id.local_id.0));
    if let Some(e) = block.expression {
        assert(after.nodes.contains_key(e.hir_id.local_id.0));
    }
    lemma_final_parts(b, Ty::Unit);
    lemma_final_parts(b, Ty::Never);
    lemma_final_parts(b, Ty::Error);
    assert forall|i: int| 0 <= i < list.len() implies ((
    #[trigger] list[i]).kind matches StatementKind::BareExpression(e) ==> {
        let ty = ty_of(found, e.hir_id);
        ty is Unit || ty is Never || ty is Error
    }) by {
        if let StatementKind::BareExpression(e) = list[i].kind {
            assert(after.nodes.contains_key(e.hir_id.local_id.0));
        }
    }
}

/// Where a body is accepted, the value at its end agrees with what the function
/// returns. Where there is none, the function returns nothing, or control never
/// gets there.
pub proof fn law_end_is_well_typed(
    p: Place,
    st: Checking,
    block: &Block,
    signature: &FunctionSignature,
    returned: Ty,
    after: Checking,
    done: Checking,
    found: Findings,
)
    requires
        implicit_return(st, *block, *signature, returned) == Some(after),
        is_closed(returned),
        comes_later(after, done),
        concluded(p, done) == Some(Ok::<Findings, Seq<Mistake>>(found)),
    ensures
        match block.expression {
            Some(e) => agree(returned, ty_of(found, e.hir_id)),
            None => signature.return_type is None || exists|i: int|
                0 <= i < block.statements@.len() && #[trigger] never_ends(
                    found,
                    &*block.statements@[i],
                ),
        },
{
    let b = lemma_accepted(p, after, done, found);
    lemma_closed(b, returned);
    match block.expression {
        Some(e) => {
            assert(after.nodes.contains_key(e.hir_id.local_id.0));
            let n = st.constraints.len() as int;
            assert(asks_for(after.constraints[n], returned, st.at(e.hir_id)));
            assert(asks(after, returned, st.at(e.hir_id)));
        },
        None => {
            if signature.return_type is Some {
                lemma_diverges(st, block.statements@, 0, b, found);
            }
        },
    }
}

/// Whether control never gets past the expression in a statement.
pub open spec fn never_ends(found: Findings, statement: &Statement) -> bool {
    statement_value(*statement) matches Some(e) && ty_of(found, e.hir_id) == Ty::Never
}

proof fn lemma_diverges(
    st: Checking,
    list: Seq<Rc<Statement>>,
    k: nat,
    b: Seq<Binding>,
    found: Findings,
)
    requires
        diverges(st, list, k) == Some(true),
        forall|id: u32| #[trigger]
            st.nodes.contains_key(id) ==> found.node_types.contains_key(id)
                && found.node_types[id] == final_ty(b, st.nodes[id]),
    ensures
        exists|i: int| 0 <= i < list.len() && #[trigger] never_ends(found, &*list[i]),
    decreases list.len() - k,
{
    lemma_final_parts(b, Ty::Never);
    match value_of(&*list[k as int]) {
        None => lemma_diverges(st, list, k + 1, b, found),
        Some(e) => {
            if st.at(e.hir_id).is_never() {
                assert(st.nodes.contains_key(e.hir_id.local_id.0));
                assert(never_ends(found, &*list[k as int]));
            } else {
                lemma_diverges(st, list, k + 1, b, found);
            }
        },
    }
}

spec fn value_of(statement: &Statement) -> Option<Rc<Expression>> {
    statement_value(*statement)
}

/// Where nothing else is known of the type of a number, it is `i32` or `f32`.
pub proof fn law_default_types(variable: TypeVariable)
    ensures
        defaulted(Ty::Infer(variable)) == match variable {
            TypeVariable::Int(_) => Ty::Integer(IntKind::I32),
            TypeVariable::Float(_) => Ty::Float(FloatKind::F32),
        },
{
}

/// Whether the types of the parts of an expression are such that nothing can be
/// wrong with it but that types do not agree.
pub open spec fn is_acceptable(p: Place, st: Checking, e: Expression) -> bool {
    match e.kind {
        ExpressionKind::This => st.self_type is Some,
        ExpressionKind::Struct { name, fields: list } => resolution_ty(
            p.env,
            name.segments@.last().resolution,
        ) matches Some(Ty::Struct { fields, .. }) && {
            &&& forall|k: int| 0 <= k < fields.len() ==> is_given(list@, (#[trigger] fields[k]).0)
            &&& forall|i: int|
                0 <= i < list@.len() ==> exists|k: int|
                    #[trigger] is_last_named(fields, k, (#[trigger] list@[i]).name.symbol)
        },
        ExpressionKind::FieldAccess { target, name, is_method_call, .. } => {
            &&& !is_method_call
            &&& st.at(target.hir_id) matches Ty::Struct { fields, .. } && exists|k: int|
                #[trigger] is_first_named(fields, k, name.symbol)
        },
        ExpressionKind::FunctionCall { target, arguments } => st.at(
            target.hir_id,
        ) matches Ty::FunctionPointer { parameters, is_variadic, .. } && {
            let expected = parameters.len() - (if is_method(*target) {
                1int
            } else {
                0
            });
            arguments@.len() == expected || (is_variadic && arguments@.len() > expected)
        },
        ExpressionKind::Binary { lhs, operator, rhs } => {
            let (l, r) = (st.at(lhs.hir_id), st.at(rhs.hir_id));
            if is_logical(operator) {
                l is Bool && r is Bool
            } else {
                compares(operator) || ((is_calculable(l) || l is Infer) && (is_calculable(r)
                    || r is Infer))
            }
        },
        ExpressionKind::Unary { operator, operand } => {
            let ty = st.at(operand.hir_id);
            match operator {
                UnaryOperatorKind::Deref => ty is Pointer,
                UnaryOperatorKind::AddressOf { .. } => true,
                UnaryOperatorKind::LogicalNot => ty is Bool,
                _ => is_calculable(ty) || ty is Infer,
            }
        },
        ExpressionKind::If { condition, .. } => st.at(condition.hir_id) is Bool,
        ExpressionKind::While { condition, block } => st.at(condition.hir_id) is Bool && (st.at(
            block.hir_id,
        ) is Unit || st.at(block.hir_id) is Never),
        ExpressionKind::Assignment { lhs, .. } => can_be_assigned(p, *lhs) && (
        lhs.kind matches ExpressionKind::Unary { operand, .. } ==> st.at(
            operand.hir_id,
        ) is Pointer),
        ExpressionKind::OperatorAssignment { operator, lhs, rhs } => {
            let (l, r) = (st.at(lhs.hir_id), st.at(rhs.hir_id));
            if operator is LogicalAnd || operator is LogicalOr {
                l is Bool && r is Bool
            } else {
                (is_calculable(l) || l is Infer) && (is_calculable(r) || r is Infer)
            }
        },
        ExpressionKind::Break | ExpressionKind::Continue => st.within_loop,
        ExpressionKind::Return(value) => value is Some || st.return_type == Some(Ty::Unit),
        _ => true,
    }
}

/// Errors are reported only where something is wrong.
pub proof fn law_nothing_wrong_nothing_reported(
    p: Place,
    st: Checking,
    e: &Expression,
    after: Checking,
)
    requires
        expression_rule(p, st, *e) == Some(after),
        is_acceptable(p, st, *e),
    ensures
        after.errors == st.errors,
{
    match e.kind {
        ExpressionKind::Array(ArrayInitializer::Specific(list)) => {
            let tys = types_upto(st, list@, list@.len())->0;
            lemma_elements_equal(st, list@, tys, tys.len());
        },
        ExpressionKind::Struct { name, fields: list } => {
            let ty = resolution_ty(p.env, name.segments@.last().resolution)->0;
            let fields = ty->Struct_fields;
            assert forall|k: int| 0 <= k < fields.len() implies gives(
                list@,
                list@.len() as int,
                (#[trigger] fields[k]).0,
            ) by {
                assert(is_given(list@, fields[k].0));
            }
            assert forall|i: int| 0 <= i < list@.len() implies declares(
                fields,
                fields.len() as int,
                (#[trigger] list@[i]).name.symbol,
            ) by {
                let k = choose|k: int| #[trigger]
                    is_last_named(fields, k, list@[i].name.symbol);
                assert(fields[k].0 == list@[i].name.symbol);
            }
            lemma_none_missing(st, e.span, fields, list@, fields.len());
            lemma_none_extra(st, fields, list@, list@.len());
            lemma_fields_equal(st, fields, list@, list@.len());
        },
        ExpressionKind::FieldAccess { target, name, .. } => {
            if let Ty::Struct { fields, .. } = st.at(target.hir_id) {
                let k = choose|k: int| #[trigger] is_first_named(fields, k, name.symbol);
                lemma_finds_field(fields, name.symbol, k, 0);
            }
        },
        ExpressionKind::FunctionCall { target, arguments } => {
            if let Ty::FunctionPointer { parameters, return_type, .. } = st.at(target.hir_id) {
                let typed = st.with_type(e.hir_id.local_id.0, *return_type);
                let expected = if is_method_call(&*target) {
                    parameters.skip(1)
                } else {
                    parameters
                };
                if expected.len() <= arguments@.len() && arguments_equal(
                    typed,
                    expected,
                    arguments@,
                    expected.len(),
                ) is Some {
                    lemma_arguments_equal(typed, expected, arguments@, expected.len());
                }
            }
        },
        _ => {},
    }
}

proof fn lemma_finds_field(
    fields: Seq<(InternedSymbol, Ty)>,
    name: InternedSymbol,
    at: int,
    k: nat,
)
    requires
        is_first_named(fields, at, name),
        k <= at,
    ensures
        find_field(fields, name, k) == Some(at as nat),
    decreases at - k,
{
    if k < at {
        assert(fields[k as int].0 != name);
        lemma_finds_field(fields, name, at, k + 1);
    }
}

proof fn lemma_none_missing(
    st: Checking,
    span: crate::frontend::lexer::Span,
    fields: Seq<(InternedSymbol, Ty)>,
    list: Seq<Rc<StructInitializerField>>,
    n: nat,
)
    requires
        n <= fields.len(),
        forall|k: int|
            0 <= k < fields.len() ==> gives(list, list.len() as int, (#[trigger] fields[k]).0),
    ensures
        missing_fields(st, span, fields, list, n) == st,
    decreases n,
{
    if n > 0 {
        lemma_none_missing(st, span, fields, list, (n - 1) as nat);
        assert(gives(list, list.len() as int, fields[n - 1].0));
    }
}

proof fn lemma_none_extra(
    st: Checking,
    fields: Seq<(InternedSymbol, Ty)>,
    list: Seq<Rc<StructInitializerField>>,
    n: nat,
)
    requires
        n <= list.len(),
        forall|i: int|
            0 <= i < list.len() ==> declares(
                fields,
                fields.len() as int,
                (#[trigger] list[i]).name.symbol,
            ),
    ensures
        extra_fields(st, fields, list, n) == st,
    decreases n,
{
    if n > 0 {
        lemma_none_extra(st, fields, list, (n - 1) as nat);
        assert(declares(fields, fields.len() as int, list[n - 1].name.symbol));
    }
}

/// Types that agree already can be equated, and variables can come to stand for
/// types of their own kind.
pub proof fn law_unify_accepts(bindings: Seq<Binding>, a: Ty, b: Ty)
    requires
        in_order(bindings),
    ensures
        applied(bindings, a) == applied(bindings, b) ==> unified(bindings, a, b) == Some(
            (Solved { bindings, result: Ok(()) }),
        ),
        (applied(bindings, a) matches Ty::Infer(TypeVariable::Int(_))) && (applied(bindings, b)
            is Integer || applied(bindings, b) is UnsignedInteger) ==> (unified(
            bindings,
            a,
            b,
        ) matches Some(solved) && solved.result is Ok && applied(solved.bindings, a) == applied(
            bindings,
            b,
        )),
        (applied(bindings, a) matches Ty::Infer(TypeVariable::Float(_))) && applied(bindings, b)
            is Float ==> (unified(bindings, a, b) matches Some(solved) && solved.result is Ok
            && applied(solved.bindings, a) == applied(bindings, b)),
{
    law_apply_idempotent(bindings, a);
    law_apply_idempotent(bindings, b);
    let (l, r) = (applied(bindings, a), applied(bindings, b));
    if let Ty::Infer(variable) = l {
        if r is Integer || r is UnsignedInteger || r is Float {
            lemma_applied_parts(bindings, r);
            assert(!reach(r).contains(variable));
            if is_kind(variable, r) {
                let after = bindings.push((variable, r));
                assert(after.drop_last() =~= bindings);
                assert(unified(bindings, a, b) == Some(
                    Solved { bindings: after, result: Ok(()) },
                ));
                assert(applied(after, a) == r);
            }
        }
    }
}

/// Whether a number type is of the kind of a variable.
spec fn is_kind(variable: TypeVariable, ty: Ty) -> bool {
    match variable {
        TypeVariable::Int(_) => ty is Integer || ty is UnsignedInteger,
        TypeVariable::Float(_) => ty is Float,
    }
}

/// The type that a type expression stands for is made as the expression is.
pub proof fn law_type_expressions(env: Env, ty: &hir::Type)
    requires
        hir_ty(env, *ty) is Some,
    ensures
        match ty.kind {
            hir::TypeKind::Unit => hir_ty(env, *ty) == Some(Ty::Unit),
            hir::TypeKind::Any => hir_ty(env, *ty) == Some(Ty::Any),
            hir::TypeKind::Pointer(inner) => hir_ty(env, *inner) matches Some(part) && hir_ty(
                env,
                *ty,
            ) == Some(Ty::Pointer(Box::new(part))),
            hir::TypeKind::Slice(inner) => hir_ty(env, *inner) matches Some(part) && hir_ty(env, *ty)
                == Some(Ty::Slice(Box::new(part))),
            hir::TypeKind::Array { ty: inner, length } => hir_ty(env, *inner) matches Some(part)
                && hir_ty(env, *ty) == Some((Ty::Array { ty: Box::new(part), length })),
            hir::TypeKind::Tuple(list) => hir_ty(env, *ty) matches Some(Ty::Tuple(parts))
                && parts.len() == list@.len() && (forall|i: int|
                0 <= i < list@.len() ==> part_ty(env, &*(#[trigger] list@[i])) == Some(parts[i])),
            hir::TypeKind::FunctionPointer { parameters: list, return_type, is_variadic } => {
                hir_ty(env, *ty) matches Some(
                    Ty::FunctionPointer {
                        parameters: parts,
                        return_type: returned,
                        is_variadic: varies,
                    },
                ) && varies == is_variadic && parts.len() == list@.len() && (forall|i: int|
                    0 <= i < list@.len() ==> part_ty(env, &*(#[trigger] list@[i])) == Some(
                        parts[i],
                    )) && match return_type {
                    Some(r) => hir_ty(env, *r) == Some(*returned),
                    None => *returned == Ty::Unit,
                }
            },
            hir::TypeKind::Path(path) => path.segments@.last().resolution matches
                Resolution::Primitive(primitive) ==> hir_ty(env, *ty) == Some(match primitive {
                PrimitiveKind::Never => Ty::Never,
                PrimitiveKind::Unit => Ty::Unit,
                PrimitiveKind::Bool => Ty::Bool,
                PrimitiveKind::Char => Ty::Char,
                PrimitiveKind::Int(kind) => Ty::Integer(kind),
                PrimitiveKind::UInt(kind) => Ty::UnsignedInteger(kind),
                PrimitiveKind::Float(kind) => Ty::Float(kind),
                PrimitiveKind::Str => Ty::Str,
                PrimitiveKind::CStr => Ty::CStr,
            }),
        },
{
    match ty.kind {
        hir::TypeKind::Tuple(list) => lemma_hir_tys(env, list, list@.len()),
        hir::TypeKind::FunctionPointer { parameters, .. } => {
            lemma_hir_tys(env, parameters, parameters@.len())
        },
        _ => {},
    }
}

/// The type that a type expression stands for.
pub open spec fn part_ty(env: Env, ty: &hir::Type) -> Option<Ty> {
    hir_ty(env, *ty)
}

pub(crate) proof fn lemma_hir_tys(env: Env, list: Vec<Rc<hir::Type>>, n: nat)
    requires
        n <= list@.len(),
        hir_tys(env, list, n) is Some,
    ensures
        hir_tys(env, list, n)->0.len() == n,
        forall|i: int|
            0 <= i < n ==> part_ty(env, &*(#[trigger] list@[i])) == Some(
                hir_tys(env, list, n)->0[i],
            ),
    decreases n,
{
    if n > 0 {
        lemma_hir_tys(env, list, (n - 1) as nat);
    }
}

} // verus!
