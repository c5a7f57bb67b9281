//! What the nodes of a body have for types.

use crate::frontend::ast::{
    AssignmentOperatorClass, AssignmentOperatorKind, BinaryOperatorClass, BinaryOperatorKind,
    UnaryOperatorKind,
};
use crate::frontend::intern::InternedSymbol;
use crate::frontend::lexer::Span;
use crate::middle::hir;
use crate::middle::hir::{
    ArrayInitializer, Block, BodyId, DefinitionKind, Expression, ExpressionKind, FunctionParameter,
    FunctionSignature, HirId,
    Identifier, Item, ItemKind, ItemLocalId, LetStatement, Literal, LiteralFloatKind,
    LiteralIntegerKind, LocalDefId, Module, Node, Path, PathSegment, Resolution, Statement,
    StatementKind, StructInitializerField,
};
use crate::middle::primitive::UIntKind;
use crate::middle::ty::{FloatVariableId, IntVariableId, Ty, TypeVariable};
use crate::middle::type_check::context::{hir_ty, resolution_ty, self_ty, Env};
use crate::middle::type_check::error::{
    Fault, LoopControlFlowKind, Mistake, TypeBoundary, TypeConstraintOrigin, TypeUsage,
};
use crate::middle::type_check::solve::Demand;
use std::rc::Rc;
use vstd::prelude::*;

verus! {

/// The state of checking a body.
pub struct Checking {
    /// The types of the nodes so far, by the number of the node.
    pub nodes: Map<u32, Ty>,
    /// The methods that field accesses were found to call.
    pub methods: Map<u32, LocalDefId>,
    pub constraints: Seq<Demand>,
    pub errors: Seq<Mistake>,
    pub within_loop: bool,
    pub self_type: Option<Ty>,
    pub return_type: Option<Ty>,
    pub next_int: u32,
    pub next_float: u32,
}

/// Where a body stands: in a module, in the item with a number.
pub struct Place {
    pub env: Env,
    pub owner: LocalDefId,
}

/// The number of the next type variable.
pub open spec fn next_variable(n: u32) -> u32 {
    crate::index::wrap32(n as int + 1) as u32
}

impl Checking {
    /// Whether the type of a node is known.
    pub open spec fn has(self, id: HirId) -> bool {
        self.nodes.contains_key(id.local_id.0)
    }

    /// The type of a node.
    pub open spec fn at(self, id: HirId) -> Ty {
        self.nodes[id.local_id.0]
    }

    /// With a type for a node.
    pub open spec fn with_type(self, local: u32, ty: Ty) -> Checking {
        Checking { nodes: self.nodes.insert(local, ty), ..self }
    }

    /// With one more error.
    pub open spec fn with_error(self, span: Span, kind: TypeBoundary, fault: Fault) -> Checking {
        Checking {
            errors: self.errors.push(
                Mistake { origin: TypeConstraintOrigin { span, kind }, kind: fault },
            ),
            ..self
        }
    }

    /// With the constraint that two types are equal.
    pub open spec fn with_equal(
        self,
        left: Ty,
        right: Ty,
        span: Span,
        kind: TypeBoundary,
    ) -> Checking {
        Checking {
            constraints: self.constraints.push(
                Demand::Equal { left, right, origin: TypeConstraintOrigin { span, kind } },
            ),
            ..self
        }
    }

    /// With the constraint that a type can be cast to another.
    pub open spec fn with_cast(self, from: Ty, to: Ty, span: Span, kind: TypeBoundary) -> Checking {
        Checking {
            constraints: self.constraints.push(
                Demand::Cast { from, to, origin: TypeConstraintOrigin { span, kind } },
            ),
            ..self
        }
    }
}

/// Gives a node of the body a type.
pub open spec fn assigned(p: Place, st: Checking, id: HirId, ty: Ty) -> Option<Checking> {
    if id.owner == p.owner {
        Some(st.with_type(id.local_id.0, ty))
    } else {
        None
    }
}

/// Gives a node of the body the type of another node.
pub open spec fn copied(p: Place, st: Checking, id: HirId, from: ItemLocalId) -> Option<Checking> {
    if st.nodes.contains_key(from.0) {
        assigned(p, st, id, st.nodes[from.0])
    } else {
        None
    }
}

/// Reports an error, and leaves the type of a node unknown.
pub open spec fn fail(
    p: Place,
    st: Checking,
    id: HirId,
    span: Span,
    kind: TypeBoundary,
    fault: Fault,
) -> Option<Checking> {
    assigned(p, st.with_error(span, kind, fault), id, Ty::Error)
}

/// The type of a literal, and the state once it has been made.
pub open spec fn literal_ty(st: Checking, literal: Literal) -> (Ty, Checking) {
    match literal {
        Literal::Boolean(_) => (Ty::Bool, st),
        Literal::Char(_) => (Ty::Char, st),
        Literal::Integer(_, LiteralIntegerKind::Unsigned(kind)) => (Ty::UnsignedInteger(kind), st),
        Literal::Integer(_, LiteralIntegerKind::Signed(kind)) => (Ty::Integer(kind), st),
        Literal::Integer(_, LiteralIntegerKind::Unsuffixed) => (
            Ty::Infer(TypeVariable::Int(IntVariableId(st.next_int))),
            Checking { next_int: next_variable(st.next_int), ..st },
        ),
        Literal::Float(_, LiteralFloatKind::Suffixed(kind)) => (Ty::Float(kind), st),
        Literal::Float(_, LiteralFloatKind::Unsuffixed) => (
            Ty::Infer(TypeVariable::Float(FloatVariableId(st.next_float))),
            Checking { next_float: next_variable(st.next_float), ..st },
        ),
        Literal::String(_) => (Ty::Str, st),
        Literal::ByteString(_) => (Ty::Slice(Box::new(Ty::UnsignedInteger(UIntKind::U8))), st),
        Literal::CString(_) => (Ty::CStr, st),
    }
}

/// A segment of a path has the type that it stands for.
pub open spec fn segment_rule(p: Place, st: Checking, segment: PathSegment) -> Option<Checking> {
    match segment.resolution {
        Resolution::Local(local_id) => copied(p, st, segment.hir_id, local_id),
        _ => match resolution_ty(p.env, segment.resolution) {
            Some(ty) => assigned(p, st, segment.hir_id, ty),
            None => None,
        },
    }
}

/// The first `n` segments of a path.
pub open spec fn path_upto(p: Place, st: Checking, path: Path, n: nat) -> Option<Checking>
    decreases n,
{
    if n == 0 {
        Some(st)
    } else {
        match path_upto(p, st, path, (n - 1) as nat) {
            Some(before) => segment_rule(p, before, *path.segments@[n - 1]),
            None => None,
        }
    }
}

/// A path has the type of what its last segment stands for.
pub open spec fn path_rule(p: Place, st: Checking, id: HirId, path: Path) -> Option<Checking> {
    if path.segments@.len() == 0 {
        None
    } else {
        match path.segments@.last().resolution {
            Resolution::Definition(_, def_id) => if p.env.defs.contains_key(def_id.0) {
                assigned(p, st, id, p.env.defs[def_id.0])
            } else {
                None
            },
            Resolution::Local(local_id) => copied(p, st, id, local_id),
            Resolution::IntrinsicFunction(_) => copied(
                p,
                st,
                id,
                path.segments@.last().hir_id.local_id,
            ),
            Resolution::Primitive(_) => None,
        }
    }
}

/// `self` has the type of the `self` parameter, which there has to be.
pub open spec fn this_rule(p: Place, st: Checking, id: HirId, span: Span) -> Option<Checking> {
    match st.self_type {
        Some(ty) => assigned(p, st, id, ty),
        None => fail(p, st, id, span, TypeBoundary::SelfExpression, Fault::IllegalSelfUsage),
    }
}

/// The types of the first `n` expressions of a list.
pub open spec fn types_upto(st: Checking, list: Seq<Rc<Expression>>, n: nat) -> Option<Seq<Ty>>
    decreases n,
{
    if n == 0 {
        Some(Seq::empty())
    } else {
        match types_upto(st, list, (n - 1) as nat) {
            Some(before) => if st.has(list[n - 1].hir_id) {
                Some(before.push(st.at(list[n - 1].hir_id)))
            } else {
                None
            },
            None => None,
        }
    }
}

/// The constraints that the first `n` elements of an array but the first one
/// have the type of the first one.
pub open spec fn elements_equal(
    st: Checking,
    list: Seq<Rc<Expression>>,
    tys: Seq<Ty>,
    n: nat,
) -> Checking
    decreases n,
{
    if n <= 1 {
        st
    } else {
        elements_equal(st, list, tys, (n - 1) as nat).with_equal(
            tys[0],
            tys[n - 1],
            list[n - 1].span,
            TypeBoundary::ArrayInitializer,
        )
    }
}

/// An array has the type of its elements, which are alike.
pub open spec fn array_rule(
    p: Place,
    st: Checking,
    id: HirId,
    initializer: ArrayInitializer,
) -> Option<Checking> {
    match initializer {
        ArrayInitializer::Repeated { value, length } => if st.has(value.hir_id) {
            assigned(p, st, id, Ty::Array { ty: Box::new(st.at(value.hir_id)), length })
        } else {
            None
        },
        ArrayInitializer::Specific(list) => match types_upto(st, list@, list@.len()) {
            None => None,
            Some(tys) => if tys.len() == 0 {
                None
            } else {
                assigned(
                    p,
                    elements_equal(st, list@, tys, tys.len()),
                    id,
                    Ty::Array { ty: Box::new(tys[0]), length: tys.len() as usize },
                )
            },
        },
    }
}

/// A tuple has the types of its parts.
pub open spec fn tuple_rule(
    p: Place,
    st: Checking,
    id: HirId,
    list: Vec<Rc<Expression>>,
) -> Option<Checking> {
    match types_upto(st, list@, list@.len()) {
        None => None,
        Some(tys) => assigned(p, st, id, Ty::Tuple(tys)),
    }
}

/// Whether a field is declared among the first `n` of a structure.
pub open spec fn declares(fields: Seq<(InternedSymbol, Ty)>, n: int, name: InternedSymbol) -> bool {
    exists|i: int| 0 <= i < n && (#[trigger] fields[i]).0 == name
}

/// Whether a field is given a value among the first `n` of a list.
pub open spec fn gives(list: Seq<Rc<StructInitializerField>>, n: int, name: InternedSymbol) -> bool {
    exists|i: int| 0 <= i < n && (#[trigger] list[i]).name.symbol == name
}

/// The type of the last field with a name among the first `n` of a structure.
pub open spec fn declared_ty(
    fields: Seq<(InternedSymbol, Ty)>,
    n: nat,
    name: InternedSymbol,
) -> Ty
    decreases n,
{
    if n == 0 {
        Ty::Error
    } else if fields[n - 1].0 == name {
        fields[n - 1].1
    } else {
        declared_ty(fields, (n - 1) as nat, name)
    }
}

/// The errors for the first `n` declared fields: one for each name that is
/// given no value.
pub open spec fn missing_fields(
    st: Checking,
    span: Span,
    fields: Seq<(InternedSymbol, Ty)>,
    list: Seq<Rc<StructInitializerField>>,
    n: nat,
) -> Checking
    decreases n,
{
    if n == 0 {
        st
    } else {
        let before = missing_fields(st, span, fields, list, (n - 1) as nat);
        let name = fields[n - 1].0;
        if gives(list, list.len() as int, name) || declares(fields, n - 1, name) {
            before
        } else {
            before.with_error(
                span,
                TypeBoundary::StructInitializer,
                Fault::MissingStructField { name },
            )
        }
    }
}

/// The errors for the first `n` given fields: one for each name that is not
/// declared.
pub open spec fn extra_fields(
    st: Checking,
    fields: Seq<(InternedSymbol, Ty)>,
    list: Seq<Rc<StructInitializerField>>,
    n: nat,
) -> Checking
    decreases n,
{
    if n == 0 {
        st
    } else {
        let before = extra_fields(st, fields, list, (n - 1) as nat);
        let name = list[n - 1].name.symbol;
        if declares(fields, fields.len() as int, name) || gives(list, n - 1, name) {
            before
        } else {
            before.with_error(
                list[n - 1].span,
                TypeBoundary::StructInitializer,
                Fault::ExtraStructField { name },
            )
        }
    }
}

/// The constraints that the first `n` given fields have the declared types.
pub open spec fn fields_equal(
    st: Checking,
    fields: Seq<(InternedSymbol, Ty)>,
    list: Seq<Rc<StructInitializerField>>,
    n: nat,
) -> Option<Checking>
    decreases n,
{
    if n == 0 {
        Some(st)
    } else {
        match fields_equal(st, fields, list, (n - 1) as nat) {
            None => None,
            Some(before) => {
                let field = list[n - 1];
                if !before.has(field.hir_id) {
                    None
                } else if declares(fields, fields.len() as int, field.name.symbol) {
                    Some(
                        before.with_equal(
                            before.at(field.hir_id),
                            declared_ty(fields, fields.len(), field.name.symbol),
                            field.span,
                            TypeBoundary::StructInitializer,
                        ),
                    )
                } else {
                    Some(before)
                }
            },
        }
    }
}

/// A structure has the type that its name stands for. Every declared field is
/// given a value of its type, and no other field is.
pub open spec fn struct_rule(
    p: Place,
    st: Checking,
    id: HirId,
    span: Span,
    name: Path,
    list: Vec<Rc<StructInitializerField>>,
) -> Option<Checking> {
    if name.segments@.len() == 0 {
        None
    } else {
        match resolution_ty(p.env, name.segments@.last().resolution) {
            Some(Ty::Struct { def_id, name: struct_name, fields }) => {
                let reported = extra_fields(
                    missing_fields(st, span, fields, list@, fields.len()),
                    fields,
                    list@,
                    list@.len(),
                );
                match fields_equal(reported, fields, list@, list@.len()) {
                    Some(after) => assigned(
                        p,
                        after,
                        id,
                        Ty::Struct { def_id, name: struct_name, fields },
                    ),
                    None => None,
                }
            },
            _ => None,
        }
    }
}

/// The fields of a view on memory: its pointer and its length.
pub open spec fn view_rule(
    p: Place,
    st: Checking,
    id: HirId,
    target: Expression,
    item: Ty,
    name: Identifier,
    is_method_call: bool,
) -> Option<Checking> {
    if (name.symbol.0 as int) >= p.env.names.len() {
        None
    } else {
        let text = p.env.names[name.symbol.0 as int];
        if text == "ptr"@ && !is_method_call {
            assigned(p, st, id, Ty::Pointer(Box::new(item)))
        } else if text == "len"@ && !is_method_call {
            assigned(p, st, id, Ty::UnsignedInteger(UIntKind::USize))
        } else {
            fail(
                p,
                st,
                id,
                target.span,
                TypeBoundary::FieldAccess,
                Fault::UnknownFieldAccess { target: st.at(target.hir_id), name: name.symbol },
            )
        }
    }
}

/// What the first function that belongs to a structure and has a name stands
/// for, from the owner with number `k` on. There is no result where an owner
/// that is looked at is malformed.
pub open spec fn find_method(
    module: Module,
    def_id: LocalDefId,
    name: InternedSymbol,
    k: nat,
) -> Option<Option<Resolution<ItemLocalId>>>
    decreases module.owners@.len() - k,
{
    if k >= module.owners@.len() {
        Some(None)
    } else if !module.owners@[k as int].is_item() {
        None
    } else {
        match module.owners@[k as int].item().kind {
            ItemKind::Function { name: path, .. } => if path.segments@.len() == 0 {
                None
            } else if belongs_to(path.segments@[0].resolution, def_id) {
                if path.segments@.len() < 2 {
                    None
                } else if path.segments@[1].identifier.symbol == name {
                    Some(Some(path.segments@.last().resolution))
                } else {
                    find_method(module, def_id, name, k + 1)
                }
            } else {
                find_method(module, def_id, name, k + 1)
            },
            _ => find_method(module, def_id, name, k + 1),
        }
    }
}

/// Whether a name stands for the item with a number.
pub open spec fn belongs_to(resolution: Resolution<ItemLocalId>, def_id: LocalDefId) -> bool {
    match resolution {
        Resolution::Definition(_, id) => id == def_id,
        _ => false,
    }
}

/// The place of the first field with a name, from `k` on.
pub open spec fn find_field(
    fields: Seq<(InternedSymbol, Ty)>,
    name: InternedSymbol,
    k: nat,
) -> Option<nat>
    decreases fields.len() - k,
{
    if k >= fields.len() {
        None
    } else if fields[k as int].0 == name {
        Some(k)
    } else {
        find_field(fields, name, k + 1)
    }
}

/// A method of a structure.
pub open spec fn method_rule(
    p: Place,
    st: Checking,
    id: HirId,
    target: Ty,
    def_id: LocalDefId,
    name: Identifier,
) -> Option<Checking> {
    match find_method(p.env.module, def_id, name.symbol, 0) {
        None => None,
        Some(None) => fail(
            p,
            st,
            id,
            name.span,
            TypeBoundary::FieldAccess,
            Fault::UnknownFieldAccess { target, name: name.symbol },
        ),
        Some(Some(resolution)) => match (resolution_ty(p.env, resolution), resolution) {
            (Some(ty), Resolution::Definition(DefinitionKind::Function, function)) => assigned(
                p,
                Checking { methods: st.methods.insert(id.local_id.0, function), ..st },
                id,
                ty,
            ),
            _ => None,
        },
    }
}

/// An accessed field has its declared type. There is no result for pointers,
/// arrays, tuples and types that are not known.
pub open spec fn field_rule(
    p: Place,
    st: Checking,
    id: HirId,
    target: Expression,
    name: Identifier,
    is_method_call: bool,
) -> Option<Checking> {
    if !st.has(target.hir_id) {
        None
    } else {
        let ty = st.at(target.hir_id);
        match ty {
            Ty::Str => view_rule(
                p,
                st,
                id,
                target,
                Ty::UnsignedInteger(UIntKind::U8),
                name,
                is_method_call,
            ),
            Ty::Slice(inner) => view_rule(p, st, id, target, *inner, name, is_method_call),
            Ty::Pointer(_) | Ty::Array { .. } | Ty::Tuple(_) | Ty::Error => None,
            Ty::Struct { def_id, fields, .. } => if is_method_call {
                method_rule(p, st, id, ty, def_id, name)
            } else {
                match find_field(fields, name.symbol, 0) {
                    Some(k) => assigned(p, st, id, fields[k as int].1),
                    None => fail(
                        p,
                        st,
                        id,
                        name.span,
                        TypeBoundary::FieldAccess,
                        Fault::UnknownFieldAccess { target: ty, name: name.symbol },
                    ),
                }
            },
            _ => fail(
                p,
                st,
                id,
                target.span,
                TypeBoundary::FieldAccess,
                Fault::InvalidOperation { attempted_usage: TypeUsage::FieldAccess, provided: ty },
            ),
        }
    }
}

/// The constraints that the first `n` arguments have the types of the
/// parameters.
pub open spec fn arguments_equal(
    st: Checking,
    expected: Seq<Ty>,
    arguments: Seq<Rc<Expression>>,
    n: nat,
) -> Option<Checking>
    decreases n,
{
    if n == 0 {
        Some(st)
    } else {
        match arguments_equal(st, expected, arguments, (n - 1) as nat) {
            None => None,
            Some(before) => if before.has(arguments[n - 1].hir_id) {
                Some(
                    before.with_equal(
                        expected[n - 1],
                        before.at(arguments[n - 1].hir_id),
                        arguments[n - 1].span,
                        TypeBoundary::FunctionArgument,
                    ),
                )
            } else {
                None
            },
        }
    }
}

/// Whether an expression names a method to be called.
pub open spec fn is_method(expression: Expression) -> bool {
    expression.kind matches ExpressionKind::FieldAccess { is_method_call, .. } && is_method_call
}

/// A call has the type that the function returns. The arguments match the
/// parameters; `self` is not among the arguments of a method.
pub open spec fn call_rule(
    p: Place,
    st: Checking,
    id: HirId,
    span: Span,
    target: Expression,
    arguments: Vec<Rc<Expression>>,
) -> Option<Checking> {
    if !st.has(target.hir_id) {
        None
    } else {
        match st.at(target.hir_id) {
            Ty::FunctionPointer { parameters, return_type, is_variadic } => match assigned(
                p,
                st,
                id,
                *return_type,
            ) {
                None => None,
                Some(typed) => if is_method(target) && parameters.len() == 0 {
                    None
                } else {
                    let expected = if is_method(target) {
                        parameters.skip(1)
                    } else {
                        parameters
                    };
                    if arguments@.len() < expected.len() || (arguments@.len() > expected.len()
                        && !is_variadic) {
                        Some(
                            typed.with_error(
                                span,
                                TypeBoundary::FunctionCall,
                                Fault::ArgumentLengthMismatch {
                                    expected: expected.len() as usize,
                                    actual: arguments@.len() as usize,
                                },
                            ),
                        )
                    } else {
                        arguments_equal(typed, expected, arguments@, expected.len())
                    }
                },
            },
            ty => fail(
                p,
                st,
                id,
                target.span,
                TypeBoundary::FunctionCall,
                Fault::InvalidOperation { attempted_usage: TypeUsage::FunctionCall, provided: ty },
            ),
        }
    }
}

/// Whether a type can be used as an operator asks for.
pub open spec fn is_usable(ty: Ty, usage: TypeUsage) -> bool {
    match usage {
        TypeUsage::ArithmeticOperation => ty.is_arithmetic(),
        TypeUsage::LogicalOperation => ty.is_bool(),
        _ => true,
    }
}

/// The error for an operand that cannot be used as an operator asks for.
pub open spec fn with_usage(
    st: Checking,
    span: Span,
    kind: TypeBoundary,
    usage: TypeUsage,
    ty: Ty,
) -> Checking {
    if is_usable(ty, usage) {
        st
    } else {
        st.with_error(
            span,
            kind,
            Fault::InvalidOperation { attempted_usage: usage, provided: ty },
        )
    }
}

/// The errors for the operands that cannot be used as an operator asks for,
/// with the type of the expression unknown.
pub open spec fn misused(
    p: Place,
    st: Checking,
    id: HirId,
    lhs: Expression,
    rhs: Expression,
    kind: TypeBoundary,
    usage: TypeUsage,
) -> Option<Checking> {
    assigned(
        p,
        with_usage(
            with_usage(st, lhs.span, kind, usage, st.at(lhs.hir_id)),
            rhs.span,
            kind,
            usage,
            st.at(rhs.hir_id),
        ),
        id,
        Ty::Error,
    )
}

/// The result of an operator has the type of its operands, or is a boolean.
/// The operands are alike; the offset of a pointer is a `usize`.
pub open spec fn binary_rule(
    p: Place,
    st: Checking,
    id: HirId,
    span: Span,
    lhs: Expression,
    operator: BinaryOperatorKind,
    rhs: Expression,
) -> Option<Checking> {
    if !st.has(lhs.hir_id) || !st.has(rhs.hir_id) {
        None
    } else {
        let l = st.at(lhs.hir_id);
        let r = st.at(rhs.hir_id);
        let usage = match operator.class_spec() {
            BinaryOperatorClass::Arithmetic => TypeUsage::ArithmeticOperation,
            _ => TypeUsage::LogicalOperation,
        };
        if operator.class_spec() != BinaryOperatorClass::Comparison && !(is_usable(l, usage)
            && is_usable(r, usage)) {
            misused(p, st, id, lhs, rhs, TypeBoundary::BinaryOp, usage)
        } else if operator.class_spec() == BinaryOperatorClass::Arithmetic {
            match assigned(p, st, id, l) {
                None => None,
                Some(typed) => if l.is_pointer_like() && (r matches Ty::Infer(
                    TypeVariable::Int(_),
                )) {
                    Some(
                        typed.with_equal(
                            r,
                            Ty::UnsignedInteger(UIntKind::USize),
                            span,
                            TypeBoundary::BinaryOp,
                        ),
                    )
                } else if l.is_pointer_like() && r == Ty::UnsignedInteger(UIntKind::USize) {
                    Some(typed)
                } else {
                    Some(typed.with_equal(l, r, span, TypeBoundary::BinaryOp))
                },
            }
        } else {
            match assigned(p, st, id, Ty::Bool) {
                None => None,
                Some(typed) => Some(typed.with_equal(l, r, span, TypeBoundary::BinaryOp)),
            }
        }
    }
}

/// The result of a unary operator.
pub open spec fn unary_rule(
    p: Place,
    st: Checking,
    id: HirId,
    span: Span,
    operator: UnaryOperatorKind,
    operand: Expression,
) -> Option<Checking> {
    if !st.has(operand.hir_id) {
        None
    } else {
        let ty = st.at(operand.hir_id);
        match operator {
            UnaryOperatorKind::Deref => match ty {
                Ty::Pointer(inner) => assigned(p, st, id, *inner),
                Ty::Error => assigned(p, st, id, Ty::Error),
                _ => fail(
                    p,
                    st,
                    id,
                    span,
                    TypeBoundary::Deref,
                    Fault::InvalidOperation { attempted_usage: TypeUsage::Deref, provided: ty },
                ),
            },
            UnaryOperatorKind::AddressOf { .. } => assigned(p, st, id, Ty::Pointer(Box::new(ty))),
            UnaryOperatorKind::LogicalNot => if ty.is_bool() {
                assigned(p, st, id, ty)
            } else {
                fail(
                    p,
                    st,
                    id,
                    span,
                    TypeBoundary::LogicalOp,
                    Fault::InvalidOperation {
                        attempted_usage: TypeUsage::LogicalOperation,
                        provided: ty,
                    },
                )
            },
            UnaryOperatorKind::BitwiseNot | UnaryOperatorKind::Negate => if ty.is_arithmetic() {
                assigned(p, st, id, ty)
            } else {
                fail(
                    p,
                    st,
                    id,
                    span,
                    TypeBoundary::ArithmeticOp,
                    Fault::InvalidOperation {
                        attempted_usage: TypeUsage::ArithmeticOperation,
                        provided: ty,
                    },
                )
            },
        }
    }
}

/// A cast has the type that is cast to.
pub open spec fn cast_rule(
    p: Place,
    st: Checking,
    id: HirId,
    span: Span,
    castee: Expression,
    ty: hir::Type,
) -> Option<Checking> {
    if !st.has(castee.hir_id) || !st.has(ty.hir_id) {
        None
    } else {
        assigned(
            p,
            st.with_cast(st.at(castee.hir_id), st.at(ty.hir_id), span, TypeBoundary::Cast),
            id,
            st.at(ty.hir_id),
        )
    }
}

/// The error for a condition that is no boolean.
pub open spec fn with_condition(
    st: Checking,
    condition: Expression,
    kind: TypeBoundary,
) -> Checking {
    let ty = st.at(condition.hir_id);
    if ty.is_bool() || ty.is_error() {
        st
    } else {
        st.with_error(
            condition.span,
            kind,
            Fault::TypeMismatch { expected: Ty::Bool, actual: ty },
        )
    }
}

/// A conditional has the type of its first block. Both blocks are alike unless
/// control does not reach the end of one.
pub open spec fn if_rule(
    p: Place,
    st: Checking,
    id: HirId,
    condition: Expression,
    positive: Block,
    negative: Option<Rc<Expression>>,
) -> Option<Checking> {
    if !st.has(condition.hir_id) || !st.has(positive.hir_id) {
        None
    } else {
        let tested = with_condition(st, condition, TypeBoundary::IfCondition);
        let ty = st.at(positive.hir_id);
        match negative {
            None => assigned(p, tested, id, ty),
            Some(other) => if !st.has(other.hir_id) {
                None
            } else if ty.is_never() || st.at(other.hir_id).is_never() {
                assigned(p, tested, id, ty)
            } else {
                assigned(
                    p,
                    tested.with_equal(
                        ty,
                        st.at(other.hir_id),
                        other.span,
                        TypeBoundary::IfBlock,
                    ),
                    id,
                    ty,
                )
            },
        }
    }
}

/// A loop has no value, and neither has its block.
pub open spec fn while_rule(
    p: Place,
    st: Checking,
    id: HirId,
    condition: Expression,
    block: Block,
) -> Option<Checking> {
    if !st.has(condition.hir_id) || !st.has(block.hir_id) {
        None
    } else {
        let tested = with_condition(st, condition, TypeBoundary::WhileCondition);
        let ty = st.at(block.hir_id);
        assigned(
            p,
            if ty.is_unit() || ty.is_never() {
                tested
            } else {
                tested.with_error(
                    condition.span,
                    TypeBoundary::WhileCondition,
                    Fault::TypeMismatch { expected: Ty::Unit, actual: ty },
                )
            },
            id,
            Ty::Unit,
        )
    }
}

/// Whether something can be assigned to.
pub enum Target {
    /// It can.
    Fine,
    /// It cannot.
    Wrong(Fault),
    /// Its type is not known, and an error was reported for that.
    Ignored,
    /// It is malformed.
    Broken,
}

/// Whether a variable can be assigned to: it is declared as mutable.
pub open spec fn path_target(p: Place, path: Path) -> Target {
    if path.segments@.len() == 0 {
        Target::Broken
    } else {
        match path.segments@.last().resolution {
            Resolution::Local(id) => {
                let node = HirId { owner: p.owner, local_id: id };
                if !p.env.module.has_node(node) {
                    Target::Broken
                } else {
                    match p.env.module.parented(node).node {
                        Node::LetStatement(local) => if local.is_mutable {
                            Target::Fine
                        } else {
                            Target::Wrong(Fault::IllegalMutation)
                        },
                        _ => Target::Broken,
                    }
                }
            },
            Resolution::Definition(DefinitionKind::Static, def_id) => {
                if !p.env.module.has_owner(def_id) || !p.env.module.owner(def_id).is_item() {
                    Target::Broken
                } else {
                    match p.env.module.owner(def_id).item().kind {
                        ItemKind::Static { is_mutable, .. } => if is_mutable {
                            Target::Fine
                        } else {
                            Target::Wrong(Fault::IllegalMutation)
                        },
                        _ => Target::Broken,
                    }
                }
            },
            _ => Target::Wrong(Fault::InvalidAssignment),
        }
    }
}

/// Whether an expression can be assigned to.
pub open spec fn assignment_target(p: Place, st: Checking, lhs: Expression) -> Target {
    match lhs.kind {
        ExpressionKind::Path(path) => path_target(p, path),
        ExpressionKind::Unary { operator: UnaryOperatorKind::Deref, operand } => if !st.has(
            operand.hir_id,
        ) {
            Target::Broken
        } else {
            match st.at(operand.hir_id) {
                Ty::Error => Target::Ignored,
                Ty::Pointer(_) => Target::Fine,
                _ => Target::Wrong(Fault::InvalidAssignment),
            }
        },
        ExpressionKind::FieldAccess { .. } => Target::Fine,
        _ => Target::Wrong(Fault::InvalidAssignment),
    }
}

/// An assignment has no value, and both sides are alike.
pub open spec fn assignment_rule(
    p: Place,
    st: Checking,
    id: HirId,
    span: Span,
    lhs: Expression,
    rhs: Expression,
) -> Option<Checking> {
    match assignment_target(p, st, lhs) {
        Target::Broken => None,
        Target::Ignored => Some(st),
        Target::Wrong(fault) => fail(p, st, id, lhs.span, TypeBoundary::Assignment, fault),
        Target::Fine => if !st.has(lhs.hir_id) || !st.has(rhs.hir_id) {
            None
        } else {
            assigned(
                p,
                st.with_equal(
                    st.at(lhs.hir_id),
                    st.at(rhs.hir_id),
                    span,
                    TypeBoundary::Assignment,
                ),
                id,
                Ty::Unit,
            )
        },
    }
}

/// An assignment with an operator has no value, and both sides are alike.
pub open spec fn operator_assignment_rule(
    p: Place,
    st: Checking,
    id: HirId,
    span: Span,
    operator: AssignmentOperatorKind,
    lhs: Expression,
    rhs: Expression,
) -> Option<Checking> {
    if !st.has(lhs.hir_id) || !st.has(rhs.hir_id) {
        None
    } else {
        let l = st.at(lhs.hir_id);
        let r = st.at(rhs.hir_id);
        let usage = match operator.class_spec() {
            AssignmentOperatorClass::Arithmetic => TypeUsage::ArithmeticOperation,
            AssignmentOperatorClass::Logical => TypeUsage::LogicalOperation,
        };
        if is_usable(l, usage) && is_usable(r, usage) {
            assigned(p, st.with_equal(l, r, span, TypeBoundary::OpAssignment), id, Ty::Unit)
        } else {
            misused(p, st, id, lhs, rhs, TypeBoundary::OpAssignment, usage)
        }
    }
}

/// A jump out of a loop, or back to its start, stands in one.
pub open spec fn jump_rule(
    p: Place,
    st: Checking,
    id: HirId,
    span: Span,
    kind: LoopControlFlowKind,
) -> Option<Checking> {
    assigned(
        p,
        if st.within_loop {
            st
        } else {
            st.with_error(
                span,
                TypeBoundary::LoopControlFlow,
                Fault::IllegalLoopControlFlow(kind),
            )
        },
        id,
        Ty::Never,
    )
}

/// What is returned has the type that the function returns.
pub open spec fn return_rule(
    p: Place,
    st: Checking,
    id: HirId,
    span: Span,
    value: Option<Rc<Expression>>,
) -> Option<Checking> {
    match st.return_type {
        None => None,
        Some(returned) => match value {
            Some(v) => if !st.has(v.hir_id) {
                None
            } else if st.at(v.hir_id) == returned {
                assigned(p, st, id, Ty::Never)
            } else {
                assigned(
                    p,
                    st.with_equal(
                        st.at(v.hir_id),
                        returned,
                        span,
                        TypeBoundary::ExplicitReturn,
                    ),
                    id,
                    Ty::Never,
                )
            },
            None => if returned.is_unit() {
                assigned(p, st, id, Ty::Never)
            } else {
                assigned(
                    p,
                    st.with_error(
                        span,
                        TypeBoundary::ExplicitReturn,
                        Fault::MissingReturnValue { expected: returned },
                    ),
                    id,
                    Ty::Never,
                )
            },
        },
    }
}

/// The type of an expression, once those of its parts are known.
pub open spec fn expression_rule(p: Place, st: Checking, e: Expression) -> Option<Checking> {
    match e.kind {
        ExpressionKind::Literal(literal) => {
            let (ty, made) = literal_ty(st, literal);
            assigned(p, made, e.hir_id, ty)
        },
        ExpressionKind::Path(path) => path_rule(p, st, e.hir_id, path),
        ExpressionKind::This => this_rule(p, st, e.hir_id, e.span),
        ExpressionKind::Array(initializer) => array_rule(p, st, e.hir_id, initializer),
        ExpressionKind::Tuple(list) => tuple_rule(p, st, e.hir_id, list),
        ExpressionKind::Struct { name, fields } => struct_rule(
            p,
            st,
            e.hir_id,
            e.span,
            name,
            fields,
        ),
        ExpressionKind::Block(block) => copied(p, st, e.hir_id, block.hir_id.local_id),
        ExpressionKind::FieldAccess { target, name, is_method_call, .. } => field_rule(
            p,
            st,
            e.hir_id,
            *target,
            name,
            is_method_call,
        ),
        ExpressionKind::FunctionCall { target, arguments } => call_rule(
            p,
            st,
            e.hir_id,
            e.span,
            *target,
            arguments,
        ),
        ExpressionKind::Subscript { .. } => None,
        ExpressionKind::Binary { lhs, operator, rhs } => binary_rule(
            p,
            st,
            e.hir_id,
            e.span,
            *lhs,
            operator,
            *rhs,
        ),
        ExpressionKind::Unary { operator, operand } => unary_rule(
            p,
            st,
            e.hir_id,
            e.span,
            operator,
            *operand,
        ),
        ExpressionKind::Cast { expression, ty } => cast_rule(
            p,
            st,
            e.hir_id,
            e.span,
            *expression,
            *ty,
        ),
        ExpressionKind::If { condition, positive, negative } => if_rule(
            p,
            st,
            e.hir_id,
            *condition,
            *positive,
            negative,
        ),
        ExpressionKind::While { condition, block } => while_rule(
            p,
            st,
            e.hir_id,
            *condition,
            *block,
        ),
        ExpressionKind::Assignment { lhs, rhs } => assignment_rule(
            p,
            st,
            e.hir_id,
            e.span,
            *lhs,
            *rhs,
        ),
        ExpressionKind::OperatorAssignment { operator, lhs, rhs } => operator_assignment_rule(
            p,
            st,
            e.hir_id,
            e.span,
            operator,
            *lhs,
            *rhs,
        ),
        ExpressionKind::Break => jump_rule(p, st, e.hir_id, e.span, LoopControlFlowKind::Break),
        ExpressionKind::Continue => jump_rule(
            p,
            st,
            e.hir_id,
            e.span,
            LoopControlFlowKind::Continue,
        ),
        ExpressionKind::Return(value) => return_rule(p, st, e.hir_id, e.span, value),
    }
}

/// The type expressions of a list, up to the first `n`.
pub open spec fn types_checked(p: Place, st: Checking, list: Vec<Rc<hir::Type>>, n: nat) -> Option<
    Checking,
>
    decreases list, n,
{
    if n == 0 || n > list@.len() {
        Some(st)
    } else {
        match types_checked(p, st, list, (n - 1) as nat) {
            Some(before) => type_checked(p, before, *list@[n - 1]),
            None => None,
        }
    }
}

/// A type expression has the type that it stands for, and so have its parts.
pub open spec fn type_checked(p: Place, st: Checking, ty: hir::Type) -> Option<Checking>
    decreases ty, 0nat,
{
    let walked = match ty.kind {
        hir::TypeKind::Unit | hir::TypeKind::Any => Some(st),
        hir::TypeKind::Path(path) => path_upto(p, st, path, path.segments@.len()),
        hir::TypeKind::Pointer(inner) => type_checked(p, st, *inner),
        hir::TypeKind::Slice(inner) => type_checked(p, st, *inner),
        hir::TypeKind::Array { ty: inner, .. } => type_checked(p, st, *inner),
        hir::TypeKind::Tuple(list) => types_checked(p, st, list, list@.len()),
        hir::TypeKind::FunctionPointer { parameters, return_type, .. } => match types_checked(
            p,
            st,
            parameters,
            parameters@.len(),
        ) {
            None => None,
            Some(listed) => match return_type {
                Some(returned) => type_checked(p, listed, *returned),
                None => Some(listed),
            },
        },
    };
    match (walked, hir_ty(p.env, ty)) {
        (Some(before), Some(found)) => assigned(p, before, ty.hir_id, found),
        _ => None,
    }
}

/// A binding has its explicit type, or else that of its initializer.
pub open spec fn let_rule(p: Place, st: Checking, statement: LetStatement) -> Option<Checking> {
    if (statement.ty matches Some(ty) && !st.has(ty.hir_id)) || (
    statement.initializer matches Some(e) && !st.has(e.hir_id)) {
        None
    } else {
        match (statement.ty, statement.initializer) {
            (None, None) => fail(
                p,
                st,
                statement.hir_id,
                statement.span,
                TypeBoundary::LetStatement,
                Fault::CannotInfer,
            ),
            (None, Some(e)) => Some(st.with_type(statement.hir_id.local_id.0, st.at(e.hir_id))),
            (Some(ty), None) => Some(st.with_type(statement.hir_id.local_id.0, st.at(ty.hir_id))),
            (Some(ty), Some(e)) => assigned(
                p,
                st.with_equal(
                    st.at(ty.hir_id),
                    st.at(e.hir_id),
                    statement.span,
                    TypeBoundary::LetStatement,
                ),
                statement.hir_id,
                st.at(ty.hir_id),
            ),
        }
    }
}

/// The errors for the expressions among the first `n` statements of a block
/// that end without a semicolon but have a value.
pub open spec fn bare_checked(st: Checking, list: Seq<Rc<Statement>>, n: nat) -> Option<Checking>
    decreases n,
{
    if n == 0 {
        Some(st)
    } else {
        match bare_checked(st, list, (n - 1) as nat) {
            None => None,
            Some(before) => match list[n - 1].kind {
                StatementKind::BareExpression(e) => if !before.has(e.hir_id) {
                    None
                } else {
                    let ty = before.at(e.hir_id);
                    if ty.is_unit() || ty.is_never() || ty.is_error() {
                        Some(before)
                    } else {
                        Some(
                            before.with_error(
                                e.span,
                                TypeBoundary::BareExpression,
                                Fault::TypeMismatch { expected: Ty::Unit, actual: ty },
                            ),
                        )
                    }
                },
                _ => Some(before),
            },
        }
    }
}

/// A block has the type of the expression at its end.
pub open spec fn block_rule(p: Place, st: Checking, block: Block) -> Option<Checking> {
    match bare_checked(st, block.statements@, block.statements@.len()) {
        None => None,
        Some(before) => match block.expression {
            Some(e) => copied(p, before, block.hir_id, e.hir_id.local_id),
            None => assigned(p, before, block.hir_id, Ty::Unit),
        },
    }
}

/// A list of expressions, up to the first `n`.
pub open spec fn expressions_checked(
    p: Place,
    st: Checking,
    list: Vec<Rc<Expression>>,
    n: nat,
) -> Option<Checking>
    decreases list, n,
{
    if n == 0 || n > list@.len() {
        Some(st)
    } else {
        match expressions_checked(p, st, list, (n - 1) as nat) {
            Some(before) => expression_checked(p, before, *list@[n - 1]),
            None => None,
        }
    }
}

/// The fields that a structure is given, up to the first `n`: each has the
/// type of its value.
pub open spec fn fields_checked(
    p: Place,
    st: Checking,
    list: Vec<Rc<StructInitializerField>>,
    n: nat,
) -> Option<Checking>
    decreases list, n,
{
    if n == 0 || n > list@.len() {
        Some(st)
    } else {
        match fields_checked(p, st, list, (n - 1) as nat) {
            None => None,
            Some(before) => match expression_checked(p, before, *list@[n - 1].value) {
                None => None,
                Some(valued) => copied(
                    p,
                    valued,
                    list@[n - 1].hir_id,
                    list@[n - 1].value.hir_id.local_id,
                ),
            },
        }
    }
}

/// The parts of an expression, in order.
pub open spec fn parts_checked(p: Place, st: Checking, e: Expression) -> Option<Checking>
    decreases e, 0nat,
{
    match e.kind {
        ExpressionKind::Literal(_)
        | ExpressionKind::This
        | ExpressionKind::Break
        | ExpressionKind::Continue => Some(st),
        ExpressionKind::Path(path) => path_upto(p, st, path, path.segments@.len()),
        ExpressionKind::Array(ArrayInitializer::Repeated { value, .. }) => expression_checked(
            p,
            st,
            *value,
        ),
        ExpressionKind::Array(ArrayInitializer::Specific(list)) => expressions_checked(
            p,
            st,
            list,
            list@.len(),
        ),
        ExpressionKind::Tuple(list) => expressions_checked(p, st, list, list@.len()),
        ExpressionKind::Struct { name, fields } => match path_upto(
            p,
            st,
            name,
            name.segments@.len(),
        ) {
            None => None,
            Some(named) => fields_checked(p, named, fields, fields@.len()),
        },
        ExpressionKind::Block(block) => block_checked(p, st, *block, false),
        ExpressionKind::FieldAccess { target, .. } => expression_checked(p, st, *target),
        ExpressionKind::FunctionCall { target, arguments } => match expression_checked(
            p,
            st,
            *target,
        ) {
            None => None,
            Some(targeted) => expressions_checked(p, targeted, arguments, arguments@.len()),
        },
        ExpressionKind::Subscript { target, index } => match expression_checked(p, st, *target) {
            None => None,
            Some(targeted) => expression_checked(p, targeted, *index),
        },
        ExpressionKind::Binary { lhs, rhs, .. } => match expression_checked(p, st, *lhs) {
            None => None,
            Some(left) => expression_checked(p, left, *rhs),
        },
        ExpressionKind::Unary { operand, .. } => expression_checked(p, st, *operand),
        ExpressionKind::Cast { expression, ty } => match expression_checked(p, st, *expression) {
            None => None,
            Some(valued) => type_checked(p, valued, *ty),
        },
        ExpressionKind::If { condition, positive, negative } => match expression_checked(
            p,
            st,
            *condition,
        ) {
            None => None,
            Some(tested) => match block_checked(p, tested, *positive, false) {
                None => None,
                Some(taken) => match negative {
                    Some(other) => expression_checked(p, taken, *other),
                    None => Some(taken),
                },
            },
        },
        ExpressionKind::While { condition, block } => match expression_checked(p, st, *condition) {
            None => None,
            Some(tested) => block_checked(p, tested, *block, true),
        },
        ExpressionKind::Assignment { lhs, rhs } => match expression_checked(p, st, *lhs) {
            None => None,
            Some(left) => expression_checked(p, left, *rhs),
        },
        ExpressionKind::OperatorAssignment { lhs, rhs, .. } => match expression_checked(
            p,
            st,
            *lhs,
        ) {
            None => None,
            Some(left) => expression_checked(p, left, *rhs),
        },
        ExpressionKind::Return(value) => match value {
            Some(v) => expression_checked(p, st, *v),
            None => Some(st),
        },
    }
}

/// An expression and its parts. There is no result where a rule has none.
pub open spec fn expression_checked(p: Place, st: Checking, e: Expression) -> Option<Checking>
    decreases e, 1nat,
{
    match parts_checked(p, st, e) {
        Some(before) => expression_rule(p, before, e),
        None => None,
    }
}

/// A let statement: its type, its initializer, and the binding.
pub open spec fn let_checked(p: Place, st: Checking, statement: LetStatement) -> Option<Checking>
    decreases statement, 0nat,
{
    let typed = match statement.ty {
        Some(ty) => type_checked(p, st, *ty),
        None => Some(st),
    };
    match typed {
        None => None,
        Some(before) => {
            let valued = match statement.initializer {
                Some(e) => expression_checked(p, before, *e),
                None => Some(before),
            };
            match valued {
                None => None,
                Some(after) => let_rule(p, after, statement),
            }
        },
    }
}

/// A statement has no value.
pub open spec fn statement_checked(p: Place, st: Checking, statement: Statement) -> Option<Checking>
    decreases statement, 0nat,
{
    let walked = match statement.kind {
        StatementKind::Let(binding) => let_checked(p, st, *binding),
        StatementKind::BareExpression(e) => expression_checked(p, st, *e),
        StatementKind::SemiExpression(e) => expression_checked(p, st, *e),
    };
    match walked {
        None => None,
        Some(before) => assigned(p, before, statement.hir_id, Ty::Unit),
    }
}

/// The statements of a list, up to the first `n`.
pub open spec fn statements_checked(
    p: Place,
    st: Checking,
    list: Vec<Rc<Statement>>,
    n: nat,
) -> Option<Checking>
    decreases list, n,
{
    if n == 0 || n > list@.len() {
        Some(st)
    } else {
        match statements_checked(p, st, list, (n - 1) as nat) {
            Some(before) => statement_checked(p, before, *list@[n - 1]),
            None => None,
        }
    }
}

/// A block, which may be that of a loop.
pub open spec fn block_checked(p: Place, st: Checking, block: Block, is_loop: bool) -> Option<
    Checking,
>
    decreases block, 0nat,
{
    let entered = Checking { within_loop: st.within_loop || is_loop, ..st };
    match statements_checked(p, entered, block.statements, block.statements@.len()) {
        None => None,
        Some(listed) => {
            let ended = match block.expression {
                Some(e) => expression_checked(p, listed, *e),
                None => Some(listed),
            };
            match ended {
                None => None,
                Some(last) => block_rule(
                    p,
                    Checking { within_loop: st.within_loop, ..last },
                    block,
                ),
            }
        },
    }
}

/// The fields of a structure declaration, up to the first `n`: each has its
/// declared type.
pub open spec fn field_types_checked(
    p: Place,
    st: Checking,
    list: Seq<Rc<hir::StructField>>,
    n: nat,
) -> Option<Checking>
    decreases n,
{
    if n == 0 {
        Some(st)
    } else {
        match field_types_checked(p, st, list, (n - 1) as nat) {
            None => None,
            Some(before) => match (
                type_checked(p, before, *list[n - 1].ty),
                hir_ty(p.env, *list[n - 1].ty),
            ) {
                (Some(typed), Some(ty)) => assigned(p, typed, list[n - 1].hir_id, ty),
                _ => None,
            },
        }
    }
}

/// The types in the signature of a function.
pub open spec fn signature_checked(
    p: Place,
    st: Checking,
    signature: FunctionSignature,
) -> Option<Checking> {
    match types_checked(p, st, signature.parameters, signature.parameters@.len()) {
        None => None,
        Some(listed) => {
            let varied = match signature.variadic_type {
                Some(ty) => type_checked(p, listed, *ty),
                None => Some(listed),
            };
            match varied {
                None => None,
                Some(before) => match signature.return_type {
                    Some(ty) => type_checked(p, before, *ty),
                    None => Some(before),
                },
            }
        },
    }
}

/// The first `n` parameters of a body have the types of the signature.
pub open spec fn parameters_copied(
    p: Place,
    st: Checking,
    params: Seq<Rc<FunctionParameter>>,
    tys: Seq<Rc<hir::Type>>,
    n: nat,
) -> Option<Checking>
    decreases n,
{
    if n == 0 {
        Some(st)
    } else {
        match parameters_copied(p, st, params, tys, (n - 1) as nat) {
            None => None,
            Some(before) => copied(p, before, params[n - 1].hir_id, tys[n - 1].hir_id.local_id),
        }
    }
}

/// The expression whose value a statement computes.
pub open spec fn statement_value(statement: Statement) -> Option<Rc<Expression>> {
    match statement.kind {
        StatementKind::Let(binding) => binding.initializer,
        StatementKind::BareExpression(e) => Some(e),
        StatementKind::SemiExpression(e) => Some(e),
    }
}

/// Whether control never gets past one of the statements from `k` on.
pub open spec fn diverges(st: Checking, list: Seq<Rc<Statement>>, k: nat) -> Option<bool>
    decreases list.len() - k,
{
    if k >= list.len() {
        Some(false)
    } else {
        match statement_value(*list[k as int]) {
            None => diverges(st, list, k + 1),
            Some(e) => if !st.has(e.hir_id) {
                None
            } else if st.at(e.hir_id).is_never() {
                Some(true)
            } else {
                diverges(st, list, k + 1)
            },
        }
    }
}

/// What a function returns at its end has the type of the signature, unless
/// control never gets there.
pub open spec fn implicit_return(
    st: Checking,
    block: Block,
    signature: FunctionSignature,
    returned: Ty,
) -> Option<Checking> {
    match block.expression {
        Some(e) => if st.has(e.hir_id) {
            Some(
                st.with_equal(returned, st.at(e.hir_id), e.span, TypeBoundary::ImplicitReturn),
            )
        } else {
            None
        },
        None => match signature.return_type {
            None => Some(st),
            Some(ret) => match diverges(st, block.statements@, 0) {
                None => None,
                Some(true) => Some(st),
                Some(false) => Some(
                    st.with_error(
                        ret.span,
                        TypeBoundary::ImplicitReturn,
                        Fault::MissingReturnValue { expected: returned },
                    ),
                ),
            },
        },
    }
}

/// The body of a function whose signature has been checked.
pub open spec fn body_checked(
    p: Place,
    st: Checking,
    signature: FunctionSignature,
    body: BodyId,
) -> Option<Checking> {
    if (signature.return_type matches Some(ty) && !st.has(ty.hir_id)) || st.return_type is Some
        || !p.env.module.has_body(body) {
        None
    } else {
        let returned = match signature.return_type {
            Some(ty) => st.at(ty.hir_id),
            None => Ty::Unit,
        };
        let params = p.env.module.body(body).params@;
        let tys = signature.parameters@;
        let block = *p.env.module.body(body).block;
        let entered = Checking { return_type: Some(returned), ..st };
        match parameters_copied(
            p,
            entered,
            params,
            tys,
            if params.len() < tys.len() {
                params.len()
            } else {
                tys.len()
            },
        ) {
            None => None,
            Some(bound) => match block_checked(p, bound, block, false) {
                None => None,
                Some(done) => implicit_return(done, block, signature, returned),
            },
        }
    }
}

/// A function: its name, its signature and its body.
pub open spec fn function_checked(
    p: Place,
    st: Checking,
    name: Path,
    signature: FunctionSignature,
    body: BodyId,
) -> Option<Checking> {
    match path_upto(p, st, name, name.segments@.len()) {
        None => None,
        Some(named) => match self_ty(p.env, name, signature) {
            None => None,
            Some(own) => if own is Some && named.self_type is Some {
                None
            } else {
                let owned = Checking {
                    self_type: if own is Some {
                        own
                    } else {
                        named.self_type
                    },
                    ..named
                };
                match signature_checked(p, owned, signature) {
                    None => None,
                    Some(signed) => body_checked(p, signed, signature, body),
                }
            },
        },
    }
}

/// An item and all that belongs to it.
pub open spec fn item_checked(p: Place, st: Checking, item: Item) -> Option<Checking> {
    match item.kind {
        ItemKind::Function { name, signature, body } => function_checked(
            p,
            st,
            name,
            signature,
            body,
        ),
        ItemKind::Struct { fields, .. } => field_types_checked(p, st, fields@, fields@.len()),
        ItemKind::Enum { .. } => Some(st),
        ItemKind::TypeAlias { ty, .. } => type_checked(p, st, *ty),
        ItemKind::Static { ty, initializer, .. } => match type_checked(p, st, *ty) {
            None => None,
            Some(typed) => expression_checked(p, typed, *initializer),
        },
    }
}

} // verus!
