//! Assigns types to the nodes of a body.

use crate::collections::{ids_in, IdSet};
use crate::frontend::ast::{
    AssignmentOperatorClass, AssignmentOperatorKind, BinaryOperatorClass, BinaryOperatorKind,
    UnaryOperatorKind,
};
use crate::frontend::intern::InternedSymbol;
use crate::frontend::lexer::Span;
use crate::index::successor;
use crate::middle::hir;
use crate::middle::hir::{
    ArrayInitializer, Block, DefinitionKind, Expression, ExpressionKind, HirId, Identifier,
    ItemKind, ItemLocalId, Literal, LiteralFloatKind, LiteralIntegerKind, LocalDefId, Path,
    PathSegment, Resolution, StructInitializerField,
};
use crate::middle::primitive::{PrimitiveKind, UIntKind};
use crate::middle::ty::{
    fields_of, lemma_parts, same_type, types, FloatVariableId, IntVariableId, StructField, Ty,
    Type, TypeKind, TypeVariable,
};
use crate::middle::type_check::context::{def_views, lemma_def_views_insert, TypeContext};
use crate::middle::type_check::error::{
    lemma_mistakes_push, mistakes, LoopControlFlowKind, Mistake, TypeBoundary, TypeConstraintOrigin,
    TypeError, TypeErrorKind, TypeUsage,
};
use crate::middle::type_check::rules::{
    arguments_equal, array_rule, assignment_rule, binary_rule, call_rule, cast_rule, copied,
    declared_ty, declares, elements_equal, extra_fields, fail, field_rule, fields_equal, find_field,
    find_method, gives, if_rule, is_method, is_usable, jump_rule, literal_ty, method_rule,
    missing_fields, misused, next_variable, operator_assignment_rule, path_rule, path_target,
    path_upto, return_rule, segment_rule, assigned, struct_rule, this_rule, tuple_rule, types_upto,
    unary_rule, view_rule, while_rule, with_condition, with_usage, Checking, Place, Target,
};
use crate::middle::type_check::solve::{
    demands, Demand, TypeConstraint, TypeConstraintKind,
};
use crate::text::same_text;
use std::collections::BTreeMap;
use std::rc::Rc;
use vstd::prelude::*;

verus! {

broadcast use vstd::std_specs::btree::group_btree_axioms;

/// The context associated with type checking an individual executable body
pub struct TypeChecker<'hir> {
    pub type_context: TypeContext<'hir>,
    pub owner_id: LocalDefId,
    /// Stores what types we've assigned to HIR nodes so far, by the number of
    /// the node. This is effectively the type environment Γ from type theory
    /// just without using the names directly (resolved during ast lowering)
    pub node_to_type_map: BTreeMap<u32, Type>,
    /// Stores the method resolutions we computed for each field access
    /// expression within a function call expression
    pub method_resolution_map: BTreeMap<u32, LocalDefId>,
    /// A list of accumulated constraints on the existing free type variables
    pub constraints: Vec<TypeConstraint>,
    /// Errors we've collected while type checking
    pub errors: Vec<TypeError>,
    /// Keeps track of whether we are in a loop context (for break and continue)
    pub within_loop: bool,
    pub self_type: Option<Type>,
    pub return_type: Option<Type>,
    pub next_integer_variable_id: IntVariableId,
    pub next_float_variable_id: FloatVariableId,
}

/// What an optional type is.
pub open spec fn optional(ty: Option<Type>) -> Option<Ty> {
    match ty {
        Some(ty) => Some(ty@),
        None => None,
    }
}

impl<'hir> View for TypeChecker<'hir> {
    type V = Checking;

    open spec fn view(&self) -> Checking {
        Checking {
            nodes: def_views(self.node_to_type_map@),
            methods: self.method_resolution_map@,
            constraints: demands(self.constraints@),
            errors: mistakes(self.errors@),
            within_loop: self.within_loop,
            self_type: optional(self.self_type),
            return_type: optional(self.return_type),
            next_int: self.next_integer_variable_id.0,
            next_float: self.next_float_variable_id.0,
        }
    }
}

impl<'hir> TypeChecker<'hir> {
    /// Where the body stands.
    pub open spec fn place(&self) -> Place {
        Place { env: self.type_context.env(), owner: self.owner_id }
    }

    /// The table of the context is in order.
    pub open spec fn well_formed(&self) -> bool {
        self.type_context.well_formed()
    }

    /// Whether only the state of checking has changed.
    pub open spec fn same_place(&self, before: &Self) -> bool {
        &&& self.type_context.same_env(&before.type_context)
        &&& self.owner_id == before.owner_id
    }

    /// Starts checking the body of an item.
    pub fn new(type_context: TypeContext<'hir>, owner_id: LocalDefId) -> (r: Self)
        ensures
            r.type_context == type_context,
            r.owner_id == owner_id,
            r@ == (Checking {
                nodes: Map::empty(),
                methods: Map::empty(),
                constraints: Seq::empty(),
                errors: Seq::empty(),
                within_loop: false,
                self_type: None,
                return_type: None,
                next_int: 0,
                next_float: 0,
            }),
    {
        let r = TypeChecker {
            type_context,
            owner_id,
            node_to_type_map: BTreeMap::new(),
            method_resolution_map: BTreeMap::new(),
            constraints: Vec::new(),
            errors: Vec::new(),
            within_loop: false,
            self_type: None,
            return_type: None,
            next_integer_variable_id: IntVariableId(0),
            next_float_variable_id: FloatVariableId(0),
        };
        assert(r@.nodes =~= Map::<u32, Ty>::empty());
        assert(r@.methods =~= Map::<u32, LocalDefId>::empty());
        assert(r@.constraints =~= Seq::<Demand>::empty());
        assert(r@.errors =~= Seq::<Mistake>::empty());
        r
    }

    pub(crate) fn set_type(&mut self, local: u32, ty: Type)
        requires
            old(self).well_formed(),
        ensures
            final(self).same_place(old(self)),
            final(self)@ == old(self)@.with_type(local, ty@),
    {
        proof {
            lemma_def_views_insert(self.node_to_type_map@, local, ty);
        }
        self.node_to_type_map.insert(local, ty);
    }

    pub(crate) fn insert_type(&mut self, hir_id: HirId, ty: Type)
        requires
            old(self).well_formed(),
            hir_id.owner == old(self).owner_id,
        ensures
            final(self).same_place(old(self)),
            assigned(old(self).place(), old(self)@, hir_id, ty@) == Some(final(self)@),
    {
        self.set_type(hir_id.local_id.0, ty)
    }

    pub(crate) fn copy_type_from(&mut self, dest_id: HirId, src_id: ItemLocalId)
        requires
            old(self).well_formed(),
            copied(old(self).place(), old(self)@, dest_id, src_id) is Some,
        ensures
            final(self).same_place(old(self)),
            copied(old(self).place(), old(self)@, dest_id, src_id) == Some(final(self)@),
    {
        let shared = self.get_local_type(src_id);
        self.insert_type(dest_id, shared);
    }

    fn get_local_type(&self, id: ItemLocalId) -> (r: Type)
        requires
            self@.nodes.contains_key(id.0),
        ensures
            r@ == self@.nodes[id.0],
    {
        match self.node_to_type_map.get(&id.0) {
            Some(ty) => ty.duplicate(),
            None => vstd::pervasive::unreached(),
        }
    }

    pub(crate) fn get_type(&self, id: HirId) -> (r: Type)
        requires
            self@.has(id),
        ensures
            r@ == self@.at(id),
    {
        self.get_local_type(id.local_id)
    }

    /// Adds a constraint that the left type should equal the right type
    pub(crate) fn add_equality_constraint(&mut self, left: Type, right: Type, span: Span, kind: TypeBoundary)
        requires
            old(self).well_formed(),
        ensures
            final(self).same_place(old(self)),
            final(self)@ == old(self)@.with_equal(left@, right@, span, kind),
    {
        let ghost demand = Demand::Equal {
            left: left@,
            right: right@,
            origin: TypeConstraintOrigin { span, kind },
        };
        let ghost before = demands(self.constraints@);
        self.constraints.push(
            TypeConstraint {
                kind: TypeConstraintKind::Equal { left, right },
                origin: TypeConstraintOrigin { span, kind },
            },
        );
        assert(demands(self.constraints@) =~= before.push(demand));
    }

    /// Adds a constraint that `from` needs to be able to be cast to `to`
    fn add_cast_constraint(&mut self, from: Type, to: Type, span: Span, kind: TypeBoundary)
        requires
            old(self).well_formed(),
        ensures
            final(self).same_place(old(self)),
            final(self)@ == old(self)@.with_cast(from@, to@, span, kind),
    {
        let ghost demand = Demand::Cast {
            from: from@,
            to: to@,
            origin: TypeConstraintOrigin { span, kind },
        };
        let ghost before = demands(self.constraints@);
        self.constraints.push(
            TypeConstraint {
                kind: TypeConstraintKind::Cast { from, to },
                origin: TypeConstraintOrigin { span, kind },
            },
        );
        assert(demands(self.constraints@) =~= before.push(demand));
    }

    pub(crate) fn push_error(&mut self, span: Span, kind: TypeBoundary, fault: TypeErrorKind)
        requires
            old(self).well_formed(),
        ensures
            final(self).same_place(old(self)),
            final(self)@ == old(self)@.with_error(span, kind, fault@),
    {
        let error = TypeError { origin: TypeConstraintOrigin { span, kind }, kind: fault };
        proof {
            lemma_mistakes_push(self.errors@, error);
        }
        self.errors.push(error);
    }

    /// Reports an error, and leaves the type of a node unknown.
    pub(crate) fn fail_at(&mut self, id: HirId, span: Span, kind: TypeBoundary, fault: TypeErrorKind)
        requires
            old(self).well_formed(),
            id.owner == old(self).owner_id,
        ensures
            final(self).same_place(old(self)),
            fail(old(self).place(), old(self)@, id, span, kind, fault@) == Some(final(self)@),
    {
        self.push_error(span, kind, fault);
        let err = self.type_context.get_error_type();
        self.insert_type(id, err);
    }

    fn create_fresh_integer_var(&mut self) -> (r: Type)
        requires
            old(self).well_formed(),
        ensures
            final(self).same_place(old(self)),
            r@ == Ty::Infer(TypeVariable::Int(IntVariableId(old(self)@.next_int))),
            final(self)@ == (Checking { next_int: next_variable(old(self)@.next_int), ..old(self)@ }),
    {
        let id = self.next_integer_variable_id;
        self.next_integer_variable_id = IntVariableId(successor(id.0));
        self.type_context.intern_type(TypeKind::Infer(TypeVariable::Int(id)))
    }

    fn create_fresh_float_var(&mut self) -> (r: Type)
        requires
            old(self).well_formed(),
        ensures
            final(self).same_place(old(self)),
            r@ == Ty::Infer(TypeVariable::Float(FloatVariableId(old(self)@.next_float))),
            final(self)@ == (Checking {
                next_float: next_variable(old(self)@.next_float),
                ..old(self)@
            }),
    {
        let id = self.next_float_variable_id;
        self.next_float_variable_id = FloatVariableId(successor(id.0));
        self.type_context.intern_type(TypeKind::Infer(TypeVariable::Float(id)))
    }

    pub(crate) fn compute_type_for_literal(&mut self, literal: &Literal) -> (r: Type)
        requires
            old(self).well_formed(),
        ensures
            final(self).same_place(old(self)),
            (r@, final(self)@) == literal_ty(old(self)@, *literal),
    {
        match literal {
            Literal::Boolean(_) => self.type_context.get_primitive_type(PrimitiveKind::Bool),
            Literal::Char(_) => self.type_context.get_primitive_type(PrimitiveKind::Char),
            Literal::Integer(_, LiteralIntegerKind::Unsigned(kind)) => {
                self.type_context.get_primitive_type(PrimitiveKind::UInt(*kind))
            }
            Literal::Integer(_, LiteralIntegerKind::Signed(kind)) => {
                self.type_context.get_primitive_type(PrimitiveKind::Int(*kind))
            }
            Literal::Integer(_, LiteralIntegerKind::Unsuffixed) => self.create_fresh_integer_var(),
            Literal::Float(_, LiteralFloatKind::Suffixed(kind)) => {
                self.type_context.get_primitive_type(PrimitiveKind::Float(*kind))
            }
            Literal::Float(_, LiteralFloatKind::Unsuffixed) => self.create_fresh_float_var(),
            Literal::String(_) => self.type_context.get_primitive_type(PrimitiveKind::Str),
            Literal::ByteString(_) => {
                let inner = self.type_context.get_primitive_type(
                    PrimitiveKind::UInt(UIntKind::U8),
                );
                self.type_context.intern_type(TypeKind::Slice(inner))
            }
            Literal::CString(_) => self.type_context.get_primitive_type(PrimitiveKind::CStr),
        }
    }

    fn visit_path_segment(&mut self, segment: &PathSegment)
        requires
            old(self).well_formed(),
            segment_rule(old(self).place(), old(self)@, *segment) is Some,
        ensures
            final(self).same_place(old(self)),
            segment_rule(old(self).place(), old(self)@, *segment) == Some(final(self)@),
    {
        match segment.resolution {
            Resolution::Local(local_id) => self.copy_type_from(segment.hir_id, local_id),
            _ => {
                let computed_ty = self.type_context.compute_hir_resolution_type(
                    segment.resolution,
                );
                self.insert_type(segment.hir_id, computed_ty);
            }
        }
    }

    pub(crate) fn walk_path(&mut self, path: &Path)
        requires
            old(self).well_formed(),
            path_upto(old(self).place(), old(self)@, *path, path.segments@.len()) is Some,
        ensures
            final(self).same_place(old(self)),
            path_upto(old(self).place(), old(self)@, *path, path.segments@.len()) == Some(
                final(self)@,
            ),
    {
        let ghost p = self.place();
        let ghost st = self@;
        let mut i: usize = 0;
        while i < path.segments.len()
            invariant
                0 <= i <= path.segments@.len(),
                self.same_place(old(self)),
                p == old(self).place(),
                p == self.place(),
                path_upto(p, st, *path, path.segments@.len()) is Some,
                path_upto(p, st, *path, i as nat) == Some(self@),
            decreases path.segments@.len() - i,
        {
            proof {
                lemma_path_prefix(p, st, *path, i as nat + 1, path.segments@.len());
            }
            self.visit_path_segment(&path.segments[i]);
            i = i + 1;
        }
    }

    pub(crate) fn check_path(&mut self, id: HirId, path: &Path)
        requires
            old(self).well_formed(),
            path_rule(old(self).place(), old(self)@, id, *path) is Some,
        ensures
            final(self).same_place(old(self)),
            path_rule(old(self).place(), old(self)@, id, *path) == Some(final(self)@),
    {
        match path.resolution() {
            Resolution::Definition(_, def_id) => {
                let ty = self.type_context.definition_type(*def_id);
                self.insert_type(id, ty);
            }
            Resolution::Local(local_id) => {
                self.copy_type_from(id, *local_id);
            }
            Resolution::IntrinsicFunction(_) => {
                let last = path.segments[path.segments.len() - 1].hir_id;
                self.copy_type_from(id, last.local_id);
            }
            Resolution::Primitive(_) => vstd::pervasive::unreached(),
        }
    }

    pub(crate) fn check_this(&mut self, id: HirId, span: Span)
        requires
            old(self).well_formed(),
            this_rule(old(self).place(), old(self)@, id, span) is Some,
        ensures
            final(self).same_place(old(self)),
            this_rule(old(self).place(), old(self)@, id, span) == Some(final(self)@),
    {
        let known = match &self.self_type {
            Some(ty) => Some(ty.duplicate()),
            None => None,
        };
        match known {
            Some(ty) => self.insert_type(id, ty),
            None => self.fail_at(
                id,
                span,
                TypeBoundary::SelfExpression,
                TypeErrorKind::IllegalSelfUsage,
            ),
        }
    }

    fn get_types(&self, list: &Vec<Rc<Expression>>) -> (r: Vec<Type>)
        requires
            types_upto(self@, list@, list@.len()) is Some,
        ensures
            types_upto(self@, list@, list@.len()) == Some(types(r@)),
    {
        let mut out: Vec<Type> = Vec::new();
        let mut i: usize = 0;
        assert(types(out@) =~= Seq::<Ty>::empty());
        while i < list.len()
            invariant
                0 <= i <= list@.len(),
                types_upto(self@, list@, list@.len()) is Some,
                types_upto(self@, list@, i as nat) == Some(types(out@)),
            decreases list@.len() - i,
        {
            proof {
                lemma_types_prefix(self@, list@, i as nat + 1, list@.len());
            }
            let ghost before = types(out@);
            let ty = self.get_type(list[i].hir_id);
            let ghost shown = ty@;
            out.push(ty);
            assert(types(out@) =~= before.push(shown));
            i = i + 1;
        }
        out
    }

    pub(crate) fn check_array(&mut self, id: HirId, initializer: &ArrayInitializer)
        requires
            old(self).well_formed(),
            array_rule(old(self).place(), old(self)@, id, *initializer) is Some,
        ensures
            final(self).same_place(old(self)),
            array_rule(old(self).place(), old(self)@, id, *initializer) == Some(final(self)@),
    {
        match initializer {
            ArrayInitializer::Repeated { value, length } => {
                let value_ty = self.get_type(value.hir_id);
                let ty = self.type_context.intern_type(
                    TypeKind::Array { ty: value_ty, length: *length },
                );
                self.insert_type(id, ty);
            }
            ArrayInitializer::Specific(list) => {
                let expression_tys = self.get_types(list);
                let ghost tys = types(expression_tys@);
                let ghost st = self@;
                proof {
                    lemma_types_length(st, list@, list@.len());
                }
                assert(tys[0] == expression_tys@[0]@);
                let mut i: usize = 1;
                while i < list.len()
                    invariant
                        1 <= i <= list@.len(),
                        tys == types(expression_tys@),
                        tys.len() == list@.len(),
                        self.same_place(old(self)),
                        self@ == elements_equal(st, list@, tys, i as nat),
                    decreases list@.len() - i,
                {
                    assert(tys[i as int] == expression_tys@[i as int]@);
                    assert(tys[0] == expression_tys@[0]@);
                    self.add_equality_constraint(
                        expression_tys[0].duplicate(),
                        expression_tys[i].duplicate(),
                        list[i].span,
                        TypeBoundary::ArrayInitializer,
                    );
                    i = i + 1;
                }
                let inner_ty = expression_tys[0].duplicate();
                let ty = self.type_context.intern_type(
                    TypeKind::Array { ty: inner_ty, length: expression_tys.len() },
                );
                self.insert_type(id, ty);
            }
        }
    }

    pub(crate) fn check_tuple(&mut self, id: HirId, list: &Vec<Rc<Expression>>)
        requires
            old(self).well_formed(),
            tuple_rule(old(self).place(), old(self)@, id, *list) is Some,
        ensures
            final(self).same_place(old(self)),
            tuple_rule(old(self).place(), old(self)@, id, *list) == Some(final(self)@),
    {
        let expression_tys = self.get_types(list);
        let kind = TypeKind::Tuple(expression_tys);
        proof {
            lemma_parts(kind);
        }
        let ty = self.type_context.intern_type(kind);
        self.insert_type(id, ty);
    }

    fn report_missing_fields(
        &mut self,
        span: Span,
        fields: &Vec<StructField>,
        list: &Vec<Rc<StructInitializerField>>,
    )
        requires
            old(self).well_formed(),
        ensures
            final(self).same_place(old(self)),
            final(self)@ == missing_fields(
                old(self)@,
                span,
                fields_of(fields@),
                list@,
                fields@.len(),
            ),
    {
        let ghost declared = fields_of(fields@);
        let ghost st = self@;
        let mut given = IdSet::new();
        let mut i: usize = 0;
        while i < list.len()
            invariant
                0 <= i <= list@.len(),
                forall|name: u32| #[trigger]
                    ids_in(given).contains(name) <==> gives(
                        list@,
                        i as int,
                        InternedSymbol(name),
                    ),
            decreases list@.len() - i,
        {
            let name = list[i].name.symbol;
            let ghost before = ids_in(given);
            given.insert(name.0);
            proof {
                assert forall|n: u32| #[trigger] ids_in(given).contains(n) <==> gives(
                    list@,
                    i + 1,
                    InternedSymbol(n),
                ) by {
                    lemma_gives_step(list@, i as int, InternedSymbol(n));
                    assert(before.contains(n) <==> gives(list@, i as int, InternedSymbol(n)));
                }
            }
            i = i + 1;
        }
        let mut seen = IdSet::new();
        let mut i: usize = 0;
        while i < fields.len()
            invariant
                0 <= i <= fields@.len(),
                declared == fields_of(fields@),
                self.same_place(old(self)),
                forall|name: u32| #[trigger]
                    ids_in(given).contains(name) <==> gives(
                        list@,
                        list@.len() as int,
                        InternedSymbol(name),
                    ),
                forall|name: u32| #[trigger]
                    ids_in(seen).contains(name) <==> declares(
                        declared,
                        i as int,
                        InternedSymbol(name),
                    ),
                self@ == missing_fields(st, span, declared, list@, i as nat),
            decreases fields@.len() - i,
        {
            let name = fields[i].name;
            assert(declared[i as int].0 == name);
            assert(InternedSymbol(name.0) == name);
            let fresh = !given.contains(name.0) && !seen.contains(name.0);
            if fresh {
                self.push_error(
                    span,
                    TypeBoundary::StructInitializer,
                    TypeErrorKind::MissingStructField { name },
                );
            }
            let ghost before = ids_in(seen);
            seen.insert(name.0);
            proof {
                assert forall|n: u32| #[trigger] ids_in(seen).contains(n) <==> declares(
                    declared,
                    i + 1,
                    InternedSymbol(n),
                ) by {
                    lemma_declares_step(declared, i as int, InternedSymbol(n));
                    assert(before.contains(n) <==> declares(declared, i as int, InternedSymbol(n)));
                }
            }
            i = i + 1;
        }
    }

    fn report_extra_fields(
        &mut self,
        fields: &Vec<StructField>,
        expected: &IdSet,
        list: &Vec<Rc<StructInitializerField>>,
    )
        requires
            old(self).well_formed(),
            forall|name: u32| #[trigger]
                ids_in(*expected).contains(name) <==> declares(
                    fields_of(fields@),
                    fields@.len() as int,
                    InternedSymbol(name),
                ),
        ensures
            final(self).same_place(old(self)),
            final(self)@ == extra_fields(old(self)@, fields_of(fields@), list@, list@.len()),
    {
        let ghost declared = fields_of(fields@);
        let ghost st = self@;
        let mut seen = IdSet::new();
        let mut i: usize = 0;
        while i < list.len()
            invariant
                0 <= i <= list@.len(),
                declared == fields_of(fields@),
                self.same_place(old(self)),
                forall|name: u32| #[trigger]
                    ids_in(*expected).contains(name) <==> declares(
                        declared,
                        declared.len() as int,
                        InternedSymbol(name),
                    ),
                forall|name: u32| #[trigger]
                    ids_in(seen).contains(name) <==> gives(list@, i as int, InternedSymbol(name)),
                self@ == extra_fields(st, declared, list@, i as nat),
            decreases list@.len() - i,
        {
            let name = list[i].name.symbol;
            assert(InternedSymbol(name.0) == name);
            let fresh = !expected.contains(name.0) && !seen.contains(name.0);
            if fresh {
                self.push_error(
                    list[i].span,
                    TypeBoundary::StructInitializer,
                    TypeErrorKind::ExtraStructField { name },
                );
            }
            let ghost before = ids_in(seen);
            seen.insert(name.0);
            proof {
                assert forall|n: u32| #[trigger] ids_in(seen).contains(n) <==> gives(
                    list@,
                    i + 1,
                    InternedSymbol(n),
                ) by {
                    lemma_gives_step(list@, i as int, InternedSymbol(n));
                    assert(before.contains(n) <==> gives(list@, i as int, InternedSymbol(n)));
                }
            }
            i = i + 1;
        }
    }

    pub(crate) fn check_struct(
        &mut self,
        id: HirId,
        span: Span,
        name: &Path,
        list: &Vec<Rc<StructInitializerField>>,
    )
        requires
            old(self).well_formed(),
            struct_rule(old(self).place(), old(self)@, id, span, *name, *list) is Some,
        ensures
            final(self).same_place(old(self)),
            struct_rule(old(self).place(), old(self)@, id, span, *name, *list) == Some(
                final(self)@,
            ),
    {
        let ty = self.type_context.compute_hir_resolution_type(*name.resolution());
        let kind = ty.kind();
        proof {
            lemma_parts(*kind);
        }
        match kind {
            TypeKind::Struct { fields, .. } => {
                let ghost declared = fields_of(fields@);
                let ghost st = self@;
                self.report_missing_fields(span, fields, list);
                let mut expected = IdSet::new();
                let mut i: usize = 0;
                while i < fields.len()
                    invariant
                        0 <= i <= fields@.len(),
                        declared == fields_of(fields@),
                        forall|n: u32| #[trigger]
                            ids_in(expected).contains(n) <==> declares(
                                declared,
                                i as int,
                                InternedSymbol(n),
                            ),
                    decreases fields@.len() - i,
                {
                    let field = fields[i].name;
                    let ghost before = ids_in(expected);
                    expected.insert(field.0);
                    proof {
                        assert(declared[i as int].0 == field);
                        assert(InternedSymbol(field.0) == field);
                        assert forall|n: u32| #[trigger] ids_in(expected).contains(n) <==> declares(
                            declared,
                            i + 1,
                            InternedSymbol(n),
                        ) by {
                            lemma_declares_step(declared, i as int, InternedSymbol(n));
                            assert(before.contains(n) <==> declares(
                                declared,
                                i as int,
                                InternedSymbol(n),
                            ));
                        }
                    }
                    i = i + 1;
                }
                self.report_extra_fields(fields, &expected, list);
                let ghost reported = self@;
                let mut i: usize = 0;
                while i < list.len()
                    invariant
                        0 <= i <= list@.len(),
                        declared == fields_of(fields@),
                        declared.len() == fields@.len(),
                        self.same_place(old(self)),
                        forall|n: u32| #[trigger]
                            ids_in(expected).contains(n) <==> declares(
                                declared,
                                declared.len() as int,
                                InternedSymbol(n),
                            ),
                        fields_equal(reported, declared, list@, list@.len()) is Some,
                        fields_equal(reported, declared, list@, i as nat) == Some(self@),
                    decreases list@.len() - i,
                {
                    proof {
                        lemma_fields_equal_prefix(
                            reported,
                            declared,
                            list@,
                            i as nat + 1,
                            list@.len(),
                        );
                    }
                    let field = &list[i];
                    let symbol = field.name.symbol;
                    assert(InternedSymbol(symbol.0) == symbol);
                    if expected.contains(symbol.0) {
                        let field_ty = self.get_type(field.hir_id);
                        let expected_ty = declared_type(fields, symbol);
                        self.add_equality_constraint(
                            field_ty,
                            expected_ty,
                            field.span,
                            TypeBoundary::StructInitializer,
                        );
                    }
                    i = i + 1;
                }
            }
            _ => vstd::pervasive::unreached(),
        }
        self.insert_type(id, ty);
    }

    pub(crate) fn check_view(
        &mut self,
        id: HirId,
        target: &Expression,
        item: &Type,
        name: Identifier,
        is_method_call: bool,
    )
        requires
            old(self).well_formed(),
            old(self)@.has(target.hir_id),
            view_rule(
                old(self).place(),
                old(self)@,
                id,
                *target,
                item@,
                name,
                is_method_call,
            ) is Some,
        ensures
            final(self).same_place(old(self)),
            view_rule(
                old(self).place(),
                old(self)@,
                id,
                *target,
                item@,
                name,
                is_method_call,
            ) == Some(final(self)@),
    {
        let text = self.type_context.names.value(name.symbol);
        if same_text(text, "ptr") && !is_method_call {
            let ty = self.type_context.intern_type(TypeKind::Pointer(item.duplicate()));
            self.insert_type(id, ty);
        } else if same_text(text, "len") && !is_method_call {
            let ty = self.type_context.get_primitive_type(PrimitiveKind::UInt(UIntKind::USize));
            self.insert_type(id, ty);
        } else {
            let target_ty = self.get_type(target.hir_id);
            self.fail_at(
                id,
                target.span,
                TypeBoundary::FieldAccess,
                TypeErrorKind::UnknownFieldAccess { target: target_ty, name: name.symbol },
            );
        }
    }

    /// What the first function that belongs to a structure and has a name
    /// stands for.
    fn find_method(&self, def_id: LocalDefId, name: InternedSymbol) -> (r: Option<
        Resolution<ItemLocalId>,
    >)
        requires
            find_method(*self.type_context.module, def_id, name, 0) is Some,
        ensures
            find_method(*self.type_context.module, def_id, name, 0) == Some(r),
    {
        let module = self.type_context.module;
        let owners = module.owners.enumerate();
        let mut k: usize = 0;
        while k < owners.len()
            invariant
                0 <= k <= owners@.len(),
                module == self.type_context.module,
                owners@.len() == module.owners@.len(),
                forall|i: int|
                    0 <= i < owners@.len() ==> *(#[trigger] owners@[i]).1 == module.owners@[i],
                find_method(*module, def_id, name, 0) is Some,
                find_method(*module, def_id, name, k as nat) == find_method(
                    *module,
                    def_id,
                    name,
                    0,
                ),
            decreases owners@.len() - k,
        {
            let (_, owner) = owners[k];
            assert(*owners@[k as int].1 == module.owners@[k as int]);
            match owner.node() {
                hir::OwnerNode::Item(item) => {
                    if let ItemKind::Function { name: fn_name, .. } = &item.kind {
                        let belongs = match fn_name.segments[0].resolution {
                            Resolution::Definition(_, id) => id == def_id,
                            _ => false,
                        };
                        if belongs && fn_name.segments[1].identifier.symbol == name {
                            return Some(*fn_name.resolution());
                        }
                    }
                }
            }
            k = k + 1;
        }
        None
    }

    pub(crate) fn check_method(&mut self, id: HirId, target: &Type, def_id: LocalDefId, name: Identifier)
        requires
            old(self).well_formed(),
            method_rule(old(self).place(), old(self)@, id, target@, def_id, name) is Some,
        ensures
            final(self).same_place(old(self)),
            method_rule(old(self).place(), old(self)@, id, target@, def_id, name) == Some(
                final(self)@,
            ),
    {
        match self.find_method(def_id, name.symbol) {
            None => self.fail_at(
                id,
                name.span,
                TypeBoundary::FieldAccess,
                TypeErrorKind::UnknownFieldAccess { target: target.duplicate(), name: name.symbol },
            ),
            Some(resolution) => {
                let ty = self.type_context.compute_hir_resolution_type(resolution);
                match resolution.as_function_definition() {
                    Some(function) => {
                        self.method_resolution_map.insert(id.local_id.0, function);
                    }
                    None => vstd::pervasive::unreached(),
                }
                self.insert_type(id, ty);
            }
        }
    }

    pub(crate) fn check_field_access(
        &mut self,
        id: HirId,
        target: &Expression,
        name: Identifier,
        is_method_call: bool,
    )
        requires
            old(self).well_formed(),
            field_rule(
                old(self).place(),
                old(self)@,
                id,
                *target,
                name,
                is_method_call,
            ) is Some,
        ensures
            final(self).same_place(old(self)),
            field_rule(
                old(self).place(),
                old(self)@,
                id,
                *target,
                name,
                is_method_call,
            ) == Some(final(self)@),
    {
        let target_ty = self.get_type(target.hir_id);
        let kind = target_ty.kind();
        proof {
            lemma_parts(*kind);
        }
        match kind {
            TypeKind::Str => {
                let u8_ty = self.type_context.get_primitive_type(
                    PrimitiveKind::UInt(UIntKind::U8),
                );
                self.check_view(id, target, &u8_ty, name, is_method_call);
            }
            TypeKind::Slice(inner_ty) => {
                self.check_view(id, target, inner_ty, name, is_method_call);
            }
            TypeKind::Pointer(_)
            | TypeKind::Array { .. }
            | TypeKind::Tuple(_)
            | TypeKind::Error => vstd::pervasive::unreached(),
            TypeKind::Struct { def_id, fields, .. } => {
                if is_method_call {
                    self.check_method(id, &target_ty, *def_id, name);
                } else {
                    match field_position(fields, name.symbol) {
                        Some(k) => {
                            assert(fields_of(fields@)[k as int].1 == fields@[k as int].ty@);
                            let ty = fields[k].ty.duplicate();
                            self.insert_type(id, ty);
                        }
                        None => {
                            self.fail_at(
                                id,
                                name.span,
                                TypeBoundary::FieldAccess,
                                TypeErrorKind::UnknownFieldAccess {
                                    target: target_ty.duplicate(),
                                    name: name.symbol,
                                },
                            );
                        }
                    }
                }
            }
            _ => {
                // All other types do not support field access
                self.fail_at(
                    id,
                    target.span,
                    TypeBoundary::FieldAccess,
                    TypeErrorKind::InvalidOperation {
                        attempted_usage: TypeUsage::FieldAccess,
                        provided: target_ty.duplicate(),
                    },
                );
            }
        }
    }

    pub(crate) fn check_call(
        &mut self,
        id: HirId,
        span: Span,
        target: &Expression,
        arguments: &Vec<Rc<Expression>>,
    )
        requires
            old(self).well_formed(),
            call_rule(old(self).place(), old(self)@, id, span, *target, *arguments) is Some,
        ensures
            final(self).same_place(old(self)),
            call_rule(old(self).place(), old(self)@, id, span, *target, *arguments) == Some(
                final(self)@,
            ),
    {
        // check that the target of the call is a function pointer
        let target_ty = self.get_type(target.hir_id);
        let kind = target_ty.kind();
        proof {
            lemma_parts(*kind);
        }
        match kind {
            TypeKind::FunctionPointer { parameters, return_type, is_variadic } => {
                // expression has the same type as the function's return type
                self.insert_type(id, return_type.duplicate());
                let ghost typed = self@;
                // for method calls, the self argument is passed implicitly
                let skipped: usize = match &target.kind {
                    ExpressionKind::FieldAccess { is_method_call, .. } => {
                        if *is_method_call {
                            1
                        } else {
                            0
                        }
                    }
                    _ => 0,
                };
                let ghost all = types(parameters@);
                let ghost expected = if is_method(*target) {
                    all.skip(1)
                } else {
                    all
                };
                assert(skipped == (if is_method(*target) {
                    1int
                } else {
                    0
                }));
                let count: usize = parameters.len() - skipped;
                assert(count == expected.len());
                // Make sure the passed number of arguments matches the expected
                // number (allowing variadics if applicable)
                if arguments.len() < count || (arguments.len() > count && !*is_variadic) {
                    self.push_error(
                        span,
                        TypeBoundary::FunctionCall,
                        TypeErrorKind::ArgumentLengthMismatch {
                            expected: count,
                            actual: arguments.len(),
                        },
                    );
                    return;
                }
                // check that argument types match the target's call signature
                let mut i: usize = 0;
                while i < count
                    invariant
                        0 <= i <= count,
                        count == expected.len(),
                        count <= arguments@.len(),
                        count + skipped == parameters.len(),
                        all == types(parameters@),
                        forall|k: int|
                            0 <= k < count ==> #[trigger] expected[k] == all[k + skipped],
                        self.same_place(old(self)),
                        arguments_equal(typed, expected, arguments@, count as nat) is Some,
                        arguments_equal(typed, expected, arguments@, i as nat) == Some(self@),
                    decreases count - i,
                {
                    proof {
                        lemma_arguments_prefix(
                            typed,
                            expected,
                            arguments@,
                            i as nat + 1,
                            count as nat,
                        );
                        assert(expected[i as int] == all[i + skipped]);
                    }
                    let argument_ty = self.get_type(arguments[i].hir_id);
                    let parameter_ty = parameters[i + skipped].duplicate();
                    self.add_equality_constraint(
                        parameter_ty,
                        argument_ty,
                        arguments[i].span,
                        TypeBoundary::FunctionArgument,
                    );
                    i = i + 1;
                }
            }
            _ => {
                self.fail_at(
                    id,
                    target.span,
                    TypeBoundary::FunctionCall,
                    TypeErrorKind::InvalidOperation {
                        attempted_usage: TypeUsage::FunctionCall,
                        provided: target_ty.duplicate(),
                    },
                );
            }
        }
    }

    /// Reports an operand that cannot be used as an operator asks for.
    pub(crate) fn check_usage(&mut self, span: Span, kind: TypeBoundary, usage: TypeUsage, ty: &Type) -> (r:
        bool)
        requires
            old(self).well_formed(),
        ensures
            final(self).same_place(old(self)),
            final(self)@ == with_usage(old(self)@, span, kind, usage, ty@),
            r == is_usable(ty@, usage),
    {
        let usable = match usage {
            TypeUsage::ArithmeticOperation => ty.kind().is_arithmetic(),
            TypeUsage::LogicalOperation => ty.kind().is_bool(),
            _ => true,
        };
        if !usable {
            self.push_error(
                span,
                kind,
                TypeErrorKind::InvalidOperation {
                    attempted_usage: usage,
                    provided: ty.duplicate(),
                },
            );
        }
        usable
    }

    /// Reports the operands that cannot be used as an operator asks for.
    pub(crate) fn check_operands(
        &mut self,
        id: HirId,
        lhs: &Expression,
        rhs: &Expression,
        kind: TypeBoundary,
        usage: TypeUsage,
    ) -> (r: bool)
        requires
            old(self).well_formed(),
            old(self)@.has(lhs.hir_id),
            old(self)@.has(rhs.hir_id),
            id.owner == old(self).owner_id,
        ensures
            final(self).same_place(old(self)),
            r == (is_usable(old(self)@.at(lhs.hir_id), usage) && is_usable(
                old(self)@.at(rhs.hir_id),
                usage,
            )),
            r ==> final(self)@ == old(self)@,
            !r ==> misused(old(self).place(), old(self)@, id, *lhs, *rhs, kind, usage) == Some(
                final(self)@,
            ),
    {
        let lhs_ty = self.get_type(lhs.hir_id);
        let rhs_ty = self.get_type(rhs.hir_id);
        let left = self.check_usage(lhs.span, kind, usage, &lhs_ty);
        let right = self.check_usage(rhs.span, kind, usage, &rhs_ty);
        if !left || !right {
            let error_ty = self.type_context.get_error_type();
            self.insert_type(id, error_ty);
            return false;
        }
        true
    }

    pub(crate) fn check_binary(
        &mut self,
        id: HirId,
        span: Span,
        lhs: &Expression,
        operator: BinaryOperatorKind,
        rhs: &Expression,
    )
        requires
            old(self).well_formed(),
            binary_rule(old(self).place(), old(self)@, id, span, *lhs, operator, *rhs) is Some,
        ensures
            final(self).same_place(old(self)),
            binary_rule(old(self).place(), old(self)@, id, span, *lhs, operator, *rhs) == Some(
                final(self)@,
            ),
    {
        let lhs_ty = self.get_type(lhs.hir_id);
        let rhs_ty = self.get_type(rhs.hir_id);
        let kind = TypeBoundary::BinaryOp;
        match operator.class() {
            // If this is an arithmetic operator, require that both
            // types are arithmetic
            BinaryOperatorClass::Arithmetic => {
                if !self.check_operands(id, lhs, rhs, kind, TypeUsage::ArithmeticOperation) {
                    return;
                }
                // For arithmetic operations the result is always the same as the inputs
                self.insert_type(id, lhs_ty.duplicate());
                // pointer arithmetic
                match (lhs_ty.kind(), rhs_ty.kind()) {
                    (
                        TypeKind::Pointer(_) | TypeKind::Any,
                        TypeKind::Infer(TypeVariable::Int(_)),
                    ) => {
                        let usize_ty = self.type_context.get_primitive_type(
                            PrimitiveKind::UInt(UIntKind::USize),
                        );
                        self.add_equality_constraint(rhs_ty.duplicate(), usize_ty, span, kind);
                        return;
                    }
                    (
                        TypeKind::Pointer(_) | TypeKind::Any,
                        TypeKind::UnsignedInteger(UIntKind::USize),
                    ) => {
                        return;
                    }
                    _ => {}
                }
            }
            // If this is a logical operator, require that both types
            // are bools
            BinaryOperatorClass::Logical => {
                if !self.check_operands(id, lhs, rhs, kind, TypeUsage::LogicalOperation) {
                    return;
                }
                let bool_ty = self.type_context.get_primitive_type(PrimitiveKind::Bool);
                self.insert_type(id, bool_ty);
            }
            // The result is always a boolean no matter what
            BinaryOperatorClass::Comparison => {
                let bool_ty = self.type_context.get_primitive_type(PrimitiveKind::Bool);
                self.insert_type(id, bool_ty);
            }
        }
        // For operators like && and ||, the types need to be
        // bools. For operators like == and !=, the types need
        // to be the same. In either case we need to add this
        // equality constraint.
        self.add_equality_constraint(lhs_ty, rhs_ty, span, kind);
    }

    pub(crate) fn check_unary(
        &mut self,
        id: HirId,
        span: Span,
        operator: UnaryOperatorKind,
        operand: &Expression,
    )
        requires
            old(self).well_formed(),
            unary_rule(old(self).place(), old(self)@, id, span, operator, *operand) is Some,
        ensures
            final(self).same_place(old(self)),
            unary_rule(old(self).place(), old(self)@, id, span, operator, *operand) == Some(
                final(self)@,
            ),
    {
        let operand_ty = self.get_type(operand.hir_id);
        match operator {
            UnaryOperatorKind::Deref => match operand_ty.kind() {
                TypeKind::Pointer(inner_ty) => {
                    let inner = inner_ty.duplicate();
                    self.insert_type(id, inner);
                }
                TypeKind::Error => {
                    self.insert_type(id, operand_ty.duplicate());
                }
                _ => {
                    self.fail_at(
                        id,
                        span,
                        TypeBoundary::Deref,
                        TypeErrorKind::InvalidOperation {
                            attempted_usage: TypeUsage::Deref,
                            provided: operand_ty.duplicate(),
                        },
                    );
                }
            },
            UnaryOperatorKind::AddressOf { .. } => {
                let pointer_ty = self.type_context.intern_type(TypeKind::Pointer(operand_ty));
                self.insert_type(id, pointer_ty);
            }
            UnaryOperatorKind::LogicalNot => {
                if !operand_ty.kind().is_bool() {
                    self.fail_at(
                        id,
                        span,
                        TypeBoundary::LogicalOp,
                        TypeErrorKind::InvalidOperation {
                            attempted_usage: TypeUsage::LogicalOperation,
                            provided: operand_ty,
                        },
                    );
                    return;
                }
                self.insert_type(id, operand_ty);
            }
            UnaryOperatorKind::BitwiseNot | UnaryOperatorKind::Negate => {
                if !operand_ty.kind().is_arithmetic() {
                    self.fail_at(
                        id,
                        span,
                        TypeBoundary::ArithmeticOp,
                        TypeErrorKind::InvalidOperation {
                            attempted_usage: TypeUsage::ArithmeticOperation,
                            provided: operand_ty,
                        },
                    );
                    return;
                }
                self.insert_type(id, operand_ty);
            }
        }
    }

    pub(crate) fn check_cast(&mut self, id: HirId, span: Span, castee: &Expression, ty: &hir::Type)
        requires
            old(self).well_formed(),
            cast_rule(old(self).place(), old(self)@, id, span, *castee, *ty) is Some,
        ensures
            final(self).same_place(old(self)),
            cast_rule(old(self).place(), old(self)@, id, span, *castee, *ty) == Some(
                final(self)@,
            ),
    {
        let castee_ty = self.get_type(castee.hir_id);
        let target_ty = self.get_type(ty.hir_id);
        // We know that the target type cannot have any free type
        // variables because it can only be a named concrete type. This
        // may change however if we add a "typeof" mechanism or
        // equivalent.
        self.add_cast_constraint(castee_ty, target_ty.duplicate(), span, TypeBoundary::Cast);
        self.insert_type(id, target_ty);
    }

    pub(crate) fn check_condition(&mut self, condition: &Expression, kind: TypeBoundary)
        requires
            old(self).well_formed(),
            old(self)@.has(condition.hir_id),
        ensures
            final(self).same_place(old(self)),
            final(self)@ == with_condition(old(self)@, *condition, kind),
    {
        let condition_ty = self.get_type(condition.hir_id);
        if !condition_ty.kind().is_bool() && !condition_ty.kind().is_error() {
            let bool_ty = self.type_context.get_primitive_type(PrimitiveKind::Bool);
            self.push_error(
                condition.span,
                kind,
                TypeErrorKind::TypeMismatch { expected: bool_ty, actual: condition_ty },
            );
        }
    }

    pub(crate) fn check_if(
        &mut self,
        id: HirId,
        condition: &Expression,
        positive: &Block,
        negative: &Option<Rc<Expression>>,
    )
        requires
            old(self).well_formed(),
            if_rule(old(self).place(), old(self)@, id, *condition, *positive, *negative) is Some,
        ensures
            final(self).same_place(old(self)),
            if_rule(old(self).place(), old(self)@, id, *condition, *positive, *negative) == Some(
                final(self)@,
            ),
    {
        let positive_ty = self.get_type(positive.hir_id);
        self.check_condition(condition, TypeBoundary::IfCondition);
        if let Some(n) = negative {
            let negative_ty = self.get_type(n.hir_id);
            // If either branch diverges, we dont care to make sure that
            // the types match
            if !positive_ty.kind().is_never() && !negative_ty.kind().is_never() {
                self.add_equality_constraint(
                    positive_ty.duplicate(),
                    negative_ty,
                    n.span,
                    TypeBoundary::IfBlock,
                );
            }
        }
        self.insert_type(id, positive_ty);
    }

    pub(crate) fn check_while(&mut self, id: HirId, condition: &Expression, block: &Block)
        requires
            old(self).well_formed(),
            while_rule(old(self).place(), old(self)@, id, *condition, *block) is Some,
        ensures
            final(self).same_place(old(self)),
            while_rule(old(self).place(), old(self)@, id, *condition, *block) == Some(
                final(self)@,
            ),
    {
        let block_ty = self.get_type(block.hir_id);
        let unit_ty = self.type_context.get_unit_type();
        self.check_condition(condition, TypeBoundary::WhileCondition);
        if !block_ty.kind().is_unit() && !block_ty.kind().is_never() {
            self.push_error(
                condition.span,
                TypeBoundary::WhileCondition,
                TypeErrorKind::TypeMismatch { expected: unit_ty.duplicate(), actual: block_ty },
            );
        }
        self.insert_type(id, unit_ty);
    }

    /// Whether a variable can be assigned to.
    fn path_fault(&self, path: &Path) -> (r: Option<TypeErrorKind>)
        requires
            !(path_target(self.place(), *path) is Broken),
        ensures
            match path_target(self.place(), *path) {
                Target::Fine => r is None,
                Target::Wrong(fault) => r is Some && r->0@ == fault,
                _ => false,
            },
    {
        match path.resolution() {
            Resolution::Local(id) => {
                let owner = self.type_context.module.get_owner(self.owner_id);
                match owner.nodes.get(*id) {
                    Some(node) => match node.node.as_let_statement() {
                        Some(local) => {
                            if !local.is_mutable {
                                Some(TypeErrorKind::IllegalMutation)
                            } else {
                                None
                            }
                        }
                        None => vstd::pervasive::unreached(),
                    },
                    None => vstd::pervasive::unreached(),
                }
            }
            Resolution::Definition(DefinitionKind::Static, def_id) => {
                match self.type_context.module.get_owner(*def_id).node() {
                    hir::OwnerNode::Item(item) => match &item.kind {
                        ItemKind::Static { is_mutable, .. } => {
                            if !*is_mutable {
                                Some(TypeErrorKind::IllegalMutation)
                            } else {
                                None
                            }
                        }
                        _ => vstd::pervasive::unreached(),
                    },
                }
            }
            _ => Some(TypeErrorKind::InvalidAssignment),
        }
    }

    pub(crate) fn check_assignment(&mut self, id: HirId, span: Span, lhs: &Expression, rhs: &Expression)
        requires
            old(self).well_formed(),
            assignment_rule(old(self).place(), old(self)@, id, span, *lhs, *rhs) is Some,
        ensures
            final(self).same_place(old(self)),
            assignment_rule(old(self).place(), old(self)@, id, span, *lhs, *rhs) == Some(
                final(self)@,
            ),
    {
        let error = match &lhs.kind {
            ExpressionKind::Path(path) => self.path_fault(path),
            ExpressionKind::Unary { operator: UnaryOperatorKind::Deref, operand } => {
                let operand_ty = self.get_type(operand.hir_id);
                match operand_ty.kind() {
                    TypeKind::Error => {
                        return;
                    }
                    TypeKind::Pointer(_) => None,
                    _ => Some(TypeErrorKind::InvalidAssignment),
                }
            }
            ExpressionKind::FieldAccess { .. } => None,
            _ => Some(TypeErrorKind::InvalidAssignment),
        };
        match error {
            Some(kind) => {
                self.fail_at(id, lhs.span, TypeBoundary::Assignment, kind);
            }
            None => {
                let lhs_ty = self.get_type(lhs.hir_id);
                let rhs_ty = self.get_type(rhs.hir_id);
                let unit_ty = self.type_context.get_unit_type();
                self.add_equality_constraint(lhs_ty, rhs_ty, span, TypeBoundary::Assignment);
                self.insert_type(id, unit_ty);
            }
        }
    }

    pub(crate) fn check_operator_assignment(
        &mut self,
        id: HirId,
        span: Span,
        operator: AssignmentOperatorKind,
        lhs: &Expression,
        rhs: &Expression,
    )
        requires
            old(self).well_formed(),
            operator_assignment_rule(
                old(self).place(),
                old(self)@,
                id,
                span,
                operator,
                *lhs,
                *rhs,
            ) is Some,
        ensures
            final(self).same_place(old(self)),
            operator_assignment_rule(
                old(self).place(),
                old(self)@,
                id,
                span,
                operator,
                *lhs,
                *rhs,
            ) == Some(final(self)@),
    {
        let lhs_ty = self.get_type(lhs.hir_id);
        let rhs_ty = self.get_type(rhs.hir_id);
        let kind = TypeBoundary::OpAssignment;
        let usage = match operator.class() {
            AssignmentOperatorClass::Arithmetic => TypeUsage::ArithmeticOperation,
            AssignmentOperatorClass::Logical => TypeUsage::LogicalOperation,
        };
        if !self.check_operands(id, lhs, rhs, kind, usage) {
            return;
        }
        let unit_ty = self.type_context.get_unit_type();
        self.add_equality_constraint(lhs_ty, rhs_ty, span, kind);
        self.insert_type(id, unit_ty);
    }

    pub(crate) fn check_jump(&mut self, id: HirId, span: Span, kind: LoopControlFlowKind)
        requires
            old(self).well_formed(),
            jump_rule(old(self).place(), old(self)@, id, span, kind) is Some,
        ensures
            final(self).same_place(old(self)),
            jump_rule(old(self).place(), old(self)@, id, span, kind) == Some(final(self)@),
    {
        if !self.within_loop {
            self.push_error(
                span,
                TypeBoundary::LoopControlFlow,
                TypeErrorKind::IllegalLoopControlFlow(kind),
            );
        }
        let ty = self.type_context.get_primitive_type(PrimitiveKind::Never);
        self.insert_type(id, ty);
    }

    pub(crate) fn check_return(&mut self, id: HirId, span: Span, value: &Option<Rc<Expression>>)
        requires
            old(self).well_formed(),
            return_rule(old(self).place(), old(self)@, id, span, *value) is Some,
        ensures
            final(self).same_place(old(self)),
            return_rule(old(self).place(), old(self)@, id, span, *value) == Some(final(self)@),
    {
        let return_ty = match &self.return_type {
            Some(ty) => ty.duplicate(),
            None => vstd::pervasive::unreached(),
        };
        match value {
            Some(v) => {
                let value_ty = self.get_type(v.hir_id);
                if !same_type(&value_ty, &return_ty) {
                    self.add_equality_constraint(
                        value_ty,
                        return_ty,
                        span,
                        TypeBoundary::ExplicitReturn,
                    );
                }
            }
            None => {
                if !return_ty.kind().is_unit() {
                    self.push_error(
                        span,
                        TypeBoundary::ExplicitReturn,
                        TypeErrorKind::MissingReturnValue { expected: return_ty },
                    );
                }
            }
        }
        let ty = self.type_context.get_primitive_type(PrimitiveKind::Never);
        self.insert_type(id, ty);
    }
}

/// The type of the last field with a name.
fn declared_type(fields: &Vec<StructField>, name: InternedSymbol) -> (r: Type)
    requires
        declares(fields_of(fields@), fields@.len() as int, name),
    ensures
        r@ == declared_ty(fields_of(fields@), fields@.len(), name),
{
    let ghost declared = fields_of(fields@);
    let mut i: usize = fields.len();
    while i > 0
        invariant
            0 <= i <= fields@.len(),
            declared == fields_of(fields@),
            declares(declared, i as int, name),
            declared_ty(declared, i as nat, name) == declared_ty(
                declared,
                fields@.len(),
                name,
            ),
        decreases i,
    {
        assert(declared[i - 1].0 == fields@[i - 1].name);
        assert(declared[i - 1].1 == fields@[i - 1].ty@);
        if fields[i - 1].name == name {
            return fields[i - 1].ty.duplicate();
        }
        proof {
            lemma_declares_step(declared, i - 1, name);
        }
        i = i - 1;
    }
    vstd::pervasive::unreached()
}

/// The place of the first field with a name.
fn field_position(fields: &Vec<StructField>, name: InternedSymbol) -> (r: Option<usize>)
    ensures
        find_field(fields_of(fields@), name, 0) == (match r {
            Some(k) => Some(k as nat),
            None => None,
        }),
        r matches Some(k) ==> k < fields@.len(),
{
    let ghost declared = fields_of(fields@);
    let mut k: usize = 0;
    while k < fields.len()
        invariant
            0 <= k <= fields@.len(),
            declared == fields_of(fields@),
            find_field(declared, name, 0) == find_field(declared, name, k as nat),
        decreases fields@.len() - k,
    {
        assert(declared[k as int].0 == fields@[k as int].name);
        if fields[k].name == name {
            return Some(k);
        }
        k = k + 1;
    }
    None
}

proof fn lemma_path_prefix(p: Place, st: Checking, path: Path, n: nat, m: nat)
    requires
        n <= m,
        path_upto(p, st, path, m) is Some,
    ensures
        path_upto(p, st, path, n) is Some,
    decreases m - n,
{
    if n < m {
        lemma_path_prefix(p, st, path, n, (m - 1) as nat);
    }
}

proof fn lemma_types_prefix(st: Checking, list: Seq<Rc<Expression>>, n: nat, m: nat)
    requires
        n <= m,
        types_upto(st, list, m) is Some,
    ensures
        types_upto(st, list, n) is Some,
    decreases m - n,
{
    if n < m {
        lemma_types_prefix(st, list, n, (m - 1) as nat);
    }
}

proof fn lemma_types_length(st: Checking, list: Seq<Rc<Expression>>, n: nat)
    requires
        types_upto(st, list, n) is Some,
    ensures
        types_upto(st, list, n)->0.len() == n,
    decreases n,
{
    if n > 0 {
        lemma_types_length(st, list, (n - 1) as nat);
    }
}

proof fn lemma_gives_step(list: Seq<Rc<StructInitializerField>>, i: int, name: InternedSymbol)
    requires
        0 <= i < list.len(),
    ensures
        gives(list, i + 1, name) <==> gives(list, i, name) || list[i].name.symbol == name,
{
    if gives(list, i + 1, name) {
        let k = choose|k: int| 0 <= k < i + 1 && (#[trigger] list[k]).name.symbol == name;
        if k < i {
            assert(list[k].name.symbol == name);
        }
    }
    if gives(list, i, name) {
        let k = choose|k: int| 0 <= k < i && (#[trigger] list[k]).name.symbol == name;
        assert(list[k].name.symbol == name);
    }
}

proof fn lemma_declares_step(fields: Seq<(InternedSymbol, Ty)>, i: int, name: InternedSymbol)
    requires
        0 <= i < fields.len(),
    ensures
        declares(fields, i + 1, name) <==> declares(fields, i, name) || fields[i].0 == name,
{
    if declares(fields, i + 1, name) {
        let k = choose|k: int| 0 <= k < i + 1 && (#[trigger] fields[k]).0 == name;
        if k < i {
            assert(fields[k].0 == name);
        }
    }
    if declares(fields, i, name) {
        let k = choose|k: int| 0 <= k < i && (#[trigger] fields[k]).0 == name;
        assert(fields[k].0 == name);
    }
}

proof fn lemma_fields_equal_prefix(
    st: Checking,
    fields: Seq<(InternedSymbol, Ty)>,
    list: Seq<Rc<StructInitializerField>>,
    n: nat,
    m: nat,
)
    requires
        n <= m,
        fields_equal(st, fields, list, m) is Some,
    ensures
        fields_equal(st, fields, list, n) is Some,
    decreases m - n,
{
    if n < m {
        lemma_fields_equal_prefix(st, fields, list, n, (m - 1) as nat);
    }
}

proof fn lemma_arguments_prefix(
    st: Checking,
    expected: Seq<Ty>,
    arguments: Seq<Rc<Expression>>,
    n: nat,
    m: nat,
)
    requires
        n <= m,
        arguments_equal(st, expected, arguments, m) is Some,
    ensures
        arguments_equal(st, expected, arguments, n) is Some,
    decreases m - n,
{
    if n < m {
        lemma_arguments_prefix(st, expected, arguments, n, (m - 1) as nat);
    }
}

} // verus!
