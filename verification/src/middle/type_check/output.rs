//! What checking a body comes to.

use crate::collections::{lists, sorted_keys};
use crate::index::wrap32;
use crate::middle::hir::LocalDefId;
use crate::middle::primitive::{FloatKind, IntKind, PrimitiveKind};
use crate::middle::ty::{free, Ty, Type, TypeVariable};
use crate::middle::type_check::checker::{optional, TypeChecker};
use crate::middle::type_check::context::{def_views, lemma_def_views_insert, TypeContext};
use crate::middle::type_check::error::{mistakes, Fault, Mistake, TypeError, TypeErrorKind};
use crate::middle::type_check::rules::{Checking, Place};
use crate::middle::type_check::solve::{
    applied, apply_substitution, is_bound, lemma_reach_free, reach, reach_upto, replaced, solution,
    solve_constraints, Binding, SubstitutionMap,
};
use crate::middle::type_check::table::TypeTable;
use std::collections::BTreeMap;
use vstd::prelude::*;

verus! {

broadcast use vstd::std_specs::btree::group_btree_axioms;

/// What a variable stands for that nothing else is known of.
pub open spec fn default_ty(variable: TypeVariable) -> Ty {
    match variable {
        TypeVariable::Int(_) => Ty::Integer(IntKind::I32),
        TypeVariable::Float(_) => Ty::Float(FloatKind::F32),
    }
}

/// A type with the variables of a set replaced by what they stand for if
/// nothing else is known of them.
pub open spec fn defaulted_for(variables: Set<TypeVariable>, ty: Ty) -> Ty
    decreases ty,
{
    match ty {
        Ty::Infer(v) => if variables.contains(v) {
            default_ty(v)
        } else {
            ty
        },
        Ty::Pointer(inner) => Ty::Pointer(Box::new(defaulted_for(variables, *inner))),
        Ty::Slice(inner) => Ty::Slice(Box::new(defaulted_for(variables, *inner))),
        Ty::Array { ty: inner, length } => Ty::Array {
            ty: Box::new(defaulted_for(variables, *inner)),
            length,
        },
        Ty::Tuple(list) => Ty::Tuple(
            Seq::new(
                list.len(),
                |i: int|
                    if 0 <= i < list.len() {
                        defaulted_for(variables, list[i])
                    } else {
                        Ty::Never
                    },
            ),
        ),
        Ty::FunctionPointer { parameters, return_type, is_variadic } => Ty::FunctionPointer {
            parameters: Seq::new(
                parameters.len(),
                |i: int|
                    if 0 <= i < parameters.len() {
                        defaulted_for(variables, parameters[i])
                    } else {
                        Ty::Never
                    },
            ),
            return_type: Box::new(defaulted_for(variables, *return_type)),
            is_variadic,
        },
        _ => ty,
    }
}

/// A type with all variables in reach replaced by what they stand for if
/// nothing else is known of them.
pub open spec fn defaulted(ty: Ty) -> Ty {
    defaulted_for(Set::full(), ty)
}

/// Replacing one more variable.
proof fn lemma_defaulted_more(variables: Set<TypeVariable>, v: TypeVariable, ty: Ty)
    ensures
        replaced(defaulted_for(variables, ty), v, default_ty(v)) == defaulted_for(
            variables.insert(v),
            ty,
        ),
    decreases ty,
{
    let more = variables.insert(v);
    match ty {
        Ty::Pointer(inner) => lemma_defaulted_more(variables, v, *inner),
        Ty::Slice(inner) => lemma_defaulted_more(variables, v, *inner),
        Ty::Array { ty: inner, .. } => lemma_defaulted_more(variables, v, *inner),
        Ty::Tuple(list) => {
            assert forall|i: int| 0 <= i < list.len() implies replaced(
                defaulted_for(variables, #[trigger] list[i]),
                v,
                default_ty(v),
            ) == defaulted_for(more, list[i]) by {
                lemma_defaulted_more(variables, v, list[i]);
            }
            assert(replaced(defaulted_for(variables, ty), v, default_ty(v))->Tuple_0
                =~= defaulted_for(more, ty)->Tuple_0);
        },
        Ty::FunctionPointer { parameters, return_type, .. } => {
            assert forall|i: int| 0 <= i < parameters.len() implies replaced(
                defaulted_for(variables, #[trigger] parameters[i]),
                v,
                default_ty(v),
            ) == defaulted_for(more, parameters[i]) by {
                lemma_defaulted_more(variables, v, parameters[i]);
            }
            lemma_defaulted_more(variables, v, *return_type);
            assert(replaced(defaulted_for(variables, ty), v, default_ty(v))->parameters
                =~= defaulted_for(more, ty)->parameters);
        },
        _ => {},
    }
}

/// Without variables nothing is replaced.
pub(crate) proof fn lemma_defaulted_none(ty: Ty)
    ensures
        defaulted_for(Set::empty(), ty) == ty,
    decreases ty,
{
    let none = Set::<TypeVariable>::empty();
    match ty {
        Ty::Pointer(inner) => lemma_defaulted_none(*inner),
        Ty::Slice(inner) => lemma_defaulted_none(*inner),
        Ty::Array { ty: inner, .. } => lemma_defaulted_none(*inner),
        Ty::Tuple(list) => {
            assert forall|i: int| 0 <= i < list.len() implies defaulted_for(
                none,
                #[trigger] list[i],
            ) == list[i] by {
                lemma_defaulted_none(list[i]);
            }
            assert(defaulted_for(none, ty)->Tuple_0 =~= list);
        },
        Ty::FunctionPointer { parameters, return_type, .. } => {
            assert forall|i: int| 0 <= i < parameters.len() implies defaulted_for(
                none,
                #[trigger] parameters[i],
            ) == parameters[i] by {
                lemma_defaulted_none(parameters[i]);
            }
            lemma_defaulted_none(*return_type);
            assert(defaulted_for(none, ty)->parameters =~= parameters);
        },
        _ => {},
    }
}

/// Only the variables of a type matter.
pub(crate) proof fn lemma_defaulted_enough(variables: Set<TypeVariable>, ty: Ty)
    requires
        reach(ty).subset_of(variables),
    ensures
        defaulted_for(variables, ty) == defaulted(ty),
    decreases ty,
{
    match ty {
        Ty::Infer(v) => {
            assert(reach(ty).contains(v));
        },
        Ty::Pointer(inner) => lemma_defaulted_enough(variables, *inner),
        Ty::Slice(inner) => lemma_defaulted_enough(variables, *inner),
        Ty::Array { ty: inner, .. } => lemma_defaulted_enough(variables, *inner),
        Ty::Tuple(list) => {
            assert forall|i: int| 0 <= i < list.len() implies defaulted_for(
                variables,
                #[trigger] list[i],
            ) == defaulted(list[i]) by {
                lemma_reach_part(list, list.len(), i);
                lemma_defaulted_enough(variables, list[i]);
            }
            assert(defaulted_for(variables, ty)->Tuple_0 =~= defaulted(ty)->Tuple_0);
        },
        Ty::FunctionPointer { parameters, return_type, .. } => {
            assert forall|i: int| 0 <= i < parameters.len() implies defaulted_for(
                variables,
                #[trigger] parameters[i],
            ) == defaulted(parameters[i]) by {
                lemma_reach_part(parameters, parameters.len(), i);
                lemma_defaulted_enough(variables, parameters[i]);
            }
            lemma_defaulted_enough(variables, *return_type);
            assert(defaulted_for(variables, ty)->parameters =~= defaulted(ty)->parameters);
        },
        _ => {},
    }
}

proof fn lemma_reach_part(list: Seq<Ty>, n: nat, i: int)
    requires
        0 <= i < n <= list.len(),
    ensures
        reach(list[i]).subset_of(reach_upto(list, n)),
    decreases n,
{
    if i < n - 1 {
        lemma_reach_part(list, (n - 1) as nat, i);
    }
}

/// The variables that are bound.
pub open spec fn bound_variables(bindings: Seq<Binding>) -> Set<TypeVariable> {
    Set::new(|v: TypeVariable| is_bound(bindings, v))
}

/// Whether every variable that is bound stands for its default.
pub open spec fn binds_defaults(bindings: Seq<Binding>) -> bool {
    forall|i: int|
        0 <= i < bindings.len() ==> (#[trigger] bindings[i]).1 == default_ty(bindings[i].0)
}

/// Bindings to defaults replace variables by their defaults.
proof fn lemma_applied_defaults(bindings: Seq<Binding>, ty: Ty)
    requires
        binds_defaults(bindings),
    ensures
        applied(bindings, ty) == defaulted_for(bound_variables(bindings), ty),
    decreases bindings.len(),
{
    if bindings.len() == 0 {
        assert(bound_variables(bindings) =~= Set::<TypeVariable>::empty());
        lemma_defaulted_none(ty);
    } else {
        let before = bindings.drop_last();
        assert forall|i: int| 0 <= i < before.len() implies (#[trigger] before[i]).1 == default_ty(
            before[i].0,
        ) by {
            assert(before[i] == bindings[i]);
        }
        lemma_applied_defaults(before, ty);
        let (v, by) = bindings.last();
        assert(bindings[bindings.len() - 1].1 == default_ty(v));
        lemma_defaulted_more(bound_variables(before), v, ty);
        assert(bound_variables(bindings) =~= bound_variables(before).insert(v)) by {
            assert forall|w: TypeVariable| is_bound(bindings, w) <==> is_bound(before, w) || w
                == v by {
                if is_bound(bindings, w) {
                    let i = choose|i: int|
                        0 <= i < bindings.len() && (#[trigger] bindings[i]).0 == w;
                    if i < before.len() {
                        assert(before[i].0 == w);
                    }
                }
                if is_bound(before, w) {
                    let i = choose|i: int| 0 <= i < before.len() && (#[trigger] before[i]).0 == w;
                    assert(bindings[i].0 == w);
                }
                assert(bindings[bindings.len() - 1].0 == v);
            }
        }
    }
}

/// What an error is once what is known of its types has been put in.
pub open spec fn settled_fault(bindings: Seq<Binding>, fault: Fault) -> Fault {
    match fault {
        Fault::TypeMismatch { expected, actual } => Fault::TypeMismatch {
            expected: applied(bindings, expected),
            actual: applied(bindings, actual),
        },
        Fault::InvalidOperation { attempted_usage, provided } => Fault::InvalidOperation {
            attempted_usage,
            provided: applied(bindings, provided),
        },
        Fault::MissingReturnValue { expected } => Fault::MissingReturnValue {
            expected: applied(bindings, expected),
        },
        _ => fault,
    }
}

/// Errors once what is known of their types has been put in.
pub open spec fn settled_errors(bindings: Seq<Binding>, errors: Seq<Mistake>) -> Seq<Mistake> {
    errors.map_values(
        |error: Mistake|
            Mistake { origin: error.origin, kind: settled_fault(bindings, error.kind) },
    )
}

/// What a [`TypeCheckResults`] is.
pub struct Findings {
    pub owner_id: LocalDefId,
    pub node_types: Map<u32, Ty>,
    pub method_resolutions: Map<u32, LocalDefId>,
    pub self_type: Option<Ty>,
}

/// The types of the nodes in the end.
pub open spec fn final_types(bindings: Seq<Binding>, nodes: Map<u32, Ty>) -> Map<u32, Ty> {
    nodes.map_values(|ty: Ty| defaulted(applied(bindings, ty)))
}

/// Whether a node has a type without variables.
pub open spec fn is_typed(nodes: Map<u32, Ty>, id: u32) -> bool {
    nodes.contains_key(id) && free(nodes[id]) == Set::<TypeVariable>::empty()
}

/// Whether every node of the body but the owner's own has a type without
/// variables.
pub open spec fn all_typed(p: Place, nodes: Map<u32, Ty>) -> bool {
    &&& p.env.module.has_owner(p.owner)
    &&& forall|i: int|
        0 <= i < p.env.module.owner(p.owner).nodes@.len() && wrap32(i) != 0 ==> is_typed(
            nodes,
            #[trigger] wrap32(i) as u32,
        )
}

/// What checking a body comes to: errors, or the types of all nodes. There is
/// no result where the constraints have none, or where a node is left without
/// a type.
pub open spec fn concluded(p: Place, st: Checking) -> Option<Result<Findings, Seq<Mistake>>> {
    match solution(st.constraints) {
        None => None,
        Some(solved) => {
            let errors = st.errors + solved.errors;
            if errors.len() > 0 {
                Some(Err(settled_errors(solved.bindings, errors)))
            } else {
                let nodes = final_types(solved.bindings, st.nodes);
                if all_typed(p, nodes) {
                    Some(
                        Ok(
                            Findings {
                                owner_id: p.owner,
                                node_types: nodes,
                                method_resolutions: st.methods,
                                self_type: st.self_type,
                            },
                        ),
                    )
                } else {
                    None
                }
            }
        },
    }
}

/// The types of the nodes of a body, by number, and the methods that it calls.
pub struct TypeCheckResults {
    pub owner_id: LocalDefId,
    pub node_types: BTreeMap<u32, Type>,
    pub method_resolutions: BTreeMap<u32, LocalDefId>,
    pub self_type: Option<Type>,
}

impl View for TypeCheckResults {
    type V = Findings;

    open spec fn view(&self) -> Findings {
        Findings {
            owner_id: self.owner_id,
            node_types: def_views(self.node_types@),
            method_resolutions: self.method_resolutions@,
            self_type: optional(self.self_type),
        }
    }
}

/// What a result is.
pub open spec fn conclusion(r: Result<TypeCheckResults, Vec<TypeError>>) -> Result<
    Findings,
    Seq<Mistake>,
> {
    match r {
        Ok(results) => Ok(results@),
        Err(errors) => Err(mistakes(errors@)),
    }
}

impl TypeErrorKind {
    /// The types in an error that can be made more precise, to be changed in
    /// place.
    pub fn get_substitutable_types_mut(&mut self) -> (r: Vec<&mut Type>)
        ensures
            match *old(self) {
                TypeErrorKind::TypeMismatch { expected, actual } => {
                    &&& r@.len() == 2
                    &&& *r@[0] == expected
                    &&& *r@[1] == actual
                    &&& *final(self) == (TypeErrorKind::TypeMismatch {
                        expected: *final(r@[0]),
                        actual: *final(r@[1]),
                    })
                },
                TypeErrorKind::InvalidOperation { attempted_usage, provided } => {
                    &&& r@.len() == 1
                    &&& *r@[0] == provided
                    &&& *final(self) == (TypeErrorKind::InvalidOperation {
                        attempted_usage,
                        provided: *final(r@[0]),
                    })
                },
                TypeErrorKind::MissingReturnValue { expected } => {
                    &&& r@.len() == 1
                    &&& *r@[0] == expected
                    &&& *final(self) == (TypeErrorKind::MissingReturnValue {
                        expected: *final(r@[0]),
                    })
                },
                _ => r@.len() == 0 && *final(self) == *old(self),
            },
    {
        let mut r: Vec<&mut Type> = Vec::new();
        match self {
            TypeErrorKind::TypeMismatch { expected, actual } => {
                r.push(expected);
                r.push(actual);
            }
            TypeErrorKind::InvalidOperation { provided, .. } => r.push(provided),
            TypeErrorKind::MissingReturnValue { expected } => r.push(expected),
            _ => {}
        }
        r
    }
}

impl TypeErrorKind {
    /// Puts in what is known of the types in an error, to generate more useful
    /// output
    pub fn substitute(&mut self, table: &mut TypeTable, map: &SubstitutionMap)
        requires
            old(table).well_formed(),
            map.well_formed(),
        ensures
            final(table).well_formed(),
            final(self)@ == settled_fault(map@, old(self)@),
    {
        let mut types = self.get_substitutable_types_mut();
        let ghost all = types@;
        while types.len() > 0
            invariant
                table.well_formed(),
                map.well_formed(),
                types@.len() <= all.len(),
                types@ == all.take(types@.len() as int),
                forall|k: int|
                    types@.len() <= k < all.len() ==> (*final(#[trigger] all[k]))@ == applied(
                        map@,
                        (*all[k])@,
                    ),
            decreases types@.len(),
        {
            match types.pop() {
                Some(ty) => {
                    *ty = apply_substitution(table, map, ty);
                }
                None => {}
            }
        }
    }
}

/// Puts in what is known of the types in some errors.
fn settle_errors(table: &mut TypeTable, map: &SubstitutionMap, errors: &mut Vec<TypeError>)
    requires
        old(table).well_formed(),
        map.well_formed(),
    ensures
        final(table).well_formed(),
        mistakes(final(errors)@) == settled_errors(map@, mistakes(old(errors)@)),
{
    let ghost all = mistakes(errors@);
    let mut i: usize = 0;
    while i < errors.len()
        invariant
            0 <= i <= errors@.len(),
            table.well_formed(),
            map.well_formed(),
            all == mistakes(old(errors)@),
            errors@.len() == all.len(),
            forall|k: int|
                0 <= k < i ==> (#[trigger] errors@[k])@ == settled_errors(map@, all)[k],
            forall|k: int| i <= k < all.len() ==> (#[trigger] errors@[k])@ == all[k],
        decreases errors@.len() - i,
    {
        assert(errors@[i as int]@ == all[i as int]);
        errors[i].kind.substitute(table, map);
        assert(errors@[i as int]@ == settled_errors(map@, all)[i as int]);
        i = i + 1;
    }
    assert(mistakes(errors@) =~= settled_errors(map@, all));
}

/// Applies a substitution to all types of a map.
fn apply_to_all(table: &mut TypeTable, map: &SubstitutionMap, nodes: &mut BTreeMap<u32, Type>)
    requires
        old(table).well_formed(),
        map.well_formed(),
    ensures
        final(table).well_formed(),
        def_views(final(nodes)@) == def_views(old(nodes)@).map_values(|ty: Ty| applied(map@, ty)),
{
    let ghost before = def_views(nodes@);
    let ghost goal = before.map_values(|ty: Ty| applied(map@, ty));
    let keys = sorted_keys(nodes);
    let mut i: usize = 0;
    assert(before.dom() =~= nodes@.dom());
    while i < keys.len()
        invariant
            0 <= i <= keys@.len(),
            lists(keys@, before.dom()),
            table.well_formed(),
            map.well_formed(),
            before == def_views(old(nodes)@),
            goal == before.map_values(|ty: Ty| applied(map@, ty)),
            nodes@.dom() == before.dom(),
            forall|k: int|
                0 <= k < i ==> def_views(nodes@)[#[trigger] keys@[k]] == goal[keys@[k]],
            forall|k: int|
                i <= k < keys@.len() ==> def_views(nodes@)[#[trigger] keys@[k]] == before[keys@[k]],
        decreases keys@.len() - i,
    {
        let key: u32 = keys[i];
        assert(keys@.to_set().contains(key));
        assert(nodes@.contains_key(key));
        let ty = match nodes.get(&key) {
            Some(ty) => apply_substitution(table, map, ty),
            None => vstd::pervasive::unreached(),
        };
        assert(def_views(nodes@)[keys@[i as int]] == before[key]);
        proof {
            lemma_def_views_insert(nodes@, key, ty);
        }
        nodes.insert(key, ty);
        assert(nodes@.dom() =~= before.dom());
        i = i + 1;
    }
    proof {
        let after = def_views(nodes@);
        assert forall|id: u32| before.contains_key(id) implies after[id] == goal[id] by {
            assert(keys@.to_set().contains(id));
            let k = keys@.index_of(id);
            assert(keys@[k] == id);
        }
        assert(after =~= goal);
    }
}

/// Binds the variables of all types of a map to their defaults.
fn default_substitutions(table: &mut TypeTable, nodes: &BTreeMap<u32, Type>) -> (r:
    SubstitutionMap)
    requires
        old(table).well_formed(),
    ensures
        final(table).well_formed(),
        r.well_formed(),
        binds_defaults(r@),
        forall|id: u32| #[trigger]
            nodes@.contains_key(id) ==> reach(def_views(nodes@)[id]).subset_of(
                bound_variables(r@),
            ),
{
    let ghost all = def_views(nodes@);
    let keys = sorted_keys(nodes);
    let mut map = SubstitutionMap::new();
    let mut i: usize = 0;
    while i < keys.len()
        invariant
            0 <= i <= keys@.len(),
            lists(keys@, nodes@.dom()),
            all == def_views(nodes@),
            table.well_formed(),
            map.well_formed(),
            binds_defaults(map@),
            forall|k: int|
                0 <= k < i ==> reach(all[#[trigger] keys@[k]]).subset_of(bound_variables(map@)),
        decreases keys@.len() - i,
    {
        let key: u32 = keys[i];
        assert(keys@.to_set().contains(key));
        let variables = match nodes.get(&key) {
            Some(ty) => ty.kind().free_type_variables(),
            None => vstd::pervasive::unreached(),
        };
        assert(variables@ == free(all[key]));
        let list = variables.as_list();
        let ghost earlier = bound_variables(map@);
        let mut j: usize = 0;
        while j < list.len()
            invariant
                0 <= j <= list@.len(),
                table.well_formed(),
                map.well_formed(),
                binds_defaults(map@),
                earlier.subset_of(bound_variables(map@)),
                forall|k: int| 0 <= k < j ==> is_bound(map@, #[trigger] list@[k]),
            decreases list@.len() - j,
        {
            let variable = list[j];
            if !map.contains(variable) {
                let default = match variable {
                    TypeVariable::Int(_) => {
                        table.get_primitive_type(PrimitiveKind::Int(IntKind::I32))
                    }
                    TypeVariable::Float(_) => {
                        table.get_primitive_type(PrimitiveKind::Float(FloatKind::F32))
                    }
                };
                let ghost before = map@;
                assert(reach(default@) =~= Set::<TypeVariable>::empty());
                map.insert(variable, default);
                proof {
                    let after = map@;
                    assert(after[before.len() as int].0 == variable);
                    assert forall|w: TypeVariable| is_bound(before, w) implies is_bound(after, w) by {
                        let k = choose|k: int|
                            0 <= k < before.len() && (#[trigger] before[k]).0 == w;
                        assert(after[k].0 == w);
                    }
                    assert forall|k: int| 0 <= k < after.len() implies (#[trigger] after[k]).1
                        == default_ty(after[k].0) by {
                        if k < before.len() {
                            assert(after[k] == before[k]);
                        }
                    }
                }
            }
            j = j + 1;
        }
        proof {
            lemma_reach_free(all[key]);
            assert forall|v: TypeVariable| reach(all[key]).contains(v) implies bound_variables(
                map@,
            ).contains(v) by {
                assert(list@.to_set().contains(v));
                let k = list@.index_of(v);
                assert(list@[k] == v);
            }
            assert forall|k: int| 0 <= k < i + 1 implies reach(
                all[#[trigger] keys@[k]],
            ).subset_of(bound_variables(map@)) by {
                if k < i {
                    assert(reach(all[keys@[k]]).subset_of(earlier));
                }
            }
        }
        i = i + 1;
    }
    proof {
        assert forall|id: u32| #[trigger] nodes@.contains_key(id) implies reach(
            def_views(nodes@)[id],
        ).subset_of(bound_variables(map@)) by {
            assert(keys@.to_set().contains(id));
            let k = keys@.index_of(id);
            assert(keys@[k] == id);
        }
    }
    map
}

impl<'hir> TypeChecker<'hir> {
    /// Attempts to solve type constraints, returning type check results if it
    /// was able to do so successfully
    pub fn into_output(self) -> (r: (
        TypeContext<'hir>,
        Result<TypeCheckResults, Vec<TypeError>>,
    ))
        requires
            self.well_formed(),
            concluded(self.place(), self@) is Some,
        ensures
            r.0.same_env(&self.type_context),
            concluded(self.place(), self@) == Some(conclusion(r.1)),
    {
        let ghost st = self@;
        let ghost p = self.place();
        let mut context = self.type_context;
        let mut errors = self.errors;
        let mut node_types = self.node_to_type_map;
        // Solve the collected constraints
        let (substitution_map, mut more) = solve_constraints(
            &mut context.table,
            &self.constraints,
        );
        let ghost first = errors@;
        let ghost second = more@;
        errors.append(&mut more);
        assert(mistakes(errors@) =~= mistakes(first) + mistakes(second));
        // If we unified successfully but had other problems before, stop here
        if errors.len() > 0 {
            // Apply substitutions on types in the collected errors to generate
            // more useful output
            settle_errors(&mut context.table, &substitution_map, &mut errors);
            return (context, Err(errors));
        }
        // Apply all the substitutions we calculated to all the nodes in the type
        apply_to_all(&mut context.table, &substitution_map, &mut node_types);
        // Apply default substitutions to any remaining free type variables
        let defaults = default_substitutions(&mut context.table, &node_types);
        let ghost known = def_views(node_types@);
        assert(known.dom() =~= node_types@.dom());
        apply_to_all(&mut context.table, &defaults, &mut node_types);
        proof {
            let goal = final_types(substitution_map@, st.nodes);
            let found = def_views(node_types@);
            assert forall|id: u32| goal.contains_key(id) implies found[id] == goal[id] by {
                lemma_applied_defaults(defaults@, known[id]);
                lemma_defaulted_enough(bound_variables(defaults@), known[id]);
            }
            assert(found =~= goal);
        }
        (
            context,
            Ok(
                TypeCheckResults {
                    owner_id: self.owner_id,
                    node_types,
                    method_resolutions: self.method_resolution_map,
                    self_type: self.self_type,
                },
            ),
        )
    }
}

/// Once defaults are put in, no variable is left in reach.
pub proof fn law_defaults_close_types(ty: Ty)
    ensures
        reach(defaulted(ty)) == Set::<TypeVariable>::empty(),
    decreases ty,
{
    match ty {
        Ty::Pointer(inner) => law_defaults_close_types(*inner),
        Ty::Slice(inner) => law_defaults_close_types(*inner),
        Ty::Array { ty: inner, .. } => law_defaults_close_types(*inner),
        Ty::Tuple(list) => {
            let after = defaulted(ty)->Tuple_0;
            assert forall|i: int| 0 <= i < after.len() implies reach(#[trigger] after[i]) == Set::<
                TypeVariable,
            >::empty() by {
                law_defaults_close_types(list[i]);
            }
            lemma_reach_none(after, after.len());
        },
        Ty::FunctionPointer { parameters, return_type, .. } => {
            let after = defaulted(ty)->parameters;
            assert forall|i: int| 0 <= i < after.len() implies reach(#[trigger] after[i]) == Set::<
                TypeVariable,
            >::empty() by {
                law_defaults_close_types(parameters[i]);
            }
            lemma_reach_none(after, after.len());
            law_defaults_close_types(*return_type);
            assert(reach(defaulted(ty)) =~= Set::<TypeVariable>::empty());
        },
        Ty::Infer(v) => {
            assert(reach(default_ty(v)) =~= Set::<TypeVariable>::empty());
        },
        _ => {},
    }
}

proof fn lemma_reach_none(list: Seq<Ty>, n: nat)
    requires
        forall|i: int|
            0 <= i < list.len() ==> reach(#[trigger] list[i]) == Set::<TypeVariable>::empty(),
    ensures
        reach_upto(list, n) == Set::<TypeVariable>::empty(),
    decreases n,
{
    if n > 0 && n <= list.len() {
        lemma_reach_none(list, (n - 1) as nat);
        assert(reach(list[n - 1]) == Set::<TypeVariable>::empty());
        assert(reach_upto(list, n) =~= Set::<TypeVariable>::empty());
    }
}

/// Where checking a body finds no error, the types of its nodes have no variables
/// in reach, and those of the nodes that the body lists have none at all.
pub proof fn law_no_variables_left(p: Place, st: Checking)
    ensures
        concluded(p, st) matches Some(Ok(found)) ==> {
            &&& forall|id: u32|
                found.node_types.contains_key(id) ==> reach(#[trigger] found.node_types[id])
                    == Set::<TypeVariable>::empty()
            &&& all_typed(p, found.node_types)
        },
{
    if let Some(Ok(found)) = concluded(p, st) {
        let bindings = solution(st.constraints)->0.bindings;
        assert forall|id: u32| found.node_types.contains_key(id) implies reach(
            #[trigger] found.node_types[id],
        ) == Set::<TypeVariable>::empty() by {
            law_defaults_close_types(applied(bindings, st.nodes[id]));
        }
    }
}

} // verus!
