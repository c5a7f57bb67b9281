//! Solves the constraints on type variables.

use crate::collections::{entries_in, IdMap};
use crate::middle::primitive::UIntKind;
use crate::middle::ty::{
    free, lemma_parts, same_type, types, FloatVariableId, IntVariableId, Ty, Type, TypeKind,
    TypeVariable,
};
use crate::middle::type_check::error::{
    lemma_mistakes_push, mistakes, Fault, Mistake, TypeConstraintOrigin, TypeError, TypeErrorKind,
};
use crate::middle::type_check::table::TypeTable;
use vstd::prelude::*;

verus! {

/// The type variables of a type that a substitution can reach. The fields of
/// structures are not looked into.
pub open spec fn reach(ty: Ty) -> Set<TypeVariable>
    decreases ty, 0nat,
{
    match ty {
        Ty::Infer(variable) => Set::empty().insert(variable),
        Ty::Pointer(inner) => reach(*inner),
        Ty::Slice(inner) => reach(*inner),
        Ty::Array { ty: inner, .. } => reach(*inner),
        Ty::Tuple(list) => reach_upto(list, list.len()),
        Ty::FunctionPointer { parameters, return_type, .. } => reach_upto(
            parameters,
            parameters.len(),
        ).union(reach(*return_type)),
        _ => Set::empty(),
    }
}

/// The reachable type variables of the first `n` types of a list.
pub open spec fn reach_upto(list: Seq<Ty>, n: nat) -> Set<TypeVariable>
    decreases list, n,
{
    if n == 0 || n > list.len() {
        Set::empty()
    } else {
        reach_upto(list, (n - 1) as nat).union(reach(list[n - 1]))
    }
}

/// A type with `by` in place of a variable.
pub open spec fn replaced(ty: Ty, variable: TypeVariable, by: Ty) -> Ty
    decreases ty,
{
    match ty {
        Ty::Infer(v) => if v == variable {
            by
        } else {
            ty
        },
        Ty::Pointer(inner) => Ty::Pointer(Box::new(replaced(*inner, variable, by))),
        Ty::Slice(inner) => Ty::Slice(Box::new(replaced(*inner, variable, by))),
        Ty::Array { ty: inner, length } => Ty::Array {
            ty: Box::new(replaced(*inner, variable, by)),
            length,
        },
        Ty::Tuple(list) => Ty::Tuple(
            Seq::new(
                list.len(),
                |i: int|
                    if 0 <= i < list.len() {
                        replaced(list[i], variable, by)
                    } else {
                        Ty::Never
                    },
            ),
        ),
        Ty::FunctionPointer { parameters, return_type, is_variadic } => Ty::FunctionPointer {
            parameters: Seq::new(
                parameters.len(),
                |i: int|
                    if 0 <= i < parameters.len() {
                        replaced(parameters[i], variable, by)
                    } else {
                        Ty::Never
                    },
            ),
            return_type: Box::new(replaced(*return_type, variable, by)),
            is_variadic,
        },
        _ => ty,
    }
}

/// A variable and the type that it stands for.
pub type Binding = (TypeVariable, Ty);

/// A type with its variables replaced by what they stand for, one binding
/// after the other.
pub open spec fn applied(bindings: Seq<Binding>, ty: Ty) -> Ty
    decreases bindings.len(),
{
    if bindings.len() == 0 {
        ty
    } else {
        replaced(applied(bindings.drop_last(), ty), bindings.last().0, bindings.last().1)
    }
}

/// Types with their variables replaced by what they stand for.
pub open spec fn applied_list(bindings: Seq<Binding>, list: Seq<Ty>) -> Seq<Ty> {
    Seq::new(list.len(), |i: int| applied(bindings, list[i]))
}

/// Whether a variable has been given a type.
pub open spec fn is_bound(bindings: Seq<Binding>, variable: TypeVariable) -> bool {
    exists|i: int| 0 <= i < bindings.len() && (#[trigger] bindings[i]).0 == variable
}

/// Whether a type has no reachable variable among the first `n` bindings.
pub open spec fn clear_of(bindings: Seq<Binding>, n: nat, ty: Ty) -> bool {
    forall|i: int|
        0 <= i < n && i < bindings.len() ==> !reach(ty).contains((#[trigger] bindings[i]).0)
}

/// Whether no variable is bound twice, and what a variable stands for holds
/// only variables that were bound later.
pub open spec fn in_order(bindings: Seq<Binding>) -> bool {
    &&& forall|i: int, j: int|
        0 <= i < j < bindings.len() ==> (#[trigger] bindings[i]).0 != (#[trigger] bindings[j]).0
    &&& forall|i: int|
        0 <= i < bindings.len() ==> clear_of(bindings, (i + 1) as nat, (#[trigger] bindings[i]).1)
}

proof fn lemma_reach_upto(list: Seq<Ty>, n: nat, variable: TypeVariable)
    requires
        n <= list.len(),
    ensures
        reach_upto(list, n).contains(variable) <==> exists|i: int|
            0 <= i < n && reach(#[trigger] list[i]).contains(variable),
    decreases n,
{
    if n > 0 {
        lemma_reach_upto(list, (n - 1) as nat, variable);
        if reach_upto(list, n).contains(variable) {
            if reach(list[n - 1]).contains(variable) {
                assert(reach(list[n - 1]).contains(variable));
            } else {
                let i = choose|i: int|
                    0 <= i < n - 1 && reach(#[trigger] list[i]).contains(variable);
                assert(reach(list[i]).contains(variable));
            }
        }
        if exists|i: int| 0 <= i < n && reach(#[trigger] list[i]).contains(variable) {
            let i = choose|i: int| 0 <= i < n && reach(#[trigger] list[i]).contains(variable);
            if i < n - 1 {
                assert(reach(list[i]).contains(variable));
            }
        }
    }
}

/// Replacing a variable that does not occur changes nothing.
proof fn lemma_replaced_absent(ty: Ty, variable: TypeVariable, by: Ty)
    requires
        !reach(ty).contains(variable),
    ensures
        replaced(ty, variable, by) == ty,
    decreases ty,
{
    match ty {
        Ty::Pointer(inner) => lemma_replaced_absent(*inner, variable, by),
        Ty::Slice(inner) => lemma_replaced_absent(*inner, variable, by),
        Ty::Array { ty: inner, .. } => lemma_replaced_absent(*inner, variable, by),
        Ty::Tuple(list) => {
            lemma_reach_upto(list, list.len(), variable);
            assert forall|i: int| 0 <= i < list.len() implies replaced(
                #[trigger] list[i],
                variable,
                by,
            ) == list[i] by {
                lemma_replaced_absent(list[i], variable, by);
            }
            assert(replaced(ty, variable, by)->Tuple_0 =~= list);
        },
        Ty::FunctionPointer { parameters, return_type, is_variadic } => {
            lemma_reach_upto(parameters, parameters.len(), variable);
            assert forall|i: int| 0 <= i < parameters.len() implies replaced(
                #[trigger] parameters[i],
                variable,
                by,
            ) == parameters[i] by {
                lemma_replaced_absent(parameters[i], variable, by);
            }
            lemma_replaced_absent(*return_type, variable, by);
            assert(replaced(ty, variable, by)->parameters =~= parameters);
        },
        _ => {},
    }
}

/// The variables left after a replacement were there before, or came with what
/// was put in.
proof fn lemma_reach_replaced(ty: Ty, variable: TypeVariable, by: Ty, v: TypeVariable)
    requires
        reach(replaced(ty, variable, by)).contains(v),
    ensures
        (reach(ty).contains(v) && v != variable) || reach(by).contains(v),
    decreases ty,
{
    match ty {
        Ty::Pointer(inner) => lemma_reach_replaced(*inner, variable, by, v),
        Ty::Slice(inner) => lemma_reach_replaced(*inner, variable, by, v),
        Ty::Array { ty: inner, .. } => lemma_reach_replaced(*inner, variable, by, v),
        Ty::Tuple(list) => {
            let after = replaced(ty, variable, by)->Tuple_0;
            lemma_reach_upto(after, after.len(), v);
            let i = choose|i: int| 0 <= i < after.len() && reach(#[trigger] after[i]).contains(v);
            assert(after[i] == replaced(list[i], variable, by));
            lemma_reach_replaced(list[i], variable, by, v);
            lemma_reach_upto(list, list.len(), v);
        },
        Ty::FunctionPointer { parameters, return_type, is_variadic } => {
            let after = replaced(ty, variable, by)->parameters;
            if reach(replaced(*return_type, variable, by)).contains(v) {
                lemma_reach_replaced(*return_type, variable, by, v);
            } else {
                lemma_reach_upto(after, after.len(), v);
                let i = choose|i: int|
                    0 <= i < after.len() && reach(#[trigger] after[i]).contains(v);
                assert(after[i] == replaced(parameters[i], variable, by));
                lemma_reach_replaced(parameters[i], variable, by, v);
                lemma_reach_upto(parameters, parameters.len(), v);
            }
        },
        _ => {},
    }
}

/// A type without bound variables stays as it is.
pub proof fn lemma_applied_clear(bindings: Seq<Binding>, ty: Ty)
    requires
        clear_of(bindings, bindings.len(), ty),
    ensures
        applied(bindings, ty) == ty,
    decreases bindings.len(),
{
    if bindings.len() > 0 {
        let before = bindings.drop_last();
        assert(clear_of(before, before.len(), ty)) by {
            assert forall|i: int| 0 <= i < before.len() implies !reach(ty).contains(
                (#[trigger] before[i]).0,
            ) by {
                assert(before[i] == bindings[i]);
            }
        }
        lemma_applied_clear(before, ty);
        assert(!reach(ty).contains(bindings[bindings.len() - 1].0));
        lemma_replaced_absent(ty, bindings.last().0, bindings.last().1);
    }
}

proof fn lemma_in_order_prefix(bindings: Seq<Binding>)
    requires
        in_order(bindings),
        bindings.len() > 0,
    ensures
        in_order(bindings.drop_last()),
{
    let before = bindings.drop_last();
    assert forall|i: int| 0 <= i < before.len() implies clear_of(
        before,
        (i + 1) as nat,
        (#[trigger] before[i]).1,
    ) by {
        assert(before[i] == bindings[i]);
        assert(clear_of(bindings, (i + 1) as nat, bindings[i].1));
        assert forall|k: int| 0 <= k < i + 1 && k < before.len() implies !reach(
            before[i].1,
        ).contains((#[trigger] before[k]).0) by {
            assert(before[k] == bindings[k]);
        }
    }
    assert forall|i: int, j: int| 0 <= i < j < before.len() implies (#[trigger] before[i]).0 != (
    #[trigger] before[j]).0 by {
        assert(before[i] == bindings[i] && before[j] == bindings[j]);
    }
}

/// A bound variable stands for what it is bound to.
pub proof fn lemma_applied_bound(bindings: Seq<Binding>, i: int)
    requires
        in_order(bindings),
        0 <= i < bindings.len(),
    ensures
        applied(bindings, Ty::Infer(bindings[i].0)) == applied(bindings, bindings[i].1),
    decreases bindings.len(),
{
    let n = bindings.len() - 1;
    let before = bindings.drop_last();
    let (v, by) = bindings[i];
    if i < n {
        lemma_in_order_prefix(bindings);
        assert(before[i] == bindings[i]);
        lemma_applied_bound(before, i);
    } else {
        assert(clear_of(before, before.len(), Ty::Infer(v))) by {
            assert forall|k: int| 0 <= k < before.len() implies !reach(Ty::Infer(v)).contains(
                (#[trigger] before[k]).0,
            ) by {
                assert(before[k] == bindings[k]);
                assert(bindings[k].0 != bindings[n].0);
            }
        }
        lemma_applied_clear(before, Ty::Infer(v));
        assert(clear_of(bindings, (n + 1) as nat, bindings[n].1));
        lemma_applied_clear(bindings, by);
    }
}

/// The variables that are left are not bound.
pub proof fn lemma_applied_reach(bindings: Seq<Binding>, ty: Ty)
    requires
        in_order(bindings),
    ensures
        clear_of(bindings, bindings.len(), applied(bindings, ty)),
    decreases bindings.len(),
{
    if bindings.len() > 0 {
        let before = bindings.drop_last();
        let n = bindings.len() - 1;
        lemma_in_order_prefix(bindings);
        lemma_applied_reach(before, ty);
        let (v, by) = bindings.last();
        let mid = applied(before, ty);
        assert forall|i: int| 0 <= i < bindings.len() implies !reach(
            applied(bindings, ty),
        ).contains((#[trigger] bindings[i]).0) by {
            let w = bindings[i].0;
            if reach(applied(bindings, ty)).contains(w) {
                lemma_reach_replaced(mid, v, by, w);
                assert(clear_of(bindings, (n + 1) as nat, bindings[n].1));
                assert(!reach(by).contains(bindings[i].0));
                if i < n {
                    assert(before[i] == bindings[i]);
                    assert(!reach(mid).contains(before[i].0));
                }
            }
        }
    }
}

/// Substituting again changes nothing.
pub proof fn law_apply_idempotent(bindings: Seq<Binding>, ty: Ty)
    requires
        in_order(bindings),
    ensures
        applied(bindings, applied(bindings, ty)) == applied(bindings, ty),
{
    lemma_applied_reach(bindings, ty);
    lemma_applied_clear(bindings, applied(bindings, ty));
}

/// Substitution works on the parts of a type.
pub proof fn lemma_applied_parts(bindings: Seq<Binding>, ty: Ty)
    ensures
        match ty {
            Ty::Infer(_) => true,
            Ty::Pointer(inner) => applied(bindings, ty) == Ty::Pointer(
                Box::new(applied(bindings, *inner)),
            ),
            Ty::Slice(inner) => applied(bindings, ty) == Ty::Slice(
                Box::new(applied(bindings, *inner)),
            ),
            Ty::Array { ty: inner, length } => applied(bindings, ty) == (Ty::Array {
                ty: Box::new(applied(bindings, *inner)),
                length,
            }),
            Ty::Tuple(list) => applied(bindings, ty) == Ty::Tuple(applied_list(bindings, list)),
            Ty::FunctionPointer { parameters, return_type, is_variadic } => applied(bindings, ty)
                == (Ty::FunctionPointer {
                parameters: applied_list(bindings, parameters),
                return_type: Box::new(applied(bindings, *return_type)),
                is_variadic,
            }),
            _ => applied(bindings, ty) == ty,
        },
    decreases bindings.len(),
{
    if bindings.len() == 0 {
        match ty {
            Ty::Tuple(list) => {
                assert(applied_list(bindings, list) =~= list);
            },
            Ty::FunctionPointer { parameters, .. } => {
                assert(applied_list(bindings, parameters) =~= parameters);
            },
            _ => {},
        }
    } else {
        let before = bindings.drop_last();
        let (v, by) = bindings.last();
        lemma_applied_parts(before, ty);
        match ty {
            Ty::Tuple(list) => {
                assert(applied(bindings, ty)->Tuple_0 =~= applied_list(bindings, list));
            },
            Ty::FunctionPointer { parameters, .. } => {
                assert(applied(bindings, ty)->parameters =~= applied_list(bindings, parameters));
            },
            _ => {},
        }
    }
}

/// The types that variables were found to stand for.
pub struct SubstitutionMap {
    bindings: Vec<(TypeVariable, Type)>,
    int_map: IdMap,
    float_map: IdMap,
}

impl View for SubstitutionMap {
    type V = Seq<Binding>;

    closed spec fn view(&self) -> Seq<Binding> {
        Seq::new(self.bindings@.len(), |i: int| (self.bindings@[i].0, self.bindings@[i].1@))
    }
}

impl SubstitutionMap {
    /// The bindings are in order, and the maps find those whose place has a
    /// 32-bit number.
    pub closed spec fn well_formed(&self) -> bool {
        &&& in_order(self@)
        &&& forall|id: u32| #[trigger]
            entries_in(self.int_map).contains_key(id) ==> {
                let k = entries_in(self.int_map)[id] as int;
                k < self.bindings@.len() && self.bindings@[k].0 == TypeVariable::Int(
                    IntVariableId(id),
                )
            }
        &&& forall|id: u32| #[trigger]
            entries_in(self.float_map).contains_key(id) ==> {
                let k = entries_in(self.float_map)[id] as int;
                k < self.bindings@.len() && self.bindings@[k].0 == TypeVariable::Float(
                    FloatVariableId(id),
                )
            }
        &&& forall|i: int|
            0 <= i < self.bindings@.len() && i < u32::MAX ==> match (
            #[trigger] self.bindings@[i]).0 {
                TypeVariable::Int(id) => entries_in(self.int_map).contains_key(id.0),
                TypeVariable::Float(id) => entries_in(self.float_map).contains_key(id.0),
            }
    }

    /// The bindings of a map that is in order are.
    pub proof fn lemma_bindings_in_order(&self)
        requires
            self.well_formed(),
        ensures
            in_order(self@),
    {
    }

    /// No variable stands for anything.
    pub fn new() -> (r: SubstitutionMap)
        ensures
            r.well_formed(),
            r@ == Seq::<Binding>::empty(),
    {
        let r = SubstitutionMap {
            bindings: Vec::new(),
            int_map: IdMap::new(),
            float_map: IdMap::new(),
        };
        assert(r@ =~= Seq::<Binding>::empty());
        r
    }

    /// The place of the binding of a variable.
    fn position(&self, variable: TypeVariable) -> (r: Option<usize>)
        requires
            self.well_formed(),
        ensures
            match r {
                Some(i) => i < self@.len() && self@[i as int].0 == variable,
                None => !is_bound(self@, variable),
            },
    {
        let found = match variable {
            TypeVariable::Int(id) => self.int_map.get(id.0),
            TypeVariable::Float(id) => self.float_map.get(id.0),
        };
        if let Some(i) = found {
            return Some(i as usize);
        }
        proof {
            assert forall|j: int| 0 <= j < self@.len() && j < u32::MAX implies (
            #[trigger] self@[j]).0 != variable by {
                assert(self.bindings@[j].0 == self@[j].0);
            }
        }
        let mut i: usize = u32::MAX as usize;
        while i < self.bindings.len()
            invariant
                i >= u32::MAX,
                forall|j: int| 0 <= j < i && j < self@.len() ==> (#[trigger] self@[j]).0 != variable,
            decreases self.bindings@.len() - i,
        {
            if self.bindings[i].0 == variable {
                return Some(i);
            }
            i = i + 1;
        }
        None
    }

    /// Whether a variable stands for something.
    pub fn contains(&self, variable: TypeVariable) -> (r: bool)
        requires
            self.well_formed(),
        ensures
            r == is_bound(self@, variable),
    {
        let r = self.position(variable).is_some();
        r
    }

    /// Lets a variable stand for a type from now on.
    pub fn insert(&mut self, variable: TypeVariable, ty: Type)
        requires
            old(self).well_formed(),
            !is_bound(old(self)@, variable),
            clear_of(old(self)@, old(self)@.len(), ty@),
            !reach(ty@).contains(variable),
        ensures
            final(self).well_formed(),
            final(self)@ == old(self)@.push((variable, ty@)),
    {
        let n: usize = self.bindings.len();
        if n < u32::MAX as usize {
            match variable {
                TypeVariable::Int(id) => {
                    self.int_map.insert(id.0, n as u32);
                }
                TypeVariable::Float(id) => {
                    self.float_map.insert(id.0, n as u32);
                }
            }
        }
        let ghost shown = ty@;
        self.bindings.push((variable, ty));
        proof {
            let before = old(self)@;
            let after = self@;
            assert(after =~= before.push((variable, shown)));
            lemma_in_order_push(before, variable, shown);
            match variable {
                TypeVariable::Int(id) => {
                    assert(variable == TypeVariable::Int(IntVariableId(id.0)));
                },
                TypeVariable::Float(id) => {
                    assert(variable == TypeVariable::Float(FloatVariableId(id.0)));
                },
            }
            assert forall|i: int| 0 <= i < self.bindings@.len() && i < u32::MAX implies match (
            #[trigger] self.bindings@[i]).0 {
                TypeVariable::Int(id) => entries_in(self.int_map).contains_key(id.0),
                TypeVariable::Float(id) => entries_in(self.float_map).contains_key(id.0),
            } by {
                if i < n {
                    assert(self.bindings@[i] == old(self).bindings@[i]);
                }
            }
        }
    }
}

/// A fresh binding keeps the bindings in order.
pub proof fn lemma_in_order_push(bindings: Seq<Binding>, variable: TypeVariable, ty: Ty)
    requires
        in_order(bindings),
        !is_bound(bindings, variable),
        clear_of(bindings, bindings.len(), ty),
        !reach(ty).contains(variable),
    ensures
        in_order(bindings.push((variable, ty))),
{
    let after = bindings.push((variable, ty));
    assert forall|i: int, j: int| 0 <= i < j < after.len() implies (#[trigger] after[i]).0 != (
    #[trigger] after[j]).0 by {
        assert(after[i] == bindings[i]);
        if j < bindings.len() {
            assert(after[j] == bindings[j]);
        }
    }
    assert forall|i: int| 0 <= i < after.len() implies clear_of(
        after,
        (i + 1) as nat,
        (#[trigger] after[i]).1,
    ) by {
        if i < bindings.len() {
            assert(after[i] == bindings[i]);
            assert(clear_of(bindings, (i + 1) as nat, bindings[i].1));
        }
        assert forall|k: int| 0 <= k < i + 1 && k < after.len() implies !reach(
            after[i].1,
        ).contains((#[trigger] after[k]).0) by {
            if k < bindings.len() {
                assert(after[k] == bindings[k]);
            }
        }
    }
}

/// What a variable that is bound stands for holds only variables that were
/// bound later.
proof fn lemma_later(bindings: Seq<Binding>, i: int)
    requires
        in_order(bindings),
        0 <= i < bindings.len(),
    ensures
        clear_of(bindings, (i + 1) as nat, bindings[i].1),
{
}

fn apply_list(
    table: &mut TypeTable,
    map: &SubstitutionMap,
    list: &Vec<Type>,
    Ghost(k): Ghost<nat>,
) -> (r: Vec<Type>)
    requires
        old(table).well_formed(),
        map.well_formed(),
        k <= map@.len(),
        forall|i: int| 0 <= i < list@.len() ==> clear_of(map@, k, #[trigger] types(list@)[i]),
    ensures
        final(table).well_formed(),
        types(r@) == applied_list(map@, types(list@)),
    decreases map@.len() - k, list,
{
    let ghost all = types(list@);
    let mut out: Vec<Type> = Vec::new();
    let mut i: usize = 0;
    while i < list.len()
        invariant
            0 <= i <= list@.len(),
            all == types(list@),
            table.well_formed(),
            map.well_formed(),
            k <= map@.len(),
            forall|i: int| 0 <= i < list@.len() ==> clear_of(map@, k, #[trigger] all[i]),
            out@.len() == i,
            forall|j: int| 0 <= j < i ==> (#[trigger] out@[j])@ == applied(map@, all[j]),
        decreases list@.len() - i,
    {
        assert(all[i as int] == list@[i as int]@);
        let item = apply_from(table, map, &list[i], Ghost(k));
        out.push(item);
        i = i + 1;
    }
    assert(types(out@) =~= applied_list(map@, all));
    out
}

/// Substitutes in a type that holds no variable among the first `k` bindings.
fn apply_from(
    table: &mut TypeTable,
    map: &SubstitutionMap,
    ty: &Type,
    Ghost(k): Ghost<nat>,
) -> (r: Type)
    requires
        old(table).well_formed(),
        map.well_formed(),
        k <= map@.len(),
        clear_of(map@, k, ty@),
    ensures
        final(table).well_formed(),
        r@ == applied(map@, ty@),
    decreases map@.len() - k, ty,
{
    let kind = ty.kind();
    proof {
        lemma_parts(*kind);
        lemma_applied_parts(map@, ty@);
    }
    match kind {
        TypeKind::Infer(variable) => {
            match map.position(*variable) {
                Some(i) => {
                    proof {
                        assert(reach(ty@).contains(*variable));
                        if i < k {
                            assert(!reach(ty@).contains(map@[i as int].0));
                        }
                        lemma_applied_bound(map@, i as int);
                        lemma_later(map@, i as int);
                    }
                    apply_from(table, map, &map.bindings[i].1, Ghost((i + 1) as nat))
                }
                None => {
                    proof {
                        assert forall|i: int| 0 <= i < map@.len() implies !reach(ty@).contains(
                            (#[trigger] map@[i]).0,
                        ) by {}
                        lemma_applied_clear(map@, ty@);
                    }
                    ty.duplicate()
                }
            }
        }
        TypeKind::Pointer(inner) => {
            let substituted = apply_from(table, map, inner, Ghost(k));
            table.intern_type(TypeKind::Pointer(substituted))
        }
        TypeKind::Slice(inner) => {
            let substituted = apply_from(table, map, inner, Ghost(k));
            table.intern_type(TypeKind::Slice(substituted))
        }
        TypeKind::Array { ty: inner, length } => {
            let substituted = apply_from(table, map, inner, Ghost(k));
            table.intern_type(TypeKind::Array { ty: substituted, length: *length })
        }
        TypeKind::Tuple(list) => {
            proof {
                lemma_clear_list(map@, k, types(list@));
            }
            let list = apply_list(table, map, list, Ghost(k));
            let kind = TypeKind::Tuple(list);
            proof {
                lemma_parts(kind);
            }
            table.intern_type(kind)
        }
        TypeKind::FunctionPointer { parameters, return_type, is_variadic } => {
            proof {
                assert forall|i: int| 0 <= i < k && i < map@.len() implies !reach_upto(
                    types(parameters@),
                    parameters@.len(),
                ).contains((#[trigger] map@[i]).0) && !reach(return_type@).contains(map@[i].0) by {
                    assert(!reach(ty@).contains(map@[i].0));
                }
                lemma_clear_list(map@, k, types(parameters@));
            }
            let parameters = apply_list(table, map, parameters, Ghost(k));
            let return_type = apply_from(table, map, return_type, Ghost(k));
            let kind = TypeKind::FunctionPointer {
                parameters,
                return_type,
                is_variadic: *is_variadic,
            };
            proof {
                lemma_parts(kind);
            }
            table.intern_type(kind)
        }
        _ => ty.duplicate(),
    }
}

proof fn lemma_clear_list(bindings: Seq<Binding>, k: nat, list: Seq<Ty>)
    requires
        forall|i: int|
            0 <= i < k && i < bindings.len() ==> !reach_upto(list, list.len()).contains(
                (#[trigger] bindings[i]).0,
            ),
    ensures
        forall|i: int| 0 <= i < list.len() ==> clear_of(bindings, k, #[trigger] list[i]),
{
    assert forall|i: int| 0 <= i < list.len() implies clear_of(bindings, k, #[trigger] list[i]) by {
        assert forall|j: int| 0 <= j < k && j < bindings.len() implies !reach(list[i]).contains(
            (#[trigger] bindings[j]).0,
        ) by {
            lemma_reach_upto(list, list.len(), bindings[j].0);
        }
    }
}

/// Recursively applies substitutions to the provided type to generate a new
/// type with less or ideally no type variables
pub fn apply_substitution(table: &mut TypeTable, map: &SubstitutionMap, ty: &Type) -> (r: Type)
    requires
        old(table).well_formed(),
        map.well_formed(),
    ensures
        final(table).well_formed(),
        r@ == applied(map@, ty@),
{
    apply_from(table, map, ty, Ghost(0))
}

/// What an attempt to equate or cast types comes to: the bindings then, and
/// whether it succeeded.
pub struct Solved {
    pub bindings: Seq<Binding>,
    pub result: Result<(), Fault>,
}

/// Whether a variable may stand for a type.
pub open spec fn is_coercible(variable: TypeVariable, ty: Ty) -> bool {
    match variable {
        TypeVariable::Int(_) => ty.is_integer_like(),
        TypeVariable::Float(_) => ty.is_float_like(),
    }
}

/// Equates two different types of which at least one is a variable: the
/// first variable stands for the other type from then on, if it may.
pub open spec fn unified_variable(bindings: Seq<Binding>, a: Ty, b: Ty) -> Solved {
    let (variable, ty) = match a {
        Ty::Infer(v) => (v, b),
        _ => (b->Infer_0, a),
    };
    if !is_coercible(variable, ty) {
        Solved { bindings, result: Err(Fault::TypeMismatch { expected: a, actual: b }) }
    } else if reach(applied(bindings, ty)).contains(variable) {
        Solved { bindings, result: Err(Fault::InfinitelyRecursiveType { variable, ty }) }
    } else {
        Solved { bindings: bindings.push((variable, ty)), result: Ok(()) }
    }
}

/// The attempt to equate parts, as an attempt to equate the types that they
/// are parts of.
pub open spec fn lifted(inner: Option<Solved>, a: Ty, b: Ty) -> Option<Solved> {
    match inner {
        None => None,
        Some(solved) => Some(
            Solved {
                bindings: solved.bindings,
                result: match solved.result {
                    Ok(_) => Ok(()),
                    Err(_) => Err(Fault::TypeMismatch { expected: a, actual: b }),
                },
            },
        ),
    }
}

/// Equates the first `n` types of two lists one after the other, up to the
/// first pair that cannot be equated.
pub open spec fn unified_upto(
    bindings: Seq<Binding>,
    left: Seq<Ty>,
    right: Seq<Ty>,
    n: nat,
) -> Option<Solved>
    decreases left, n,
{
    if n == 0 || n > left.len() {
        Some(Solved { bindings, result: Ok(()) })
    } else {
        match unified_upto(bindings, left, right, (n - 1) as nat) {
            None => None,
            Some(solved) => match solved.result {
                Err(_) => Some(solved),
                Ok(_) => unified_in(solved.bindings, left[n - 1], right[n - 1]),
            },
        }
    }
}

/// Equates two types by the rules for inference and coercion: variables take
/// on types, parts have to be equal in turn, and a pointer to an array does
/// for a slice. There is no result for two different function types.
pub open spec fn unified_in(bindings: Seq<Binding>, a: Ty, b: Ty) -> Option<Solved>
    decreases a, 0nat,
{
    let left = applied(bindings, a);
    let right = applied(bindings, b);
    let mismatch = Fault::TypeMismatch { expected: left, actual: right };
    if left == right {
        Some(Solved { bindings, result: Ok(()) })
    } else if left is Infer || right is Infer {
        Some(unified_variable(bindings, left, right))
    } else {
        match (a, b) {
            (Ty::Pointer(x), Ty::Pointer(y)) => lifted(unified_in(bindings, *x, *y), left, right),
            (Ty::Slice(x), Ty::Slice(y)) => lifted(unified_in(bindings, *x, *y), left, right),
            (Ty::Array { ty: x, length: n }, Ty::Array { ty: y, length: m }) => if n != m {
                Some(
                    Solved {
                        bindings,
                        result: Err(Fault::ArrayLengthMismatch { expected: n, actual: m }),
                    },
                )
            } else {
                lifted(unified_in(bindings, *x, *y), left, right)
            },
            (Ty::Tuple(x), Ty::Tuple(y)) => if x.len() != y.len() {
                Some(
                    Solved {
                        bindings,
                        result: Err(
                            Fault::TupleLengthMismatch {
                                expected: x.len() as usize,
                                actual: y.len() as usize,
                            },
                        ),
                    },
                )
            } else {
                lifted(unified_upto(bindings, x, y, x.len()), left, right)
            },
            (Ty::FunctionPointer { .. }, Ty::FunctionPointer { .. }) => None,
            (Ty::Slice(x), Ty::Pointer(y)) => match *y {
                Ty::Array { ty: z, .. } => lifted(unified_in(bindings, *x, *z), left, right),
                _ => Some(Solved { bindings, result: Err(mismatch) }),
            },
            _ => Some(Solved { bindings, result: Err(mismatch) }),
        }
    }
}

/// Equates two types once what is known of them has been put in.
pub open spec fn unified(bindings: Seq<Binding>, a: Ty, b: Ty) -> Option<Solved> {
    unified_in(bindings, applied(bindings, a), applied(bindings, b))
}

/// What a result is.
pub open spec fn outcome(r: Result<(), TypeErrorKind>) -> Result<(), Fault> {
    match r {
        Ok(_) => Ok(()),
        Err(kind) => Err(kind@),
    }
}

/// Whether a variable occurs in the first types of a list.
fn list_mentions(list: &Vec<Type>, variable: TypeVariable) -> (r: bool)
    ensures
        r == reach_upto(types(list@), list@.len()).contains(variable),
    decreases list,
{
    let ghost all = types(list@);
    let mut i: usize = 0;
    while i < list.len()
        invariant
            0 <= i <= list@.len(),
            all == types(list@),
            !reach_upto(all, i as nat).contains(variable),
        decreases list@.len() - i,
    {
        assert(all[i as int] == list@[i as int]@);
        if mentions(&list[i], variable) {
            proof {
                lemma_reach_upto(all, all.len(), variable);
                assert(reach(all[i as int]).contains(variable));
            }
            return true;
        }
        i = i + 1;
    }
    false
}

/// Whether a variable occurs in a type.
fn mentions(ty: &Type, variable: TypeVariable) -> (r: bool)
    ensures
        r == reach(ty@).contains(variable),
    decreases ty,
{
    let kind = ty.kind();
    proof {
        lemma_parts(*kind);
    }
    match kind {
        TypeKind::Infer(v) => *v == variable,
        TypeKind::Pointer(inner) => mentions(inner, variable),
        TypeKind::Slice(inner) => mentions(inner, variable),
        TypeKind::Array { ty: inner, .. } => mentions(inner, variable),
        TypeKind::Tuple(list) => list_mentions(list, variable),
        TypeKind::FunctionPointer { parameters, return_type, .. } => {
            list_mentions(parameters, variable) || mentions(return_type, variable)
        }
        _ => false,
    }
}

/// Whether a variable occurs in a type once what is known has been put in.
fn occurs_in(
    table: &mut TypeTable,
    variable: TypeVariable,
    ty: &Type,
    map: &SubstitutionMap,
) -> (r: bool)
    requires
        old(table).well_formed(),
        map.well_formed(),
    ensures
        final(table).well_formed(),
        r == reach(applied(map@, ty@)).contains(variable),
{
    let known = apply_substitution(table, map, ty);
    mentions(&known, variable)
}

/// Lets a variable stand for a type, if it may.
fn bind_variable(
    table: &mut TypeTable,
    variable: TypeVariable,
    ty: &Type,
    expected: &Type,
    actual: &Type,
    map: &mut SubstitutionMap,
) -> (r: Result<(), TypeErrorKind>)
    requires
        old(table).well_formed(),
        old(map).well_formed(),
        expected@ != actual@,
        clear_of(old(map)@, old(map)@.len(), expected@),
        clear_of(old(map)@, old(map)@.len(), actual@),
        expected@ matches Ty::Infer(v) ==> variable == v && ty@ == actual@,
        !(expected@ is Infer) ==> actual@ == Ty::Infer(variable) && ty@ == expected@,
    ensures
        final(table).well_formed(),
        final(map).well_formed(),
        ({
            let solved = unified_variable(old(map)@, expected@, actual@);
            final(map)@ == solved.bindings && outcome(r) == solved.result
        }),
{
    let coercible = match variable {
        TypeVariable::Int(_) => ty.kind().is_integer_like(),
        TypeVariable::Float(_) => ty.kind().is_float_like(),
    };
    if !coercible {
        return Err(
            TypeErrorKind::TypeMismatch {
                expected: expected.duplicate(),
                actual: actual.duplicate(),
            },
        );
    }
    if occurs_in(table, variable, ty, map) {
        return Err(TypeErrorKind::InfinitelyRecursiveType { variable, ty: ty.duplicate() });
    }
    proof {
        lemma_applied_clear(map@, ty@);
        if is_bound(map@, variable) {
            let i = choose|i: int| 0 <= i < map@.len() && (#[trigger] map@[i]).0 == variable;
            assert(reach(Ty::Infer(variable)).contains(variable));
            assert(!reach(expected@).contains(map@[i].0));
            assert(!reach(actual@).contains(map@[i].0));
        }
    }
    map.insert(variable, ty.duplicate());
    Ok(())
}

fn unify_lists(
    table: &mut TypeTable,
    left: &Vec<Type>,
    right: &Vec<Type>,
    map: &mut SubstitutionMap,
) -> (r: Result<(), TypeErrorKind>)
    requires
        old(table).well_formed(),
        old(map).well_formed(),
        left@.len() == right@.len(),
        unified_upto(old(map)@, types(left@), types(right@), left@.len()) is Some,
    ensures
        final(table).well_formed(),
        final(map).well_formed(),
        ({
            let solved = unified_upto(old(map)@, types(left@), types(right@), left@.len())->0;
            final(map)@ == solved.bindings && outcome(r) == solved.result
        }),
    decreases left,
{
    let ghost l = types(left@);
    let ghost r = types(right@);
    let ghost start = map@;
    let mut i: usize = 0;
    while i < left.len()
        invariant
            0 <= i <= left@.len(),
            left@.len() == right@.len(),
            l == types(left@),
            r == types(right@),
            start == old(map)@,
            table.well_formed(),
            map.well_formed(),
            unified_upto(start, l, r, left@.len()) is Some,
            unified_upto(start, l, r, i as nat) == Some(
                Solved { bindings: map@, result: Ok(()) },
            ),
        decreases left@.len() - i,
    {
        proof {
            assert(l[i as int] == left@[i as int]@);
            assert(r[i as int] == right@[i as int]@);
            lemma_unified_prefix(start, l, r, i as nat + 1, left@.len());
        }
        match unify_in(table, &left[i], &right[i], map) {
            Ok(_) => {}
            Err(kind) => {
                proof {
                    lemma_unified_stops(start, l, r, i as nat + 1, left@.len());
                }
                return Err(kind);
            }
        }
        i = i + 1;
    }
    Ok(())
}

proof fn lemma_unified_prefix(
    bindings: Seq<Binding>,
    left: Seq<Ty>,
    right: Seq<Ty>,
    n: nat,
    m: nat,
)
    requires
        n <= m <= left.len(),
        unified_upto(bindings, left, right, m) is Some,
    ensures
        unified_upto(bindings, left, right, n) is Some,
    decreases m - n,
{
    if n < m {
        lemma_unified_prefix(bindings, left, right, n, (m - 1) as nat);
    }
}

proof fn lemma_unified_stops(
    bindings: Seq<Binding>,
    left: Seq<Ty>,
    right: Seq<Ty>,
    n: nat,
    m: nat,
)
    requires
        n <= m <= left.len(),
        unified_upto(bindings, left, right, n) is Some,
        unified_upto(bindings, left, right, n)->0.result is Err,
    ensures
        unified_upto(bindings, left, right, m) == unified_upto(bindings, left, right, n),
    decreases m - n,
{
    if n < m {
        lemma_unified_stops(bindings, left, right, n, (m - 1) as nat);
    }
}

/// What a failure in the parts is for the whole.
fn lift(inner: Result<(), TypeErrorKind>, expected: Type, actual: Type) -> (r: Result<
    (),
    TypeErrorKind,
>)
    ensures
        outcome(r) == (match inner {
            Ok(_) => Ok::<(), Fault>(()),
            Err(_) => Err(Fault::TypeMismatch { expected: expected@, actual: actual@ }),
        }),
{
    match inner {
        Ok(_) => Ok(()),
        Err(_) => Err(TypeErrorKind::TypeMismatch { expected, actual }),
    }
}

/// Equates two types that may hold variables which were bound meanwhile.
fn unify_in(
    table: &mut TypeTable,
    a: &Type,
    b: &Type,
    map: &mut SubstitutionMap,
) -> (r: Result<(), TypeErrorKind>)
    requires
        old(table).well_formed(),
        old(map).well_formed(),
        unified_in(old(map)@, a@, b@) is Some,
    ensures
        final(table).well_formed(),
        final(map).well_formed(),
        ({
            let solved = unified_in(old(map)@, a@, b@)->0;
            final(map)@ == solved.bindings && outcome(r) == solved.result
        }),
    decreases a,
{
    let t1 = apply_substitution(table, map, a);
    let t2 = apply_substitution(table, map, b);
    // Both already the same type (trivial)
    if same_type(&t1, &t2) {
        return Ok(());
    }
    proof {
        lemma_applied_reach(map@, a@);
        lemma_applied_reach(map@, b@);
    }
    // One is a a type variable
    if let TypeKind::Infer(variable) = t1.kind() {
        return bind_variable(table, *variable, &t2, &t1, &t2, map);
    }
    if let TypeKind::Infer(variable) = t2.kind() {
        return bind_variable(table, *variable, &t1, &t1, &t2, map);
    }
    let left_kind = a.kind();
    let right_kind = b.kind();
    proof {
        lemma_parts(*left_kind);
        lemma_parts(*right_kind);
    }
    match (left_kind, right_kind) {
        // Pointee types need to be equal
        (TypeKind::Pointer(left), TypeKind::Pointer(right)) => {
            lift(unify_in(table, left, right, map), t1, t2)
        }
        (TypeKind::Slice(left), TypeKind::Slice(right)) => {
            lift(unify_in(table, left, right, map), t1, t2)
        }
        // Must have same inner type and length
        (
            TypeKind::Array { ty: left, length: left_len },
            TypeKind::Array { ty: right, length: right_len },
        ) => {
            if *left_len != *right_len {
                return Err(
                    TypeErrorKind::ArrayLengthMismatch {
                        expected: *left_len,
                        actual: *right_len,
                    },
                );
            }
            lift(unify_in(table, left, right, map), t1, t2)
        }
        // For tuple types, all sub types need to be equal too
        (TypeKind::Tuple(types1), TypeKind::Tuple(types2)) => {
            if types1.len() != types2.len() {
                return Err(
                    TypeErrorKind::TupleLengthMismatch {
                        expected: types1.len(),
                        actual: types2.len(),
                    },
                );
            }
            lift(unify_lists(table, types1, types2, map), t1, t2)
        }
        (TypeKind::FunctionPointer { .. }, TypeKind::FunctionPointer { .. }) => {
            vstd::pervasive::unreached()
        }
        // Array pointers can be coerced to slices
        (TypeKind::Slice(left), TypeKind::Pointer(right)) => {
            match right.kind() {
                TypeKind::Array { ty: right, .. } => {
                    lift(unify_in(table, left, right, map), t1, t2)
                }
                _ => Err(TypeErrorKind::TypeMismatch { expected: t1, actual: t2 }),
            }
        }
        // Any other type combination
        _ => Err(TypeErrorKind::TypeMismatch { expected: t1, actual: t2 }),
    }
}

/// Attempts to equate the provided types using our type system's inference
/// and coercion rules. For any recursive unifications, we only return the
/// top most error to provide the most context
pub fn unify(
    table: &mut TypeTable,
    t1: &Type,
    t2: &Type,
    map: &mut SubstitutionMap,
) -> (r: Result<(), TypeErrorKind>)
    requires
        old(table).well_formed(),
        old(map).well_formed(),
        unified(old(map)@, t1@, t2@) is Some,
    ensures
        final(table).well_formed(),
        final(map).well_formed(),
        ({
            let solved = unified(old(map)@, t1@, t2@)->0;
            final(map)@ == solved.bindings && outcome(r) == solved.result
        }),
{
    let a = apply_substitution(table, map, t1);
    let b = apply_substitution(table, map, t2);
    unify_in(table, &a, &b, map)
}

/// Whether values of a type that is known can be cast to another type.
pub open spec fn casts(from: Ty, to: Ty) -> bool {
    let numeric = |ty: Ty| ty is Integer || ty is UnsignedInteger || ty is Float;
    let integral = |ty: Ty| ty is Integer || ty is UnsignedInteger || ty is Bool;
    ||| from == to
    ||| numeric(from) && numeric(to)
    ||| integral(from) && integral(to)
    ||| from is Char && to == Ty::UnsignedInteger(UIntKind::U32)
    ||| from == Ty::UnsignedInteger(UIntKind::USize) && to.is_pointer_like()
    ||| from.is_pointer_like() && to.is_pointer_like()
}

/// Whether a variable may stand for the type that it is cast to.
pub open spec fn is_cast_coercible(variable: TypeVariable, to: Ty) -> bool {
    match variable {
        TypeVariable::Int(_) => to.is_integer_like() || to.is_pointer_like(),
        TypeVariable::Float(_) => to.is_float_like(),
    }
}

/// Casts a type to one without variables. A variable takes on the type that
/// it is cast to, if it may and `coerce` is set.
pub open spec fn cast_solved(bindings: Seq<Binding>, from: Ty, to: Ty, coerce: bool) -> Solved {
    let known = applied(bindings, from);
    let refused = Solved { bindings, result: Err(Fault::InvalidCast { from: known, to }) };
    match known {
        Ty::Infer(variable) => if coerce && is_cast_coercible(variable, to) {
            Solved { bindings: bindings.push((variable, to)), result: Ok(()) }
        } else {
            refused
        },
        _ => if casts(known, to) {
            Solved { bindings, result: Ok(()) }
        } else {
            refused
        },
    }
}

/// A type whose variables all lie out of reach has none in reach.
pub proof fn lemma_reach_free(ty: Ty)
    ensures
        reach(ty).subset_of(free(ty)),
    decreases ty, 0nat,
{
    match ty {
        Ty::Pointer(inner) => lemma_reach_free(*inner),
        Ty::Slice(inner) => lemma_reach_free(*inner),
        Ty::Array { ty: inner, .. } => lemma_reach_free(*inner),
        Ty::Tuple(list) => lemma_reach_free_upto(list, list.len()),
        Ty::FunctionPointer { parameters, return_type, .. } => {
            lemma_reach_free_upto(parameters, parameters.len());
            lemma_reach_free(*return_type);
        },
        _ => {},
    }
}

proof fn lemma_reach_free_upto(list: Seq<Ty>, n: nat)
    ensures
        reach_upto(list, n).subset_of(crate::middle::ty::free_upto(list, n)),
    decreases list, n,
{
    if n > 0 && n <= list.len() {
        lemma_reach_free_upto(list, (n - 1) as nat);
        lemma_reach_free(list[n - 1]);
    }
}

/// Checks that `from` may be cast to `to`, potentially coercing `from` if
/// it is a free type variable
pub fn solve_cast(
    table: &mut TypeTable,
    from: &Type,
    to: &Type,
    map: &mut SubstitutionMap,
    coerce_type_variables: bool,
) -> (r: Result<(), TypeErrorKind>)
    requires
        old(table).well_formed(),
        old(map).well_formed(),
        free(to@) == Set::<TypeVariable>::empty(),
    ensures
        final(table).well_formed(),
        final(map).well_formed(),
        ({
            let solved = cast_solved(old(map)@, from@, to@, coerce_type_variables);
            final(map)@ == solved.bindings && outcome(r) == solved.result
        }),
{
    proof {
        lemma_reach_free(to@);
        if to@ is Infer {
            assert(free(to@).contains(to@->Infer_0));
        }
    }
    let ghost given = from@;
    let from = apply_substitution(table, map, from);
    // Trivially possible case
    if same_type(&from, to) {
        return Ok(());
    }
    match (from.kind(), to.kind()) {
        // If the source type is a free type variable, just coerce it into
        // the target type if allowed for the variable kind and coersion is
        // enabled
        (TypeKind::Infer(variable), ty_kind) => {
            let coercible = match variable {
                TypeVariable::Int(_) => ty_kind.is_integer_like() || ty_kind.is_pointer_like(),
                TypeVariable::Float(_) => ty_kind.is_float_like(),
            };
            if coercible && coerce_type_variables {
                proof {
                    lemma_applied_reach(map@, given);
                    if is_bound(map@, *variable) {
                        let i = choose|i: int|
                            0 <= i < map@.len() && (#[trigger] map@[i]).0 == *variable;
                        assert(reach(Ty::Infer(*variable)).contains(*variable));
                        assert(!reach(from@).contains(map@[i].0));
                    }
                }
                map.insert(*variable, to.duplicate());
                return Ok(());
            }
            Err(TypeErrorKind::InvalidCast { from, to: to.duplicate() })
        }
        // Allow casting between any numeric types
        (
            TypeKind::Integer(_) | TypeKind::UnsignedInteger(_) | TypeKind::Float(_),
            TypeKind::Integer(_) | TypeKind::UnsignedInteger(_) | TypeKind::Float(_),
        ) => Ok(()),
        // Allow casting between integer types and bools
        (
            TypeKind::Integer(_) | TypeKind::UnsignedInteger(_) | TypeKind::Bool,
            TypeKind::Integer(_) | TypeKind::UnsignedInteger(_) | TypeKind::Bool,
        ) => Ok(()),
        (TypeKind::Char, TypeKind::UnsignedInteger(UIntKind::U32)) => Ok(()),
        // Allow casting properly sized integers to pointers
        (
            TypeKind::UnsignedInteger(UIntKind::USize),
            TypeKind::Pointer(_) | TypeKind::Any,
        ) => Ok(()),
        // Allow pointer type hacking
        (TypeKind::Pointer(_) | TypeKind::Any, TypeKind::Pointer(_) | TypeKind::Any) => Ok(()),
        // Anything not explicitly allowed is an error
        _ => Err(TypeErrorKind::InvalidCast { from, to: to.duplicate() }),
    }
}

/// Whether two types are equal up to slices that a pointer to an array does
/// for.
pub open spec fn agree(a: Ty, b: Ty) -> bool
    decreases a,
{
    a == b || match (a, b) {
        (Ty::Pointer(x), Ty::Pointer(y)) => agree(*x, *y),
        (Ty::Slice(x), Ty::Slice(y)) => agree(*x, *y),
        (Ty::Array { ty: x, length: n }, Ty::Array { ty: y, length: m }) => n == m && agree(*x, *y),
        (Ty::Tuple(x), Ty::Tuple(y)) => x.len() == y.len() && (forall|i: int|
            #![trigger x[i]]
            0 <= i < x.len() ==> agree(x[i], y[i])),
        (Ty::Slice(x), Ty::Pointer(y)) => match *y {
            Ty::Array { ty: z, .. } => agree(*x, *z),
            _ => false,
        },
        _ => false,
    }
}

/// Types that agree do so whatever a variable stands for.
proof fn lemma_agree_replaced(a: Ty, b: Ty, variable: TypeVariable, by: Ty)
    requires
        agree(a, b),
    ensures
        agree(replaced(a, variable, by), replaced(b, variable, by)),
    decreases a,
{
    if a != b {
        match (a, b) {
            (Ty::Pointer(x), Ty::Pointer(y)) => lemma_agree_replaced(*x, *y, variable, by),
            (Ty::Slice(x), Ty::Slice(y)) => lemma_agree_replaced(*x, *y, variable, by),
            (Ty::Array { ty: x, .. }, Ty::Array { ty: y, .. }) => {
                lemma_agree_replaced(*x, *y, variable, by)
            },
            (Ty::Tuple(x), Ty::Tuple(y)) => {
                let p = replaced(a, variable, by)->Tuple_0;
                let q = replaced(b, variable, by)->Tuple_0;
                assert forall|i: int| #![trigger p[i]] 0 <= i < p.len() implies agree(p[i], q[i]) by {
                    assert(agree(x[i], y[i]));
                    lemma_agree_replaced(x[i], y[i], variable, by);
                }
            },
            (Ty::Slice(x), Ty::Pointer(y)) => {
                if let Ty::Array { ty: z, .. } = *y {
                    lemma_agree_replaced(*x, *z, variable, by);
                }
            },
            _ => {},
        }
    }
}

/// Types that agree still do when more is known.
proof fn lemma_agree_later(before: Seq<Binding>, after: Seq<Binding>, a: Ty, b: Ty)
    requires
        before.is_prefix_of(after),
        agree(applied(before, a), applied(before, b)),
    ensures
        agree(applied(after, a), applied(after, b)),
    decreases after.len(),
{
    if before.len() == after.len() {
        assert(before =~= after);
    } else {
        let mid = after.drop_last();
        assert(before.is_prefix_of(mid)) by {
            assert(before =~= mid.take(before.len() as int));
        }
        lemma_agree_later(before, mid, a, b);
        lemma_agree_replaced(
            applied(mid, a),
            applied(mid, b),
            after.last().0,
            after.last().1,
        );
    }
}

/// Whether the variables that were bound from number `first` on stand for types
/// of their own kind: integer variables for integers, and floating point
/// variables for floating point numbers.
pub open spec fn binds_own_kind(bindings: Seq<Binding>, first: nat) -> bool {
    forall|i: int|
        first <= i < bindings.len() ==> match (#[trigger] bindings[i]).0 {
            TypeVariable::Int(_) => bindings[i].1.is_integer_like(),
            TypeVariable::Float(_) => bindings[i].1.is_float_like(),
        }
}

proof fn lemma_unified_in(bindings: Seq<Binding>, a: Ty, b: Ty)
    requires
        in_order(bindings),
        unified_in(bindings, a, b) is Some,
    ensures
        ({
            let solved = unified_in(bindings, a, b)->0;
            &&& in_order(solved.bindings)
            &&& bindings.is_prefix_of(solved.bindings)
            &&& binds_own_kind(solved.bindings, bindings.len())
            &&& solved.result is Ok ==> agree(
                applied(solved.bindings, a),
                applied(solved.bindings, b),
            )
        }),
    decreases a, 0nat,
{
    let left = applied(bindings, a);
    let right = applied(bindings, b);
    let solved = unified_in(bindings, a, b)->0;
    lemma_applied_reach(bindings, a);
    lemma_applied_reach(bindings, b);
    assert(bindings.is_prefix_of(bindings)) by {
        assert(bindings.take(bindings.len() as int) =~= bindings);
    }
    if left == right {
    } else if left is Infer || right is Infer {
        let (variable, ty) = match left {
            Ty::Infer(v) => (v, right),
            _ => (right->Infer_0, left),
        };
        assert(clear_of(bindings, bindings.len(), ty));
        lemma_applied_clear(bindings, ty);
        if solved.result is Ok {
            assert(!is_bound(bindings, variable)) by {
                if is_bound(bindings, variable) {
                    let i = choose|i: int|
                        0 <= i < bindings.len() && (#[trigger] bindings[i]).0 == variable;
                    assert(reach(Ty::Infer(variable)).contains(variable));
                    assert(!reach(left).contains(bindings[i].0));
                    assert(!reach(right).contains(bindings[i].0));
                }
            }
            lemma_in_order_push(bindings, variable, ty);
            let after = bindings.push((variable, ty));
            assert(after.drop_last() =~= bindings);
            assert(bindings =~= after.take(bindings.len() as int));
            lemma_replaced_absent(ty, variable, ty);
        }
    } else {
        match (a, b) {
            (Ty::Pointer(x), Ty::Pointer(y)) => {
                lemma_unified_in(bindings, *x, *y);
                lemma_applied_parts(solved.bindings, a);
                lemma_applied_parts(solved.bindings, b);
            },
            (Ty::Slice(x), Ty::Slice(y)) => {
                lemma_unified_in(bindings, *x, *y);
                lemma_applied_parts(solved.bindings, a);
                lemma_applied_parts(solved.bindings, b);
            },
            (Ty::Array { ty: x, length: n }, Ty::Array { ty: y, length: m }) => {
                if n == m {
                    lemma_unified_in(bindings, *x, *y);
                    lemma_applied_parts(solved.bindings, a);
                    lemma_applied_parts(solved.bindings, b);
                }
            },
            (Ty::Tuple(x), Ty::Tuple(y)) => {
                if x.len() == y.len() {
                    lemma_unified_lists(bindings, x, y, x.len());
                    lemma_applied_parts(solved.bindings, a);
                    lemma_applied_parts(solved.bindings, b);
                    if solved.result is Ok {
                        let p = applied(solved.bindings, a)->Tuple_0;
                        let q = applied(solved.bindings, b)->Tuple_0;
                        assert forall|i: int| #![trigger p[i]] 0 <= i < p.len() implies agree(
                            p[i],
                            q[i],
                        ) by {
                            assert(agree(
                                applied(solved.bindings, x[i]),
                                applied(solved.bindings, y[i]),
                            ));
                        }
                    }
                }
            },
            (Ty::Slice(x), Ty::Pointer(y)) => {
                if let Ty::Array { ty: z, .. } = *y {
                    lemma_unified_in(bindings, *x, *z);
                    lemma_applied_parts(solved.bindings, a);
                    lemma_applied_parts(solved.bindings, b);
                    lemma_applied_parts(solved.bindings, *y);
                }
            },
            _ => {},
        }
    }
}

proof fn lemma_unified_lists(bindings: Seq<Binding>, left: Seq<Ty>, right: Seq<Ty>, n: nat)
    requires
        in_order(bindings),
        n <= left.len(),
        unified_upto(bindings, left, right, n) is Some,
    ensures
        ({
            let solved = unified_upto(bindings, left, right, n)->0;
            &&& in_order(solved.bindings)
            &&& bindings.is_prefix_of(solved.bindings)
            &&& binds_own_kind(solved.bindings, bindings.len())
            &&& solved.result is Ok ==> (forall|i: int|
                #![trigger left[i]]
                0 <= i < n ==> agree(
                    applied(solved.bindings, left[i]),
                    applied(solved.bindings, right[i]),
                ))
        }),
    decreases left, n,
{
    if n == 0 {
        assert(bindings.take(bindings.len() as int) =~= bindings);
    } else {
        lemma_unified_lists(bindings, left, right, (n - 1) as nat);
        let before = unified_upto(bindings, left, right, (n - 1) as nat)->0;
        let solved = unified_upto(bindings, left, right, n)->0;
        if before.result is Ok {
            lemma_unified_in(before.bindings, left[n - 1], right[n - 1]);
            assert(binds_own_kind(solved.bindings, bindings.len())) by {
                assert forall|i: int|
                    bindings.len() <= i < solved.bindings.len() implies match (
                #[trigger] solved.bindings[i]).0 {
                    TypeVariable::Int(_) => solved.bindings[i].1.is_integer_like(),
                    TypeVariable::Float(_) => solved.bindings[i].1.is_float_like(),
                } by {
                    if i < before.bindings.len() {
                        assert(before.bindings[i] == solved.bindings[i]);
                    }
                }
            }
            assert(bindings.is_prefix_of(solved.bindings)) by {
                assert(bindings =~= solved.bindings.take(bindings.len() as int)) by {
                    assert forall|i: int| 0 <= i < bindings.len() implies bindings[i]
                        == solved.bindings[i] by {
                        assert(bindings[i] == before.bindings[i]);
                        assert(before.bindings[i] == solved.bindings[i]);
                    }
                }
            }
            if solved.result is Ok {
                assert forall|i: int| #![trigger left[i]] 0 <= i < n implies agree(
                    applied(solved.bindings, left[i]),
                    applied(solved.bindings, right[i]),
                ) by {
                    if i < n - 1 {
                        lemma_agree_later(before.bindings, solved.bindings, left[i], right[i]);
                    }
                }
            }
        }
    }
}

/// Equating types only adds to what variables stand for, each for a type of its
/// own kind, and types that could be equated agree from then on.
pub proof fn law_unify_sound(bindings: Seq<Binding>, a: Ty, b: Ty)
    requires
        in_order(bindings),
        unified(bindings, a, b) is Some,
    ensures
        ({
            let solved = unified(bindings, a, b)->0;
            &&& in_order(solved.bindings)
            &&& bindings.is_prefix_of(solved.bindings)
            &&& binds_own_kind(solved.bindings, bindings.len())
            &&& binds_own_kind(bindings, 0) ==> binds_own_kind(solved.bindings, 0)
            &&& solved.result is Ok ==> agree(
                applied(solved.bindings, a),
                applied(solved.bindings, b),
            )
        }),
{
    let solved = unified(bindings, a, b)->0;
    lemma_unified_in(bindings, applied(bindings, a), applied(bindings, b));
    lemma_applied_twice(bindings, solved.bindings, a);
    lemma_applied_twice(bindings, solved.bindings, b);
    if binds_own_kind(bindings, 0) {
        assert forall|i: int| 0 <= i < solved.bindings.len() implies match (
        #[trigger] solved.bindings[i]).0 {
            TypeVariable::Int(_) => solved.bindings[i].1.is_integer_like(),
            TypeVariable::Float(_) => solved.bindings[i].1.is_float_like(),
        } by {
            if i < bindings.len() {
                assert(solved.bindings[i] == bindings[i]);
            }
        }
    }
}

/// Where types cannot be equated, the error speaks of the two types themselves,
/// with what was known of them put in, and never of their parts: of their
/// lengths if they are arrays or tuples of different lengths, and of a mismatch
/// of the two otherwise, also where it is parts of them that do not fit.
pub proof fn law_outermost_error(bindings: Seq<Binding>, a: Ty, b: Ty)
    requires
        in_order(bindings),
        unified(bindings, a, b) is Some,
    ensures
        (unified(bindings, a, b)->0).result matches Err(fault) ==> fault == match (
            applied(bindings, a),
            applied(bindings, b),
        ) {
            (Ty::Array { length: n, .. }, Ty::Array { length: m, .. }) if n != m => {
                Fault::ArrayLengthMismatch { expected: n, actual: m }
            },
            (Ty::Tuple(x), Ty::Tuple(y)) if x.len() != y.len() => Fault::TupleLengthMismatch {
                expected: x.len() as usize,
                actual: y.len() as usize,
            },
            (left, right) => Fault::TypeMismatch { expected: left, actual: right },
        },
{
    let left = applied(bindings, a);
    let right = applied(bindings, b);
    law_apply_idempotent(bindings, a);
    law_apply_idempotent(bindings, b);
    if left != right && (left is Infer || right is Infer) {
        let (variable, ty) = match left {
            Ty::Infer(v) => (v, right),
            _ => (right->Infer_0, left),
        };
        assert(applied(bindings, ty) == ty);
        if is_coercible(variable, ty) {
            assert(!reach(ty).contains(variable));
        }
    }
}

/// What was put in before makes no difference to what is put in later.
proof fn lemma_applied_twice(before: Seq<Binding>, after: Seq<Binding>, ty: Ty)
    requires
        in_order(before),
        before.is_prefix_of(after),
    ensures
        applied(after, applied(before, ty)) == applied(after, ty),
    decreases after.len(),
{
    if before.len() == after.len() {
        assert(before =~= after);
        law_apply_idempotent(before, ty);
    } else {
        let mid = after.drop_last();
        assert(before.is_prefix_of(mid)) by {
            assert(before =~= mid.take(before.len() as int));
        }
        lemma_applied_twice(before, mid, ty);
    }
}

/// A constraint on types, and where it comes from.
pub struct TypeConstraint {
    pub kind: TypeConstraintKind,
    pub origin: TypeConstraintOrigin,
}

pub enum TypeConstraintKind {
    Equal { left: Type, right: Type },
    Cast { from: Type, to: Type },
}

/// What a [`TypeConstraint`] is.
pub enum Demand {
    Equal { left: Ty, right: Ty, origin: TypeConstraintOrigin },
    Cast { from: Ty, to: Ty, origin: TypeConstraintOrigin },
}

impl View for TypeConstraint {
    type V = Demand;

    open spec fn view(&self) -> Demand {
        match self.kind {
            TypeConstraintKind::Equal { left, right } => Demand::Equal {
                left: left@,
                right: right@,
                origin: self.origin,
            },
            TypeConstraintKind::Cast { from, to } => Demand::Cast {
                from: from@,
                to: to@,
                origin: self.origin,
            },
        }
    }
}

/// What a list of constraints is.
pub open spec fn demands(constraints: Seq<TypeConstraint>) -> Seq<Demand> {
    Seq::new(constraints.len(), |i: int| constraints[i]@)
}

/// The state of solving constraints: what variables stand for, the errors so
/// far, and the casts that were put off.
pub struct Solving {
    pub bindings: Seq<Binding>,
    pub errors: Seq<Mistake>,
    pub deferred: Seq<Demand>,
}

/// Solves a constraint. A cast that does not succeed is put off. There is no
/// result for two different function types, nor for a cast to a type with
/// variables.
pub open spec fn solve_step(state: Solving, demand: Demand) -> Option<Solving> {
    match demand {
        Demand::Equal { left, right, origin } => match unified(state.bindings, left, right) {
            None => None,
            Some(solved) => Some(
                Solving {
                    bindings: solved.bindings,
                    errors: match solved.result {
                        Ok(_) => state.errors,
                        Err(kind) => state.errors.push(Mistake { origin, kind }),
                    },
                    deferred: state.deferred,
                },
            ),
        },
        Demand::Cast { from, to, origin } => if free(to) != Set::<TypeVariable>::empty() {
            None
        } else {
            let solved = cast_solved(state.bindings, from, to, false);
            Some(
                Solving {
                    bindings: solved.bindings,
                    errors: state.errors,
                    deferred: match solved.result {
                        Ok(_) => state.deferred,
                        Err(_) => state.deferred.push(demand),
                    },
                },
            )
        },
    }
}

/// Solves the first `n` constraints.
pub open spec fn solve_upto(demands: Seq<Demand>, n: nat) -> Option<Solving>
    decreases n,
{
    if n == 0 {
        Some(Solving { bindings: Seq::empty(), errors: Seq::empty(), deferred: Seq::empty() })
    } else {
        match solve_upto(demands, (n - 1) as nat) {
            None => None,
            Some(state) => solve_step(state, demands[n - 1]),
        }
    }
}

/// Solves the first `n` of the casts that were put off, which may now bind
/// variables.
pub open spec fn solve_deferred(state: Solving, n: nat) -> Solving
    decreases n,
{
    if n == 0 {
        state
    } else {
        let before = solve_deferred(state, (n - 1) as nat);
        match state.deferred[n - 1] {
            Demand::Cast { from, to, origin } => {
                let solved = cast_solved(before.bindings, from, to, true);
                Solving {
                    bindings: solved.bindings,
                    errors: match solved.result {
                        Ok(_) => before.errors,
                        Err(kind) => before.errors.push(Mistake { origin, kind }),
                    },
                    deferred: before.deferred,
                }
            },
            _ => before,
        }
    }
}

/// What all constraints come to.
pub open spec fn solution(demands: Seq<Demand>) -> Option<Solving> {
    match solve_upto(demands, demands.len()) {
        None => None,
        Some(state) => Some(solve_deferred(state, state.deferred.len())),
    }
}

proof fn lemma_solve_prefix(demands: Seq<Demand>, n: nat, m: nat)
    requires
        n <= m,
        solve_upto(demands, m) is Some,
    ensures
        solve_upto(demands, n) is Some,
    decreases m - n,
{
    if n < m {
        lemma_solve_prefix(demands, n, (m - 1) as nat);
    }
}

/// Solves constraints in order, then the casts that had to be put off.
pub fn solve_constraints(table: &mut TypeTable, constraints: &Vec<TypeConstraint>) -> (r: (
    SubstitutionMap,
    Vec<TypeError>,
))
    requires
        old(table).well_formed(),
        solution(demands(constraints@)) is Some,
    ensures
        final(table).well_formed(),
        r.0.well_formed(),
        r.0@ == solution(demands(constraints@))->0.bindings,
        mistakes(r.1@) == solution(demands(constraints@))->0.errors,
{
    let ghost all = demands(constraints@);
    let mut map = SubstitutionMap::new();
    let mut deferred: Vec<usize> = Vec::new();
    let mut errors: Vec<TypeError> = Vec::new();
    let ghost mut casts: Seq<Demand> = Seq::empty();
    let mut i: usize = 0;
    assert(mistakes(errors@) =~= Seq::<Mistake>::empty());
    while i < constraints.len()
        invariant
            0 <= i <= constraints@.len(),
            all == demands(constraints@),
            table.well_formed(),
            map.well_formed(),
            solve_upto(all, all.len()) is Some,
            solve_upto(all, i as nat) == Some(
                Solving { bindings: map@, errors: mistakes(errors@), deferred: casts },
            ),
            casts.len() == deferred@.len(),
            forall|k: int|
                0 <= k < deferred@.len() ==> (#[trigger] deferred@[k]) < constraints@.len()
                    && casts[k] == all[deferred@[k] as int] && casts[k] is Cast
                    && free(casts[k]->to) == Set::<TypeVariable>::empty(),
        decreases constraints@.len() - i,
    {
        let constraint = &constraints[i];
        proof {
            assert(all[i as int] == constraint@);
            lemma_solve_prefix(all, i as nat + 1, all.len());
        }
        match &constraint.kind {
            TypeConstraintKind::Equal { left, right } => {
                match unify(table, left, right, &mut map) {
                    Ok(_) => {}
                    Err(kind) => {
                        let error = TypeError { origin: constraint.origin, kind };
                        proof {
                            lemma_mistakes_push(errors@, error);
                        }
                        errors.push(error);
                    }
                }
            }
            TypeConstraintKind::Cast { from, to } => {
                match solve_cast(table, from, to, &mut map, false) {
                    Ok(_) => {}
                    Err(_) => {
                        deferred.push(i);
                        proof {
                            casts = casts.push(constraint@);
                        }
                    }
                }
            }
        }
        i = i + 1;
    }
    let ghost first = Solving { bindings: map@, errors: mistakes(errors@), deferred: casts };
    // Do a second pass after we've done all our substitutions
    let mut j: usize = 0;
    while j < deferred.len()
        invariant
            0 <= j <= deferred@.len(),
            all == demands(constraints@),
            table.well_formed(),
            map.well_formed(),
            first.deferred == casts,
            casts.len() == deferred@.len(),
            forall|k: int|
                0 <= k < deferred@.len() ==> (#[trigger] deferred@[k]) < constraints@.len()
                    && casts[k] == all[deferred@[k] as int] && casts[k] is Cast
                    && free(casts[k]->to) == Set::<TypeVariable>::empty(),
            solve_deferred(first, j as nat) == (Solving {
                bindings: map@,
                errors: mistakes(errors@),
                deferred: casts,
            }),
        decreases deferred@.len() - j,
    {
        let constraint = &constraints[deferred[j]];
        proof {
            assert(casts[j as int] == all[deferred@[j as int] as int]);
            assert(casts[j as int] == constraint@);
        }
        match &constraint.kind {
            TypeConstraintKind::Cast { from, to } => {
                match solve_cast(table, from, to, &mut map, true) {
                    Ok(_) => {}
                    Err(kind) => {
                        let error = TypeError { origin: constraint.origin, kind };
                        proof {
                            lemma_mistakes_push(errors@, error);
                        }
                        errors.push(error);
                    }
                }
            }
            _ => vstd::pervasive::unreached(),
        }
        j = j + 1;
    }
    (map, errors)
}

/// Whether the first `n` constraints that types be equal hold once it is put in
/// what variables stand for.
pub open spec fn hold(bindings: Seq<Binding>, demands: Seq<Demand>, n: nat) -> bool {
    forall|i: int|
        0 <= i < n ==> match #[trigger] demands[i] {
            Demand::Equal { left, right, .. } => agree(
                applied(bindings, left),
                applied(bindings, right),
            ),
            Demand::Cast { .. } => true,
        }
}

proof fn lemma_hold_later(
    before: Seq<Binding>,
    after: Seq<Binding>,
    demands: Seq<Demand>,
    n: nat,
)
    requires
        n <= demands.len(),
        before.is_prefix_of(after),
        hold(before, demands, n),
    ensures
        hold(after, demands, n),
{
    assert forall|i: int| 0 <= i < n implies match #[trigger] demands[i] {
        Demand::Equal { left, right, .. } => agree(applied(after, left), applied(after, right)),
        Demand::Cast { .. } => true,
    } by {
        match demands[i] {
            Demand::Equal { left, right, .. } => {
                lemma_agree_later(before, after, left, right);
            },
            Demand::Cast { .. } => {},
        }
    }
}

proof fn lemma_solved_upto(demands: Seq<Demand>, n: nat)
    requires
        n <= demands.len(),
        solve_upto(demands, n) is Some,
    ensures
        in_order(solve_upto(demands, n)->0.bindings),
        solve_upto(demands, n)->0.errors.len() == 0 ==> hold(
            solve_upto(demands, n)->0.bindings,
            demands,
            n,
        ),
    decreases n,
{
    if n > 0 {
        lemma_solved_upto(demands, (n - 1) as nat);
        let before = solve_upto(demands, (n - 1) as nat)->0;
        let after = solve_upto(demands, n)->0;
        match demands[n - 1] {
            Demand::Equal { left, right, origin } => {
                law_unify_sound(before.bindings, left, right);
                if after.errors.len() == 0 {
                    lemma_hold_later(before.bindings, after.bindings, demands, (n - 1) as nat);
                }
            },
            Demand::Cast { .. } => {},
        }
    }
}

proof fn lemma_deferred_adds(state: Solving, n: nat)
    requires
        n <= state.deferred.len(),
    ensures
        state.bindings.is_prefix_of(solve_deferred(state, n).bindings),
        state.errors.len() <= solve_deferred(state, n).errors.len(),
    decreases n,
{
    if n > 0 {
        lemma_deferred_adds(state, (n - 1) as nat);
        let before = solve_deferred(state, (n - 1) as nat);
        let after = solve_deferred(state, n);
        assert(state.bindings =~= after.bindings.take(state.bindings.len() as int)) by {
            assert forall|i: int| 0 <= i < state.bindings.len() implies state.bindings[i]
                == after.bindings[i] by {
                assert(state.bindings[i] == before.bindings[i]);
            }
        }
    } else {
        assert(state.bindings =~= state.bindings.take(state.bindings.len() as int));
    }
}

/// Where no error is found, all the types that were to be equal agree once it is
/// put in what variables stand for.
pub proof fn law_constraints_hold(demands: Seq<Demand>)
    requires
        solution(demands) is Some,
        solution(demands)->0.errors.len() == 0,
    ensures
        hold(solution(demands)->0.bindings, demands, demands.len()),
{
    let state = solve_upto(demands, demands.len())->0;
    lemma_deferred_adds(state, state.deferred.len());
    lemma_solved_upto(demands, demands.len());
    lemma_hold_later(
        state.bindings,
        solution(demands)->0.bindings,
        demands,
        demands.len(),
    );
}

} // verus!
