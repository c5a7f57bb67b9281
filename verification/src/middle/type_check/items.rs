//! The types of the items of a module.

use crate::middle::hir;
use crate::middle::hir::{
    DefinitionKind, FunctionParameter, Item, ItemKind, Module, Resolution,
};
use crate::middle::ty::Ty;
use crate::middle::type_check::context::{field_tys, hir_tys, item_ty, item_tys, Env};
use crate::middle::type_check::derivation::{lemma_hir_tys, part_ty};
use crate::middle::type_check::rules::{parameters_copied, Checking, Place};
use std::rc::Rc;
use vstd::prelude::*;

verus! {

proof fn lemma_field_tys(env: Env, fields: Seq<Rc<hir::StructField>>, n: nat)
    requires
        n <= fields.len(),
        field_tys(env, fields, n) is Some,
    ensures
        field_tys(env, fields, n)->0.len() == n,
        forall|i: int|
            0 <= i < n ==> {
                let (name, ty) = #[trigger] field_tys(env, fields, n)->0[i];
                name == fields[i].name.symbol && part_ty(env, &*fields[i].ty) == Some(ty)
            },
    decreases n,
{
    if n > 0 {
        lemma_field_tys(env, fields, (n - 1) as nat);
    }
}

/// A function takes `self`, if it has that parameter, as the structure that it
/// belongs to or a pointer to it, and then its parameters in order, and returns what
/// it says, or nothing. A structure has the names and the types of its fields in
/// order, and is told from others by its number. An alias and a static variable have
/// the type that is written for them.
pub proof fn law_item_types(env: Env, item: &Item)
    requires
        item_ty(env, *item) is Some,
    ensures
        match item.kind {
            ItemKind::Function { name, signature, .. } => item_ty(env, *item) matches Some(
                Ty::FunctionPointer { parameters, return_type, is_variadic },
            ) && {
                let list = signature.parameters@;
                let k: int = if signature.self_parameter is Some {
                    1
                } else {
                    0
                };
                &&& parameters.len() == k + list.len()
                &&& forall|i: int|
                    0 <= i < list.len() ==> part_ty(env, &*(#[trigger] list[i])) == Some(
                        parameters[k + i],
                    )
                &&& signature.self_parameter matches Some(own) ==> (
                name.segments@[0].resolution matches Resolution::Definition(
                    DefinitionKind::Struct,
                    id,
                ) && parameters[0] == (if own is Owned {
                    env.defs[id.0]
                } else {
                    Ty::Pointer(Box::new(env.defs[id.0]))
                }))
                &&& match signature.return_type {
                    Some(ty) => part_ty(env, &*ty) == Some(*return_type),
                    None => *return_type == Ty::Unit,
                }
                &&& is_variadic == signature.variadic_type is Some
            },
            ItemKind::Struct { name, fields: list } => item_ty(env, *item) matches Some(
                Ty::Struct { def_id, name: shown, fields },
            ) && {
                &&& def_id == item.owner_id
                &&& shown == name.symbol
                &&& fields.len() == list@.len()
                &&& forall|i: int|
                    0 <= i < fields.len() ==> {
                        let (field, ty) = #[trigger] fields[i];
                        field == list@[i].name.symbol && part_ty(env, &*list@[i].ty) == Some(ty)
                    }
            },
            ItemKind::Enum { name, .. } => item_ty(env, *item) == Some(
                (Ty::Enum { def_id: item.owner_id, name: name.symbol }),
            ),
            ItemKind::TypeAlias { ty, .. } => item_ty(env, *item) == part_ty(env, &*ty),
            ItemKind::Static { ty, .. } => item_ty(env, *item) == part_ty(env, &*ty),
        },
{
    match item.kind {
        ItemKind::Function { signature, .. } => {
            lemma_hir_tys(env, signature.parameters, signature.parameters@.len());
            let list = signature.parameters@;
            let parameters = item_ty_of(env, item)->FunctionPointer_parameters;
            let k: int = if signature.self_parameter is Some {
                1
            } else {
                0
            };
            assert forall|i: int| 0 <= i < list.len() implies part_ty(env, &*(#[trigger] list[i]))
                == Some(parameters[k + i]) by {
                assert(parameters[k + i] == hir_tys(env, signature.parameters, list.len())->0[i]);
            }
        },
        ItemKind::Struct { fields, .. } => lemma_field_tys(env, fields@, fields@.len()),
        _ => {},
    }
}

spec fn item_ty_of(env: Env, item: &Item) -> Ty {
    item_ty(env, *item)->0
}

/// Every item of a module has the type that it has where the items before it are
/// known, unless a later item has the same number.
pub proof fn law_items_have_types(module: Module, names: Seq<Seq<char>>, n: nat, i: int)
    requires
        n <= module.owners@.len(),
        0 <= i < n,
        item_tys(module, names, n) is Some,
        forall|j: int|
            i < j < n ==> (#[trigger] module.owners@[j]).item().owner_id
                != module.owners@[i].item().owner_id,
    ensures
        ({
            let item = module.owners@[i].item();
            &&& item_tys(module, names, i as nat) matches Some(defs) && item_ty(
                Env { module, names, defs },
                item,
            ) is Some && item_tys(module, names, n)->0.contains_key(item.owner_id.0) && item_ty(
                Env { module, names, defs },
                item,
            ) == Some(item_tys(module, names, n)->0[item.owner_id.0])
        }),
    decreases n,
{
    if i < n - 1 {
        law_items_have_types(module, names, (n - 1) as nat, i);
        assert(module.owners@[n - 1].item().owner_id != module.owners@[i].item().owner_id);
    }
}

/// In the body of a function, every parameter has the type that the signature has at
/// its position, unless a later one is the same node.
pub proof fn law_parameters_have_types(
    p: Place,
    st: Checking,
    params: Seq<Rc<FunctionParameter>>,
    tys: Seq<Rc<hir::Type>>,
    n: nat,
    i: int,
)
    requires
        n <= params.len(),
        n <= tys.len(),
        0 <= i < n,
        parameters_copied(p, st, params, tys, n) is Some,
        forall|j: int|
            i < j < n ==> (#[trigger] params[j]).hir_id.local_id != params[i].hir_id.local_id,
        forall|j: int, k: int|
            0 <= j < n && 0 <= k < n ==> (#[trigger] params[j]).hir_id.local_id != (
            #[trigger] tys[k]).hir_id.local_id,
    ensures
        parameters_copied(p, st, params, tys, n)->0.has(params[i].hir_id),
        parameters_copied(p, st, params, tys, n)->0.at(params[i].hir_id) == st.at(tys[i].hir_id),
    decreases n,
{
    lemma_parameters_keep(p, st, params, tys, (n - 1) as nat, tys[n - 1].hir_id.local_id.0);
    if i < n - 1 {
        law_parameters_have_types(p, st, params, tys, (n - 1) as nat, i);
        assert(params[n - 1].hir_id.local_id != params[i].hir_id.local_id);
    }
}

proof fn lemma_parameters_keep(
    p: Place,
    st: Checking,
    params: Seq<Rc<FunctionParameter>>,
    tys: Seq<Rc<hir::Type>>,
    n: nat,
    other: u32,
)
    requires
        n <= params.len(),
        parameters_copied(p, st, params, tys, n) is Some,
        forall|j: int| 0 <= j < n ==> (#[trigger] params[j]).hir_id.local_id.0 != other,
    ensures
        ({
            let after = parameters_copied(p, st, params, tys, n)->0;
            &&& after.nodes.contains_key(other) == st.nodes.contains_key(other)
            &&& after.nodes[other] == st.nodes[other]
        }),
    decreases n,
{
    if n > 0 {
        lemma_parameters_keep(p, st, params, tys, (n - 1) as nat, other);
        assert(params[n - 1].hir_id.local_id.0 != other);
    }
}

} // verus!
