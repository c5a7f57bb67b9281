//! The types of the items of a module.

use crate::frontend::intern::{InternedSymbol, Interner};
use crate::middle::hir;
use crate::middle::hir::{
    DefinitionKind, FunctionSignature, Item, ItemKind, ItemLocalId, LocalDefId, Module, Path,
    Resolution, SelfParameter,
};
use crate::middle::primitive::{IntKind, PrimitiveKind, UIntKind};
use crate::middle::ty::{
    fields_of, lemma_parts, types, StructField, Ty, Type, TypeKind,
};
use crate::middle::type_check::table::{primitive_ty, TypeTable};
use crate::text::same_text;
use std::collections::BTreeMap;
use std::rc::Rc;
use vstd::prelude::*;

verus! {

broadcast use vstd::std_specs::btree::group_btree_axioms;

/// What the types in a module are computed from: its items, the names, and the
/// types of the items so far.
pub struct Env {
    pub module: Module,
    pub names: Seq<Seq<char>>,
    pub defs: Map<u32, Ty>,
}

/// The type of a built-in function.
pub open spec fn intrinsic_ty(name: Seq<char>) -> Option<Ty> {
    if name == "print"@ {
        Some(
            Ty::FunctionPointer {
                parameters: seq![Ty::Str],
                return_type: Box::new(Ty::Integer(IntKind::I64)),
                is_variadic: true,
            },
        )
    } else if name == "exit"@ {
        Some(
            Ty::FunctionPointer {
                parameters: seq![Ty::UnsignedInteger(UIntKind::U8)],
                return_type: Box::new(Ty::Never),
                is_variadic: false,
            },
        )
    } else {
        None
    }
}

/// The type that a name stands for. There is none for a local variable, for a
/// built-in function that is not known, and for an item whose type is not
/// known yet.
pub open spec fn resolution_ty(env: Env, resolution: Resolution<ItemLocalId>) -> Option<Ty> {
    match resolution {
        Resolution::Definition(_, id) => if env.module.has_owner(id) && env.module.owner(
            id,
        ).is_item() && env.defs.contains_key(env.module.owner(id).item().owner_id.0) {
            Some(env.defs[env.module.owner(id).item().owner_id.0])
        } else {
            None
        },
        Resolution::Primitive(primitive) => Some(primitive_ty(primitive)),
        Resolution::IntrinsicFunction(name) => if (name.0 as int) < env.names.len() {
            intrinsic_ty(env.names[name.0 as int])
        } else {
            None
        },
        Resolution::Local(_) => None,
    }
}

/// The types of the first `n` type expressions of a list.
pub open spec fn hir_tys(env: Env, list: Vec<Rc<hir::Type>>, n: nat) -> Option<Seq<Ty>>
    decreases list, n,
{
    if n == 0 || n > list@.len() {
        Some(Seq::empty())
    } else {
        match (hir_tys(env, list, (n - 1) as nat), hir_ty(env, *list@[n - 1])) {
            (Some(before), Some(last)) => Some(before.push(last)),
            _ => None,
        }
    }
}

/// The type that a type expression stands for.
pub open spec fn hir_ty(env: Env, ty: hir::Type) -> Option<Ty>
    decreases ty, 0nat,
{
    match ty.kind {
        hir::TypeKind::Unit => Some(Ty::Unit),
        hir::TypeKind::Path(path) => if path.segments@.len() > 0 {
            resolution_ty(env, path.segments@.last().resolution)
        } else {
            None
        },
        hir::TypeKind::Pointer(inner) => match hir_ty(env, *inner) {
            Some(t) => Some(Ty::Pointer(Box::new(t))),
            None => None,
        },
        hir::TypeKind::Slice(inner) => match hir_ty(env, *inner) {
            Some(t) => Some(Ty::Slice(Box::new(t))),
            None => None,
        },
        hir::TypeKind::Array { ty: inner, length } => match hir_ty(env, *inner) {
            Some(t) => Some(Ty::Array { ty: Box::new(t), length }),
            None => None,
        },
        hir::TypeKind::Tuple(list) => match hir_tys(env, list, list@.len()) {
            Some(t) => Some(Ty::Tuple(t)),
            None => None,
        },
        hir::TypeKind::FunctionPointer { parameters, return_type, is_variadic } => match (
            hir_tys(env, parameters, parameters@.len()),
            match return_type {
                Some(t) => hir_ty(env, *t),
                None => Some(Ty::Unit),
            },
        ) {
            (Some(p), Some(r)) => Some(
                Ty::FunctionPointer { parameters: p, return_type: Box::new(r), is_variadic },
            ),
            _ => None,
        },
        hir::TypeKind::Any => Some(Ty::Any),
    }
}

/// The type of the `self` parameter of a function, if it has one. There is no
/// result where such a function does not belong to a structure.
pub open spec fn self_ty(env: Env, name: Path, signature: FunctionSignature) -> Option<
    Option<Ty>,
> {
    match signature.self_parameter {
        None => Some(None),
        Some(parameter) => if name.segments@.len() == 0 {
            None
        } else {
            match name.segments@[0].resolution {
                Resolution::Definition(DefinitionKind::Struct, id) => if env.defs.contains_key(
                    id.0,
                ) {
                    Some(
                        Some(
                            match parameter {
                                SelfParameter::Owned => env.defs[id.0],
                                SelfParameter::Pointer { .. } => Ty::Pointer(
                                    Box::new(env.defs[id.0]),
                                ),
                            },
                        ),
                    )
                } else {
                    None
                },
                _ => None,
            }
        },
    }
}

/// The type of a function.
pub open spec fn signature_ty(env: Env, name: Path, signature: FunctionSignature) -> Option<Ty> {
    match (
        self_ty(env, name, signature),
        hir_tys(env, signature.parameters, signature.parameters@.len()),
        match signature.return_type {
            Some(t) => hir_ty(env, *t),
            None => Some(Ty::Unit),
        },
    ) {
        (Some(own), Some(parameters), Some(returned)) => Some(
            Ty::FunctionPointer {
                parameters: (match own {
                    Some(t) => seq![t],
                    None => Seq::empty(),
                }) + parameters,
                return_type: Box::new(returned),
                is_variadic: signature.variadic_type is Some,
            },
        ),
        _ => None,
    }
}

/// The types of the first `n` fields of a structure.
pub open spec fn field_tys(env: Env, fields: Seq<Rc<hir::StructField>>, n: nat) -> Option<
    Seq<(InternedSymbol, Ty)>,
>
    decreases n,
{
    if n == 0 {
        Some(Seq::empty())
    } else {
        match (field_tys(env, fields, (n - 1) as nat), hir_ty(env, *fields[n - 1].ty)) {
            (Some(before), Some(last)) => Some(before.push((fields[n - 1].name.symbol, last))),
            _ => None,
        }
    }
}

/// The type of an item.
pub open spec fn item_ty(env: Env, item: Item) -> Option<Ty> {
    match item.kind {
        ItemKind::Function { name, signature, .. } => signature_ty(env, name, signature),
        ItemKind::Struct { name, fields } => match field_tys(env, fields@, fields@.len()) {
            Some(list) => Some(
                Ty::Struct { def_id: item.owner_id, name: name.symbol, fields: list },
            ),
            None => None,
        },
        ItemKind::Enum { name, .. } => Some(
            Ty::Enum { def_id: item.owner_id, name: name.symbol },
        ),
        ItemKind::TypeAlias { ty, .. } => hir_ty(env, *ty),
        ItemKind::Static { ty, .. } => hir_ty(env, *ty),
    }
}

/// The types of the items of the first `n` owners, each computed from those of
/// the owners before it.
pub open spec fn item_tys(module: Module, names: Seq<Seq<char>>, n: nat) -> Option<Map<u32, Ty>>
    decreases n,
{
    if n == 0 {
        Some(Map::empty())
    } else {
        match item_tys(module, names, (n - 1) as nat) {
            None => None,
            Some(defs) => {
                let owner = module.owners@[n - 1];
                if !owner.is_item() {
                    None
                } else {
                    match item_ty(Env { module, names, defs }, owner.item()) {
                        Some(ty) => Some(defs.insert(owner.item().owner_id.0, ty)),
                        None => None,
                    }
                }
            },
        }
    }
}

/// What the types of some items are.
pub open spec fn def_views(defs: Map<u32, Type>) -> Map<u32, Ty> {
    defs.map_values(|ty: Type| ty@)
}

pub proof fn lemma_def_views_insert(defs: Map<u32, Type>, id: u32, ty: Type)
    ensures
        def_views(defs.insert(id, ty)) == def_views(defs).insert(id, ty@),
{
    assert(def_views(defs.insert(id, ty)) =~= def_views(defs).insert(id, ty@));
}

/// The items of a module and their types so far.
pub struct TypeContext<'hir> {
    /// Module we are type checking
    pub module: &'hir Module,
    /// The names that occur in the module
    pub names: &'hir Interner,
    /// Type interning table to prevent duplicate types
    pub table: TypeTable,
    /// Stores the computed types of top level items in the module, by the
    /// number of their definition
    pub def_id_to_type_map: BTreeMap<u32, Type>,
}

impl<'hir> TypeContext<'hir> {
    /// What types are computed from.
    pub open spec fn env(&self) -> Env {
        Env {
            module: *self.module,
            names: self.names@,
            defs: def_views(self.def_id_to_type_map@),
        }
    }

    /// The table holds every type once.
    pub open spec fn well_formed(&self) -> bool {
        self.table.well_formed()
    }

    /// Starts with no types known.
    pub fn new(module: &'hir Module, names: &'hir Interner) -> (r: Self)
        ensures
            r.well_formed(),
            r.module == module,
            r.names == names,
            r.env() == (Env { module: *module, names: names@, defs: Map::empty() }),
    {
        let r = TypeContext {
            module,
            names,
            table: TypeTable::new(),
            def_id_to_type_map: BTreeMap::new(),
        };
        assert(r.env().defs =~= Map::<u32, Ty>::empty());
        r
    }

    /// Whether only the table has changed.
    pub open spec fn same_env(&self, before: &Self) -> bool {
        &&& self.well_formed()
        &&& self.module == before.module
        &&& self.names == before.names
        &&& self.def_id_to_type_map == before.def_id_to_type_map
    }

    /// The type of a kind, which is held from then on.
    pub fn intern_type(&mut self, kind: TypeKind) -> (r: Type)
        requires
            old(self).well_formed(),
        ensures
            final(self).same_env(old(self)),
            r@ == kind.model(),
    {
        self.table.intern_type(kind)
    }

    /// The type that stands for one that could not be computed.
    pub fn get_error_type(&mut self) -> (r: Type)
        requires
            old(self).well_formed(),
        ensures
            final(self).same_env(old(self)),
            r@ == Ty::Error,
    {
        self.table.get_error_type()
    }

    /// The type `()`.
    pub fn get_unit_type(&mut self) -> (r: Type)
        requires
            old(self).well_formed(),
        ensures
            final(self).same_env(old(self)),
            r@ == Ty::Unit,
    {
        self.table.get_unit_type()
    }

    /// The type of a primitive.
    pub fn get_primitive_type(&mut self, primitive: PrimitiveKind) -> (r: Type)
        requires
            old(self).well_formed(),
        ensures
            final(self).same_env(old(self)),
            r@ == primitive_ty(primitive),
    {
        self.table.get_primitive_type(primitive)
    }

    fn compute_hir_types(&mut self, list: &Vec<Rc<hir::Type>>) -> (r: Vec<Type>)
        requires
            old(self).well_formed(),
            hir_tys(old(self).env(), *list, list@.len()) is Some,
        ensures
            final(self).same_env(old(self)),
            hir_tys(old(self).env(), *list, list@.len()) == Some(types(r@)),
        decreases list,
    {
        let ghost env = self.env();
        let mut out: Vec<Type> = Vec::new();
        let mut i: usize = 0;
        assert(types(out@) =~= Seq::<Ty>::empty());
        while i < list.len()
            invariant
                0 <= i <= list@.len(),
                self.same_env(old(self)),
                env == self.env(),
                env == old(self).env(),
                hir_tys(env, *list, list@.len()) is Some,
                hir_tys(env, *list, i as nat) == Some(types(out@)),
            decreases list@.len() - i,
        {
            proof {
                lemma_hir_tys_prefix(env, *list, i as nat + 1, list@.len());
            }
            let ghost before = types(out@);
            let ty = self.compute_hir_type(&list[i]);
            out.push(ty);
            assert(types(out@) =~= before.push(ty@));
            i = i + 1;
        }
        out
    }

    /// The type that a type expression stands for.
    pub fn compute_hir_type(&mut self, ty: &hir::Type) -> (r: Type)
        requires
            old(self).well_formed(),
            hir_ty(old(self).env(), *ty) is Some,
        ensures
            final(self).same_env(old(self)),
            hir_ty(old(self).env(), *ty) == Some(r@),
        decreases ty,
    {
        match &ty.kind {
            hir::TypeKind::Unit => self.get_unit_type(),
            hir::TypeKind::Path(path) => self.compute_hir_resolution_type(*path.resolution()),
            hir::TypeKind::Pointer(inner) => {
                let inner = self.compute_hir_type(inner);
                self.intern_type(TypeKind::Pointer(inner))
            }
            hir::TypeKind::Slice(inner) => {
                let inner = self.compute_hir_type(inner);
                self.intern_type(TypeKind::Slice(inner))
            }
            hir::TypeKind::Array { ty: inner, length } => {
                let inner = self.compute_hir_type(inner);
                self.intern_type(TypeKind::Array { ty: inner, length: *length })
            }
            hir::TypeKind::Tuple(list) => {
                let list = self.compute_hir_types(list);
                let kind = TypeKind::Tuple(list);
                proof {
                    lemma_parts(kind);
                }
                self.intern_type(kind)
            }
            hir::TypeKind::FunctionPointer { parameters, return_type, is_variadic } => {
                let parameters = self.compute_hir_types(parameters);
                let return_type = match return_type {
                    Some(ty) => self.compute_hir_type(ty),
                    None => self.get_unit_type(),
                };
                let kind = TypeKind::FunctionPointer {
                    parameters,
                    return_type,
                    is_variadic: *is_variadic,
                };
                proof {
                    lemma_parts(kind);
                }
                self.intern_type(kind)
            }
            hir::TypeKind::Any => self.intern_type(TypeKind::Any),
        }
    }

    /// The type of an item that is known.
    pub fn definition_type(&self, id: LocalDefId) -> (r: Type)
        requires
            self.env().defs.contains_key(id.0),
        ensures
            r@ == self.env().defs[id.0],
    {
        match self.def_id_to_type_map.get(&id.0) {
            Some(ty) => ty.duplicate(),
            None => vstd::pervasive::unreached(),
        }
    }

    /// The type of a function with one parameter.
    fn function_type(&mut self, parameter: Type, return_type: Type, is_variadic: bool) -> (r: Type)
        requires
            old(self).well_formed(),
        ensures
            final(self).same_env(old(self)),
            r@ == (Ty::FunctionPointer {
                parameters: seq![parameter@],
                return_type: Box::new(return_type@),
                is_variadic,
            }),
    {
        let ghost shown = parameter@;
        let mut parameters: Vec<Type> = Vec::new();
        parameters.push(parameter);
        assert(types(parameters@) =~= seq![shown]);
        let kind = TypeKind::FunctionPointer { parameters, return_type, is_variadic };
        proof {
            lemma_parts(kind);
        }
        self.intern_type(kind)
    }

    /// The type that a name stands for.
    pub fn compute_hir_resolution_type(&mut self, resolution: Resolution<ItemLocalId>) -> (r: Type)
        requires
            old(self).well_formed(),
            resolution_ty(old(self).env(), resolution) is Some,
        ensures
            final(self).same_env(old(self)),
            resolution_ty(old(self).env(), resolution) == Some(r@),
    {
        match resolution {
            Resolution::Definition(_, local_def_id) => {
                let owner = self.module.get_owner(local_def_id);
                match owner.node() {
                    hir::OwnerNode::Item(item) => self.definition_type(item.owner_id),
                }
            }
            Resolution::Primitive(primitive) => self.get_primitive_type(primitive),
            Resolution::IntrinsicFunction(name) => {
                let text = self.names.value(name);
                if same_text(text, "print") {
                    let return_type = self.get_primitive_type(PrimitiveKind::Int(IntKind::I64));
                    let parameter = self.get_primitive_type(PrimitiveKind::Str);
                    self.function_type(parameter, return_type, true)
                } else if same_text(text, "exit") {
                    let return_type = self.get_primitive_type(PrimitiveKind::Never);
                    let parameter = self.get_primitive_type(PrimitiveKind::UInt(UIntKind::U8));
                    self.function_type(parameter, return_type, false)
                } else {
                    vstd::pervasive::unreached()
                }
            }
            Resolution::Local(_) => vstd::pervasive::unreached(),
        }
    }

    /// The type of the `self` parameter of a function.
    pub fn compute_self_type(&mut self, name: &Path, signature: &FunctionSignature) -> (r: Option<
        Type,
    >)
        requires
            old(self).well_formed(),
            self_ty(old(self).env(), *name, *signature) is Some,
        ensures
            final(self).same_env(old(self)),
            self_ty(old(self).env(), *name, *signature) == Some(
                match r {
                    Some(ty) => Some(ty@),
                    None => None,
                },
            ),
    {
        let self_parameter = match signature.self_parameter {
            Some(parameter) => parameter,
            None => {
                return None;
            }
        };
        let owned_ty = match name.segments[0].resolution {
            Resolution::Definition(DefinitionKind::Struct, implementor_id) => {
                self.definition_type(implementor_id)
            }
            _ => vstd::pervasive::unreached(),
        };
        match self_parameter {
            SelfParameter::Owned => Some(owned_ty),
            SelfParameter::Pointer { .. } => Some(self.intern_type(TypeKind::Pointer(owned_ty))),
        }
    }

    /// The type of a function.
    pub fn compute_type_for_function_signature(
        &mut self,
        name: &Path,
        signature: &FunctionSignature,
    ) -> (r: Type)
        requires
            old(self).well_formed(),
            signature_ty(old(self).env(), *name, *signature) is Some,
        ensures
            final(self).same_env(old(self)),
            signature_ty(old(self).env(), *name, *signature) == Some(r@),
    {
        let self_ty = self.compute_self_type(name, signature);
        let mut given = self.compute_hir_types(&signature.parameters);
        let ghost rest = types(given@);
        let ghost listed = given@;
        let mut parameters: Vec<Type> = Vec::new();
        let ghost own = if self_ty is Some {
            seq![self_ty->0@]
        } else {
            Seq::<Ty>::empty()
        };
        if let Some(ty) = self_ty {
            parameters.push(ty);
        }
        let ghost first = parameters@;
        assert(types(first) =~= own);
        parameters.append(&mut given);
        assert(types(parameters@) =~= own + rest);
        let return_type = match &signature.return_type {
            Some(ty) => self.compute_hir_type(ty),
            None => self.get_unit_type(),
        };
        let kind = TypeKind::FunctionPointer {
            parameters,
            return_type,
            is_variadic: signature.variadic_type.is_some(),
        };
        proof {
            lemma_parts(kind);
        }
        self.intern_type(kind)
    }

    fn compute_field_types(&mut self, fields: &Vec<Rc<hir::StructField>>) -> (r: Vec<StructField>)
        requires
            old(self).well_formed(),
            field_tys(old(self).env(), fields@, fields@.len()) is Some,
        ensures
            final(self).same_env(old(self)),
            field_tys(old(self).env(), fields@, fields@.len()) == Some(fields_of(r@)),
    {
        let ghost env = self.env();
        let mut out: Vec<StructField> = Vec::new();
        let mut i: usize = 0;
        assert(fields_of(out@) =~= Seq::<(InternedSymbol, Ty)>::empty());
        while i < fields.len()
            invariant
                0 <= i <= fields@.len(),
                self.same_env(old(self)),
                env == self.env(),
                env == old(self).env(),
                field_tys(env, fields@, fields@.len()) is Some,
                field_tys(env, fields@, i as nat) == Some(fields_of(out@)),
            decreases fields@.len() - i,
        {
            proof {
                lemma_field_tys_prefix(env, fields@, i as nat + 1, fields@.len());
            }
            let ghost before = fields_of(out@);
            let name = fields[i].name.symbol;
            let ty = self.compute_hir_type(&fields[i].ty);
            let ghost shown = ty@;
            out.push(StructField { name, ty });
            assert(fields_of(out@) =~= before.push((name, shown)));
            i = i + 1;
        }
        out
    }

    /// Computes the type of a top level item and adds it to the type
    /// resolution map
    pub fn visit_item(&mut self, item: &Item)
        requires
            old(self).well_formed(),
            item_ty(old(self).env(), *item) is Some,
        ensures
            final(self).well_formed(),
            final(self).module == old(self).module,
            final(self).names == old(self).names,
            final(self).env().defs == old(self).env().defs.insert(
                item.owner_id.0,
                item_ty(old(self).env(), *item)->0,
            ),
    {
        let ty = match &item.kind {
            ItemKind::Function { name, signature, .. } => {
                self.compute_type_for_function_signature(name, signature)
            }
            ItemKind::Struct { name, fields } => {
                let fields = self.compute_field_types(fields);
                let kind = TypeKind::Struct {
                    def_id: item.owner_id,
                    name: name.symbol,
                    fields,
                };
                proof {
                    lemma_parts(kind);
                }
                self.intern_type(kind)
            }
            ItemKind::Enum { name, .. } => {
                self.intern_type(TypeKind::Enum { def_id: item.owner_id, name: name.symbol })
            }
            ItemKind::TypeAlias { ty, .. } => self.compute_hir_type(ty),
            ItemKind::Static { ty, .. } => self.compute_hir_type(ty),
        };
        proof {
            lemma_def_views_insert(self.def_id_to_type_map@, item.owner_id.0, ty);
        }
        self.def_id_to_type_map.insert(item.owner_id.0, ty);
    }

    /// Traverses the top level items in a module and computes their types,
    /// adding them to a type resolution map
    pub fn index_module(&mut self)
        requires
            old(self).well_formed(),
            old(self).env().defs == Map::<u32, Ty>::empty(),
            item_tys(
                *old(self).module,
                old(self).names@,
                old(self).module.owners@.len(),
            ) is Some,
        ensures
            final(self).well_formed(),
            final(self).module == old(self).module,
            final(self).names == old(self).names,
            item_tys(
                *old(self).module,
                old(self).names@,
                old(self).module.owners@.len(),
            ) == Some(final(self).env().defs),
    {
        let module = self.module;
        let owners = module.owners.enumerate();
        let mut i: usize = 0;
        while i < owners.len()
            invariant
                0 <= i <= owners@.len(),
                module == old(self).module,
                owners@.len() == module.owners@.len(),
                forall|k: int|
                    0 <= k < owners@.len() ==> *(#[trigger] owners@[k]).1 == module.owners@[k],
                self.well_formed(),
                self.module == old(self).module,
                self.names == old(self).names,
                item_tys(*module, self.names@, module.owners@.len()) is Some,
                item_tys(*module, self.names@, i as nat) == Some(self.env().defs),
            decreases owners@.len() - i,
        {
            proof {
                lemma_item_tys_prefix(*module, self.names@, i as nat + 1, module.owners@.len());
            }
            let (_, owner) = owners[i];
            assert(*owners@[i as int].1 == module.owners@[i as int]);
            match owner.node() {
                hir::OwnerNode::Item(item) => {
                    self.visit_item(&item);
                }
            }
            i = i + 1;
        }
    }
}

proof fn lemma_hir_tys_prefix(env: Env, list: Vec<Rc<hir::Type>>, n: nat, m: nat)
    requires
        n <= m <= list@.len(),
        hir_tys(env, list, m) is Some,
    ensures
        hir_tys(env, list, n) is Some,
    decreases m - n,
{
    if n < m {
        lemma_hir_tys_prefix(env, list, n, (m - 1) as nat);
    }
}

proof fn lemma_field_tys_prefix(env: Env, fields: Seq<Rc<hir::StructField>>, n: nat, m: nat)
    requires
        n <= m,
        field_tys(env, fields, m) is Some,
    ensures
        field_tys(env, fields, n) is Some,
    decreases m - n,
{
    if n < m {
        lemma_field_tys_prefix(env, fields, n, (m - 1) as nat);
    }
}

proof fn lemma_item_tys_prefix(module: Module, names: Seq<Seq<char>>, n: nat, m: nat)
    requires
        n <= m,
        item_tys(module, names, m) is Some,
    ensures
        item_tys(module, names, n) is Some,
    decreases m - n,
{
    if n < m {
        lemma_item_tys_prefix(module, names, n, (m - 1) as nat);
    }
}

} // verus!
