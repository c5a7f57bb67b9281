//! Resolves the names in the syntax tree.

use crate::frontend::ast::{EnumVariant, Module, ModuleId, NodeId};
use crate::frontend::intern::{InternedSymbol, Interner};
use crate::index::{successor, Index, IndexVec};
use crate::middle::hir::{DefinitionKind, LocalDefId, Resolution};
use crate::middle::primitive::{all_primitives, PrimitiveKind};
use crate::middle::resolve::rules::{
    definitions_of, function_names, intrinsic_names, no_definitions, pair_key, primitive_names,
    with_definition, Builtins, Definitions, Globals, NameError, Naming,
};
use std::collections::{BTreeMap, BTreeSet};
use vstd::prelude::*;

pub mod collect;
pub mod early;
pub mod krate;
pub mod late;
pub mod meaning;
pub mod report;
pub mod rules;
pub mod scope;
pub mod scoping;

verus! {

broadcast use vstd::std_specs::btree::group_btree_axioms;

/// What a name stands for: a value or a type.
#[derive(Debug, Clone, Copy, PartialEq, Eq, Structural)]
pub enum Namespace {
    Value,
    Type,
}

/// A pair of numbers as one.
pub(crate) fn pair(a: u32, b: u32) -> (r: u64)
    ensures
        r == pair_key(a, b),
{
    a as u64 * 0x1_0000_0000 + b as u64
}

/// Tracks the value and type definitions within a particular module
/// (constructed during definition collection)
pub struct LocalDefinitionMap {
    pub values: BTreeMap<u32, (DefinitionKind, LocalDefId)>,
    pub types: BTreeMap<u32, (DefinitionKind, LocalDefId)>,
    /// Maps methods on type names to their definitions
    pub methods: BTreeMap<u64, LocalDefId>,
    /// Maps the members of enums to their definitions
    pub enum_members: BTreeMap<u64, LocalDefId>,
}

impl View for LocalDefinitionMap {
    type V = Definitions;

    open spec fn view(&self) -> Definitions {
        Definitions {
            values: self.values@,
            types: self.types@,
            methods: self.methods@,
            members: self.enum_members@,
        }
    }
}

impl LocalDefinitionMap {
    pub(crate) fn empty() -> (r: Self)
        ensures
            r@ == no_definitions(),
    {
        let r = LocalDefinitionMap {
            values: BTreeMap::new(),
            types: BTreeMap::new(),
            methods: BTreeMap::new(),
            enum_members: BTreeMap::new(),
        };
        assert(r@.values =~= no_definitions().values);
        assert(r@.types =~= no_definitions().types);
        assert(r@.methods =~= no_definitions().methods);
        assert(r@.members =~= no_definitions().members);
        r
    }
}

/// Map of identifiers in the global scope to their resolutions (constructed
/// during definition collection and import resolution)
pub struct GlobalScope {
    pub value_scope: BTreeMap<u32, Resolution<NodeId>>,
    pub type_scope: BTreeMap<u32, Resolution<NodeId>>,
}

impl View for GlobalScope {
    type V = Globals;

    open spec fn view(&self) -> Globals {
        Globals { values: self.value_scope@, types: self.type_scope@ }
    }
}

/// The result of resolving everything in a module
pub struct ResolutionMap {
    /// Maps AST item node ids to their def ids
    pub node_to_def_id_map: BTreeMap<u32, LocalDefId>,
    /// Maps the usage of value identifiers (variable names) to their point of
    /// original definition
    pub value_name_resolutions: BTreeMap<u32, Resolution<NodeId>>,
    /// Maps the usage of type identifiers to their point of original definition
    pub type_name_resolutions: BTreeMap<u32, Resolution<NodeId>>,
}

/// AST name resolver
///
/// Traverses the AST for a crate and creates a map from type and value names
/// to their definitions within the source code. Maps are by the numbers of
/// symbols, nodes and modules.
pub struct Resolver<'a> {
    pub module_map: &'a IndexVec<ModuleId, Module>,
    /// A list of built-in type names which we allow resolutions for
    pub builtin_primitives: BTreeMap<u32, PrimitiveKind>,
    /// A list of built-in function names which we allow resolutions for
    pub builtin_functions: BTreeSet<u32>,
    /// Used to keep track of the definitions that exist within the current crate
    pub next_local_def_id: LocalDefId,
    /// Maps the IDs of AST owners to the def IDs we've assigned to them
    pub node_to_local_def_id_map: BTreeMap<u32, LocalDefId>,
    /// constructed during definition collection
    pub local_definition_maps: BTreeMap<u32, LocalDefinitionMap>,
    /// constructed during early resolution
    pub global_scopes: BTreeMap<u32, GlobalScope>,
    /// Maps name references to definitions
    pub value_name_resolutions: BTreeMap<u32, Resolution<NodeId>>,
    pub type_name_resolutions: BTreeMap<u32, Resolution<NodeId>>,
}

/// Whether a call came out as it is said to.
pub open spec fn comes_to<T>(r: Result<(), NameError>, after: T, expected: Result<T, NameError>) -> bool {
    match expected {
        Ok(st) => r is Ok && after == st,
        Err(e) => r == Err::<(), NameError>(e),
    }
}

/// What the definitions in modules are.
pub open spec fn definition_views(maps: Map<u32, LocalDefinitionMap>) -> Map<u32, Definitions> {
    maps.map_values(|m: LocalDefinitionMap| m@)
}

/// What the global names of modules are.
pub open spec fn scope_views(maps: Map<u32, GlobalScope>) -> Map<u32, Globals> {
    maps.map_values(|m: GlobalScope| m@)
}

impl<'a> View for Resolver<'a> {
    type V = Naming;

    open spec fn view(&self) -> Naming {
        Naming {
            next: self.next_local_def_id,
            nodes: self.node_to_local_def_id_map@,
            definitions: definition_views(self.local_definition_maps@),
            globals: scope_views(self.global_scopes@),
            values: self.value_name_resolutions@,
            types: self.type_name_resolutions@,
        }
    }
}

/// Interns the names of the primitive types.
fn intern_primitives(names: &mut Interner) -> (r: BTreeMap<u32, PrimitiveKind>)
    requires
        old(names).well_formed(),
        old(names)@.len() + 32 <= 0x1_0000_0000,
    ensures
        final(names).well_formed(),
        final(names)@.len() <= old(names)@.len() + 18,
        (final(names)@, r@) == primitive_names(old(names)@, 18),
{
    let all = PrimitiveKind::all();
    let ghost first = names@;
    let mut map: BTreeMap<u32, PrimitiveKind> = BTreeMap::new();
    let mut i: usize = 0;
    assert(map@ =~= Map::empty());
    while i < all.len()
        invariant
            0 <= i <= all@.len(),
            all@ == all_primitives(),
            names.well_formed(),
            first.len() + 32 <= 0x1_0000_0000,
            names@.len() <= first.len() + i,
            (names@, map@) == primitive_names(first, i as nat),
        decreases all@.len() - i,
    {
        let symbol = names.intern(all[i].name());
        map.insert(symbol.0, all[i]);
        i = i + 1;
    }
    map
}

/// Interns the names of the functions that are built in.
fn intern_functions(names: &mut Interner) -> (r: BTreeSet<u32>)
    requires
        old(names).well_formed(),
        old(names)@.len() + 6 <= 0x1_0000_0000,
    ensures
        final(names).well_formed(),
        (final(names)@, r@) == intrinsic_names(old(names)@, 6),
{
    let all: [&str; 6] = ["print", "exit", "str", "read", "open", "close"];
    let ghost first = names@;
    let mut set: BTreeSet<u32> = BTreeSet::new();
    let mut i: usize = 0;
    assert(set@ =~= Set::empty());
    while i < 6
        invariant
            0 <= i <= 6,
            all@.len() == 6,
            forall|k: int| 0 <= k < 6 ==> (#[trigger] all@[k])@ == function_names()[k],
            names.well_formed(),
            first.len() + 6 <= 0x1_0000_0000,
            names@.len() <= first.len() + i,
            (names@, set@) == intrinsic_names(first, i as nat),
        decreases 6 - i,
    {
        assert(all@[i as int]@ == function_names()[i as int]);
        let symbol = names.intern(all[i]);
        set.insert(symbol.0);
        i = i + 1;
    }
    set
}

/// The names that are built into the language, interned.
pub open spec fn builtins_of(names: Seq<Seq<char>>) -> (Seq<Seq<char>>, Builtins) {
    let (before, primitives) = primitive_names(names, 18);
    let (after, functions) = intrinsic_names(before, 6);
    (after, Builtins { primitives, functions })
}

/// Nothing has been resolved.
pub open spec fn unresolved() -> Naming {
    Naming {
        next: LocalDefId(0),
        nodes: Map::empty(),
        definitions: Map::empty(),
        globals: Map::empty(),
        values: Map::empty(),
        types: Map::empty(),
    }
}

impl<'a> Resolver<'a> {
    /// The names that are built in.
    pub open spec fn builtins(&self) -> Builtins {
        Builtins { primitives: self.builtin_primitives@, functions: self.builtin_functions@ }
    }

    /// Whether the resolver works on the same modules as another one.
    pub open spec fn same_crate(&self, other: &Self) -> bool {
        self.module_map == other.module_map && self.builtins() == other.builtins()
    }

    /// A resolver for the modules of a crate.
    pub fn new(module_map: &'a IndexVec<ModuleId, Module>, names: &mut Interner) -> (r: Self)
        requires
            old(names).well_formed(),
            old(names)@.len() + 32 <= 0x1_0000_0000,
        ensures
            final(names).well_formed(),
            (final(names)@, r.builtins()) == builtins_of(old(names)@),
            r.module_map == module_map,
            r@ == unresolved(),
    {
        let builtin_primitives = intern_primitives(names);
        let builtin_functions = intern_functions(names);
        let r = Resolver {
            module_map,
            builtin_primitives,
            builtin_functions,
            next_local_def_id: LocalDefId(0),
            node_to_local_def_id_map: BTreeMap::new(),
            local_definition_maps: BTreeMap::new(),
            global_scopes: BTreeMap::new(),
            value_name_resolutions: BTreeMap::new(),
            type_name_resolutions: BTreeMap::new(),
        };
        assert(r@.nodes =~= unresolved().nodes);
        assert(r@.definitions =~= unresolved().definitions);
        assert(r@.globals =~= unresolved().globals);
        assert(r@.values =~= unresolved().values);
        assert(r@.types =~= unresolved().types);
        r
    }

    /// Records a definition in several maps. The name is added to the
    /// appropriate global scope once the names of its module are resolved.
    pub fn create_definition(
        &mut self,
        module_id: ModuleId,
        node_id: NodeId,
        ty_name: Option<InternedSymbol>,
        parent: Option<LocalDefId>,
        name: InternedSymbol,
        kind: DefinitionKind,
    ) -> (r: LocalDefId)
        requires
            kind is AssociatedFunction ==> ty_name is Some,
            kind is EnumVariant ==> parent is Some,
        ensures
            final(self).same_crate(old(self)),
            r == old(self)@.next,
            final(self)@ == with_definition(
                old(self)@,
                module_id,
                node_id,
                ty_name,
                parent,
                name,
                kind,
            ),
    {
        let ghost before = self@;
        let local_def_id = self.next_local_def_id;
        self.next_local_def_id = LocalDefId(successor(local_def_id.0));
        self.node_to_local_def_id_map.insert(node_id.0, local_def_id);
        let mut def_map = match self.local_definition_maps.remove(&module_id.0) {
            Some(map) => map,
            None => LocalDefinitionMap::empty(),
        };
        assert(def_map@ == definitions_of(before, module_id));
        match kind {
            // value ns
            DefinitionKind::Function | DefinitionKind::Constant | DefinitionKind::Static => {
                def_map.values.insert(name.0, (kind, local_def_id));
            }
            DefinitionKind::AssociatedFunction => match ty_name {
                Some(ty) => {
                    def_map.methods.insert(pair(ty.0, name.0), local_def_id);
                }
                None => {}
            },
            DefinitionKind::EnumVariant => match parent {
                Some(id) => {
                    def_map.enum_members.insert(pair(id.0, name.0), local_def_id);
                }
                None => {}
            },
            // type ns
            DefinitionKind::Struct
            | DefinitionKind::Enum
            | DefinitionKind::Union
            | DefinitionKind::Alias => {
                def_map.types.insert(name.0, (kind, local_def_id));
            }
        }
        self.local_definition_maps.insert(module_id.0, def_map);
        assert(self@.definitions =~= with_definition(
            before,
            module_id,
            node_id,
            ty_name,
            parent,
            name,
            kind,
        ).definitions);
        local_def_id
    }

    /// Returns the useful output of the resolver after successfully completing
    /// resolutions and macro expansions in the requested modules
    pub fn into_outputs(self) -> (r: ResolutionMap)
        ensures
            r.node_to_def_id_map@ == self@.nodes,
            r.value_name_resolutions@ == self@.values,
            r.type_name_resolutions@ == self@.types,
    {
        ResolutionMap {
            node_to_def_id_map: self.node_to_local_def_id_map,
            value_name_resolutions: self.value_name_resolutions,
            type_name_resolutions: self.type_name_resolutions,
        }
    }

    /// Whether a name is defined in the namespace of values of a module.
    pub(crate) fn defines_value(&self, module: ModuleId, name: InternedSymbol) -> (r: bool)
        ensures
            r == definitions_of(self@, module).values.contains_key(name.0),
    {
        match self.local_definition_maps.get(&module.0) {
            Some(map) => map.values.contains_key(&name.0),
            None => false,
        }
    }

    /// Whether a name is defined in the namespace of types of a module.
    pub(crate) fn defines_type(&self, module: ModuleId, name: InternedSymbol) -> (r: bool)
        ensures
            r == definitions_of(self@, module).types.contains_key(name.0),
    {
        match self.local_definition_maps.get(&module.0) {
            Some(map) => map.types.contains_key(&name.0),
            None => false,
        }
    }

    /// The method of a type in a module.
    pub(crate) fn method_of(&self, module: ModuleId, ty: InternedSymbol, name: InternedSymbol) -> (r: Option<
        LocalDefId,
    >)
        ensures
            r == (if definitions_of(self@, module).methods.contains_key(pair_key(ty.0, name.0)) {
                Some(definitions_of(self@, module).methods[pair_key(ty.0, name.0)])
            } else {
                None
            }),
    {
        match self.local_definition_maps.get(&module.0) {
            Some(map) => match map.methods.get(&pair(ty.0, name.0)) {
                Some(id) => Some(*id),
                None => None,
            },
            None => None,
        }
    }

    /// The member of an enum in a module.
    pub(crate) fn member_of(&self, module: ModuleId, parent: LocalDefId, name: InternedSymbol) -> (r: Option<
        LocalDefId,
    >)
        ensures
            r == (if definitions_of(self@, module).members.contains_key(
                pair_key(parent.0, name.0),
            ) {
                Some(definitions_of(self@, module).members[pair_key(parent.0, name.0)])
            } else {
                None
            }),
    {
        match self.local_definition_maps.get(&module.0) {
            Some(map) => match map.enum_members.get(&pair(parent.0, name.0)) {
                Some(id) => Some(*id),
                None => None,
            },
            None => None,
        }
    }
}

} // verus!
