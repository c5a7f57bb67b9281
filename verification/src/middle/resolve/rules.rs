//! What the names of a module are resolved to.

use crate::frontend::ast::visit::{Node, Visit};
use crate::frontend::ast::{
    EnumVariant, FunctionDefinition, FunctionParameter, Identifier, Import, Item, ItemKind, Local,
    Module, ModuleId, NodeId, QualifiedIdentifier,
};
use crate::frontend::intern::{interned, symbol_of, InternedSymbol};
use crate::frontend::lexer::Span;
use crate::index::wrap32;
use crate::middle::hir::{DefinitionKind, LocalDefId, Resolution};
use crate::middle::primitive::{all_primitives, PrimitiveKind};
use crate::middle::resolve::scope::{binding, bound};
use crate::middle::resolve::Namespace;
use vstd::prelude::*;

verus! {

/// What is wrong with a name.
#[derive(Debug, Clone, Copy, PartialEq, Eq, Structural)]
pub enum NameFault {
    /// A name was defined twice in a module.
    DuplicateDefinition,
    /// The name of a function has too many segments, or none.
    IllegalFunctionName,
    /// An import leads nowhere.
    UnresolvedImport,
    /// A name was bound twice in a scope.
    DuplicateBinding,
    /// A name stands for nothing.
    UnresolvedName,
}

/// Something that is wrong with a name, and where.
#[derive(Debug, Clone, Copy, PartialEq, Eq, Structural)]
pub struct NameError {
    pub fault: NameFault,
    pub span: Span,
}

/// A pair of numbers as one.
pub open spec fn pair_key(a: u32, b: u32) -> u64 {
    (a as int * 0x1_0000_0000 + b as int) as u64
}

/// No two pairs are the same number.
pub proof fn law_pairs_apart(a: u32, b: u32, c: u32, d: u32)
    requires
        pair_key(a, b) == pair_key(c, d),
    ensures
        a == c,
        b == d,
{
}

/// The definitions in a module, by name. Methods are found by the names of
/// their type and their own, variants by the number of their enum and their
/// name.
pub struct Definitions {
    pub values: Map<u32, (DefinitionKind, LocalDefId)>,
    pub types: Map<u32, (DefinitionKind, LocalDefId)>,
    pub methods: Map<u64, LocalDefId>,
    pub members: Map<u64, LocalDefId>,
}

/// What names stand for everywhere in a module.
pub struct Globals {
    pub values: Map<u32, Resolution<NodeId>>,
    pub types: Map<u32, Resolution<NodeId>>,
}

/// The state of resolving names.
pub struct Naming {
    pub next: LocalDefId,
    pub nodes: Map<u32, LocalDefId>,
    /// By the numbers of modules.
    pub definitions: Map<u32, Definitions>,
    pub globals: Map<u32, Globals>,
    pub values: Map<u32, Resolution<NodeId>>,
    pub types: Map<u32, Resolution<NodeId>>,
}

/// No definitions.
pub open spec fn no_definitions() -> Definitions {
    Definitions {
        values: Map::empty(),
        types: Map::empty(),
        methods: Map::empty(),
        members: Map::empty(),
    }
}

/// The definitions of a module.
pub open spec fn definitions_of(st: Naming, module: ModuleId) -> Definitions {
    if st.definitions.contains_key(module.0) {
        st.definitions[module.0]
    } else {
        no_definitions()
    }
}

/// Definitions with one more.
pub open spec fn defined(
    defs: Definitions,
    ty_name: Option<InternedSymbol>,
    parent: Option<LocalDefId>,
    name: InternedSymbol,
    kind: DefinitionKind,
    id: LocalDefId,
) -> Definitions {
    match kind {
        DefinitionKind::Function | DefinitionKind::Constant | DefinitionKind::Static => Definitions {
            values: defs.values.insert(name.0, (kind, id)),
            ..defs
        },
        DefinitionKind::AssociatedFunction => Definitions {
            methods: defs.methods.insert(pair_key((ty_name->0).0, name.0), id),
            ..defs
        },
        DefinitionKind::EnumVariant => Definitions {
            members: defs.members.insert(pair_key((parent->0).0, name.0), id),
            ..defs
        },
        DefinitionKind::Struct
        | DefinitionKind::Enum
        | DefinitionKind::Union
        | DefinitionKind::Alias => Definitions {
            types: defs.types.insert(name.0, (kind, id)),
            ..defs
        },
    }
}

/// A definition more, with the next number.
pub open spec fn with_definition(
    st: Naming,
    module: ModuleId,
    node: NodeId,
    ty_name: Option<InternedSymbol>,
    parent: Option<LocalDefId>,
    name: InternedSymbol,
    kind: DefinitionKind,
) -> Naming {
    Naming {
        next: LocalDefId(wrap32(st.next.0 as int + 1) as u32),
        nodes: st.nodes.insert(node.0, st.next),
        definitions: st.definitions.insert(
            module.0,
            defined(definitions_of(st, module), ty_name, parent, name, kind, st.next),
        ),
        ..st
    }
}

/// A complaint.
pub open spec fn refused<T>(fault: NameFault, span: Span) -> Result<T, NameError> {
    Err(NameError { fault, span })
}

/// A definition more in the namespace of types, unless the name has one.
pub open spec fn type_defined(
    st: Naming,
    module: ModuleId,
    node: NodeId,
    name: Identifier,
    kind: DefinitionKind,
) -> Result<Naming, NameError> {
    if definitions_of(st, module).types.contains_key(name.symbol.0) {
        refused(NameFault::DuplicateDefinition, name.span)
    } else {
        Ok(with_definition(st, module, node, None, None, name.symbol, kind))
    }
}

/// The first `n` variants of an enum.
pub open spec fn variants_defined(
    st: Naming,
    module: ModuleId,
    parent: LocalDefId,
    variants: Seq<EnumVariant>,
    n: nat,
) -> Result<Naming, NameError>
    decreases n,
{
    if n == 0 {
        Ok(st)
    } else {
        let variant = variants[n - 1];
        match variants_defined(st, module, parent, variants, (n - 1) as nat) {
            Err(e) => Err(e),
            Ok(before) => if definitions_of(before, module).members.contains_key(
                pair_key(parent.0, variant.name.symbol.0),
            ) {
                refused(NameFault::DuplicateDefinition, variant.span)
            } else {
                Ok(
                    with_definition(
                        before,
                        module,
                        variant.id,
                        None,
                        Some(parent),
                        variant.name.symbol,
                        DefinitionKind::EnumVariant,
                    ),
                )
            },
        }
    }
}

/// A function or method more.
pub open spec fn function_defined(
    st: Naming,
    module: ModuleId,
    node: NodeId,
    name: QualifiedIdentifier,
) -> Result<Naming, NameError> {
    let segments = name.segments@;
    let defs = definitions_of(st, module);
    if segments.len() == 1 {
        let own = segments[0];
        if defs.values.contains_key(own.symbol.0) {
            refused(NameFault::DuplicateDefinition, own.span)
        } else {
            let after = with_definition(
                st,
                module,
                node,
                None,
                None,
                own.symbol,
                DefinitionKind::Function,
            );
            Ok(
                Naming {
                    values: after.values.insert(
                        own.id.0,
                        Resolution::Definition(DefinitionKind::Function, st.next),
                    ),
                    ..after
                },
            )
        }
    } else if segments.len() == 2 {
        if defs.methods.contains_key(pair_key(segments[0].symbol.0, segments[1].symbol.0)) {
            refused(NameFault::DuplicateDefinition, name.span)
        } else {
            Ok(
                with_definition(
                    st,
                    module,
                    node,
                    Some(segments[0].symbol),
                    None,
                    segments[1].symbol,
                    DefinitionKind::AssociatedFunction,
                ),
            )
        }
    } else {
        refused(NameFault::IllegalFunctionName, name.span)
    }
}

/// The definitions that an item makes.
pub open spec fn item_defined(st: Naming, module: ModuleId, item: Item) -> Result<
    Naming,
    NameError,
> {
    match item.kind {
        ItemKind::FunctionDefinition(function) => function_defined(
            st,
            module,
            item.id,
            function.signature.name,
        ),
        ItemKind::StructDefinition(definition) => type_defined(
            st,
            module,
            item.id,
            definition.name,
            DefinitionKind::Struct,
        ),
        ItemKind::EnumDefinition(definition) => match type_defined(
            st,
            module,
            item.id,
            definition.name,
            DefinitionKind::Enum,
        ) {
            Err(e) => Err(e),
            Ok(after) => variants_defined(
                after,
                module,
                st.next,
                definition.variants@,
                definition.variants@.len(),
            ),
        },
        ItemKind::TypeAlias(alias) => type_defined(
            st,
            module,
            item.id,
            alias.name,
            DefinitionKind::Alias,
        ),
        ItemKind::Static(static_) => if definitions_of(st, module).values.contains_key(
            static_.name.symbol.0,
        ) {
            refused(NameFault::DuplicateDefinition, static_.name.span)
        } else {
            Ok(
                with_definition(
                    st,
                    module,
                    item.id,
                    None,
                    None,
                    static_.name.symbol,
                    DefinitionKind::Static,
                ),
            )
        },
        ItemKind::Module(_) | ItemKind::Import(_) => Ok(st),
    }
}

/// The definitions along the first `n` steps of a walk.
pub open spec fn definitions_along(
    st: Naming,
    module: ModuleId,
    visits: Seq<Visit<'_>>,
    n: nat,
) -> Result<Naming, NameError>
    decreases n,
{
    if n == 0 {
        Ok(st)
    } else {
        match definitions_along(st, module, visits, (n - 1) as nat) {
            Err(e) => Err(e),
            Ok(before) => match visits[n - 1] {
                Visit::Enter(Node::Item(item)) => item_defined(before, module, *item),
                _ => Ok(before),
            },
        }
    }
}

/// The state before the definitions of a module.
pub open spec fn without_definitions(st: Naming, module: ModuleId) -> Naming {
    Naming { definitions: st.definitions.insert(module.0, no_definitions()), ..st }
}

/// What definitions stand for.
pub open spec fn resolutions(defs: Map<u32, (DefinitionKind, LocalDefId)>) -> Map<
    u32,
    Resolution<NodeId>,
> {
    defs.map_values(|d: (DefinitionKind, LocalDefId)| Resolution::Definition(d.0, d.1))
}

/// The global names of a module.
pub open spec fn globals_of(st: Naming, module: ModuleId) -> Globals {
    if st.globals.contains_key(module.0) {
        st.globals[module.0]
    } else {
        Globals { values: Map::empty(), types: Map::empty() }
    }
}

/// With the definitions of a module among its global names. There is no result
/// where they have not been collected.
pub open spec fn definitions_global(st: Naming, module: ModuleId) -> Option<Naming> {
    if !st.definitions.contains_key(module.0) {
        None
    } else {
        let defs = st.definitions[module.0];
        let globals = globals_of(st, module);
        Some(
            Naming {
                globals: st.globals.insert(
                    module.0,
                    Globals {
                        values: globals.values.union_prefer_right(resolutions(defs.values)),
                        types: globals.types.union_prefer_right(resolutions(defs.types)),
                    },
                ),
                ..st
            },
        )
    }
}

/// The module with a name among the first `n` children of another one.
pub open spec fn child_named(
    children: Seq<(InternedSymbol, ModuleId)>,
    name: InternedSymbol,
    n: nat,
) -> Option<ModuleId>
    decreases n,
{
    if n == 0 {
        None
    } else if children[n - 1].0 == name {
        Some(children[n - 1].1)
    } else {
        child_named(children, name, (n - 1) as nat)
    }
}

/// A module that is found, or not.
pub enum Found {
    Module(ModuleId),
    Nothing,
}

/// The module that the names from number `i` on lead to from another one. There is
/// no result where a module does not exist.
pub open spec fn module_along(
    modules: Seq<Module>,
    current: ModuleId,
    path: Seq<InternedSymbol>,
    i: nat,
) -> Option<Found>
    decreases path.len() - i,
{
    if i >= path.len() {
        Some(Found::Module(current))
    } else if (current.0 as int) >= modules.len() {
        None
    } else {
        let children = modules[current.0 as int].children@;
        match child_named(children, path[i as int], children.len()) {
            None => Some(Found::Nothing),
            Some(next) => module_along(modules, next, path, i + 1),
        }
    }
}

/// With a definition among the global names of a module, if there is one.
pub open spec fn imported_into(
    names: Map<u32, Resolution<NodeId>>,
    defs: Map<u32, (DefinitionKind, LocalDefId)>,
    name: u32,
) -> Map<u32, Resolution<NodeId>> {
    if defs.contains_key(name) {
        names.insert(name, Resolution::Definition(defs[name].0, defs[name].1))
    } else {
        names
    }
}

/// The symbols of the segments of a name but the first.
pub open spec fn import_path(name: QualifiedIdentifier) -> Seq<InternedSymbol> {
    Seq::new((name.segments@.len() - 1) as nat, |i: int| name.segments@[i + 1].symbol)
}

/// An import adds what its name stands for in another module to the global
/// names. There is no result for imports from outside of the crate, and for
/// those of the root itself.
pub open spec fn import_resolved(
    modules: Seq<Module>,
    names: Seq<Seq<char>>,
    st: Naming,
    module: ModuleId,
    import: Import,
) -> Option<Result<Naming, NameError>> {
    let segments = import.name.segments@;
    if segments.len() == 0 || (segments[0].symbol.0 as int) >= names.len()
        || names[segments[0].symbol.0 as int] != "crate"@ || !st.globals.contains_key(module.0) {
        None
    } else if segments.len() == 1 {
        Some(refused(NameFault::UnresolvedImport, import.name.span))
    } else if segments.len() == 2 {
        None
    } else {
        let path = import_path(import.name).drop_last();
        let name = segments.last().symbol.0;
        match module_along(modules, ModuleId(0), path, 0) {
            None => None,
            Some(Found::Nothing) => Some(refused(NameFault::UnresolvedImport, import.name.span)),
            Some(Found::Module(from)) => if !st.definitions.contains_key(from.0) {
                None
            } else {
                let defs = st.definitions[from.0];
                let globals = st.globals[module.0];
                Some(
                    if defs.types.contains_key(name) || defs.values.contains_key(name) {
                        Ok(
                            Naming {
                                globals: st.globals.insert(
                                    module.0,
                                    Globals {
                                        values: imported_into(globals.values, defs.values, name),
                                        types: imported_into(globals.types, defs.types, name),
                                    },
                                ),
                                ..st
                            },
                        )
                    } else {
                        refused(NameFault::UnresolvedImport, import.name.span)
                    },
                )
            },
        }
    }
}

/// The imports along the first `n` steps of a walk.
pub open spec fn imports_along(
    modules: Seq<Module>,
    names: Seq<Seq<char>>,
    st: Naming,
    module: ModuleId,
    visits: Seq<Visit<'_>>,
    n: nat,
) -> Option<Result<Naming, NameError>>
    decreases n,
{
    if n == 0 {
        Some(Ok(st))
    } else {
        match imports_along(modules, names, st, module, visits, (n - 1) as nat) {
            None => None,
            Some(Err(e)) => Some(Err(e)),
            Some(Ok(before)) => match visits[n - 1] {
                Visit::Enter(Node::Import(import)) => import_resolved(
                    modules,
                    names,
                    before,
                    module,
                    *import,
                ),
                _ => Some(Ok(before)),
            },
        }
    }
}

/// The names that are built into the language.
pub struct Builtins {
    pub primitives: Map<u32, PrimitiveKind>,
    pub functions: Set<u32>,
}

/// What a name stands for at a place within some scopes.
pub open spec fn symbol_resolved(
    builtins: Builtins,
    st: Naming,
    module: ModuleId,
    scopes: Seq<Map<u32, Resolution<NodeId>>>,
    name: InternedSymbol,
    namespace: Namespace,
) -> Option<Resolution<NodeId>> {
    match namespace {
        Namespace::Type => if builtins.primitives.contains_key(name.0) {
            Some(Resolution::Primitive(builtins.primitives[name.0]))
        } else if globals_of(st, module).types.contains_key(name.0) {
            Some(globals_of(st, module).types[name.0])
        } else {
            None
        },
        Namespace::Value => if builtins.functions.contains(name.0) {
            Some(Resolution::IntrinsicFunction(name))
        } else {
            match binding(scopes, name.0, scopes.len()) {
                Some(resolution) => Some(resolution),
                None => if globals_of(st, module).values.contains_key(name.0) {
                    Some(globals_of(st, module).values[name.0])
                } else {
                    None
                },
            }
        },
    }
}

/// What is resolved at a place, and the scopes around it.
pub struct Resolving {
    pub st: Naming,
    pub scopes: Seq<Map<u32, Resolution<NodeId>>>,
}

impl Resolving {
    /// With what a name of a value stands for.
    pub open spec fn with_value(self, id: NodeId, resolution: Resolution<NodeId>) -> Resolving {
        Resolving {
            st: Naming { values: self.st.values.insert(id.0, resolution), ..self.st },
            ..self
        }
    }

    /// With what a name of a type stands for.
    pub open spec fn with_type(self, id: NodeId, resolution: Resolution<NodeId>) -> Resolving {
        Resolving {
            st: Naming { types: self.st.types.insert(id.0, resolution), ..self.st },
            ..self
        }
    }

    /// With a scope more.
    pub open spec fn inside(self) -> Resolving {
        Resolving { scopes: self.scopes.push(Map::empty()), ..self }
    }

    /// With a scope less.
    pub open spec fn outside(self) -> Resolving {
        Resolving { scopes: self.scopes.drop_last(), ..self }
    }
}

/// Binds a name in the innermost scope, unless it is bound there.
pub open spec fn name_bound(r: Resolving, name: Identifier, id: NodeId) -> Option<
    Result<Resolving, NameError>,
> {
    if r.scopes.len() == 0 {
        None
    } else {
        Some(
            if r.scopes.last().contains_key(name.symbol.0) {
                refused(NameFault::DuplicateBinding, name.span)
            } else {
                Ok(
                    Resolving {
                        scopes: bound(r.scopes, name.symbol.0, Resolution::Local(id)),
                        ..r
                    },
                )
            },
        )
    }
}

/// A function is entered: the names of a method are resolved, and a scope is
/// opened for its parameters.
pub open spec fn function_entered(
    builtins: Builtins,
    r: Resolving,
    module: ModuleId,
    name: QualifiedIdentifier,
) -> Option<Result<Resolving, NameError>> {
    let segments = name.segments@;
    if r.scopes.len() != 0 || !r.st.definitions.contains_key(module.0)
        || !r.st.globals.contains_key(module.0) {
        None
    } else if segments.len() == 2 {
        match symbol_resolved(
            builtins,
            r.st,
            module,
            r.scopes,
            segments[0].symbol,
            Namespace::Type,
        ) {
            None => Some(refused(NameFault::UnresolvedName, segments[0].span)),
            Some(ty) => {
                let key = pair_key(segments[0].symbol.0, segments[1].symbol.0);
                let methods = r.st.definitions[module.0].methods;
                if methods.contains_key(key) {
                    Some(
                        Ok(
                            r.with_type(segments[0].id, ty).with_value(
                                segments[1].id,
                                Resolution::Definition(DefinitionKind::Function, methods[key]),
                            ).inside(),
                        ),
                    )
                } else {
                    None
                }
            },
        }
    } else {
        Some(Ok(r.inside()))
    }
}

/// What the second segment of a name stands for, if anything: a method of a
/// type, or a variant of an enum.
pub open spec fn member_resolved(
    defs: Definitions,
    first: Resolution<NodeId>,
    ty_name: InternedSymbol,
    name: InternedSymbol,
) -> Option<Resolution<NodeId>> {
    let method = pair_key(ty_name.0, name.0);
    if defs.methods.contains_key(method) {
        Some(Resolution::Definition(DefinitionKind::AssociatedFunction, defs.methods[method]))
    } else {
        match first {
            Resolution::Definition(DefinitionKind::Enum, id) => if defs.members.contains_key(
                pair_key(id.0, name.0),
            ) {
                Some(
                    Resolution::Definition(
                        DefinitionKind::EnumVariant,
                        defs.members[pair_key(id.0, name.0)],
                    ),
                )
            } else {
                None
            },
            _ => None,
        }
    }
}

/// A name is resolved: for values one of one or two segments, for types one of
/// one. There is no result for longer ones.
pub open spec fn name_resolved(
    builtins: Builtins,
    r: Resolving,
    module: ModuleId,
    name: QualifiedIdentifier,
    namespace: Namespace,
) -> Option<Result<Resolving, NameError>> {
    let segments = name.segments@;
    if !r.st.definitions.contains_key(module.0) || !r.st.globals.contains_key(module.0) {
        None
    } else if segments.len() == 1 {
        Some(
            match symbol_resolved(
                builtins,
                r.st,
                module,
                r.scopes,
                segments[0].symbol,
                namespace,
            ) {
                None => refused(NameFault::UnresolvedName, segments[0].span),
                Some(resolution) => Ok(
                    match namespace {
                        Namespace::Value => r.with_value(name.id, resolution).with_value(
                            segments[0].id,
                            resolution,
                        ),
                        Namespace::Type => r.with_type(name.id, resolution).with_type(
                            segments[0].id,
                            resolution,
                        ),
                    },
                ),
            },
        )
    } else if segments.len() == 2 && namespace is Value {
        Some(
            match symbol_resolved(
                builtins,
                r.st,
                module,
                r.scopes,
                segments[0].symbol,
                Namespace::Type,
            ) {
                None => refused(NameFault::UnresolvedName, segments[0].span),
                Some(first) => match member_resolved(
                    r.st.definitions[module.0],
                    first,
                    segments[0].symbol,
                    segments[1].symbol,
                ) {
                    None => refused(NameFault::UnresolvedName, segments[1].span),
                    Some(second) => Ok(
                        r.with_type(segments[0].id, first).with_value(
                            segments[1].id,
                            second,
                        ).with_value(name.id, second),
                    ),
                },
            },
        )
    } else {
        None
    }
}

/// A step of a walk through a module whose global names are known.
pub open spec fn visit_resolved(
    builtins: Builtins,
    r: Resolving,
    module: ModuleId,
    visit: Visit<'_>,
) -> Option<Result<Resolving, NameError>> {
    match visit {
        Visit::Enter(Node::FunctionDefinition(function)) => function_entered(
            builtins,
            r,
            module,
            function.signature.name,
        ),
        Visit::Enter(Node::FunctionParameter(parameter)) => name_bound(
            r,
            parameter.name,
            parameter.id,
        ),
        Visit::Enter(Node::Static(_)) => if r.scopes.len() != 0 {
            None
        } else {
            Some(Ok(r.inside()))
        },
        Visit::Enter(Node::Block(_)) => Some(Ok(r.inside())),
        Visit::Enter(Node::QualifiedIdentifier(name, namespace)) => match namespace {
            None => Some(Ok(r)),
            Some(ns) => name_resolved(builtins, r, module, *name, ns),
        },
        Visit::Leave(Node::Local(local)) => name_bound(r, local.name, local.id),
        Visit::Leave(Node::FunctionDefinition(_))
        | Visit::Leave(Node::Static(_))
        | Visit::Leave(Node::Block(_)) => if r.scopes.len() == 0 {
            None
        } else {
            Some(Ok(r.outside()))
        },
        _ => Some(Ok(r)),
    }
}

/// The names along the first `n` steps of a walk.
pub open spec fn names_along(
    builtins: Builtins,
    r: Resolving,
    module: ModuleId,
    visits: Seq<Visit<'_>>,
    n: nat,
) -> Option<Result<Resolving, NameError>>
    decreases n,
{
    if n == 0 {
        Some(Ok(r))
    } else {
        match names_along(builtins, r, module, visits, (n - 1) as nat) {
            None => None,
            Some(Err(e)) => Some(Err(e)),
            Some(Ok(before)) => visit_resolved(builtins, before, module, visits[n - 1]),
        }
    }
}

/// The names of the first `n` primitive types, interned.
pub open spec fn primitive_names(names: Seq<Seq<char>>, n: nat) -> (
    Seq<Seq<char>>,
    Map<u32, PrimitiveKind>,
)
    decreases n,
{
    if n == 0 {
        (names, Map::empty())
    } else {
        let (before, map) = primitive_names(names, (n - 1) as nat);
        let kind = all_primitives()[n - 1];
        (
            interned(before, kind.shown()),
            map.insert(symbol_of(before, kind.shown()) as u32, kind),
        )
    }
}

/// The names of the functions that are built in.
pub open spec fn function_names() -> Seq<Seq<char>> {
    seq!["print"@, "exit"@, "str"@, "read"@, "open"@, "close"@]
}

/// The first `n` of the functions that are built in, interned.
pub open spec fn intrinsic_names(names: Seq<Seq<char>>, n: nat) -> (Seq<Seq<char>>, Set<u32>)
    decreases n,
{
    if n == 0 {
        (names, Set::empty())
    } else {
        let (before, set) = intrinsic_names(names, (n - 1) as nat);
        let text = function_names()[n - 1];
        (interned(before, text), set.insert(symbol_of(before, text) as u32))
    }
}

} // verus!
