//! What the names in a module mean, by where they stand.

use crate::frontend::ast::visit::{Node, Visit};
use crate::frontend::ast::{
    Import, Item, ItemKind, Module, ModuleId, NodeId, QualifiedIdentifier,
};
use crate::frontend::intern::InternedSymbol;
use crate::frontend::lexer::Span;
use crate::middle::hir::{DefinitionKind, LocalDefId, Resolution};
use crate::middle::resolve::rules::{
    child_named, definitions_global, definitions_of, import_path, import_resolved, item_defined,
    module_along, name_resolved, names_along, pair_key, resolutions, symbol_resolved,
    visit_resolved, with_definition, Builtins, Found, NameError, NameFault, Naming, Resolving,
};
use crate::middle::resolve::scope::binding;
use crate::middle::resolve::Namespace;
use vstd::prelude::*;

verus! {

proof fn lemma_binding_found<R>(scopes: Seq<Map<u32, R>>, name: u32, k: nat, n: nat)
    requires
        k < n <= scopes.len(),
        scopes[k as int].contains_key(name),
        forall|j: int| k < j < n ==> !(#[trigger] scopes[j]).contains_key(name),
    ensures
        binding(scopes, name, n) == Some(scopes[k as int][name]),
    decreases n,
{
    if k + 1 < n {
        assert(!scopes[n - 1].contains_key(name));
        lemma_binding_found(scopes, name, k, (n - 1) as nat);
    }
}

proof fn lemma_binding_missing<R>(scopes: Seq<Map<u32, R>>, name: u32, n: nat)
    requires
        n <= scopes.len(),
        forall|j: int| 0 <= j < n ==> !(#[trigger] scopes[j]).contains_key(name),
    ensures
        binding(scopes, name, n) is None,
    decreases n,
{
    if n > 0 {
        assert(!scopes[n - 1].contains_key(name));
        lemma_binding_missing(scopes, name, (n - 1) as nat);
    }
}

/// The name of a value that is not built in and that a scope binds stands for
/// what the innermost of those scopes binds it to, whatever the global names
/// are.
pub proof fn law_innermost_scope_wins(
    builtins: Builtins,
    st: Naming,
    module: ModuleId,
    scopes: Seq<Map<u32, Resolution<NodeId>>>,
    name: InternedSymbol,
    k: nat,
)
    requires
        !builtins.functions.contains(name.0),
        k < scopes.len(),
        scopes[k as int].contains_key(name.0),
        forall|j: int| k < j < scopes.len() ==> !(#[trigger] scopes[j]).contains_key(name.0),
    ensures
        symbol_resolved(builtins, st, module, scopes, name, Namespace::Value) == Some(
            scopes[k as int][name.0],
        ),
{
    lemma_binding_found(scopes, name.0, k, scopes.len());
}

/// The name of a value that is not built in and that no scope binds stands for
/// what it stands for everywhere in its module, if for anything.
pub proof fn law_globals_come_last(
    builtins: Builtins,
    st: Naming,
    module: ModuleId,
    scopes: Seq<Map<u32, Resolution<NodeId>>>,
    name: InternedSymbol,
)
    requires
        !builtins.functions.contains(name.0),
        st.globals.contains_key(module.0),
        forall|j: int| 0 <= j < scopes.len() ==> !(#[trigger] scopes[j]).contains_key(name.0),
    ensures
        symbol_resolved(builtins, st, module, scopes, name, Namespace::Value) == (
        if st.globals[module.0].values.contains_key(name.0) {
            Some(st.globals[module.0].values[name.0])
        } else {
            None
        }),
{
    lemma_binding_missing(scopes, name.0, scopes.len());
}

/// Names that are built in stand for what is built in, whatever else has the
/// name, and the names of other types for what they stand for everywhere in
/// their module.
pub proof fn law_built_in_names_come_first(
    builtins: Builtins,
    st: Naming,
    module: ModuleId,
    scopes: Seq<Map<u32, Resolution<NodeId>>>,
    name: InternedSymbol,
)
    requires
        st.globals.contains_key(module.0),
    ensures
        builtins.functions.contains(name.0) ==> symbol_resolved(
            builtins,
            st,
            module,
            scopes,
            name,
            Namespace::Value,
        ) == Some(Resolution::<NodeId>::IntrinsicFunction(name)),
        builtins.primitives.contains_key(name.0) ==> symbol_resolved(
            builtins,
            st,
            module,
            scopes,
            name,
            Namespace::Type,
        ) == Some(Resolution::<NodeId>::Primitive(builtins.primitives[name.0])),
        !builtins.primitives.contains_key(name.0) ==> symbol_resolved(
            builtins,
            st,
            module,
            scopes,
            name,
            Namespace::Type,
        ) == (if st.globals[module.0].types.contains_key(name.0) {
            Some(st.globals[module.0].types[name.0])
        } else {
            None
        }),
{
}

/// Whether a step of a walk enters a function, a static variable or a block.
pub open spec fn opens(visit: Visit<'_>) -> bool {
    match visit {
        Visit::Enter(Node::FunctionDefinition(_)) => true,
        Visit::Enter(Node::Static(_)) => true,
        Visit::Enter(Node::Block(_)) => true,
        _ => false,
    }
}

/// Whether a step of a walk leaves a function, a static variable or a block.
pub open spec fn shuts(visit: Visit<'_>) -> bool {
    match visit {
        Visit::Leave(Node::FunctionDefinition(_)) => true,
        Visit::Leave(Node::Static(_)) => true,
        Visit::Leave(Node::Block(_)) => true,
        _ => false,
    }
}

/// How deep in functions and blocks a walk is before the step with number `i`.
pub open spec fn depth(visits: Seq<Visit<'_>>, i: nat) -> int
    decreases i,
{
    if i == 0 {
        0
    } else {
        depth(visits, (i - 1) as nat) + (if opens(visits[i - 1]) {
            1int
        } else if shuts(visits[i - 1]) {
            -1int
        } else {
            0
        })
    }
}

/// The name that a step of a walk declares, and the node that it stands for from
/// then on: a parameter as it is met, and a local variable once its initial value
/// is behind.
pub open spec fn declared(visit: Visit<'_>) -> Option<(u32, NodeId)> {
    match visit {
        Visit::Enter(Node::FunctionParameter(parameter)) => Some(
            (parameter.name.symbol.0, parameter.id),
        ),
        Visit::Leave(Node::Local(local)) => Some((local.name.symbol.0, local.id)),
        _ => None,
    }
}

/// Whether the step with number `j` declares a name in a function or block that
/// has not been left before the step with number `i`.
pub open spec fn in_scope(visits: Seq<Visit<'_>>, j: nat, i: nat, name: u32) -> bool {
    &&& j < i
    &&& declared(visits[j as int]) matches Some((n, _)) && n == name
    &&& forall|m: nat| j < m <= i ==> #[trigger] depth(visits, m) >= depth(visits, j)
}

/// Whether the scopes before a step are what was declared.
spec fn is_current(
    visits: Seq<Visit<'_>>,
    i: nat,
    scopes: Seq<Map<u32, Resolution<NodeId>>>,
) -> bool {
    &&& scopes.len() == depth(visits, i)
    &&& forall|d: int, name: u32|
        0 <= d < scopes.len() && #[trigger] scopes[d].contains_key(name) ==> exists|j: nat|
            #[trigger] in_scope(visits, j, i, name) && depth(visits, j) == d + 1
    &&& forall|j: nat, name: u32| #[trigger]
        in_scope(visits, j, i, name) ==> {
            let d = depth(visits, j) - 1;
            &&& 0 <= d < scopes.len()
            &&& scopes[d].contains_key(name)
            &&& scopes[d][name] == Resolution::Local((declared(visits[j as int])->0).1)
        }
}

proof fn lemma_in_scope_before(visits: Seq<Visit<'_>>, j: nat, i: nat, name: u32)
    requires
        in_scope(visits, j, i + 1, name),
        j < i,
    ensures
        in_scope(visits, j, i, name),
{
}

proof fn lemma_in_scope_after(visits: Seq<Visit<'_>>, j: nat, i: nat, name: u32)
    requires
        in_scope(visits, j, i, name),
        depth(visits, i + 1) >= depth(visits, j),
    ensures
        in_scope(visits, j, i + 1, name),
{
    assert forall|m: nat| j < m <= i + 1 implies #[trigger] depth(visits, m) >= depth(
        visits,
        j,
    ) by {
        if m == i + 1 {
        } else {
            assert(m <= i);
        }
    }
}

proof fn lemma_current_step(
    builtins: Builtins,
    module: ModuleId,
    visits: Seq<Visit<'_>>,
    i: nat,
    before: Resolving,
    after: Resolving,
)
    requires
        i < visits.len(),
        is_current(visits, i, before.scopes),
        visit_resolved(builtins, before, module, visits[i as int]) == Some(
            Ok::<Resolving, NameError>(after),
        ),
    ensures
        is_current(visits, i + 1, after.scopes),
{
    let visit = visits[i as int];
    assert(depth(visits, i + 1) == depth(visits, i) + (if opens(visit) {
        1int
    } else if shuts(visit) {
        -1int
    } else {
        0
    }));
    let (a, b) = (before.scopes, after.scopes);
    assert(b.len() == depth(visits, i + 1));
    assert(opens(visit) ==> b == a.push(Map::empty()));
    assert(shuts(visit) ==> b == a.drop_last());
    assert(!opens(visit) && !shuts(visit) && declared(visit) is None ==> b == a);
    assert forall|d: int, name: u32|
        0 <= d < b.len() && #[trigger] b[d].contains_key(name) implies exists|j: nat|
        #[trigger] in_scope(visits, j, i + 1, name) && depth(visits, j) == d + 1 by {
        if declared(visit) matches Some((n, _)) && n == name && d == b.len() - 1 {
            assert(in_scope(visits, i, i + 1, name)) by {
                assert forall|m: nat| i < m <= i + 1 implies #[trigger] depth(visits, m)
                    >= depth(visits, i) by {
                    assert(m == i + 1);
                }
            }
        } else {
            assert(d < a.len() && a[d].contains_key(name));
            let j = choose|j: nat|
                #[trigger] in_scope(visits, j, i, name) && depth(visits, j) == d + 1;
            lemma_in_scope_after(visits, j, i, name);
        }
    }
    assert forall|j: nat, name: u32| #[trigger] in_scope(visits, j, i + 1, name) implies {
        let d = depth(visits, j) - 1;
        &&& 0 <= d < b.len()
        &&& b[d].contains_key(name)
        &&& b[d][name] == Resolution::Local((declared(visits[j as int])->0).1)
    } by {
        let d = depth(visits, j) - 1;
        assert(depth(visits, i + 1) >= depth(visits, j));
        if j == i {
            assert(declared(visit) is Some);
            assert(b.len() == a.len() && d == b.len() - 1);
        } else {
            lemma_in_scope_before(visits, j, i, name);
            assert(0 <= d < a.len() && a[d].contains_key(name));
            if declared(visit) is Some && d == a.len() - 1 {
                assert((declared(visit)->0).0 != name);
            }
        }
    }
}

proof fn lemma_current(
    builtins: Builtins,
    r: Resolving,
    module: ModuleId,
    visits: Seq<Visit<'_>>,
    i: nat,
)
    requires
        r.scopes.len() == 0,
        i <= visits.len(),
    ensures
        names_along(builtins, r, module, visits, i) matches Some(Ok(done)) ==> is_current(
            visits,
            i,
            done.scopes,
        ),
    decreases i,
{
    if i > 0 {
        lemma_current(builtins, r, module, visits, (i - 1) as nat);
        if let Some(Ok(before)) = names_along(builtins, r, module, visits, (i - 1) as nat) {
            if let Some(Ok(after)) = names_along(builtins, r, module, visits, i) {
                lemma_current_step(builtins, module, visits, (i - 1) as nat, before, after);
            }
        }
    }
}

/// Whether a step of a walk comes across the name of a value of one segment.
pub open spec fn uses_value(visit: Visit<'_>, id: NodeId, name: u32) -> bool {
    visit matches Visit::Enter(Node::QualifiedIdentifier(q, Some(Namespace::Value)))
        && q.segments@.len() == 1 && q.id == id && q.segments@[0].symbol.0 == name
}

/// Where a name that is not built in is used, and has been declared in a function
/// or block around that place, it stands for the last such declaration. So inner
/// declarations hide outer ones and global names, those of blocks that have been
/// left are forgotten, and an initial value does not see its own variable.
pub proof fn law_name_means_last_declaration(
    builtins: Builtins,
    r: Resolving,
    module: ModuleId,
    visits: Seq<Visit<'_>>,
    i: nat,
    id: NodeId,
    name: u32,
    j: nat,
)
    requires
        r.scopes.len() == 0,
        i < visits.len(),
        uses_value(visits[i as int], id, name),
        !builtins.functions.contains(name),
        in_scope(visits, j, i, name),
        forall|k: nat| j < k < i ==> !#[trigger] in_scope(visits, k, i, name),
    ensures
        names_along(builtins, r, module, visits, i + 1) matches Some(Ok(done)) ==> {
            &&& done.st.values.contains_key(id.0)
            &&& done.st.values[id.0] == Resolution::Local((declared(visits[j as int])->0).1)
        },
{
    lemma_current(builtins, r, module, visits, i);
    if let Some(Ok(done)) = names_along(builtins, r, module, visits, i + 1) {
        let before = names_along(builtins, r, module, visits, i)->0->Ok_0;
        let scopes = before.scopes;
        let d = depth(visits, j) - 1;
        assert(scopes[d].contains_key(name));
        assert forall|e: int| d < e < scopes.len() implies !(
        #[trigger] scopes[e]).contains_key(name) by {
            if scopes[e].contains_key(name) {
                let k = choose|k: nat|
                    #[trigger] in_scope(visits, k, i, name) && depth(visits, k) == e + 1;
                if k < j {
                    assert(depth(visits, j) >= depth(visits, k));
                } else if k == j {
                } else {
                    assert(!in_scope(visits, k, i, name));
                }
            }
        }
        law_innermost_scope_wins(
            builtins,
            before.st,
            module,
            scopes,
            InternedSymbol(name),
            d as nat,
        );
    }
}

/// Where a name that is not built in is used, and has not been declared in a
/// function or block around that place, it stands for what it stands for
/// everywhere in the module. Where it stands for nothing there, that is an error.
pub proof fn law_undeclared_name_is_global(
    builtins: Builtins,
    r: Resolving,
    module: ModuleId,
    visits: Seq<Visit<'_>>,
    i: nat,
    id: NodeId,
    name: u32,
)
    requires
        r.scopes.len() == 0,
        i < visits.len(),
        uses_value(visits[i as int], id, name),
        !builtins.functions.contains(name),
        forall|k: nat| !#[trigger] in_scope(visits, k, i, name),
    ensures
        names_along(builtins, r, module, visits, i + 1) matches Some(Ok(done)) ==> {
            &&& done.st.globals[module.0].values.contains_key(name)
            &&& done.st.values.contains_key(id.0)
            &&& done.st.values[id.0] == done.st.globals[module.0].values[name]
        },
{
    lemma_current(builtins, r, module, visits, i);
    if let Some(Ok(done)) = names_along(builtins, r, module, visits, i + 1) {
        let before = names_along(builtins, r, module, visits, i)->0->Ok_0;
        let scopes = before.scopes;
        assert forall|e: int| 0 <= e < scopes.len() implies !(
        #[trigger] scopes[e]).contains_key(name) by {
            if scopes[e].contains_key(name) {
                let k = choose|k: nat|
                    #[trigger] in_scope(visits, k, i, name) && depth(visits, k) == e + 1;
                assert(!in_scope(visits, k, i, name));
            }
        }
        law_globals_come_last(builtins, before.st, module, scopes, InternedSymbol(name));
    }
}

/// A name is declared at most once in the same function or block: where a walk
/// comes to its end without an error, no two declarations of a name are in scope
/// at the same depth.
pub proof fn law_declared_once(
    builtins: Builtins,
    r: Resolving,
    module: ModuleId,
    visits: Seq<Visit<'_>>,
    i: nat,
    j: nat,
    name: u32,
)
    requires
        r.scopes.len() == 0,
        i < visits.len(),
        in_scope(visits, j, i, name),
        declared(visits[i as int]) matches Some((n, _)) && n == name,
        depth(visits, j) == depth(visits, i),
    ensures
        !(names_along(builtins, r, module, visits, i + 1) matches Some(Ok(_))),
{
    lemma_current(builtins, r, module, visits, i);
}

/// The name of a method or variant of a type, behind that of the type: a method
/// that was defined for the type by its name, or else a variant that was defined
/// for the enum. The name of the type stands for the type.
pub proof fn law_member_names(
    builtins: Builtins,
    r: Resolving,
    module: ModuleId,
    name: QualifiedIdentifier,
)
    requires
        name.segments@.len() == 2,
        r.st.definitions.contains_key(module.0),
        r.st.globals.contains_key(module.0),
        name.segments@[1].id != name.id,
    ensures
        name_resolved(builtins, r, module, name, Namespace::Value) matches Some(Ok(done)) ==> {
            let (ty, member) = (name.segments@[0], name.segments@[1]);
            let defs = r.st.definitions[module.0];
            let method = pair_key(ty.symbol.0, member.symbol.0);
            let found = done.st.values[name.id.0];
            &&& done.st.types.contains_key(ty.id.0)
            &&& symbol_resolved(
                builtins,
                r.st,
                module,
                r.scopes,
                ty.symbol,
                Namespace::Type,
            ) == Some(done.st.types[ty.id.0])
            &&& done.st.values.contains_key(name.id.0)
            &&& done.st.values.contains_key(member.id.0) && done.st.values[member.id.0] == found
            &&& defs.methods.contains_key(method) ==> found == Resolution::<NodeId>::Definition(
                DefinitionKind::AssociatedFunction,
                defs.methods[method],
            )
            &&& !defs.methods.contains_key(method) ==> (
            done.st.types[ty.id.0] matches Resolution::Definition(DefinitionKind::Enum, e) && {
                let variant = pair_key(e.0, member.symbol.0);
                &&& defs.members.contains_key(variant)
                &&& found == Resolution::<NodeId>::Definition(
                    DefinitionKind::EnumVariant,
                    defs.members[variant],
                )
            })
        },
{
}

/// What an item defines is found by its name, with a number of its own: functions
/// and static variables among the values, methods by the names of their type and
/// their own, structures, enums and aliases among the types, and variants by their
/// enum and name. What was defined before under other names is kept, and so is
/// what other modules define.
pub proof fn law_definitions_are_found(
    st: Naming,
    module: ModuleId,
    node: NodeId,
    ty_name: Option<InternedSymbol>,
    parent: Option<LocalDefId>,
    name: InternedSymbol,
    kind: DefinitionKind,
)
    requires
        kind is AssociatedFunction ==> ty_name is Some,
        kind is EnumVariant ==> parent is Some,
    ensures
        ({
            let after = with_definition(st, module, node, ty_name, parent, name, kind);
            let (old_defs, defs) = (definitions_of(st, module), after.definitions[module.0]);
            let id = st.next;
            &&& after.definitions.contains_key(module.0)
            &&& after.nodes.contains_key(node.0) && after.nodes[node.0] == id
            &&& st.next.0 < u32::MAX ==> after.next.0 == st.next.0 + 1
            &&& match kind {
                DefinitionKind::Function | DefinitionKind::Constant | DefinitionKind::Static => {
                    defs.values.contains_key(name.0) && defs.values[name.0] == (kind, id)
                },
                DefinitionKind::AssociatedFunction => {
                    let key = pair_key((ty_name->0).0, name.0);
                    defs.methods.contains_key(key) && defs.methods[key] == id
                },
                DefinitionKind::EnumVariant => {
                    let key = pair_key((parent->0).0, name.0);
                    defs.members.contains_key(key) && defs.members[key] == id
                },
                _ => defs.types.contains_key(name.0) && defs.types[name.0] == (kind, id),
            }
            &&& forall|k: u32|
                k != name.0 && old_defs.values.contains_key(k) ==> defs.values.contains_key(k)
                    && #[trigger] defs.values[k] == old_defs.values[k]
            &&& forall|k: u32|
                k != name.0 && old_defs.types.contains_key(k) ==> defs.types.contains_key(k)
                    && #[trigger] defs.types[k] == old_defs.types[k]
            &&& forall|k: u32|
                k != module.0 && st.definitions.contains_key(k) ==> after.definitions.contains_key(
                    k,
                ) && #[trigger] after.definitions[k] == st.definitions[k]
        }),
{
}

/// A name can be defined once in a module: a function or static variable with the
/// name of another value, a method with the name of another one of its type, a
/// type with the name of another type, and a variant with the name of another one
/// of its enum are refused. Others are not.
pub proof fn law_defined_once(st: Naming, module: ModuleId, item: &Item)
    ensures
        ({
            let defs = definitions_of(st, module);
            let refusal = |span: Span|
                item_defined(st, module, *item) == Err::<Naming, NameError>(
                    NameError { fault: NameFault::DuplicateDefinition, span },
                );
            match item.kind {
                ItemKind::FunctionDefinition(function) => {
                    let segments = function.signature.name.segments@;
                    &&& segments.len() == 1 ==> if defs.values.contains_key(segments[0].symbol.0) {
                        refusal(segments[0].span)
                    } else {
                        item_defined(st, module, *item) is Ok
                    }
                    &&& segments.len() == 2 ==> if defs.methods.contains_key(
                        pair_key(segments[0].symbol.0, segments[1].symbol.0),
                    ) {
                        refusal(function.signature.name.span)
                    } else {
                        item_defined(st, module, *item) is Ok
                    }
                    &&& segments.len() != 1 && segments.len() != 2 ==> item_defined(
                        st,
                        module,
                        *item,
                    ) == Err::<Naming, NameError>(
                        NameError {
                            fault: NameFault::IllegalFunctionName,
                            span: function.signature.name.span,
                        },
                    )
                },
                ItemKind::StructDefinition(d) => if defs.types.contains_key(d.name.symbol.0) {
                    refusal(d.name.span)
                } else {
                    item_defined(st, module, *item) is Ok
                },
                ItemKind::TypeAlias(d) => if defs.types.contains_key(d.name.symbol.0) {
                    refusal(d.name.span)
                } else {
                    item_defined(st, module, *item) is Ok
                },
                ItemKind::EnumDefinition(d) => defs.types.contains_key(d.name.symbol.0) ==> refusal(
                    d.name.span,
                ),
                ItemKind::Static(d) => if defs.values.contains_key(d.name.symbol.0) {
                    refusal(d.name.span)
                } else {
                    item_defined(st, module, *item) is Ok
                },
                _ => item_defined(st, module, *item) == Ok::<Naming, NameError>(st),
            }
        }),
{
}

/// What a module defines has its name everywhere in the module, whatever had the
/// name before. Other names are kept, and so are those of other modules.
pub proof fn law_definitions_are_global(st: Naming, module: ModuleId)
    requires
        st.definitions.contains_key(module.0),
    ensures
        definitions_global(st, module) matches Some(after) && {
            let defs = st.definitions[module.0];
            let globals = after.globals[module.0];
            &&& after.globals.contains_key(module.0)
            &&& forall|k: u32| #[trigger]
                defs.values.contains_key(k) ==> globals.values.contains_key(k) && globals.values[k]
                    == Resolution::<NodeId>::Definition(defs.values[k].0, defs.values[k].1)
            &&& forall|k: u32| #[trigger]
                defs.types.contains_key(k) ==> globals.types.contains_key(k) && globals.types[k]
                    == Resolution::<NodeId>::Definition(defs.types[k].0, defs.types[k].1)
            &&& forall|k: u32|
                k != module.0 && st.globals.contains_key(k) ==> after.globals.contains_key(k)
                    && #[trigger] after.globals[k] == st.globals[k]
        },
{
    let after = definitions_global(st, module)->0;
    let defs = st.definitions[module.0];
    let globals = after.globals[module.0];
    assert forall|k: u32| #[trigger]
        defs.values.contains_key(k) implies globals.values.contains_key(k) && globals.values[k]
        == Resolution::<NodeId>::Definition(defs.values[k].0, defs.values[k].1) by {
        assert(resolutions(defs.values).contains_key(k));
    }
    assert forall|k: u32| #[trigger] defs.types.contains_key(k) implies globals.types.contains_key(
        k,
    ) && globals.types[k] == Resolution::<NodeId>::Definition(
        defs.types[k].0,
        defs.types[k].1,
    ) by {
        assert(resolutions(defs.types).contains_key(k));
    }
}

/// Whether a module is a child of another one under a name.
pub open spec fn is_child(
    modules: Seq<Module>,
    parent: ModuleId,
    name: InternedSymbol,
    child: ModuleId,
) -> bool {
    (parent.0 as int) < modules.len() && modules[parent.0 as int].children@.contains((name, child))
}

/// Whether a chain of modules leads from one to another along names.
pub open spec fn leads_along(
    modules: Seq<Module>,
    chain: Seq<ModuleId>,
    path: Seq<InternedSymbol>,
    from: ModuleId,
    to: ModuleId,
) -> bool {
    &&& chain.len() == path.len() + 1
    &&& chain[0] == from
    &&& chain.last() == to
    &&& forall|k: int|
        0 <= k < path.len() ==> is_child(modules, chain[k], #[trigger] path[k], chain[k + 1])
}

proof fn lemma_child(children: Seq<(InternedSymbol, ModuleId)>, name: InternedSymbol, n: nat)
    requires
        n <= children.len(),
    ensures
        child_named(children, name, n) matches Some(id) ==> children.contains((name, id)),
    decreases n,
{
    if n > 0 {
        lemma_child(children, name, (n - 1) as nat);
        if children[n - 1].0 == name {
            assert(children[n - 1] == (name, children[n - 1].1));
        }
    }
}

/// The module that a path is found to lead to is reached from the first one by
/// going from parent to child along the names of the path.
pub proof fn law_module_path(
    modules: Seq<Module>,
    current: ModuleId,
    path: Seq<InternedSymbol>,
    i: nat,
)
    requires
        i <= path.len(),
    ensures
        module_along(modules, current, path, i) matches Some(Found::Module(found)) ==> exists|
            chain: Seq<ModuleId>,
        | #[trigger] leads_along(modules, chain, path.skip(i as int), current, found),
    decreases path.len() - i,
{
    if let Some(Found::Module(found)) = module_along(modules, current, path, i) {
        let rest = path.skip(i as int);
        if i == path.len() {
            let chain = seq![current];
            assert(leads_along(modules, chain, rest, current, found));
        } else {
            let children = modules[current.0 as int].children@;
            lemma_child(children, path[i as int], children.len());
            let next = child_named(children, path[i as int], children.len())->0;
            law_module_path(modules, next, path, i + 1);
            let tail = choose|tail: Seq<ModuleId>| #[trigger]
                leads_along(modules, tail, path.skip(i as int + 1), next, found);
            let chain = seq![current] + tail;
            assert forall|k: int| 0 <= k < rest.len() implies is_child(
                modules,
                chain[k],
                #[trigger] rest[k],
                chain[k + 1],
            ) by {
                if k > 0 {
                    assert(rest[k] == path.skip(i as int + 1)[k - 1]);
                    assert(chain[k] == tail[k - 1] && chain[k + 1] == tail[k]);
                } else {
                    assert(chain[1] == tail[0]);
                }
            }
            assert(chain.last() == tail.last());
            assert(leads_along(modules, chain, rest, current, found));
        }
    }
}

/// An import makes what its last name stands for in the module that the names before
/// it lead to, from the root of the crate, stand for the same in the module that it
/// is in: a type, a value, or both. Other names are kept. Where there is neither,
/// the import is refused.
pub proof fn law_import(
    modules: Seq<Module>,
    names: Seq<Seq<char>>,
    st: Naming,
    module: ModuleId,
    import: Import,
)
    requires
        import.name.segments@.len() > 2,
    ensures
        ({
            let segments = import.name.segments@;
            let path = Seq::new((segments.len() - 2) as nat, |i: int| segments[i + 1].symbol);
            let name = segments.last().symbol.0;
            match import_resolved(modules, names, st, module, import) {
                Some(Ok(after)) => module_along(modules, ModuleId(0), path, 0) matches Some(
                    Found::Module(from),
                ) && {
                    let (defs, globals) = (st.definitions[from.0], after.globals[module.0]);
                    let before = st.globals[module.0];
                    &&& defs.types.contains_key(name) || defs.values.contains_key(name)
                    &&& defs.types.contains_key(name) ==> globals.types.contains_key(name)
                        && globals.types[name] == Resolution::<NodeId>::Definition(
                        defs.types[name].0,
                        defs.types[name].1,
                    )
                    &&& defs.values.contains_key(name) ==> globals.values.contains_key(name)
                        && globals.values[name] == Resolution::<NodeId>::Definition(
                        defs.values[name].0,
                        defs.values[name].1,
                    )
                    &&& forall|k: u32|
                        k != name && before.values.contains_key(k) ==> globals.values.contains_key(
                            k,
                        ) && #[trigger] globals.values[k] == before.values[k]
                    &&& forall|k: u32|
                        k != name && before.types.contains_key(k) ==> globals.types.contains_key(k)
                            && #[trigger] globals.types[k] == before.types[k]
                },
                Some(Err(error)) => {
                    &&& error.fault == NameFault::UnresolvedImport
                    &&& module_along(modules, ModuleId(0), path, 0) matches Some(
                        Found::Module(from),
                    ) ==> !st.definitions[from.0].types.contains_key(name)
                        && !st.definitions[from.0].values.contains_key(name)
                },
                None => true,
            }
        }),
{
    let segments = import.name.segments@;
    let path = Seq::new((segments.len() - 2) as nat, |i: int| segments[i + 1].symbol);
    assert(import_path(import.name).drop_last() =~= path);
}

} // verus!
