//! Resolves the imports of a module.

use crate::collections::sorted_keys;
use crate::frontend::ast::{Import, Module, ModuleId, NodeId};
use crate::frontend::ast::visit::{Node, Visit};
use crate::frontend::intern::{InternedSymbol, Interner};
use crate::index::Index;
use crate::middle::hir::{DefinitionKind, LocalDefId, Resolution};
use crate::middle::resolve::{comes_to, GlobalScope, Resolver};
use crate::middle::resolve::rules::{
    child_named, definitions_global, globals_of, import_path, import_resolved, imports_along,
    module_along, resolutions, Found, NameError, NameFault, Naming,
};
use std::collections::BTreeMap;
use vstd::prelude::*;

verus! {

broadcast use vstd::std_specs::btree::group_btree_axioms;

/// Adds what definitions stand for to some names.
fn add_definitions(
    scope: &mut BTreeMap<u32, Resolution<NodeId>>,
    defs: &BTreeMap<u32, (DefinitionKind, LocalDefId)>,
)
    ensures
        final(scope)@ == old(scope)@.union_prefer_right(resolutions(defs@)),
{
    let ids = sorted_keys(defs);
    let ghost start = scope@;
    let mut i: usize = 0;
    while i < ids.len()
        invariant
            0 <= i <= ids@.len(),
            crate::collections::lists(ids@, defs@.dom()),
            start == old(scope)@,
            forall|name: u32|
                #![trigger scope@.contains_key(name)]
                scope@.contains_key(name) <==> (start.contains_key(name) || ids@.take(
                    i as int,
                ).contains(name)),
            forall|name: u32|
                #![trigger scope@[name]]
                scope@.contains_key(name) ==> scope@[name] == (if ids@.take(i as int).contains(
                    name,
                ) {
                    resolutions(defs@)[name]
                } else {
                    start[name]
                }),
        decreases ids@.len() - i,
    {
        assert(ids@.contains(ids@[i as int]));
        match defs.get(&ids[i]) {
            Some(def) => {
                let ghost before = scope@;
                scope.insert(ids[i], Resolution::Definition(def.0, def.1));
                proof {
                    let prev = ids@.take(i as int);
                    let next = ids@.take(i + 1);
                    assert(next =~= prev.push(ids@[i as int]));
                    assert forall|name: u32| next.contains(name) <==> (prev.contains(name) || name
                        == ids@[i as int]) by {
                        if prev.contains(name) {
                            let k = choose|k: int| 0 <= k < prev.len() && prev[k] == name;
                            assert(next[k] == name);
                        }
                        if name == ids@[i as int] {
                            assert(next[i as int] == name);
                        }
                        if next.contains(name) {
                            let k = choose|k: int| 0 <= k < next.len() && next[k] == name;
                            if k < i {
                                assert(prev[k] == name);
                            }
                        }
                    }
                }
            }
            None => vstd::pervasive::unreached(),
        }
        i = i + 1;
    }
    proof {
        assert(ids@.take(i as int) =~= ids@);
        assert forall|name: u32| ids@.contains(name) <==> defs@.contains_key(name) by {
            assert(ids@.to_set().contains(name) <==> defs@.dom().contains(name));
        }
        assert(scope@ =~= start.union_prefer_right(resolutions(defs@)));
    }
}

/// Visits all the AST nodes after definitions have been collected to resolve
/// imports to their DefIds and populate the global scope with a map from names
/// to type and value definitions
pub struct EarlyResolveVisitor<'ast> {
    pub module: &'ast Module,
}

impl<'ast> EarlyResolveVisitor<'ast> {
    /// Puts the definitions of a module among its global names.
    pub fn new(resolver: &mut Resolver<'_>, module: &'ast Module) -> (r: Self)
        requires
            definitions_global(old(resolver)@, module.id) is Some,
        ensures
            r.module == module,
            final(resolver).same_crate(old(resolver)),
            definitions_global(old(resolver)@, module.id) == Some(final(resolver)@),
    {
        let ghost before = resolver@;
        let mut scope = match resolver.global_scopes.remove(&module.id.0) {
            Some(scope) => scope,
            None => {
                let scope = GlobalScope {
                    value_scope: BTreeMap::new(),
                    type_scope: BTreeMap::new(),
                };
                assert(scope@.values =~= Map::empty());
                assert(scope@.types =~= Map::empty());
                scope
            }
        };
        assert(scope@ == globals_of(before, module.id));
        match resolver.local_definition_maps.get(&module.id.0) {
            Some(map) => {
                add_definitions(&mut scope.type_scope, &map.types);
                add_definitions(&mut scope.value_scope, &map.values);
            }
            None => vstd::pervasive::unreached(),
        }
        resolver.global_scopes.insert(module.id.0, scope);
        assert(resolver@.globals =~= definitions_global(before, module.id)->0.globals);
        EarlyResolveVisitor { module }
    }

    /// The module that a list of names leads to from the root of the crate.
    pub fn lookup_crate_module_from_absolute_path(
        &self,
        resolver: &Resolver<'_>,
        path: &[InternedSymbol],
    ) -> (r: Option<ModuleId>)
        requires
            path@.len() > 0,
            module_along(resolver.module_map@, ModuleId(0), path@, 0) is Some,
        ensures
            module_along(resolver.module_map@, ModuleId(0), path@, 0) == Some(
                match r {
                    Some(id) => Found::Module(id),
                    None => Found::Nothing,
                },
            ),
    {
        let mut current_id = ModuleId(0);
        let mut i: usize = 0;
        while i < path.len()
            invariant
                0 <= i <= path@.len(),
                module_along(resolver.module_map@, ModuleId(0), path@, 0) is Some,
                module_along(resolver.module_map@, current_id, path@, i as nat) == module_along(
                    resolver.module_map@,
                    ModuleId(0),
                    path@,
                    0,
                ),
            decreases path@.len() - i,
        {
            let current = match resolver.module_map.get(current_id) {
                Some(module) => module,
                None => vstd::pervasive::unreached(),
            };
            match find_child(&current.children, path[i]) {
                Some(next) => {
                    current_id = next;
                }
                None => {
                    return None;
                }
            }
            i = i + 1;
        }
        Some(current_id)
    }

    /// Resolves an import.
    fn visit_import(&self, resolver: &mut Resolver<'_>, names: &Interner, import: &Import) -> (r:
        Result<(), NameError>)
        requires
            import_resolved(
                old(resolver).module_map@,
                names@,
                old(resolver)@,
                self.module.id,
                *import,
            ) is Some,
        ensures
            final(resolver).same_crate(old(resolver)),
            comes_to(
                r,
                final(resolver)@,
                import_resolved(
                    old(resolver).module_map@,
                    names@,
                    old(resolver)@,
                    self.module.id,
                    *import,
                )->0,
            ),
    {
        let segments = &import.name.segments;
        if segments.len() == 1 {
            return Err(
                NameError { fault: NameFault::UnresolvedImport, span: import.name.span },
            );
        }
        let name: u32 = segments[segments.len() - 1].symbol.0;
        let mut path: Vec<InternedSymbol> = Vec::new();
        let ghost all = import_path(import.name).drop_last();
        let mut i: usize = 1;
        assert(path@ =~= all.take(0));
        while i < segments.len() - 1
            invariant
                1 <= i <= segments@.len() - 1,
                *segments == import.name.segments,
                all == import_path(import.name).drop_last(),
                path@ == all.take(i - 1),
            decreases segments@.len() - i,
        {
            path.push(segments[i].symbol);
            i = i + 1;
            assert(path@ =~= all.take(i - 1));
        }
        assert(path@ =~= all);
        let from = match self.lookup_crate_module_from_absolute_path(resolver, path.as_slice()) {
            Some(from) => from,
            None => {
                return Err(
                    NameError { fault: NameFault::UnresolvedImport, span: import.name.span },
                );
            }
        };
        let ghost before = resolver@;
        // lookup the definition in the module using the module id
        let (type_res, value_res) = match resolver.local_definition_maps.get(&from.0) {
            Some(map) => (look_up(&map.types, name), look_up(&map.values, name)),
            None => vstd::pervasive::unreached(),
        };
        if type_res.is_none() && value_res.is_none() {
            return Err(
                NameError { fault: NameFault::UnresolvedImport, span: import.name.span },
            );
        }
        let mut scope = match resolver.global_scopes.remove(&self.module.id.0) {
            Some(scope) => scope,
            None => vstd::pervasive::unreached(),
        };
        match type_res {
            Some((kind, id)) => {
                scope.type_scope.insert(name, Resolution::Definition(kind, id));
            }
            None => {}
        }
        match value_res {
            Some((kind, id)) => {
                scope.value_scope.insert(name, Resolution::Definition(kind, id));
            }
            None => {}
        }
        resolver.global_scopes.insert(self.module.id.0, scope);
        proof {
            let expected = import_resolved(
                old(resolver).module_map@,
                names@,
                before,
                self.module.id,
                *import,
            )->0->Ok_0;
            assert(scope@ == expected.globals[self.module.id.0]);
            assert(resolver@.globals =~= expected.globals);
        }
        Ok(())
    }

    /// Resolves the imports along a walk.
    pub(crate) fn walk(&self, resolver: &mut Resolver<'_>, names: &Interner, visits: &Vec<Visit<'_>>) -> (r:
        Result<(), NameError>)
        requires
            imports_along(
                old(resolver).module_map@,
                names@,
                old(resolver)@,
                self.module.id,
                visits@,
                visits@.len(),
            ) is Some,
        ensures
            final(resolver).same_crate(old(resolver)),
            comes_to(
                r,
                final(resolver)@,
                imports_along(
                    old(resolver).module_map@,
                    names@,
                    old(resolver)@,
                    self.module.id,
                    visits@,
                    visits@.len(),
                )->0,
            ),
    {
        let ghost modules = resolver.module_map@;
        let ghost start = resolver@;
        let ghost id = self.module.id;
        let mut i: usize = 0;
        while i < visits.len()
            invariant
                0 <= i <= visits@.len(),
                resolver.same_crate(old(resolver)),
                modules == old(resolver).module_map@,
                start == old(resolver)@,
                id == self.module.id,
                imports_along(modules, names@, start, id, visits@, visits@.len()) is Some,
                imports_along(modules, names@, start, id, visits@, i as nat) == Some(
                    Ok::<Naming, NameError>(resolver@),
                ),
            decreases visits@.len() - i,
        {
            proof {
                lemma_imports_prefix(
                    modules,
                    names@,
                    start,
                    id,
                    visits@,
                    i as nat + 1,
                    visits@.len(),
                );
            }
            match visits[i] {
                Visit::Enter(Node::Import(import)) => {
                    match self.visit_import(resolver, names, import) {
                        Ok(()) => {}
                        Err(e) => {
                            return Err(e);
                        }
                    }
                }
                _ => {}
            }
            i = i + 1;
        }
        Ok(())
    }
}

proof fn lemma_imports_prefix(
    modules: Seq<Module>,
    names: Seq<Seq<char>>,
    st: Naming,
    module: ModuleId,
    visits: Seq<Visit<'_>>,
    n: nat,
    m: nat,
)
    requires
        n <= m,
        imports_along(modules, names, st, module, visits, m) is Some,
    ensures
        imports_along(modules, names, st, module, visits, n) is Some,
        imports_along(modules, names, st, module, visits, n)->0 is Err ==> imports_along(
            modules,
            names,
            st,
            module,
            visits,
            m,
        ) == imports_along(modules, names, st, module, visits, n),
    decreases m,
{
    if n < m {
        lemma_imports_prefix(modules, names, st, module, visits, n, (m - 1) as nat);
    }
}

/// The definition of a name.
fn look_up(defs: &BTreeMap<u32, (DefinitionKind, LocalDefId)>, name: u32) -> (r: Option<
    (DefinitionKind, LocalDefId),
>)
    ensures
        r == (if defs@.contains_key(name) {
            Some(defs@[name])
        } else {
            None
        }),
{
    match defs.get(&name) {
        Some(def) => Some(*def),
        None => None,
    }
}

/// The module with a name among the children of another one.
fn find_child(children: &Vec<(InternedSymbol, ModuleId)>, name: InternedSymbol) -> (r: Option<
    ModuleId,
>)
    ensures
        r == child_named(children@, name, children@.len()),
{
    let mut n: usize = children.len();
    while n > 0
        invariant
            n <= children@.len(),
            child_named(children@, name, n as nat) == child_named(
                children@,
                name,
                children@.len(),
            ),
        decreases n,
    {
        if children[n - 1].0 == name {
            return Some(children[n - 1].1);
        }
        n = n - 1;
    }
    None
}

} // verus!
