//! Resolves references to types and values.

use crate::frontend::ast::visit::{module_walk, walk_module, Node, Visit};
use crate::frontend::ast::{Identifier, Module, ModuleId, NodeId, QualifiedIdentifier};
use crate::frontend::intern::{InternedSymbol, Interner};
use crate::index::Index;
use crate::middle::hir::{DefinitionKind, Resolution};
use crate::middle::resolve::early::EarlyResolveVisitor;
use crate::middle::resolve::rules::{
    definitions_global, function_entered, imports_along, member_resolved, name_bound, name_resolved,
    names_along, symbol_resolved, visit_resolved, Builtins, NameError, NameFault, Naming, Resolving,
};
use crate::middle::resolve::scope::ScopeStack;
use crate::middle::resolve::{comes_to, Namespace, Resolver};
use vstd::prelude::*;

verus! {

broadcast use vstd::std_specs::btree::group_btree_axioms;

/// Visits all the AST nodes after imports are resolved and all definitions are
/// collected to resolve references to types and values
pub struct LateResolveVisitor<'ast> {
    pub module: &'ast Module,
    /// Used to keep track of the lexical context
    pub value_scope_stack: ScopeStack<Resolution<NodeId>>,
}

/// What is resolved at a place, and the scopes around it.
pub open spec fn place_of(resolver: Resolver<'_>, visitor: LateResolveVisitor<'_>) -> Resolving {
    Resolving { st: resolver@, scopes: visitor.value_scope_stack@ }
}

impl<'ast> LateResolveVisitor<'ast> {
    /// A visitor outside of all scopes.
    pub fn new(module: &'ast Module) -> (r: Self)
        ensures
            r.module == module,
            r.value_scope_stack@ == Seq::<Map<u32, Resolution<NodeId>>>::empty(),
    {
        LateResolveVisitor { module, value_scope_stack: ScopeStack::new() }
    }

    /// Resolves a name within the current lexical scope
    fn resolve_symbol(
        &self,
        resolver: &Resolver<'_>,
        name: InternedSymbol,
        namespace: Namespace,
    ) -> (r: Option<Resolution<NodeId>>)
        ensures
            r == symbol_resolved(
                resolver.builtins(),
                resolver@,
                self.module.id,
                self.value_scope_stack@,
                name,
                namespace,
            ),
    {
        match namespace {
            Namespace::Type => {
                match resolver.builtin_primitives.get(&name.0) {
                    Some(p) => {
                        return Some(Resolution::Primitive(*p));
                    }
                    None => {}
                }
                match resolver.global_scopes.get(&self.module.id.0) {
                    Some(scope) => match scope.type_scope.get(&name.0) {
                        Some(resolution) => Some(*resolution),
                        None => None,
                    },
                    None => None,
                }
            }
            Namespace::Value => {
                if resolver.builtin_functions.contains(&name.0) {
                    return Some(Resolution::IntrinsicFunction(name));
                }
                match self.value_scope_stack.get_binding(name) {
                    Some(resolution) => Some(resolution),
                    None => match resolver.global_scopes.get(&self.module.id.0) {
                        Some(scope) => match scope.value_scope.get(&name.0) {
                            Some(resolution) => Some(*resolution),
                            None => None,
                        },
                        None => None,
                    },
                }
            }
        }
    }

    /// Binds a name in the current scope.
    fn bind(&mut self, resolver: &Resolver<'_>, name: &Identifier, id: NodeId) -> (r: Result<
        (),
        NameError,
    >)
        requires
            name_bound(place_of(*resolver, *old(self)), *name, id) is Some,
        ensures
            final(self).module == old(self).module,
            comes_to(
                r,
                place_of(*resolver, *final(self)),
                name_bound(place_of(*resolver, *old(self)), *name, id)->0,
            ),
    {
        if self.value_scope_stack.get_shallow_binding(name.symbol).is_some() {
            return Err(NameError { fault: NameFault::DuplicateBinding, span: name.span });
        }
        self.value_scope_stack.add_shallow_binding(name.symbol, Resolution::Local(id));
        Ok(())
    }

    /// Opens a fresh scope to bind the parameters of a function in
    fn enter_function(&mut self, resolver: &mut Resolver<'_>, name: &QualifiedIdentifier) -> (r:
        Result<(), NameError>)
        requires
            function_entered(
                old(resolver).builtins(),
                place_of(*old(resolver), *old(self)),
                old(self).module.id,
                *name,
            ) is Some,
        ensures
            final(self).module == old(self).module,
            final(resolver).same_crate(old(resolver)),
            comes_to(
                r,
                place_of(*final(resolver), *final(self)),
                function_entered(
                    old(resolver).builtins(),
                    place_of(*old(resolver), *old(self)),
                    old(self).module.id,
                    *name,
                )->0,
            ),
    {
        if name.segments.len() == 2 {
            let ty_name = &name.segments[0];
            let method_name = &name.segments[1];
            let ty_resolution = match self.resolve_symbol(
                resolver,
                ty_name.symbol,
                Namespace::Type,
            ) {
                Some(resolution) => resolution,
                None => {
                    return Err(NameError { fault: NameFault::UnresolvedName, span: ty_name.span });
                }
            };
            let method = match resolver.method_of(
                self.module.id,
                ty_name.symbol,
                method_name.symbol,
            ) {
                Some(id) => id,
                None => vstd::pervasive::unreached(),
            };
            resolver.type_name_resolutions.insert(ty_name.id.0, ty_resolution);
            resolver.value_name_resolutions.insert(
                method_name.id.0,
                Resolution::Definition(DefinitionKind::Function, method),
            );
        }
        self.value_scope_stack.push_shallow_scope();
        Ok(())
    }

    /// Resolves a name of one segment.
    fn resolve_single(
        &mut self,
        resolver: &mut Resolver<'_>,
        name: &QualifiedIdentifier,
        namespace: Namespace,
    ) -> (r: Result<(), NameError>)
        requires
            name.segments@.len() == 1,
            name_resolved(
                old(resolver).builtins(),
                place_of(*old(resolver), *old(self)),
                old(self).module.id,
                *name,
                namespace,
            ) is Some,
        ensures
            *final(self) == *old(self),
            final(resolver).same_crate(old(resolver)),
            comes_to(
                r,
                place_of(*final(resolver), *final(self)),
                name_resolved(
                    old(resolver).builtins(),
                    place_of(*old(resolver), *old(self)),
                    old(self).module.id,
                    *name,
                    namespace,
                )->0,
            ),
    {
        let ident = &name.segments[0];
        let resolution = match self.resolve_symbol(resolver, ident.symbol, namespace) {
            Some(resolution) => resolution,
            None => {
                return Err(NameError { fault: NameFault::UnresolvedName, span: ident.span });
            }
        };
        match namespace {
            Namespace::Value => {
                resolver.value_name_resolutions.insert(name.id.0, resolution);
                resolver.value_name_resolutions.insert(ident.id.0, resolution);
            }
            Namespace::Type => {
                resolver.type_name_resolutions.insert(name.id.0, resolution);
                resolver.type_name_resolutions.insert(ident.id.0, resolution);
            }
        }
        Ok(())
    }

    /// What the second segment of a name stands for.
    fn resolve_member(
        &self,
        resolver: &Resolver<'_>,
        first: Resolution<NodeId>,
        ty_name: InternedSymbol,
        name: InternedSymbol,
    ) -> (r: Option<Resolution<NodeId>>)
        requires
            resolver@.definitions.contains_key(self.module.id.0),
        ensures
            r == member_resolved(
                resolver@.definitions[self.module.id.0],
                first,
                ty_name,
                name,
            ),
    {
        match resolver.method_of(self.module.id, ty_name, name) {
            Some(id) => {
                return Some(Resolution::Definition(DefinitionKind::AssociatedFunction, id));
            }
            None => {}
        }
        match first {
            Resolution::Definition(DefinitionKind::Enum, id) => {
                match resolver.member_of(self.module.id, id, name) {
                    Some(variant) => {
                        Some(Resolution::Definition(DefinitionKind::EnumVariant, variant))
                    }
                    None => None,
                }
            }
            _ => None,
        }
    }

    /// Resolves a name.
    fn visit_qualified_identifier(
        &mut self,
        resolver: &mut Resolver<'_>,
        name: &QualifiedIdentifier,
        namespace: Namespace,
    ) -> (r: Result<(), NameError>)
        requires
            name_resolved(
                old(resolver).builtins(),
                place_of(*old(resolver), *old(self)),
                old(self).module.id,
                *name,
                namespace,
            ) is Some,
        ensures
            *final(self) == *old(self),
            final(resolver).same_crate(old(resolver)),
            comes_to(
                r,
                place_of(*final(resolver), *final(self)),
                name_resolved(
                    old(resolver).builtins(),
                    place_of(*old(resolver), *old(self)),
                    old(self).module.id,
                    *name,
                    namespace,
                )->0,
            ),
    {
        // There are 2 possibilities here:
        //   1) The ident has no qualifier and it refers to a local, function
        //      parameter, or local/imported definition
        //   2) The ident has a qualifier so we should start at the first segment
        //      and resolve from there
        if name.segments.len() == 1 {
            return self.resolve_single(resolver, name, namespace);
        }
        let first_ident = &name.segments[0];
        let second_ident = &name.segments[1];
        let first = match self.resolve_symbol(resolver, first_ident.symbol, Namespace::Type) {
            Some(resolution) => resolution,
            None => {
                return Err(NameError { fault: NameFault::UnresolvedName, span: first_ident.span });
            }
        };
        let second = match self.resolve_member(
            resolver,
            first,
            first_ident.symbol,
            second_ident.symbol,
        ) {
            Some(resolution) => resolution,
            None => {
                return Err(
                    NameError { fault: NameFault::UnresolvedName, span: second_ident.span },
                );
            }
        };
        resolver.type_name_resolutions.insert(first_ident.id.0, first);
        resolver.value_name_resolutions.insert(second_ident.id.0, second);
        resolver.value_name_resolutions.insert(name.id.0, second);
        Ok(())
    }

    /// Resolves what a step of a walk comes across.
    pub fn visit(&mut self, resolver: &mut Resolver<'_>, visit: Visit<'_>) -> (r: Result<
        (),
        NameError,
    >)
        requires
            visit_resolved(
                old(resolver).builtins(),
                place_of(*old(resolver), *old(self)),
                old(self).module.id,
                visit,
            ) is Some,
        ensures
            final(self).module == old(self).module,
            final(resolver).same_crate(old(resolver)),
            comes_to(
                r,
                place_of(*final(resolver), *final(self)),
                visit_resolved(
                    old(resolver).builtins(),
                    place_of(*old(resolver), *old(self)),
                    old(self).module.id,
                    visit,
                )->0,
            ),
    {
        match visit {
            Visit::Enter(Node::FunctionDefinition(function)) => {
                self.enter_function(resolver, &function.signature.name)
            }
            Visit::Enter(Node::FunctionParameter(parameter)) => {
                self.bind(resolver, &parameter.name, parameter.id)
            }
            Visit::Enter(Node::Static(_)) | Visit::Enter(Node::Block(_)) => {
                self.value_scope_stack.push_shallow_scope();
                Ok(())
            }
            Visit::Enter(Node::QualifiedIdentifier(name, namespace)) => match namespace {
                // we dont care about qpaths in ambiguous places like imports bc
                // those have already been resolved
                None => Ok(()),
                Some(ns) => self.visit_qualified_identifier(resolver, name, ns),
            },
            // the type and expression are walked before the name is bound
            Visit::Leave(Node::Local(local)) => self.bind(resolver, &local.name, local.id),
            Visit::Leave(Node::FunctionDefinition(_))
            | Visit::Leave(Node::Static(_))
            | Visit::Leave(Node::Block(_)) => {
                self.value_scope_stack.pop_shallow_scope();
                Ok(())
            }
            _ => Ok(()),
        }
    }
}

proof fn lemma_names_prefix(
    builtins: Builtins,
    r: Resolving,
    module: ModuleId,
    visits: Seq<Visit<'_>>,
    n: nat,
    m: nat,
)
    requires
        n <= m,
        names_along(builtins, r, module, visits, m) is Some,
    ensures
        names_along(builtins, r, module, visits, n) is Some,
        names_along(builtins, r, module, visits, n)->0 is Err ==> names_along(
            builtins,
            r,
            module,
            visits,
            m,
        ) == names_along(builtins, r, module, visits, n),
    decreases m,
{
    if n < m {
        lemma_names_prefix(builtins, r, module, visits, n, (m - 1) as nat);
    }
}

/// The names of a module whose definitions have been collected: its imports
/// first, then everything else. There is no result where a rule has none.
pub open spec fn module_resolved(
    modules: Seq<Module>,
    names: Seq<Seq<char>>,
    builtins: Builtins,
    st: Naming,
    module: &Module,
) -> Option<Result<Naming, NameError>> {
    let visits = module_walk(module);
    match definitions_global(st, module.id) {
        None => None,
        Some(global) => match imports_along(
            modules,
            names,
            global,
            module.id,
            visits,
            visits.len(),
        ) {
            None => None,
            Some(Err(e)) => Some(Err(e)),
            Some(Ok(imported)) => match names_along(
                builtins,
                Resolving { st: imported, scopes: Seq::empty() },
                module.id,
                visits,
                visits.len(),
            ) {
                None => None,
                Some(Err(e)) => Some(Err(e)),
                Some(Ok(done)) => Some(Ok(done.st)),
            },
        },
    }
}

impl<'a> Resolver<'a> {
    /// Resolves the names along a walk.
    fn resolve_along(&mut self, module: &Module, visits: &Vec<Visit<'_>>) -> (r: Result<(), NameError>)
        requires
            names_along(
                old(self).builtins(),
                (Resolving { st: old(self)@, scopes: Seq::empty() }),
                module.id,
                visits@,
                visits@.len(),
            ) is Some,
        ensures
            final(self).same_crate(old(self)),
            match names_along(
                old(self).builtins(),
                (Resolving { st: old(self)@, scopes: Seq::empty() }),
                module.id,
                visits@,
                visits@.len(),
            )->0 {
                Ok(done) => r is Ok && final(self)@ == done.st,
                Err(e) => r == Err::<(), NameError>(e),
            },
    {
        let ghost builtins = self.builtins();
        let ghost start = Resolving { st: self@, scopes: Seq::empty() };
        let mut visitor = LateResolveVisitor::new(module);
        let mut i: usize = 0;
        while i < visits.len()
            invariant
                0 <= i <= visits@.len(),
                self.same_crate(old(self)),
                visitor.module == module,
                builtins == old(self).builtins(),
                start == (Resolving { st: old(self)@, scopes: Seq::empty() }),
                names_along(builtins, start, module.id, visits@, visits@.len()) is Some,
                names_along(builtins, start, module.id, visits@, i as nat) == Some(
                    Ok::<Resolving, NameError>(place_of(*self, visitor)),
                ),
            decreases visits@.len() - i,
        {
            proof {
                lemma_names_prefix(
                    builtins,
                    start,
                    module.id,
                    visits@,
                    i as nat + 1,
                    visits@.len(),
                );
            }
            match visitor.visit(self, visits[i]) {
                Ok(()) => {}
                Err(e) => {
                    return Err(e);
                }
            }
            i = i + 1;
        }
        Ok(())
    }

    /// The second step traverses the AST and makes sure any references to types
    /// or values are defined in this module's scope or are imported. It also
    /// keeps track of function parameters and local variables to make sure all
    /// identifiers are valid. Field and method accesses are not checked at this
    /// stage and are resolved during module type checking.
    pub fn resolve_names(&mut self, module_id: ModuleId, names: &Interner) -> (r: Result<
        (),
        NameError,
    >)
        requires
            module_id.ix() < old(self).module_map@.len(),
            module_resolved(
                old(self).module_map@,
                names@,
                old(self).builtins(),
                old(self)@,
                &old(self).module_map@[module_id.ix()],
            ) is Some,
        ensures
            final(self).same_crate(old(self)),
            comes_to(
                r,
                final(self)@,
                module_resolved(
                    old(self).module_map@,
                    names@,
                    old(self).builtins(),
                    old(self)@,
                    &old(self).module_map@[module_id.ix()],
                )->0,
            ),
    {
        let module = match self.module_map.get(module_id) {
            Some(module) => module,
            None => vstd::pervasive::unreached(),
        };
        let visits = walk_module(module);
        let early = EarlyResolveVisitor::new(self, module);
        match early.walk(self, names, &visits) {
            Ok(()) => self.resolve_along(module, &visits),
            Err(e) => Err(e),
        }
    }
}

} // verus!
