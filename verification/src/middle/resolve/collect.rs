//! Collects the definitions of a module.

use crate::frontend::ast::{
    EnumVariant, Identifier, Item, ItemKind, Module, ModuleId, NodeId, QualifiedIdentifier,
};
use crate::frontend::ast::visit::{module_walk, walk_module, Node, Visit};
use crate::index::Index;
use crate::middle::hir::{DefinitionKind, LocalDefId, Resolution};
use crate::middle::resolve::{comes_to, LocalDefinitionMap, Resolver};
use crate::middle::resolve::rules::{
    definitions_along, function_defined, item_defined, type_defined, variants_defined,
    without_definitions, NameError, NameFault,
};
use vstd::prelude::*;

verus! {

broadcast use vstd::std_specs::btree::group_btree_axioms;

proof fn lemma_variants_err(
    st: crate::middle::resolve::rules::Naming,
    module: ModuleId,
    parent: LocalDefId,
    variants: Seq<EnumVariant>,
    n: nat,
    m: nat,
)
    requires
        n <= m,
        variants_defined(st, module, parent, variants, n) is Err,
    ensures
        variants_defined(st, module, parent, variants, m) == variants_defined(
            st,
            module,
            parent,
            variants,
            n,
        ),
    decreases m,
{
    if n < m {
        lemma_variants_err(st, module, parent, variants, n, (m - 1) as nat);
    }
}

proof fn lemma_definitions_err(
    st: crate::middle::resolve::rules::Naming,
    module: ModuleId,
    visits: Seq<Visit<'_>>,
    n: nat,
    m: nat,
)
    requires
        n <= m,
        definitions_along(st, module, visits, n) is Err,
    ensures
        definitions_along(st, module, visits, m) == definitions_along(st, module, visits, n),
    decreases m,
{
    if n < m {
        lemma_definitions_err(st, module, visits, n, (m - 1) as nat);
    }
}

impl<'a> Resolver<'a> {
    /// Defines a type, unless its name is taken.
    fn define_type(
        &mut self,
        module: ModuleId,
        node: NodeId,
        name: &Identifier,
        kind: DefinitionKind,
    ) -> (r: Result<(), NameError>)
        requires
            kind is Struct || kind is Enum || kind is Alias,
        ensures
            final(self).same_crate(old(self)),
            comes_to(r, final(self)@, type_defined(old(self)@, module, node, *name, kind)),
    {
        if self.defines_type(module, name.symbol) {
            return Err(NameError { fault: NameFault::DuplicateDefinition, span: name.span });
        }
        let _ = self.create_definition(module, node, None, None, name.symbol, kind);
        Ok(())
    }

    /// Defines the members of an enum.
    fn define_variants(
        &mut self,
        module: ModuleId,
        parent: LocalDefId,
        variants: &Vec<EnumVariant>,
    ) -> (r: Result<(), NameError>)
        ensures
            final(self).same_crate(old(self)),
            comes_to(
                r,
                final(self)@,
                variants_defined(old(self)@, module, parent, variants@, variants@.len()),
            ),
    {
        let ghost start = self@;
        let mut i: usize = 0;
        while i < variants.len()
            invariant
                0 <= i <= variants@.len(),
                self.same_crate(old(self)),
                start == old(self)@,
                variants_defined(start, module, parent, variants@, i as nat) == Ok::<
                    crate::middle::resolve::rules::Naming,
                    NameError,
                >(self@),
            decreases variants@.len() - i,
        {
            let variant = &variants[i];
            if self.member_of(module, parent, variant.name.symbol).is_some() {
                proof {
                    lemma_variants_err(
                        start,
                        module,
                        parent,
                        variants@,
                        i as nat + 1,
                        variants@.len(),
                    );
                }
                return Err(
                    NameError { fault: NameFault::DuplicateDefinition, span: variant.span },
                );
            }
            let _ = self.create_definition(
                module,
                variant.id,
                None,
                Some(parent),
                variant.name.symbol,
                DefinitionKind::EnumVariant,
            );
            i = i + 1;
        }
        Ok(())
    }

    /// Defines a function or method.
    fn define_function(&mut self, module: ModuleId, node: NodeId, name: &QualifiedIdentifier) -> (r:
        Result<(), NameError>)
        ensures
            final(self).same_crate(old(self)),
            comes_to(r, final(self)@, function_defined(old(self)@, module, node, *name)),
    {
        if name.segments.len() == 1 {
            // this is a normal function definition
            let own = &name.segments[0];
            if self.defines_value(module, own.symbol) {
                return Err(NameError { fault: NameFault::DuplicateDefinition, span: own.span });
            }
            let local_def_id = self.create_definition(
                module,
                node,
                None,
                None,
                own.symbol,
                DefinitionKind::Function,
            );
            self.value_name_resolutions.insert(
                own.id.0,
                Resolution::Definition(DefinitionKind::Function, local_def_id),
            );
            Ok(())
        } else if name.segments.len() == 2 {
            // this is a method definition
            let ty_name = &name.segments[0];
            let method_name = &name.segments[1];
            if self.method_of(module, ty_name.symbol, method_name.symbol).is_some() {
                return Err(NameError { fault: NameFault::DuplicateDefinition, span: name.span });
            }
            let _ = self.create_definition(
                module,
                node,
                Some(ty_name.symbol),
                None,
                method_name.symbol,
                DefinitionKind::AssociatedFunction,
            );
            Ok(())
        } else {
            Err(NameError { fault: NameFault::IllegalFunctionName, span: name.span })
        }
    }

    /// Collects the definitions that an item makes.
    fn collect_item(&mut self, module: ModuleId, item: &Item) -> (r: Result<(), NameError>)
        ensures
            final(self).same_crate(old(self)),
            comes_to(r, final(self)@, item_defined(old(self)@, module, *item)),
    {
        match &item.kind {
            ItemKind::FunctionDefinition(function) => {
                self.define_function(module, item.id, &function.signature.name)
            }
            ItemKind::StructDefinition(definition) => {
                self.define_type(module, item.id, &definition.name, DefinitionKind::Struct)
            }
            ItemKind::EnumDefinition(definition) => {
                let parent = self.next_local_def_id;
                match self.define_type(module, item.id, &definition.name, DefinitionKind::Enum) {
                    Ok(()) => self.define_variants(module, parent, &definition.variants),
                    Err(e) => Err(e),
                }
            }
            ItemKind::TypeAlias(alias) => {
                self.define_type(module, item.id, &alias.name, DefinitionKind::Alias)
            }
            ItemKind::Static(static_) => {
                if self.defines_value(module, static_.name.symbol) {
                    return Err(
                        NameError {
                            fault: NameFault::DuplicateDefinition,
                            span: static_.name.span,
                        },
                    );
                }
                let _ = self.create_definition(
                    module,
                    item.id,
                    None,
                    None,
                    static_.name.symbol,
                    DefinitionKind::Static,
                );
                Ok(())
            }
            ItemKind::Module(_) | ItemKind::Import(_) => Ok(()),
        }
    }

    /// The first step resolves imports and locates all the definitions of
    /// custom types and functions. These imports and custom types are then
    /// bound in the global value and type scopes
    pub fn collect_definitions(&mut self, module_id: ModuleId) -> (r: Result<(), NameError>)
        requires
            module_id.ix() < old(self).module_map@.len(),
        ensures
            final(self).same_crate(old(self)),
            ({
                let module = &old(self).module_map@[module_id.ix()];
                let visits = module_walk(module);
                comes_to(
                    r,
                    final(self)@,
                    definitions_along(
                        without_definitions(old(self)@, module.id),
                        module.id,
                        visits,
                        visits.len(),
                    ),
                )
            }),
    {
        let module = match self.module_map.get(module_id) {
            Some(module) => module,
            None => vstd::pervasive::unreached(),
        };
        self.local_definition_maps.insert(module.id.0, LocalDefinitionMap::empty());
        let ghost start = without_definitions(old(self)@, module.id);
        assert(self@.definitions =~= start.definitions);
        let visits = walk_module(module);
        let mut i: usize = 0;
        while i < visits.len()
            invariant
                0 <= i <= visits@.len(),
                self.same_crate(old(self)),
                *module == old(self).module_map@[module_id.ix()],
                visits@ == module_walk(module),
                start == without_definitions(old(self)@, module.id),
                definitions_along(start, module.id, visits@, i as nat) == Ok::<
                    crate::middle::resolve::rules::Naming,
                    NameError,
                >(self@),
            decreases visits@.len() - i,
        {
            match visits[i] {
                Visit::Enter(Node::Item(item)) => match self.collect_item(module.id, item) {
                    Ok(()) => {}
                    Err(e) => {
                        proof {
                            lemma_definitions_err(
                                start,
                                module.id,
                                visits@,
                                i as nat + 1,
                                visits@.len(),
                            );
                        }
                        return Err(e);
                    }
                },
                _ => {}
            }
            i = i + 1;
        }
        Ok(())
    }
}

} // verus!
