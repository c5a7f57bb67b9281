//! Resolves the names of a whole crate.

use crate::frontend::ast::visit::module_walk;
use crate::frontend::ast::{Module, ModuleId};
use crate::frontend::intern::Interner;
use crate::index::{wrap32, Index, IndexVec};
use crate::middle::resolve::late::module_resolved;
use crate::middle::resolve::rules::{
    definitions_along, without_definitions, Builtins, NameError, Naming,
};
use crate::middle::resolve::{builtins_of, unresolved, ResolutionMap, Resolver};
use vstd::prelude::*;

verus! {

/// An error in the names of a module.
#[derive(Debug, Clone, Copy, PartialEq, Eq, Structural)]
pub struct CrateError {
    pub module: ModuleId,
    pub error: NameError,
}

/// The definitions of a module.
pub open spec fn module_collected(st: Naming, module: &Module) -> Result<Naming, NameError> {
    let visits = module_walk(module);
    definitions_along(without_definitions(st, module.id), module.id, visits, visits.len())
}

/// The definitions of the first `n` modules of a crate.
pub open spec fn crate_collected(modules: Seq<Module>, n: nat) -> Result<Naming, CrateError>
    decreases n,
{
    if n == 0 {
        Ok(unresolved())
    } else {
        let id = ModuleId(wrap32(n - 1) as u32);
        match crate_collected(modules, (n - 1) as nat) {
            Err(e) => Err(e),
            Ok(before) => match module_collected(before, &modules[id.0 as int]) {
                Err(error) => Err(CrateError { module: id, error }),
                Ok(after) => Ok(after),
            },
        }
    }
}

/// The names of the first `n` modules of a crate whose definitions have been
/// collected.
pub open spec fn crate_named(
    modules: Seq<Module>,
    names: Seq<Seq<char>>,
    builtins: Builtins,
    st: Naming,
    n: nat,
) -> Option<Result<Naming, CrateError>>
    decreases n,
{
    if n == 0 {
        Some(Ok(st))
    } else {
        let id = ModuleId(wrap32(n - 1) as u32);
        match crate_named(modules, names, builtins, st, (n - 1) as nat) {
            None => None,
            Some(Err(e)) => Some(Err(e)),
            Some(Ok(before)) => match module_resolved(
                modules,
                names,
                builtins,
                before,
                &modules[id.0 as int],
            ) {
                None => None,
                Some(Err(error)) => Some(Err(CrateError { module: id, error })),
                Some(Ok(after)) => Some(Ok(after)),
            },
        }
    }
}

/// The names of a crate: first the definitions of all modules, then the names
/// in each. There is no result where a rule has none.
pub open spec fn crate_resolved(modules: Seq<Module>, names: Seq<Seq<char>>) -> Option<
    Result<Naming, CrateError>,
> {
    let (after, builtins) = builtins_of(names);
    match crate_collected(modules, modules.len()) {
        Err(e) => Some(Err(e)),
        Ok(st) => crate_named(modules, after, builtins, st, modules.len()),
    }
}

proof fn lemma_collected_err(modules: Seq<Module>, n: nat, m: nat)
    requires
        n <= m,
        crate_collected(modules, n) is Err,
    ensures
        crate_collected(modules, m) == crate_collected(modules, n),
    decreases m,
{
    if n < m {
        lemma_collected_err(modules, n, (m - 1) as nat);
    }
}

proof fn lemma_named_prefix(
    modules: Seq<Module>,
    names: Seq<Seq<char>>,
    builtins: Builtins,
    st: Naming,
    n: nat,
    m: nat,
)
    requires
        n <= m,
        crate_named(modules, names, builtins, st, m) is Some,
    ensures
        crate_named(modules, names, builtins, st, n) is Some,
        crate_named(modules, names, builtins, st, n)->0 is Err ==> crate_named(
            modules,
            names,
            builtins,
            st,
            m,
        ) == crate_named(modules, names, builtins, st, n),
    decreases m,
{
    if n < m {
        lemma_named_prefix(modules, names, builtins, st, n, (m - 1) as nat);
    }
}

impl<'a> Resolver<'a> {
    /// Collects the definitions of all modules.
    fn collect_crate(&mut self) -> (r: Result<(), CrateError>)
        requires
            old(self).module_map@.len() <= 0x1_0000_0000,
            old(self)@ == unresolved(),
        ensures
            final(self).same_crate(old(self)),
            match crate_collected(old(self).module_map@, old(self).module_map@.len()) {
                Ok(st) => r is Ok && final(self)@ == st,
                Err(e) => r == Err::<(), CrateError>(e),
            },
    {
        let ghost modules = self.module_map@;
        let ids = self.module_map.indices();
        let mut i: usize = 0;
        while i < ids.len()
            invariant
                0 <= i <= ids@.len(),
                self.same_crate(old(self)),
                modules == old(self).module_map@,
                ids@.len() == modules.len(),
                modules.len() <= 0x1_0000_0000,
                forall|k: int| 0 <= k < ids@.len() ==> (#[trigger] ids@[k]).ix() == wrap32(k),
                crate_collected(modules, i as nat) == Ok::<Naming, CrateError>(self@),
            decreases ids@.len() - i,
        {
            assert(ids@[i as int].ix() == wrap32(i as int));
            match self.collect_definitions(ids[i]) {
                Ok(()) => {}
                Err(error) => {
                    proof {
                        lemma_collected_err(modules, i as nat + 1, modules.len());
                    }
                    return Err(CrateError { module: ids[i], error });
                }
            }
            i = i + 1;
        }
        Ok(())
    }

    /// Resolves the names in all modules.
    fn resolve_modules(&mut self, names: &Interner) -> (r: Result<(), CrateError>)
        requires
            old(self).module_map@.len() <= 0x1_0000_0000,
            crate_named(
                old(self).module_map@,
                names@,
                old(self).builtins(),
                old(self)@,
                old(self).module_map@.len(),
            ) is Some,
        ensures
            final(self).same_crate(old(self)),
            match crate_named(
                old(self).module_map@,
                names@,
                old(self).builtins(),
                old(self)@,
                old(self).module_map@.len(),
            )->0 {
                Ok(st) => r is Ok && final(self)@ == st,
                Err(e) => r == Err::<(), CrateError>(e),
            },
    {
        let ghost modules = self.module_map@;
        let ghost builtins = self.builtins();
        let ghost start = self@;
        let ids = self.module_map.indices();
        let mut i: usize = 0;
        while i < ids.len()
            invariant
                0 <= i <= ids@.len(),
                self.same_crate(old(self)),
                modules == old(self).module_map@,
                builtins == old(self).builtins(),
                start == old(self)@,
                ids@.len() == modules.len(),
                modules.len() <= 0x1_0000_0000,
                forall|k: int| 0 <= k < ids@.len() ==> (#[trigger] ids@[k]).ix() == wrap32(k),
                crate_named(modules, names@, builtins, start, modules.len()) is Some,
                crate_named(modules, names@, builtins, start, i as nat) == Some(
                    Ok::<Naming, CrateError>(self@),
                ),
            decreases ids@.len() - i,
        {
            proof {
                assert(ids@[i as int].ix() == wrap32(i as int));
                lemma_named_prefix(
                    modules,
                    names@,
                    builtins,
                    start,
                    i as nat + 1,
                    modules.len(),
                );
            }
            match self.resolve_names(ids[i], names) {
                Ok(()) => {}
                Err(error) => {
                    return Err(CrateError { module: ids[i], error });
                }
            }
            i = i + 1;
        }
        Ok(())
    }
}

/// Resolves the names of a crate. The definitions of all modules are collected
/// first, so that modules can import from each other.
pub fn resolve_crate(modules: &IndexVec<ModuleId, Module>, names: &mut Interner) -> (r: Result<
    ResolutionMap,
    CrateError,
>)
    requires
        old(names).well_formed(),
        old(names)@.len() + 32 <= 0x1_0000_0000,
        modules@.len() <= 0x1_0000_0000,
        crate_resolved(modules@, old(names)@) is Some,
    ensures
        final(names).well_formed(),
        final(names)@ == builtins_of(old(names)@).0,
        match crate_resolved(modules@, old(names)@)->0 {
            Err(e) => r == Err::<ResolutionMap, CrateError>(e),
            Ok(st) => r matches Ok(map) && map.node_to_def_id_map@ == st.nodes
                && map.value_name_resolutions@ == st.values && map.type_name_resolutions@
                == st.types,
        },
{
    let mut resolver = Resolver::new(modules, names);
    match resolver.collect_crate() {
        Ok(()) => {}
        Err(e) => {
            return Err(e);
        }
    }
    match resolver.resolve_modules(names) {
        Ok(()) => Ok(resolver.into_outputs()),
        Err(e) => Err(e),
    }
}

} // verus!
