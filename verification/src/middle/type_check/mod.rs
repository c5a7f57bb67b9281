//! Drip Type Checker
//!
//! Type checking the HIR has 2 main components:
//!
//!   1) analyzing type definitions and function signatures to build up a typing
//!      environment
//!   2) type checking all the executable bodies in the HIR to make sure they
//!      comply with our type system's rules
//!
//! The first step is fairly strait-forward since its mostly get collecting
//! information. The second step is more involved and can be further broken down
//! into 2 more main steps:
//!
//!   1) traversing the body, assigning type variables to HIR nodes and
//!      collecting inference constraints
//!   2) solving the collected constraints and substituting types in the HIR
//!      until we either catch a type error or all constraints are satisfied
//!      and no more free type variables exist
//!
//! After we have verified that our program is type safe, we should no longer
//! report any errors since the input source code has been fully validated. From
//! there, the next step is to use the computed types to lower the HIR to LIR.

use crate::collections::{ascending, lists, sorted_keys};
use crate::frontend::intern::Interner;
use crate::index::wrap32;
use crate::middle::hir;
use crate::middle::hir::{HirId, ItemLocalId, LocalDefId, Module};
use crate::middle::ty::{Ty, Type};
use crate::middle::type_check::checker::TypeChecker;
use crate::middle::type_check::context::{def_views, item_tys, Env, TypeContext};
use crate::middle::type_check::error::{mistakes, Mistake, TypeError};
use crate::middle::type_check::output::{concluded, Findings, TypeCheckResults};
use crate::middle::type_check::rules::{item_checked, Checking, Place};
use std::collections::BTreeMap;
use vstd::prelude::*;

pub mod checker;
pub mod context;
pub mod derivation;
pub mod error;
pub mod items;
pub mod message;
pub mod output;
pub mod report;
pub mod rules;
pub mod solve;
pub mod surroundings;
pub mod table;
pub mod visit;

verus! {

broadcast use vstd::std_specs::btree::group_btree_axioms;

/// The types of the items of a module and of the nodes in them, by the numbers
/// of their definitions.
pub struct ModuleTypeCheckResults {
    pub item_types: BTreeMap<u32, Type>,
    pub function_results: BTreeMap<u32, TypeCheckResults>,
}

/// What a [`ModuleTypeCheckResults`] is.
pub struct ModuleFindings {
    pub item_types: Map<u32, Ty>,
    pub function_results: Map<u32, Findings>,
}

/// What the results of some bodies are.
pub open spec fn result_views(results: Map<u32, TypeCheckResults>) -> Map<u32, Findings> {
    results.map_values(|r: TypeCheckResults| r@)
}

impl View for ModuleTypeCheckResults {
    type V = ModuleFindings;

    open spec fn view(&self) -> ModuleFindings {
        ModuleFindings {
            item_types: def_views(self.item_types@),
            function_results: result_views(self.function_results@),
        }
    }
}

impl ModuleFindings {
    /// Whether the type of a node is known.
    pub open spec fn has(self, hir_id: HirId) -> bool {
        &&& self.function_results.contains_key(hir_id.owner.0)
        &&& self.function_results[hir_id.owner.0].node_types.contains_key(hir_id.local_id.0)
    }

    /// The type of a node.
    pub open spec fn at(self, hir_id: HirId) -> Ty {
        self.function_results[hir_id.owner.0].node_types[hir_id.local_id.0]
    }
}

impl ModuleTypeCheckResults {
    /// The type of a node.
    pub fn get_type(&self, hir_id: HirId) -> (r: Type)
        requires
            self@.has(hir_id),
        ensures
            r@ == self@.at(hir_id),
    {
        match self.function_results.get(&hir_id.owner.0) {
            Some(results) => match results.node_types.get(&hir_id.local_id.0) {
                Some(ty) => ty.duplicate(),
                None => vstd::pervasive::unreached(),
            },
            None => vstd::pervasive::unreached(),
        }
    }
}

/// Something that is wrong with a module.
pub enum Complaint {
    /// A type error in one of its items.
    Error(TypeError),
    /// A node of which no type is known though no error was found.
    UnknownType(ItemLocalId),
}

/// What a [`Complaint`] is.
pub enum Remark {
    Error(Mistake),
    UnknownType(ItemLocalId),
}

impl View for Complaint {
    type V = Remark;

    open spec fn view(&self) -> Remark {
        match *self {
            Complaint::Error(error) => Remark::Error(error@),
            Complaint::UnknownType(id) => Remark::UnknownType(id),
        }
    }
}

/// What a list of complaints is.
pub open spec fn remarks(list: Seq<Complaint>) -> Seq<Remark> {
    Seq::new(list.len(), |i: int| list[i]@)
}

/// The state of checking a body at its start.
pub open spec fn fresh() -> Checking {
    Checking {
        nodes: Map::empty(),
        methods: Map::empty(),
        constraints: Seq::empty(),
        errors: Seq::empty(),
        within_loop: false,
        self_type: None,
        return_type: None,
        next_int: 0,
        next_float: 0,
    }
}

/// What checking one item comes to. There is no result where a rule has none.
pub open spec fn owner_checked(env: Env, id: LocalDefId) -> Option<
    Result<Findings, Seq<Mistake>>,
> {
    if !env.module.has_owner(id) || !env.module.owner(id).is_item() {
        None
    } else {
        let p = Place { env, owner: id };
        match item_checked(p, fresh(), env.module.owner(id).item()) {
            None => None,
            Some(st) => concluded(p, st),
        }
    }
}

/// The nodes among the first `n` listed ones of which no type is known.
pub open spec fn unknown_upto(nodes: Map<u32, Ty>, ids: Seq<u32>, n: nat) -> Seq<Remark>
    decreases n,
{
    if n == 0 {
        Seq::empty()
    } else {
        let before = unknown_upto(nodes, ids, (n - 1) as nat);
        if nodes[ids[n - 1]].is_error() {
            before.push(Remark::UnknownType(ItemLocalId(ids[n - 1])))
        } else {
            before
        }
    }
}

/// The results so far, and what is wrong.
pub struct Tally {
    pub results: Map<u32, Findings>,
    pub remarks: Seq<Remark>,
}

/// With what checking the item with a number came to.
pub open spec fn tallied(
    tally: Tally,
    id: LocalDefId,
    outcome: Result<Findings, Seq<Mistake>>,
) -> Tally {
    match outcome {
        Ok(findings) => {
            let ids = ascending(findings.node_types.dom());
            Tally {
                results: tally.results.insert(id.0, findings),
                remarks: tally.remarks + unknown_upto(findings.node_types, ids, ids.len()),
            }
        },
        Err(errors) => Tally {
            results: tally.results,
            remarks: tally.remarks + errors.map_values(|error: Mistake| Remark::Error(error)),
        },
    }
}

/// The number of the owner with an index.
pub open spec fn owner_number(i: int) -> LocalDefId {
    LocalDefId(wrap32(i) as u32)
}

/// What checking the first `n` owners comes to.
pub open spec fn owners_checked(env: Env, n: nat) -> Option<Tally>
    decreases n,
{
    if n == 0 {
        Some(Tally { results: Map::empty(), remarks: Seq::empty() })
    } else {
        match (owners_checked(env, (n - 1) as nat), owner_checked(env, owner_number(n - 1))) {
            (Some(before), Some(outcome)) => Some(tallied(before, owner_number(n - 1), outcome)),
            _ => None,
        }
    }
}

/// What checking a module comes to: the types of everything in it, or what is
/// wrong with it.
pub open spec fn module_checked(module: Module, names: Seq<Seq<char>>) -> Option<
    Result<ModuleFindings, Seq<Remark>>,
> {
    match item_tys(module, names, module.owners@.len()) {
        None => None,
        Some(defs) => match owners_checked(Env { module, names, defs }, module.owners@.len()) {
            None => None,
            Some(tally) => if tally.remarks.len() > 0 {
                Some(Err(tally.remarks))
            } else {
                Some(Ok(ModuleFindings { item_types: defs, function_results: tally.results }))
            },
        },
    }
}

/// What a result is.
pub open spec fn verdict(r: Result<ModuleTypeCheckResults, Vec<Complaint>>) -> Result<
    ModuleFindings,
    Seq<Remark>,
> {
    match r {
        Ok(results) => Ok(results@),
        Err(complaints) => Err(remarks(complaints@)),
    }
}

proof fn lemma_owners_prefix(env: Env, n: nat, m: nat)
    requires
        n <= m,
        owners_checked(env, m) is Some,
    ensures
        owners_checked(env, n) is Some,
    decreases m - n,
{
    if n < m {
        lemma_owners_prefix(env, n, (m - 1) as nat);
    }
}

/// Adds a complaint for every node of which no type is known.
fn note_unknown(results: &TypeCheckResults, complaints: &mut Vec<Complaint>)
    ensures
        ({
            let nodes = results@.node_types;
            let ids = ascending(nodes.dom());
            remarks(final(complaints)@) == remarks(old(complaints)@) + unknown_upto(
                nodes,
                ids,
                ids.len(),
            )
        }),
{
    let ghost nodes = results@.node_types;
    let ghost start = remarks(complaints@);
    let ids = sorted_keys(&results.node_types);
    assert(nodes.dom() =~= results.node_types@.dom());
    let mut i: usize = 0;
    assert(start + unknown_upto(nodes, ids@, 0) =~= start);
    while i < ids.len()
        invariant
            0 <= i <= ids@.len(),
            lists(ids@, nodes.dom()),
            nodes == results@.node_types,
            remarks(complaints@) == start + unknown_upto(nodes, ids@, i as nat),
        decreases ids@.len() - i,
    {
        let id: u32 = ids[i];
        assert(ids@.to_set().contains(id));
        let ghost before = remarks(complaints@);
        let is_error = match results.node_types.get(&id) {
            Some(ty) => ty.kind().is_error(),
            None => vstd::pervasive::unreached(),
        };
        if is_error {
            complaints.push(Complaint::UnknownType(ItemLocalId(id)));
            assert(remarks(complaints@) =~= before.push(Remark::UnknownType(ItemLocalId(id))));
        }
        i = i + 1;
        assert(remarks(complaints@) =~= start + unknown_upto(nodes, ids@, i as nat));
    }
}

/// Adds errors to the complaints.
fn note_errors(errors: Vec<TypeError>, complaints: &mut Vec<Complaint>)
    ensures
        remarks(final(complaints)@) == remarks(old(complaints)@) + mistakes(errors@).map_values(
            |error: Mistake| Remark::Error(error),
        ),
{
    let ghost start = remarks(complaints@);
    let ghost given = errors@;
    let ghost all = mistakes(given).map_values(|error: Mistake| Remark::Error(error));
    assert(start + all.take(0) =~= start);
    for error in it: errors
        invariant
            it.seq() == given,
            all == mistakes(given).map_values(|error: Mistake| Remark::Error(error)),
            remarks(complaints@) == start + all.take(it.index() as int),
    {
        let ghost i = it.index() as int;
        let ghost before = remarks(complaints@);
        assert(all[i] == Remark::Error(error@));
        complaints.push(Complaint::Error(error));
        assert(remarks(complaints@) =~= before.push(all[i]));
        assert(start + all.take(i + 1) =~= (start + all.take(i)).push(all[i]));
    }
    assert(all.take(all.len() as int) =~= all);
}

/// Computes the types of all items of a module and of all nodes in them, or
/// finds out what is wrong with it.
pub fn type_check_module(module: &Module, names: &Interner) -> (r: Result<
    ModuleTypeCheckResults,
    Vec<Complaint>,
>)
    requires
        module_checked(*module, names@) is Some,
    ensures
        module_checked(*module, names@) == Some(verdict(r)),
{
    let mut ctx = TypeContext::new(module, names);
    // Compute types for top level items we might reference in body contexts
    ctx.index_module();
    let ghost env = ctx.env();
    let mut function_results: BTreeMap<u32, TypeCheckResults> = BTreeMap::new();
    let mut complaints: Vec<Complaint> = Vec::new();
    assert(result_views(function_results@) =~= Map::<u32, Findings>::empty());
    assert(remarks(complaints@) =~= Seq::<Remark>::empty());
    // Check the content of bodies and assign types to all nodes
    let owners = module.get_owners();
    let mut i: usize = 0;
    while i < owners.len()
        invariant
            0 <= i <= owners@.len(),
            owners@.len() == module.owners@.len(),
            forall|k: int| 0 <= k < owners@.len() ==> (#[trigger] owners@[k]).0 as int == wrap32(k),
            ctx.well_formed(),
            ctx.env() == env,
            ctx.module == module,
            env.module == *module,
            owners_checked(env, owners@.len()) is Some,
            owners_checked(env, i as nat) == Some(
                Tally {
                    results: result_views(function_results@),
                    remarks: remarks(complaints@),
                },
            ),
        decreases owners@.len() - i,
    {
        proof {
            lemma_owners_prefix(env, i as nat + 1, owners@.len());
        }
        let owner_id = owners[i];
        assert(owner_id == owner_number(i as int));
        let mut body_ctx = TypeChecker::new(ctx, owner_id);
        assert(body_ctx@ == fresh());
        match module.get_owner(owner_id).node() {
            hir::OwnerNode::Item(item) => {
                body_ctx.visit_item(&item);
            }
        }
        let (context, outcome) = body_ctx.into_output();
        ctx = context;
        match outcome {
            Ok(output) => {
                note_unknown(&output, &mut complaints);
                let ghost before = function_results@;
                function_results.insert(owner_id.0, output);
                assert(result_views(function_results@) =~= result_views(before).insert(
                    owner_id.0,
                    output@,
                ));
            }
            Err(errors) => {
                note_errors(errors, &mut complaints);
            }
        }
        i = i + 1;
    }
    if complaints.len() > 0 {
        return Err(complaints);
    }
    Ok(ModuleTypeCheckResults { item_types: ctx.def_id_to_type_map, function_results })
}

} // verus!
