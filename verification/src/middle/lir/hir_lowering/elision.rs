//! Copies that are not needed: structures that nothing can change are shared.

use crate::middle::hir::{
    BodyId, Expression, ExpressionKind, HirId, ItemLocalId, LetStatement, Node, Resolution,
};
use crate::middle::lir::hir_lowering::emit::BodyLoweringContext;
use crate::middle::lir::hir_lowering::state::Source;
use crate::middle::ty;
use crate::middle::ty::{same_type, Ty, TypeKind};
use vstd::prelude::*;

verus! {

broadcast use vstd::std_specs::btree::group_btree_axioms;

/// The local variable that an expression is the name of.
pub open spec fn local_named(e: Expression) -> Option<u32> {
    match e.kind {
        ExpressionKind::Path(path) => if path.segments@.len() == 0 {
            None
        } else {
            match path.segments@.last().resolution {
                Resolution::Local(local) => Some(local.0),
                _ => None,
            }
        },
        _ => None,
    }
}

/// Whether a local variable or a parameter is declared as one that does not
/// change.
pub open spec fn is_immutable(src: Source, local: u32) -> bool {
    let id = HirId { owner: src.owner, local_id: ItemLocalId(local) };
    src.module.has_node(id) && match src.module.parented(id).node {
        Node::LetStatement(statement) => !statement.is_mutable,
        Node::FunctionParameter(parameter) => !parameter.is_mutable,
        _ => false,
    }
}

/// Whether values of a type are structures in memory.
pub open spec fn is_structure(ty: Ty) -> bool {
    ty.is_aggregate() && !(ty is Array)
}

/// Whether an expression is the name of a structure that does not change, and
/// copies of those are left out.
pub open spec fn is_shareable(src: Source, e: Expression) -> bool {
    &&& src.elides_copies
    &&& local_named(e) matches Some(local) && is_immutable(src, local)
    &&& src.types.has(e.hir_id)
    &&& is_structure(src.types.at(e.hir_id))
}

/// Whether a let statement only gives another name to a structure: neither the
/// new variable nor the one that it is made from changes.
pub open spec fn is_renaming(src: Source, statement: LetStatement) -> bool {
    &&& !statement.is_mutable
    &&& statement.initializer matches Some(init) && {
        &&& is_shareable(src, *init)
        &&& src.types.has(statement.hir_id)
        &&& src.types.at(statement.hir_id) == src.types.at(init.hir_id)
    }
}

/// Which parameters of a function are declared as ones that do not change.
pub open spec fn immutable_parameters(src: Source, body: BodyId) -> Seq<bool> {
    if src.module.has_body(body) {
        let params = src.module.body(body).params@;
        Seq::new(params.len(), |i: int| !params[i].is_mutable)
    } else {
        Seq::empty()
    }
}

/// Whether the argument with number `i` of a call is passed as it is: neither it
/// nor the parameter changes.
pub open spec fn is_passed_as_is(src: Source, immutable: Seq<bool>, i: int, e: Expression) -> bool {
    0 <= i < immutable.len() && immutable[i] && is_shareable(src, e)
}

/// The local variable that an expression is the name of.
fn named_local(e: &Expression) -> (r: Option<ItemLocalId>)
    ensures
        match r {
            Some(local) => local_named(*e) == Some(local.0),
            None => local_named(*e) is None,
        },
{
    match &e.kind {
        ExpressionKind::Path(path) => {
            if path.segments.len() == 0 {
                None
            } else {
                match path.resolution() {
                    Resolution::Local(local) => Some(*local),
                    _ => None,
                }
            }
        }
        _ => None,
    }
}

impl<'hir> BodyLoweringContext<'hir> {
    /// The type of a node, if it is known.
    fn known_type(&self, id: HirId) -> (r: Option<ty::Type>)
        ensures
            match r {
                Some(ty) => self.src().types.has(id) && ty@ == self.src().types.at(id),
                None => !self.src().types.has(id),
            },
    {
        match self.type_map.function_results.get(&id.owner.0) {
            Some(results) => match results.node_types.get(&id.local_id.0) {
                Some(ty) => Some(ty.duplicate()),
                None => None,
            },
            None => None,
        }
    }

    /// Whether a local variable does not change.
    fn is_unchanging(&self, local: ItemLocalId) -> (r: bool)
        ensures
            r == is_immutable(self.src(), local.0),
    {
        match self.module.owners.get(self.owner_id) {
            Some(owner) => match owner.nodes.get(local) {
                Some(node) => match &node.node {
                    Node::LetStatement(statement) => !statement.is_mutable,
                    Node::FunctionParameter(parameter) => !parameter.is_mutable,
                    _ => false,
                },
                None => false,
            },
            None => false,
        }
    }

    /// Whether an expression names a structure that can be shared.
    pub(crate) fn can_share(&self, e: &Expression) -> (r: bool)
        ensures
            r == is_shareable(self.src(), *e),
    {
        if !self.elides_copies {
            return false;
        }
        match (named_local(e), self.known_type(e.hir_id)) {
            (Some(local), Some(ty)) => {
                self.is_unchanging(local) && ty.kind().is_aggregate() && !matches!(
                    ty.kind(),
                    TypeKind::Array { .. }
                )
            }
            _ => false,
        }
    }

    /// Whether a let statement only gives another name to a structure.
    pub(crate) fn only_renames(&self, statement: &LetStatement) -> (r: bool)
        ensures
            r == is_renaming(self.src(), *statement),
    {
        match &statement.initializer {
            None => false,
            Some(init) => {
                if statement.is_mutable || !self.can_share(init) {
                    return false;
                }
                match (self.known_type(statement.hir_id), self.known_type(init.hir_id)) {
                    (Some(a), Some(b)) => same_type(&a, &b),
                    _ => false,
                }
            }
        }
    }

    /// Which parameters of a function do not change.
    pub(crate) fn unchanging_parameters(&self, id: BodyId) -> (r: Vec<bool>)
        ensures
            r@ == immutable_parameters(self.src(), id),
    {
        let mut out: Vec<bool> = Vec::new();
        let ghost all = immutable_parameters(self.src(), id);
        assert(out@ =~= Seq::empty());
        match self.module.owners.get(id.hir_id.owner) {
            Some(owner) => match &owner.body {
                Some(body) => {
                    if body.id() == id {
                        let mut i: usize = 0;
                        while i < body.params.len()
                            invariant
                                0 <= i <= body.params@.len(),
                                all.len() == body.params@.len(),
                                forall|k: int|
                                    0 <= k < all.len() ==> (#[trigger] all[k])
                                        == !body.params@[k].is_mutable,
                                out@ == all.take(i as int),
                            decreases body.params@.len() - i,
                        {
                            out.push(!body.params[i].is_mutable);
                            i = i + 1;
                            assert(out@ =~= all.take(i as int));
                        }
                        assert(out@ =~= all);
                    }
                }
                None => {}
            },
            None => {}
        }
        out
    }
}

} // verus!
