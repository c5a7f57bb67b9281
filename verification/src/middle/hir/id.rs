//! Identifies the parts of the HIR.

use crate::index::{low_word, Index};
use vstd::prelude::*;
use vstd::std_specs::convert::FromSpecImpl;

verus! {

/// Represents one of the top level crates being compiled
#[derive(Clone, Copy, Debug, PartialEq, Eq, Structural, PartialOrd, Ord, Hash)]
pub struct CrateNum(pub u32);

impl Index for CrateNum {
    open spec fn ix(self) -> int {
        self.0 as int
    }

    fn new(idx: usize) -> (r: Self) {
        CrateNum(low_word(idx))
    }

    fn index(self) -> (r: usize) {
        self.0 as usize
    }
}

/// Globally unique identifier for a particular item definition.
#[derive(Clone, Copy, Debug, PartialEq, Eq, Structural, PartialOrd, Ord, Hash)]
pub struct DefId {
    pub krate: CrateNum,
    pub index: LocalDefId,
}

/// Represents a top level item that owns some amount of child nodes. This
/// ID is tied to the crate in which the item is defined (not globally
/// unique).
#[derive(Clone, Copy, Debug, PartialEq, Eq, Structural, PartialOrd, Ord, Hash)]
pub struct LocalDefId(pub u32);

impl Index for LocalDefId {
    open spec fn ix(self) -> int {
        self.0 as int
    }

    fn new(idx: usize) -> (r: Self) {
        LocalDefId(low_word(idx))
    }

    fn index(self) -> (r: usize) {
        self.0 as usize
    }
}

/// Represents a child node within some top level owner
#[derive(Clone, Copy, Debug, PartialEq, Eq, Structural, PartialOrd, Ord, Hash)]
pub struct ItemLocalId(pub u32);

impl Index for ItemLocalId {
    open spec fn ix(self) -> int {
        self.0 as int
    }

    fn new(idx: usize) -> (r: Self) {
        ItemLocalId(low_word(idx))
    }

    fn index(self) -> (r: usize) {
        self.0 as usize
    }
}

impl ItemLocalId {
    /// Whether the ID is the one that identifies no node.
    pub open spec fn is_invalid(self) -> bool {
        self.0 == u32::MAX
    }

    /// Identifies the owner itself
    pub fn zero() -> (r: ItemLocalId)
        ensures
            r.0 == 0,
    {
        ItemLocalId(0)
    }

    /// Used to denote that an ID does not actually identify a node in the tree
    /// and points to garbage. For example, the parent ID of the owner node uses
    /// this value to signal that it does not have a parent
    pub fn invalid() -> (r: ItemLocalId)
        ensures
            r.is_invalid(),
    {
        ItemLocalId(u32::MAX)
    }
}

/// Identifies a node in the HIR for a crate. Composed of the ID of the
/// enclosing owner and the local ID of the node within the owner.
#[derive(Clone, Copy, Debug, PartialEq, Eq, Structural, PartialOrd, Ord, Hash)]
pub struct HirId {
    pub owner: LocalDefId,
    pub local_id: ItemLocalId,
}

impl HirId {
    /// The node with the given parts of its ID
    pub fn new(owner: LocalDefId, local_id: ItemLocalId) -> (r: HirId)
        ensures
            r == (HirId { owner, local_id }),
    {
        HirId { owner, local_id }
    }

    /// The owner node of a definition
    pub fn from_def_id(def_id: LocalDefId) -> (r: HirId)
        ensures
            r == (HirId { owner: def_id, local_id: ItemLocalId(0) }),
    {
        HirId { owner: def_id, local_id: ItemLocalId::zero() }
    }
}

impl From<HirId> for ItemLocalId {
    fn from(value: HirId) -> (r: Self) {
        value.local_id
    }
}

impl FromSpecImpl<HirId> for ItemLocalId {
    open spec fn obeys_from_spec() -> bool {
        true
    }

    open spec fn from_spec(value: HirId) -> Self {
        value.local_id
    }
}

/// An ID specifically identifying bodies within the HIR.
#[derive(Clone, Copy, Debug, PartialEq, Eq, Structural, PartialOrd, Ord, Hash)]
pub struct BodyId {
    pub hir_id: HirId,
}

} // verus!
