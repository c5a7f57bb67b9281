//! The scopes around a place in the tree.

use crate::frontend::intern::InternedSymbol;
use std::collections::BTreeMap;
use vstd::prelude::*;

verus! {

broadcast use vstd::std_specs::btree::group_btree_axioms;

/// A data structure to assist in traversing AST scopes within a specific
/// namespace (values or types)
pub struct ScopeStack<R> {
    pub inner: Vec<BTreeMap<u32, R>>,
}

impl<R> View for ScopeStack<R> {
    type V = Seq<Map<u32, R>>;

    open spec fn view(&self) -> Seq<Map<u32, R>> {
        Seq::new(self.inner@.len(), |i: int| self.inner@[i]@)
    }
}

/// The binding of a name in the innermost of the first `n` scopes that has one.
pub open spec fn binding<R>(scopes: Seq<Map<u32, R>>, name: u32, n: nat) -> Option<R>
    decreases n,
{
    if n == 0 {
        None
    } else if scopes[n - 1].contains_key(name) {
        Some(scopes[n - 1][name])
    } else {
        binding(scopes, name, (n - 1) as nat)
    }
}

/// The scopes with a name bound in the innermost one.
pub open spec fn bound<R>(scopes: Seq<Map<u32, R>>, name: u32, value: R) -> Seq<Map<u32, R>> {
    scopes.update(scopes.len() - 1, scopes.last().insert(name, value))
}

impl<R: Copy> ScopeStack<R> {
    /// No scopes.
    pub fn new() -> (r: Self)
        ensures
            r@ == Seq::<Map<u32, R>>::empty(),
    {
        let r = ScopeStack { inner: Vec::new() };
        assert(r@ =~= Seq::<Map<u32, R>>::empty());
        r
    }

    /// Creates a new block or function scope
    pub fn push_shallow_scope(&mut self)
        ensures
            final(self)@ == old(self)@.push(Map::empty()),
    {
        let scope: BTreeMap<u32, R> = BTreeMap::new();
        assert(scope@ =~= Map::empty());
        self.inner.push(scope);
        assert(self@ =~= old(self)@.push(Map::empty()));
    }

    /// Destroys the current block or function scope
    pub fn pop_shallow_scope(&mut self)
        requires
            old(self)@.len() > 0,
        ensures
            final(self)@ == old(self)@.drop_last(),
    {
        let _ = self.inner.pop();
        assert(self@ =~= old(self)@.drop_last());
    }

    /// Looks for a binding only within the current (most nested) scope
    pub fn get_shallow_binding(&self, symbol: InternedSymbol) -> (r: Option<R>)
        requires
            self@.len() > 0,
        ensures
            r == (if self@.last().contains_key(symbol.0) {
                Some(self@.last()[symbol.0])
            } else {
                None
            }),
    {
        match self.inner[self.inner.len() - 1].get(&symbol.0) {
            Some(value) => Some(*value),
            None => None,
        }
    }

    /// Adds a binding only within the current (most nested) scope
    pub fn add_shallow_binding(&mut self, symbol: InternedSymbol, name_resolution: R)
        requires
            old(self)@.len() > 0,
        ensures
            final(self)@ == bound(old(self)@, symbol.0, name_resolution),
    {
        match self.inner.pop() {
            Some(mut scope) => {
                scope.insert(symbol.0, name_resolution);
                self.inner.push(scope);
            }
            None => {}
        }
        assert(self@ =~= bound(old(self)@, symbol.0, name_resolution));
    }

    /// Traverses the scope stack from back to front looking for bindings
    pub fn get_binding(&self, symbol: InternedSymbol) -> (r: Option<R>)
        ensures
            r == binding(self@, symbol.0, self@.len()),
    {
        let mut n: usize = self.inner.len();
        while n > 0
            invariant
                n <= self.inner@.len(),
                binding(self@, symbol.0, n as nat) == binding(self@, symbol.0, self@.len()),
            decreases n,
        {
            assert(self@[n - 1] == self.inner@[n - 1]@);
            match self.inner[n - 1].get(&symbol.0) {
                Some(value) => {
                    return Some(*value);
                }
                None => {}
            }
            n = n - 1;
        }
        None
    }
}

proof fn lemma_binding_prefix<R>(a: Seq<Map<u32, R>>, b: Seq<Map<u32, R>>, name: u32, n: nat)
    requires
        n <= a.len(),
        n <= b.len(),
        forall|i: int| 0 <= i < n ==> a[i] == b[i],
    ensures
        binding(a, name, n) == binding(b, name, n),
    decreases n,
{
    if n > 0 {
        lemma_binding_prefix(a, b, name, (n - 1) as nat);
    }
}

/// A name that was bound is found, and hides what it stood for further out.
pub proof fn law_binding_found<R>(scopes: Seq<Map<u32, R>>, name: u32, value: R)
    requires
        scopes.len() > 0,
    ensures
        binding(bound(scopes, name, value), name, scopes.len()) == Some(value),
{
}

/// Binding a name changes nothing about other names.
pub proof fn law_other_bindings_kept<R>(
    scopes: Seq<Map<u32, R>>,
    name: u32,
    value: R,
    other: u32,
)
    requires
        scopes.len() > 0,
        other != name,
    ensures
        binding(bound(scopes, name, value), other, scopes.len()) == binding(
            scopes,
            other,
            scopes.len(),
        ),
{
    lemma_binding_prefix(bound(scopes, name, value), scopes, other, (scopes.len() - 1) as nat);
}

/// A new scope hides nothing.
pub proof fn law_new_scope_hides_nothing<R>(scopes: Seq<Map<u32, R>>, name: u32)
    ensures
        binding(scopes.push(Map::empty()), name, scopes.len() + 1) == binding(
            scopes,
            name,
            scopes.len(),
        ),
{
    lemma_binding_prefix(scopes.push(Map::empty()), scopes, name, scopes.len());
}

/// What is bound in a scope is gone with the scope.
pub proof fn law_scope_forgotten<R>(scopes: Seq<Map<u32, R>>, name: u32, value: R)
    ensures
        bound(scopes.push(Map::empty()), name, value).drop_last() == scopes,
{
    assert(bound(scopes.push(Map::empty()), name, value).drop_last() =~= scopes);
}

} // verus!
