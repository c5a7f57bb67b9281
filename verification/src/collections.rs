//! Sets and maps of 32-bit ids.

use std::collections::BTreeMap;
use std::collections::BTreeSet;
use std::rc::Rc;
use vstd::prelude::*;
use vstd::std_specs::iter::IteratorSpec;

verus! {

broadcast use vstd::std_specs::btree::group_btree_axioms;

/// Another handle on a shared value. `Rc::clone` hands out a pointer to the
/// same allocation, so the value behind it is the same.
#[verifier::external_body]
pub(crate) fn share<T>(rc: &Rc<T>) -> (r: Rc<T>)
    ensures
        r == *rc,
{
    rc.clone()
}

/// Whether every number is smaller than the ones behind it.
pub open spec fn increasing(s: Seq<u32>) -> bool {
    forall|i: int, j: int| 0 <= i < j < s.len() ==> s[i] < s[j]
}

/// Whether `s` lists the members of `ids`, smallest first.
pub open spec fn lists(s: Seq<u32>, ids: Set<u32>) -> bool {
    increasing(s) && s.to_set() == ids
}

/// The members of a finite set of ids, smallest first.
pub open spec fn ascending(ids: Set<u32>) -> Seq<u32> {
    choose|s: Seq<u32>| lists(s, ids)
}

/// There is only one increasing list of a set of ids.
pub proof fn lemma_listing_unique(a: Seq<u32>, b: Seq<u32>)
    requires
        increasing(a),
        increasing(b),
        a.to_set() == b.to_set(),
    ensures
        a == b,
    decreases a.len(),
{
    if a.len() == 0 {
        if b.len() > 0 {
            assert(b.to_set().contains(b[0]));
            assert(a.to_set().contains(b[0]));
        }
        assert(a =~= b);
    } else {
        assert(a.to_set().contains(a.last()));
        assert(b.to_set().contains(a.last()));
        let i = b.index_of(a.last());
        assert(b.contains(a.last()));
        assert(b.to_set().contains(b.last()));
        assert(a.contains(b.last()));
        let j = a.index_of(b.last());
        assert(a[j] == b.last());
        assert(b[i] == a.last());
        assert(a.last() == b.last());
        let c = a.drop_last();
        let d = b.drop_last();
        assert forall|x: u32| c.to_set().contains(x) == d.to_set().contains(x) by {
            if c.contains(x) {
                let k = c.index_of(x);
                assert(a[k] == x);
                assert(a.to_set().contains(x));
                assert(b.contains(x));
                let m = b.index_of(x);
                assert(d[m] == x);
            }
            if d.contains(x) {
                let k = d.index_of(x);
                assert(b[k] == x);
                assert(b.to_set().contains(x));
                assert(a.contains(x));
                let m = a.index_of(x);
                assert(c[m] == x);
            }
        }
        assert(c.to_set() =~= d.to_set());
        lemma_listing_unique(c, d);
        assert(a =~= c.push(a.last()));
        assert(b =~= d.push(b.last()));
    }
}

/// An increasing list of a set is the listing of that set.
pub proof fn lemma_listing(s: Seq<u32>, ids: Set<u32>)
    requires
        lists(s, ids),
    ensures
        ascending(ids) == s,
{
    lemma_listing_unique(s, ascending(ids));
}

/// A set has a largest member unless it is empty.
proof fn lemma_largest(ids: Set<u32>) -> (r: u32)
    requires
        ids.finite(),
        ids.len() > 0,
    ensures
        ids.contains(r),
        forall|x: u32| ids.contains(x) ==> x <= r,
    decreases ids.len(),
{
    let x = ids.choose();
    let rest = ids.remove(x);
    if rest.len() == 0 {
        assert(rest =~= Set::<u32>::empty());
        assert forall|y: u32| ids.contains(y) implies y <= x by {
            assert(y == x || rest.contains(y));
        }
        x
    } else {
        let m = lemma_largest(rest);
        assert forall|y: u32| ids.contains(y) implies y <= (if m > x { m } else { x }) by {
            assert(y == x || rest.contains(y));
        }
        if m > x {
            m
        } else {
            x
        }
    }
}

/// Every finite set of ids can be listed.
pub proof fn lemma_ascending(ids: Set<u32>)
    requires
        ids.finite(),
    ensures
        lists(ascending(ids), ids),
{
    lemma_listing_exists(ids);
}

proof fn lemma_listing_exists(ids: Set<u32>)
    requires
        ids.finite(),
    ensures
        exists|s: Seq<u32>| lists(s, ids),
    decreases ids.len(),
{
    if ids.len() == 0 {
        assert(ids =~= Set::<u32>::empty());
        assert(Seq::<u32>::empty().to_set() =~= ids);
        assert(lists(Seq::<u32>::empty(), ids));
    } else {
        let m = lemma_largest(ids);
        let rest = ids.remove(m);
        lemma_listing_exists(rest);
        let s = choose|s: Seq<u32>| lists(s, rest);
        let t = s.push(m);
        assert forall|i: int, j: int| 0 <= i < j < t.len() implies t[i] < t[j] by {
            assert(s.to_set().contains(s[i]));
        }
        assert forall|x: u32| t.to_set().contains(x) == ids.contains(x) by {
            if t.contains(x) {
                let k = t.index_of(x);
                if k < s.len() {
                    assert(s.to_set().contains(s[k]));
                }
            }
            if ids.contains(x) {
                if x == m {
                    assert(t[s.len() as int] == x);
                } else {
                    assert(s.to_set().contains(x));
                    let k = s.index_of(x);
                    assert(t[k] == x);
                }
            }
        }
        assert(t.to_set() =~= ids);
        assert(lists(t, ids));
    }
}

/// The keys of a map, smallest first.
pub fn sorted_keys<V>(m: &BTreeMap<u32, V>) -> (r: Vec<u32>)
    ensures
        r@ == ascending(m@.dom()),
        lists(r@, m@.dom()),
{
    let mut r: Vec<u32> = Vec::new();
    let ghost all = vstd::std_specs::btree::spec_keys_iter(m).remaining();
    for k in it: m.keys()
        invariant
            it.seq() == all,
            r@.len() == it.index(),
            forall|i: int| 0 <= i < r@.len() ==> r@[i] == *all[i],
    {
        r.push(*k);
    }
    proof {
        broadcast use vstd::laws_cmp::group_laws_cmp;
        assert(r@ =~= all.unref());
        assert(r@.to_set() =~= m@.dom());
        assert(vstd::laws_cmp::obeys_cmp::<&u32>());
        assert(vstd::std_specs::btree::increasing_seq(all));
        assert forall|i: int, j: int| 0 <= i < j < r@.len() implies r@[i] < r@[j] by {
            assert(vstd::std_specs::cmp::OrdSpec::cmp_spec(&all[i], &all[j]) is Less);
        }
        lemma_listing(r@, m@.dom());
    }
    r
}

/// The members of a set, smallest first.
pub fn sorted_members(m: &BTreeSet<u32>) -> (r: Vec<u32>)
    ensures
        r@ == ascending(m@),
        lists(r@, m@),
{
    let mut r: Vec<u32> = Vec::new();
    let ghost all = vstd::std_specs::btree::spec_btree_keys_iter(m).remaining();
    for k in it: m.iter()
        invariant
            it.seq() == all,
            r@.len() == it.index(),
            forall|i: int| 0 <= i < r@.len() ==> r@[i] == *all[i],
    {
        r.push(*k);
    }
    proof {
        broadcast use vstd::laws_cmp::group_laws_cmp;
        assert(r@ =~= all.unref());
        assert(r@.to_set() =~= m@);
        assert(vstd::laws_cmp::obeys_cmp::<&u32>());
        assert(vstd::std_specs::btree::increasing_seq(all));
        assert forall|i: int, j: int| 0 <= i < j < r@.len() implies r@[i] < r@[j] by {
            assert(vstd::std_specs::cmp::OrdSpec::cmp_spec(&all[i], &all[j]) is Less);
        }
        lemma_listing(r@, m@);
    }
    r
}

/// An unordered set of ids.
#[verifier::external_body]
pub struct IdSet {
    set: hashbrown::HashSet<u32>,
}

/// The ids that a set holds.
pub uninterp spec fn ids_in(s: IdSet) -> Set<u32>;

impl IdSet {
    /// A set without members (`hashbrown::HashSet::new`).
    #[verifier::external_body]
    pub(crate) fn new() -> (r: IdSet)
        ensures
            ids_in(r) == Set::<u32>::empty(),
    {
        IdSet { set: hashbrown::HashSet::new() }
    }

    /// Adds a member and says whether it is a new one
    /// (`hashbrown::HashSet::insert`).
    #[verifier::external_body]
    pub(crate) fn insert(&mut self, id: u32) -> (r: bool)
        ensures
            ids_in(*final(self)) == ids_in(*old(self)).insert(id),
            r == !ids_in(*old(self)).contains(id),
    {
        self.set.insert(id)
    }

    /// Whether `id` is a member (`hashbrown::HashSet::contains`).
    #[verifier::external_body]
    pub(crate) fn contains(&self, id: u32) -> (r: bool)
        ensures
            r == ids_in(*self).contains(id),
    {
        self.set.contains(&id)
    }
}

/// An unordered map from ids to numbers.
#[verifier::external_body]
pub struct IdMap {
    map: hashbrown::HashMap<u32, u32>,
}

/// The entries that a map holds.
pub uninterp spec fn entries_in(m: IdMap) -> Map<u32, u32>;

impl IdMap {
    /// A map without entries (`hashbrown::HashMap::new`).
    #[verifier::external_body]
    pub(crate) fn new() -> (r: IdMap)
        ensures
            entries_in(r).dom() == Set::<u32>::empty(),
    {
        IdMap { map: hashbrown::HashMap::new() }
    }

    /// Adds or replaces an entry and gives the number that it replaces
    /// (`hashbrown::HashMap::insert`).
    #[verifier::external_body]
    pub(crate) fn insert(&mut self, key: u32, value: u32) -> (r: Option<u32>)
        ensures
            entries_in(*final(self)) == entries_in(*old(self)).insert(key, value),
            r == (if entries_in(*old(self)).contains_key(key) {
                Some(entries_in(*old(self))[key])
            } else {
                None
            }),
    {
        self.map.insert(key, value)
    }

    /// The number under `key` (`hashbrown::HashMap::get`).
    #[verifier::external_body]
    pub(crate) fn get(&self, key: u32) -> (r: Option<u32>)
        ensures
            r == (if entries_in(*self).contains_key(key) {
                Some(entries_in(*self)[key])
            } else {
                None
            }),
    {
        self.map.get(&key).copied()
    }
}

} // verus!
