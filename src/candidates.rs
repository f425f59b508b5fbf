//! The hash set of ids used during a search, for the candidates gathered and
//! for the split nodes already expanded.
use vstd::prelude::*;

verus! {

/// Distinct ids, held in a `hashbrown::HashSet`.
#[verifier::external_body]
pub struct IdSet {
    set: hashbrown::HashSet<usize>,
}

/// The ids held by an id set.
pub uninterp spec fn id_members(s: IdSet) -> Set<int>;

impl IdSet {
    /// Relies on `hashbrown::HashSet::new`: a set with no elements.
    #[verifier::external_body]
    pub(crate) fn new() -> (r: IdSet)
        ensures
            id_members(r) == Set::<int>::empty(),
    {
        IdSet { set: hashbrown::HashSet::new() }
    }

    /// Relies on `hashbrown::HashSet::insert`: the value is in the set afterwards,
    /// nothing else changes, and `true` comes back when it was absent.
    #[verifier::external_body]
    pub(crate) fn insert(&mut self, id: usize) -> (r: bool)
        ensures
            id_members(*final(self)) == id_members(*old(self)).insert(id as int),
            r == !id_members(*old(self)).contains(id as int),
    {
        self.set.insert(id)
    }

    /// Relies on `hashbrown::HashSet::len`: the number of elements.
    #[verifier::external_body]
    pub(crate) fn len(&self) -> (r: usize)
        ensures
            r == id_members(*self).len(),
    {
        self.set.len()
    }

    /// Relies on `hashbrown::HashSet::iter`: every element once, in an order
    /// that the hasher decides.
    #[verifier::external_body]
    pub(crate) fn to_vec(&self) -> (r: Vec<usize>)
        ensures
            r@.no_duplicates(),
            r@.len() == id_members(*self).len(),
            forall|i: int| 0 <= i < r@.len() ==> id_members(*self).contains(#[trigger] r@[i] as int),
            forall|x: usize| id_members(*self).contains(x as int) ==> #[trigger] r@.contains(x),
    {
        self.set.iter().copied().collect()
    }
}

} // verus!
