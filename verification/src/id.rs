//! Identifiers that are unique within some space, and their allocation
//! from sets and maps of the identifiers in use.

use std::collections::BTreeMap;
use std::collections::BTreeSet;
use std::marker::PhantomData;
use std::ops::Bound;

use gaps::RangeGappable as _;

use vstd::prelude::*;
use vstd::std_specs::cmp::PartialEqSpecImpl;

verus! {

broadcast use {vstd::std_specs::btree::group_btree_axioms, vstd::laws_cmp::group_laws_cmp};

/// An identifier, always positive, of an item of type `T`.
#[derive(Debug)]
pub struct Id<T> {
    id: usize,
    _phantom: PhantomData<T>,
}

impl<T> Id<T> {
    /// Identifiers are positive.
    #[verifier::type_invariant]
    spec fn positive(self) -> bool {
        self.id > 0
    }

    /// The numeric value of the identifier.
    pub closed spec fn value(self) -> usize {
        self.id
    }

    /// Construct an identifier from `id`, which is assumed to be unique
    /// in the space it is used in.
    pub fn from_unique_id(id: usize) -> (res: Self)
        requires
            id > 0,
        ensures
            res.value() == id,
    {
        Id { id, _phantom: PhantomData }
    }

    /// Retrieve the numeric value of the identifier.
    pub fn get(&self) -> (res: usize)
        ensures
            res == self.value(),
            res > 0,
    {
        proof {
            use_type_invariant(self);
        }
        self.id
    }
}

impl<T> Clone for Id<T> {
    fn clone(&self) -> (res: Self)
        ensures
            res == *self,
    {
        proof {
            use_type_invariant(self);
        }
        Id { id: self.id, _phantom: PhantomData }
    }
}

impl<T> Copy for Id<T> {

}

impl<T> PartialEq for Id<T> {
    fn eq(&self, other: &Self) -> (res: bool) {
        self.id == other.id
    }
}

impl<T> PartialEqSpecImpl for Id<T> {
    open spec fn obeys_eq_spec() -> bool {
        true
    }

    open spec fn eq_spec(&self, other: &Self) -> bool {
        self.value() == other.value()
    }
}

/// Whether `id` is the least positive number that `used` does not hold.
pub open spec fn least_unused(used: Set<usize>, id: usize) -> bool {
    &&& id > 0
    &&& !used.contains(id)
    &&& forall|k: usize| 0 < k < id ==> used.contains(k)
}

/// Whether some positive number is not in `used`.
pub open spec fn has_unused(used: Set<usize>) -> bool {
    exists|k: usize| k > 0 && !used.contains(k)
}

/// The first gap of `set` in the range from 1 to `usize::MAX`
/// (`RangeGappable::gaps` on a `BTreeSet`, first item), by its start:
/// `(true, 1)` where 1 is not in the set, `(false, l)` where the gap
/// starts right after `l`, or `None` where the set holds every value of
/// the range.
#[verifier::external_body]
fn set_first_gap(set: &BTreeSet<usize>) -> (res: Option<(bool, usize)>)
    ensures
        match res {
            Some((true, l)) => l == 1 && !set@.contains(1),
            Some((false, l)) => 0 < l < usize::MAX && !set@.contains((l + 1) as usize) && forall|k: usize|
                0 < k <= l ==> set@.contains(k),
            None => forall|k: usize| k > 0 ==> set@.contains(k),
        },
{
    match set.gaps(1..=usize::MAX).next() {
        Some((Bound::Included(l), _)) => Some((true, l)),
        Some((Bound::Excluded(l), _)) => Some((false, l)),
        Some((Bound::Unbounded, _)) => None,
        None => None,
    }
}

/// The first gap of the keys of `map` in the range from 1 to
/// `usize::MAX` (`RangeGappable::gaps` on a `BTreeMap`, first item), by
/// its start, as for a set.
#[verifier::external_body]
fn map_first_gap<V>(map: &BTreeMap<usize, V>) -> (res: Option<(bool, usize)>)
    ensures
        match res {
            Some((true, l)) => l == 1 && !map@.dom().contains(1),
            Some((false, l)) => 0 < l < usize::MAX && !map@.dom().contains((l + 1) as usize)
                && forall|k: usize| 0 < k <= l ==> map@.dom().contains(k),
            None => forall|k: usize| k > 0 ==> map@.dom().contains(k),
        },
{
    match map.gaps(1..=usize::MAX).next() {
        Some((Bound::Included(l), _)) => Some((true, l)),
        Some((Bound::Excluded(l), _)) => Some((false, l)),
        Some((Bound::Unbounded, _)) => None,
        None => None,
    }
}

/// The start of the first gap as found by `set_first_gap` or
/// `map_first_gap`.
fn gap_start(gap: Option<(bool, usize)>, used: Ghost<Set<usize>>) -> (id: usize)
    requires
        has_unused(used@),
        match gap {
            Some((true, l)) => l == 1 && !used@.contains(1),
            Some((false, l)) => 0 < l < usize::MAX && !used@.contains((l + 1) as usize) && forall|
                k: usize,
            | 0 < k <= l ==> used@.contains(k),
            None => forall|k: usize| k > 0 ==> used@.contains(k),
        },
    ensures
        least_unused(used@, id),
{
    match gap {
        Some((true, l)) => l,
        Some((false, l)) => l + 1,
        None => {
            proof {
                let k = choose|k: usize| k > 0 && !used@.contains(k);
                assert(used@.contains(k));
            }
            1
        },
    }
}

/// Allocation of identifiers from a collection of the identifiers in
/// use.
pub trait AllocId<T> {
    /// The identifiers in use.
    spec fn ids_in_use(&self) -> Set<usize>;

    /// Whether `after` is what the collection becomes by reserving the
    /// unused identifier `id`.
    spec fn reserved(&self, after: &Self, id: usize) -> bool;

    /// Allocate the least identifier that is not in use.
    fn allocate_id(&mut self) -> (id: Id<T>)
        requires
            has_unused(old(self).ids_in_use()),
        ensures
            least_unused(old(self).ids_in_use(), id.value()),
            old(self).reserved(&*final(self), id.value()),
    ;

    /// Reserve the identifier `id`, unless it is zero or in use.
    fn try_reserve_id(&mut self, id: usize) -> (res: Option<Id<T>>)
        ensures
            res is Some <==> id > 0 && !old(self).ids_in_use().contains(id),
            res matches Some(r) ==> r.value() == id && old(self).reserved(&*final(self), id),
            res is None ==> final(self).ids_in_use() == old(self).ids_in_use(),
    ;

    /// Reserve the identifier `id`, which is positive and not in use.
    fn reserve_id(&mut self, id: usize) -> (res: Id<T>)
        requires
            id > 0,
            !old(self).ids_in_use().contains(id),
        ensures
            res.value() == id,
            old(self).reserved(&*final(self), id),
    ;

    /// Free an identifier allocated earlier.
    fn free_id(&mut self, id: Id<T>)
        requires
            old(self).ids_in_use().contains(id.value()),
        ensures
            final(self).ids_in_use() == old(self).ids_in_use().remove(id.value()),
    ;
}

/// A set of identifiers in use: allocating or reserving an identifier
/// adds it to the set.
impl<T> AllocId<T> for BTreeSet<usize> {
    open spec fn ids_in_use(&self) -> Set<usize> {
        self@
    }

    open spec fn reserved(&self, after: &Self, id: usize) -> bool {
        after@ == self@.insert(id)
    }

    fn allocate_id(&mut self) -> (id: Id<T>) {
        let gap = set_first_gap(self);
        let id = gap_start(gap, Ghost(self@));
        let _inserted = self.insert(id);
        Id::from_unique_id(id)
    }

    fn try_reserve_id(&mut self, id: usize) -> (res: Option<Id<T>>) {
        if id == 0 {
            None
        } else if !self.insert(id) {
            None
        } else {
            Some(Id::from_unique_id(id))
        }
    }

    fn reserve_id(&mut self, id: usize) -> (res: Id<T>) {
        let _inserted = self.insert(id);
        Id::from_unique_id(id)
    }

    fn free_id(&mut self, id: Id<T>) {
        let value = id.get();
        let _removed = self.remove(&value);
    }
}

/// A map keyed by identifiers in use: allocating or reserving an
/// identifier leaves the map as it is, and the caller adds the entry.
impl<T, V> AllocId<T> for BTreeMap<usize, V> {
    open spec fn ids_in_use(&self) -> Set<usize> {
        self@.dom()
    }

    open spec fn reserved(&self, after: &Self, id: usize) -> bool {
        after@ == self@
    }

    fn allocate_id(&mut self) -> (id: Id<T>) {
        let gap = map_first_gap(self);
        let id = gap_start(gap, Ghost(self@.dom()));
        Id::from_unique_id(id)
    }

    fn try_reserve_id(&mut self, id: usize) -> (res: Option<Id<T>>) {
        if id == 0 {
            None
        } else if self.contains_key(&id) {
            None
        } else {
            Some(Id::from_unique_id(id))
        }
    }

    fn reserve_id(&mut self, id: usize) -> (res: Id<T>) {
        Id::from_unique_id(id)
    }

    fn free_id(&mut self, id: Id<T>) {
        let value = id.get();
        let _removed = self.remove(&value);
    }
}

} // verus!
