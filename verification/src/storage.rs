//! The capability contract for keyed slot containers.
//!
//! Both the entity table and every per-type component table are instances of
//! a [`Storage`] backend; any conforming implementation may be plugged in for
//! either. The reference implementation is the dense append-only allocator in
//! [`crate::integrations::slab`].

use vstd::prelude::*;

verus! {

/// Keys that identify slots of a [`Storage`] backend: copyable,
/// equality-comparable, hashable, and with a default value.
pub trait Identifier: Copy + PartialEq + Eq + core::hash::Hash + Default {

}

/// Every type with the required capabilities is an [`Identifier`].
impl<T> Identifier for T where T: Copy + PartialEq + Eq + core::hash::Hash + Default {

}

/// A keyed slot container.
///
/// The abstract state is a map from live keys to the values their slots hold,
/// together with the backend's iteration order over those keys. The contract
/// is the round trip: `insert` hands back a key that was not in use and now
/// maps to the inserted value, `get` resolves exactly the live keys, and
/// `key_of` recovers the key of a value stored in exactly one slot. There is
/// no removal operation.
pub trait Storage<V>: Sized {
    /// The slots in use: each live key maps to the value its slot holds.
    spec fn contents(&self) -> Map<usize, V>;

    /// The backend's iteration order: every live key, each exactly once, in a
    /// backend-defined but stable order.
    spec fn order(&self) -> Seq<usize>;

    /// The backend's internal consistency.
    spec fn inv(&self) -> bool;

    /// Consistency ties the iteration order to the live keys: the order lists
    /// each of them once, so the live keys form a finite set.
    proof fn inv_properties(&self)
        requires
            self.inv(),
        ensures
            self.order().no_duplicates(),
            self.order().to_set() =~= self.contents().dom(),
            self.contents().dom().finite(),
    ;

    /// Create an empty backend.
    fn new() -> (s: Self)
        ensures
            s.inv(),
            s.contents() == Map::<usize, V>::empty(),
            s.order() == Seq::<usize>::empty(),
    ;

    /// Create an empty backend with pre-allocated room; it expands on demand.
    fn with_capacity(capacity: usize) -> (s: Self)
        ensures
            s.inv(),
            s.contents() == Map::<usize, V>::empty(),
            s.order() == Seq::<usize>::empty(),
    ;

    /// Store a value in a fresh slot and return its key: one that was not in
    /// use before the call, and whose slot now holds exactly this value. The
    /// new key joins the iteration order at a backend-defined place.
    fn insert(&mut self, value: V) -> (k: usize)
        requires
            old(self).inv(),
        ensures
            final(self).inv(),
            !old(self).contents().contains_key(k),
            final(self).contents() == old(self).contents().insert(k, value),
            final(self).order().len() == old(self).order().len() + 1,
            final(self).order().to_set() == old(self).order().to_set().insert(k),
    ;

    /// Resolve a key: a reference to the stored value for a live key, and
    /// nothing for any other key.
    fn get(&self, key: usize) -> (r: Option<&V>)
        requires
            self.inv(),
        ensures
            match r {
                Some(v) => self.contents().contains_key(key) && *v == self.contents()[key],
                None => !self.contents().contains_key(key),
            },
    ;

    /// Resolve a key mutably; whatever the caller writes through the
    /// reference is what the slot then holds.
    fn get_mut(&mut self, key: usize) -> (r: Option<&mut V>)
        requires
            old(self).inv(),
        ensures
            final(self).inv(),
            final(self).order() == old(self).order(),
            match r {
                Some(v) => old(self).contents().contains_key(key) && *v == old(self).contents()[key]
                    && final(self).contents() == old(self).contents().insert(key, *final(v)),
                None => !old(self).contents().contains_key(key) && final(self).contents() == old(
                    self,
                ).contents(),
            },
    ;

    /// Reverse lookup: the key of the one slot holding a value equal to the
    /// given one. The value must be stored in exactly one slot: a value
    /// stored twice determines no key, so duplicates lie outside this
    /// operation's domain. On that domain, `key_of` inverts `get`: the
    /// returned key resolves to the value, and no other key does.
    fn key_of(&self, value: &V) -> (k: usize) where V: PartialEq
        requires
            self.inv(),
            vstd::laws_eq::obeys_concrete_eq::<V>(),
            exists|j: usize|
                #[trigger] self.contents().contains_key(j) && self.contents()[j] == *value,
            forall|j1: usize, j2: usize|
                #![trigger self.contents()[j1], self.contents()[j2]]
                self.contents().contains_key(j1) && self.contents().contains_key(j2)
                    && self.contents()[j1] == *value && self.contents()[j2] == *value ==> j1 == j2,
        ensures
            self.contents().contains_key(k),
            self.contents()[k] == *value,
            forall|j: usize|
                self.contents().contains_key(j) && #[trigger] self.contents()[j] == *value ==> j
                    == k,
    ;

    /// Whether a key is in use.
    fn has(&self, key: usize) -> (r: bool)
        requires
            self.inv(),
        ensures
            r == self.contents().contains_key(key),
    ;

    /// The number of slots in use.
    fn len(&self) -> (r: usize)
        requires
            self.inv(),
        ensures
            r == self.order().len(),
    ;

    /// Whether no slot is in use.
    fn is_empty(&self) -> (r: bool)
        requires
            self.inv(),
        ensures
            r == (self.order().len() == 0),
    ;

    /// Every `(key, value reference)` pair, in the backend's iteration order.
    fn iter(&self) -> (ps: Vec<(usize, &V)>)
        requires
            self.inv(),
        ensures
            ps@.len() == self.order().len(),
            forall|j: int|
                0 <= j < ps@.len() ==> self.contents().contains_key(self.order()[j]) && ps@[j] == (
                self.order()[j],
                &self.contents()[self.order()[j]],
                ),
    ;
}

} // verus!
