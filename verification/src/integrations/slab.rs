//! The reference [`Storage`] backend: a dense append-only slot allocator.
//!
//! Slots live at consecutive keys `0, 1, 2, ...` in insertion order; nothing
//! is ever removed, so no key is reused and the iteration order is the
//! insertion order.

use vstd::prelude::*;

use crate::storage::Storage;

verus! {

/// A dense append-only slot allocator: slot `k` of `n` is the value inserted
/// by the `k`-th insertion, viewed as the sequence of stored values.
#[derive(Debug)]
pub struct Slab<V> {
    items: Vec<V>,
}

impl<V> View for Slab<V> {
    type V = Seq<V>;

    closed spec fn view(&self) -> Seq<V> {
        self.items@
    }
}

impl<V> Slab<V> {
    /// Create a new empty allocator.
    pub fn new() -> (s: Self)
        ensures
            s@ == Seq::<V>::empty(),
    {
        Slab { items: Vec::new() }
    }

    /// Create an empty allocator with pre-allocated room; it expands on
    /// demand.
    pub fn with_capacity(capacity: usize) -> (s: Self)
        ensures
            s@ == Seq::<V>::empty(),
    {
        Slab { items: Vec::with_capacity(capacity) }
    }

    /// Append a value in a fresh slot; the returned key is the previous
    /// number of slots.
    pub fn insert(&mut self, value: V) -> (k: usize)
        ensures
            k == old(self)@.len(),
            final(self)@ == old(self)@.push(value),
    {
        let k = self.items.len();
        self.items.push(value);
        k
    }

    /// A reference to the value at a key, if the key is in use.
    pub fn get(&self, key: usize) -> (r: Option<&V>)
        ensures
            match r {
                Some(v) => key < self@.len() && *v == self@[key as int],
                None => key >= self@.len(),
            },
    {
        if key < self.items.len() {
            Some(&self.items[key])
        } else {
            None
        }
    }

    /// A mutable reference to the value at a key; whatever the caller writes
    /// through it is what the slot then holds.
    pub fn get_mut(&mut self, key: usize) -> (r: Option<&mut V>)
        ensures
            match r {
                Some(v) => key < old(self)@.len() && *v == old(self)@[key as int] && final(self)@
                    == old(self)@.update(key as int, *final(v)),
                None => key >= old(self)@.len() && final(self)@ == old(self)@,
            },
    {
        if key < self.items.len() {
            Some(&mut self.items[key])
        } else {
            None
        }
    }

    /// Whether a key is in use.
    pub fn has(&self, key: usize) -> (r: bool)
        ensures
            r == (key < self@.len()),
    {
        key < self.items.len()
    }

    /// The number of slots in use.
    pub fn len(&self) -> (r: usize)
        ensures
            r == self@.len(),
    {
        self.items.len()
    }

    /// Whether no slot is in use.
    pub fn is_empty(&self) -> (r: bool)
        ensures
            r == (self@.len() == 0),
    {
        self.items.len() == 0
    }

    /// Every `(key, value reference)` pair, in key order.
    pub fn iter(&self) -> (ps: Vec<(usize, &V)>)
        ensures
            ps@.len() == self@.len(),
            forall|j: int| 0 <= j < ps@.len() ==> ps@[j] == (j as usize, &self@[j]),
    {
        let mut ps: Vec<(usize, &V)> = Vec::new();
        let n = self.items.len();
        let mut i: usize = 0;
        while i < n
            invariant
                i <= n,
                n == self@.len(),
                ps@.len() == i,
                forall|j: int| 0 <= j < i ==> ps@[j] == (j as usize, &self@[j]),
            decreases n - i,
        {
            let v = &self.items[i];
            ps.push((i, v));
            assert(ps@[i as int] == (i, v));
            i += 1;
        }
        ps
    }
}

impl<V> Default for Slab<V> {
    /// An empty allocator.
    fn default() -> (s: Self)
        ensures
            s@ == Seq::<V>::empty(),
    {
        Slab::new()
    }
}

/// The backend round trip on the dense allocator: a freshly inserted value
/// is what its new key resolves to, and, where no equal value was stored
/// before, the new key is the only one holding it, so the value lies in
/// `key_of`'s domain and reverse lookup yields exactly that key.
pub proof fn lemma_slab_round_trip<V>(items: Seq<V>, v: V)
    requires
        !items.contains(v),
    ensures
        items.push(v)[items.len() as int] == v,
        forall|j: int|
            0 <= j < items.push(v).len() && #[trigger] items.push(v)[j] == v ==> j == items.len(),
{
    assert forall|j: int|
        0 <= j < items.push(v).len() && #[trigger] items.push(v)[j] == v implies j
        == items.len() by {
        if j < items.len() {
            assert(items.push(v)[j] == items[j]);
            assert(items.contains(v));
        }
    }
}

impl<V: PartialEq> Slab<V> {
    /// The key of the one slot holding a value equal to the given one. The
    /// value must be stored in exactly one slot: a value stored twice
    /// determines no key, so duplicates lie outside this operation's domain.
    /// On that domain `key_of` inverts `get`.
    pub fn key_of(&self, value: &V) -> (k: usize)
        requires
            vstd::laws_eq::obeys_concrete_eq::<V>(),
            self@.contains(*value),
            forall|i: int, j: int|
                #![trigger self@[i], self@[j]]
                0 <= i < self@.len() && 0 <= j < self@.len() && self@[i] == *value && self@[j]
                    == *value ==> i == j,
        ensures
            k < self@.len(),
            self@[k as int] == *value,
            forall|j: int| 0 <= j < self@.len() && #[trigger] self@[j] == *value ==> j == k,
    {
        proof {
            reveal(vstd::laws_eq::obeys_concrete_eq);
        }
        let n = self.items.len();
        let mut i: usize = 0;
        while i < n
            invariant
                i <= n,
                n == self@.len(),
                self@.contains(*value),
                vstd::laws_eq::obeys_concrete_eq::<V>(),
                forall|p: int, q: int|
                    #![trigger self@[p], self@[q]]
                    0 <= p < self@.len() && 0 <= q < self@.len() && self@[p] == *value && self@[q]
                        == *value ==> p == q,
                forall|j: int| 0 <= j < i ==> self@[j] != *value,
            decreases n - i,
        {
            proof {
                reveal(vstd::laws_eq::obeys_concrete_eq);
            }
            if *value == self.items[i] {
                proof {
                    assert(self@[i as int] == *value);
                    assert forall|j: int|
                        0 <= j < self@.len() && #[trigger] self@[j] == *value implies j
                        == i by {
                        assert(self@[i as int] == *value && self@[j] == *value);
                    }
                }
                return i;
            }
            i += 1;
        }
        proof {
            let j = choose|j: int| 0 <= j < self@.len() && self@[j] == *value;
            assert(false);
        }
        0
    }
}

impl<V> Storage<V> for Slab<V> {
    open spec fn contents(&self) -> Map<usize, V> {
        Map::new(|k: usize| (k as int) < self@.len(), |k: usize| self@[k as int])
    }

    open spec fn order(&self) -> Seq<usize> {
        Seq::new(self@.len(), |i: int| i as usize)
    }

    open spec fn inv(&self) -> bool {
        true
    }

    proof fn inv_properties(&self) {
        broadcast use vstd::std_specs::vec::axiom_spec_len;

        assert(vstd::std_specs::vec::spec_vec_len(&self.items) == self.items@.len());
        assert forall|p: int, q: int|
            0 <= p < self.order().len() && 0 <= q < self.order().len() && p
                != q implies self.order()[p] != self.order()[q] by {
            assert(self@.len() <= usize::MAX);
        }
        assert forall|k: usize| self.order().to_set().contains(k) implies self.contents(
        ).dom().contains(k) by {
            let i = choose|i: int| 0 <= i < self.order().len() && self.order()[i] == k;
        }
        assert forall|k: usize| self.contents().dom().contains(k) implies self.order(
        ).to_set().contains(k) by {
            assert(self.order()[k as int] == k);
        }
        assert(self.order().to_set() =~= self.contents().dom());
        broadcast use vstd::seq_lib::seq_to_set_is_finite;

    }

    fn new() -> (s: Self) {
        let s = Slab::new();
        proof {
            assert(s.contents() =~= Map::<usize, V>::empty());
            assert(s.order() =~= Seq::<usize>::empty());
        }
        s
    }

    fn with_capacity(capacity: usize) -> (s: Self) {
        let s = Slab::with_capacity(capacity);
        proof {
            assert(s.contents() =~= Map::<usize, V>::empty());
            assert(s.order() =~= Seq::<usize>::empty());
        }
        s
    }

    fn insert(&mut self, value: V) -> (k: usize) {
        let k = Slab::insert(self, value);
        proof {
            assert(final(self).contents() =~= old(self).contents().insert(k, value));
            assert forall|x: usize|
                final(self).order().to_set().contains(x) implies old(self).order().to_set().insert(
                k).contains(x) by {
                let i = choose|i: int|
                    0 <= i < final(self).order().len() && final(self).order()[i] == x;
                if i < old(self).order().len() {
                    assert(old(self).order()[i] == x);
                }
            }
            assert forall|x: usize|
                old(self).order().to_set().insert(k).contains(x) implies final(
                self).order().to_set().contains(x) by {
                if x == k {
                    assert(final(self).order()[k as int] == x);
                } else {
                    let i = choose|i: int|
                        0 <= i < old(self).order().len() && old(self).order()[i] == x;
                    assert(final(self).order()[i] == x);
                }
            }
            assert(final(self).order().to_set() =~= old(self).order().to_set().insert(k));
        }
        k
    }

    fn get(&self, key: usize) -> (r: Option<&V>) {
        Slab::get(self, key)
    }

    fn get_mut(&mut self, key: usize) -> (r: Option<&mut V>) {
        let r = Slab::get_mut(self, key);
        proof {
            if key < old(self)@.len() {
                assert forall|v: V|
                    old(self)@.update(key as int, v).len() == old(self)@.len() implies Map::new(
                    |k2: usize| (k2 as int) < old(self)@.update(key as int, v).len(),
                    |k2: usize| old(self)@.update(key as int, v)[k2 as int],
                ) == old(self).contents().insert(key, v) by {
                    assert(Map::new(
                        |k2: usize| (k2 as int) < old(self)@.update(key as int, v).len(),
                        |k2: usize| old(self)@.update(key as int, v)[k2 as int],
                    ) =~= old(self).contents().insert(key, v));
                }
            }
        }
        r
    }

    fn key_of(&self, value: &V) -> (k: usize) where V: PartialEq {
        proof {
            broadcast use vstd::std_specs::vec::axiom_spec_len;

            assert(vstd::std_specs::vec::spec_vec_len(&self.items) == self.items@.len());
            let j = choose|j: usize|
                #[trigger] self.contents().contains_key(j) && self.contents()[j] == *value;
            assert(self@[j as int] == *value);
            assert forall|i1: int, j1: int|
                #![trigger self@[i1], self@[j1]]
                0 <= i1 < self@.len() && 0 <= j1 < self@.len() && self@[i1] == *value && self@[j1]
                    == *value implies i1 == j1 by {
                assert(self.contents()[i1 as usize] == self@[i1]);
                assert(self.contents()[j1 as usize] == self@[j1]);
            }
        }
        let k = Slab::key_of(self, value);
        proof {
            assert forall|j: usize|
                self.contents().contains_key(j) && #[trigger] self.contents()[j]
                    == *value implies j == k by {
                assert(self@[j as int] == *value);
            }
        }
        k
    }

    fn has(&self, key: usize) -> (r: bool) {
        Slab::has(self, key)
    }

    fn len(&self) -> (r: usize) {
        Slab::len(self)
    }

    fn is_empty(&self) -> (r: bool) {
        Slab::is_empty(self)
    }

    fn iter(&self) -> (ps: Vec<(usize, &V)>) {
        let ps = Slab::iter(self);
        proof {
            broadcast use vstd::std_specs::vec::axiom_spec_len;

            assert(vstd::std_specs::vec::spec_vec_len(&self.items) == self.items@.len());
            assert forall|j: int| 0 <= j < ps@.len() implies self.contents().contains_key(
                self.order()[j],
            ) && ps@[j] == (self.order()[j], &self.contents()[self.order()[j]]) by {
                assert(self.order()[j] == j as usize);
                assert(self.contents()[j as usize] == self@[j]);
                assert(ps@[j] == (j as usize, &self@[j]));
            }
        }
        ps
    }
}

} // verus!
