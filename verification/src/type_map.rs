//! A registry mapping type-identity tags to values.
//!
//! At most one value is stored per tag at a time; inserting a tag that is
//! already present replaces the previous value. In a setting without dynamic
//! reflection, type identity is carried by an explicit per-type token, the
//! [`TypeTag`], chosen by the caller: one tag stands for one component type,
//! and the registry is an associative structure keyed by that tag.

use vstd::prelude::*;

verus! {

/// A type-identity token: each component type a caller stores is named by one
/// tag, unique to that type within the maps it is used with.
pub type TypeTag = u64;

/// The association that a list of keys and a parallel list of values denote:
/// later entries shadow earlier ones.
pub open spec fn kv_map<K, V>(keys: Seq<K>, vals: Seq<V>) -> Map<K, V>
    decreases keys.len(),
{
    if keys.len() == 0 || vals.len() == 0 {
        Map::empty()
    } else {
        kv_map(keys.drop_last(), vals.drop_last()).insert(keys.last(), vals.last())
    }
}

/// The keys of the association are exactly the keys of the list.
pub proof fn lemma_kv_map_dom<K, V>(keys: Seq<K>, vals: Seq<V>)
    requires
        keys.len() == vals.len(),
    ensures
        kv_map(keys, vals).dom() =~= keys.to_set(),
    decreases keys.len(),
{
    if keys.len() == 0 {
        assert(keys.to_set() =~= Set::<K>::empty());
    } else {
        lemma_kv_map_dom(keys.drop_last(), vals.drop_last());
        assert forall|k: K| keys.to_set().contains(k) implies kv_map(
            keys,
            vals,
        ).dom().contains(k) by {
            if k != keys.last() {
                let i = choose|i: int| 0 <= i < keys.len() && keys[i] == k;
                assert(keys.drop_last()[i] == k);
                assert(keys.drop_last().contains(k));
            }
        }
        assert forall|k: K| kv_map(keys, vals).dom().contains(k) implies keys.to_set().contains(
            k,
        ) by {
            if k == keys.last() {
                assert(keys[keys.len() - 1] == k);
            } else {
                assert(keys.drop_last().to_set().contains(k));
                let i = choose|i: int|
                    0 <= i < keys.drop_last().len() && keys.drop_last()[i] == k;
                assert(keys[i] == k);
            }
        }
    }
}

/// Looking a listed key up in the association yields the value stored beside
/// it, provided the keys are pairwise distinct.
pub proof fn lemma_kv_map_index<K, V>(keys: Seq<K>, vals: Seq<V>, i: int)
    requires
        keys.len() == vals.len(),
        keys.no_duplicates(),
        0 <= i < keys.len(),
    ensures
        kv_map(keys, vals).contains_key(keys[i]),
        kv_map(keys, vals)[keys[i]] == vals[i],
    decreases keys.len(),
{
    proof_kv_prefix_no_duplicates(keys);
    if i < keys.len() - 1 {
        lemma_kv_map_index(keys.drop_last(), vals.drop_last(), i);
        assert(keys[i] != keys.last());
    }
}

/// Dropping the last key keeps the keys pairwise distinct.
proof fn proof_kv_prefix_no_duplicates<K>(keys: Seq<K>)
    requires
        keys.no_duplicates(),
        keys.len() >= 1,
    ensures
        keys.drop_last().no_duplicates(),
{
    assert forall|p: int, q: int|
        0 <= p < keys.drop_last().len() && 0 <= q < keys.drop_last().len() && p
            != q implies keys.drop_last()[p] != keys.drop_last()[q] by {
        assert(keys[p] != keys[q]);
    }
}

/// Updating the value beside one listed key updates the association at that
/// key and nothing else.
pub proof fn lemma_kv_map_update<K, V>(keys: Seq<K>, vals: Seq<V>, i: int, v: V)
    requires
        keys.len() == vals.len(),
        keys.no_duplicates(),
        0 <= i < keys.len(),
    ensures
        kv_map(keys, vals.update(i, v)) =~= kv_map(keys, vals).insert(keys[i], v),
    decreases keys.len(),
{
    proof_kv_prefix_no_duplicates(keys);
    if i == keys.len() - 1 {
        assert(vals.update(i, v).drop_last() =~= vals.drop_last());
        assert(vals.update(i, v).last() == v);
    } else {
        assert(vals.update(i, v).drop_last() =~= vals.drop_last().update(i, v));
        assert(vals.update(i, v).last() == vals.last());
        lemma_kv_map_update(keys.drop_last(), vals.drop_last(), i, v);
        assert(keys[i] != keys.last());
        assert(keys.drop_last()[i] == keys[i]);
    }
}

/// [`lemma_kv_map_update`], stated for every replacement value at once.
pub proof fn lemma_kv_map_update_all<K, V>(keys: Seq<K>, vals: Seq<V>, i: int)
    requires
        keys.len() == vals.len(),
        keys.no_duplicates(),
        0 <= i < keys.len(),
    ensures
        forall|v: V| #[trigger] kv_map(keys, vals.update(i, v)) == kv_map(keys, vals).insert(
            keys[i],
            v,
        ),
{
    assert forall|v: V| #[trigger] kv_map(keys, vals.update(i, v)) == kv_map(keys, vals).insert(
        keys[i],
        v,
    ) by {
        lemma_kv_map_update(keys, vals, i, v);
    }
}

/// Appending a fresh key-value pair inserts it into the association.
pub proof fn lemma_kv_map_push<K, V>(keys: Seq<K>, vals: Seq<V>, k: K, v: V)
    requires
        keys.len() == vals.len(),
    ensures
        kv_map(keys.push(k), vals.push(v)) =~= kv_map(keys, vals).insert(k, v),
{
    assert(keys.push(k).drop_last() =~= keys);
    assert(vals.push(v).drop_last() =~= vals);
    assert(keys.push(k).last() == k);
    assert(vals.push(v).last() == v);
}

/// Maps type-identity tags to values, at most one value per tag.
///
/// Inserting a tag that is present replaces the stored value, so a lookup for
/// a tag always yields the value most recently inserted under it: the checked
/// correspondence of tag and stored value that a reflective registry would
/// enforce with a downcast is here the map contract itself.
#[derive(Debug)]
pub struct TypeMap<V> {
    keys: Vec<TypeTag>,
    vals: Vec<V>,
}

impl<V> View for TypeMap<V> {
    type V = Map<TypeTag, V>;

    closed spec fn view(&self) -> Map<TypeTag, V> {
        kv_map(self.keys@, self.vals@)
    }
}

impl<V> TypeMap<V> {
    /// The registry's internal consistency: one value beside each tag, and no
    /// tag listed twice.
    pub closed spec fn wf(&self) -> bool {
        self.keys@.len() == self.vals@.len() && self.keys@.no_duplicates()
    }

    /// Create a new empty registry.
    pub fn new() -> (m: Self)
        ensures
            m.wf(),
            m@ == Map::<TypeTag, V>::empty(),
    {
        TypeMap { keys: Vec::new(), vals: Vec::new() }
    }

    /// Create an empty registry with pre-allocated room.
    ///
    /// More entries than the capacity are allowed; the registry re-allocates
    /// when that happens.
    pub fn with_capacity(capacity: usize) -> (m: Self)
        ensures
            m.wf(),
            m@ == Map::<TypeTag, V>::empty(),
    {
        TypeMap { keys: Vec::with_capacity(capacity), vals: Vec::with_capacity(capacity) }
    }

    /// The position of a tag in the key list, if it is listed.
    fn index_of(&self, tag: TypeTag) -> (r: Option<usize>)
        ensures
            match r {
                Some(i) => i < self.keys@.len() && self.keys@[i as int] == tag,
                None => !self.keys@.contains(tag),
            },
    {
        let n = self.keys.len();
        let mut i: usize = 0;
        while i < n
            invariant
                i <= n,
                n == self.keys@.len(),
                forall|j: int| 0 <= j < i ==> self.keys@[j] != tag,
            decreases n - i,
        {
            if self.keys[i] == tag {
                return Some(i);
            }
            i += 1;
        }
        None
    }

    /// Store a value under a tag, replacing any value the tag held before.
    pub fn insert(&mut self, tag: TypeTag, value: V)
        requires
            old(self).wf(),
        ensures
            final(self).wf(),
            final(self)@ == old(self)@.insert(tag, value),
    {
        match self.index_of(tag) {
            Some(i) => {
                proof {
                    lemma_kv_map_update(self.keys@, self.vals@, i as int, value);
                }
                self.vals[i] = value;
            },
            None => {
                proof {
                    lemma_kv_map_push(self.keys@, self.vals@, tag, value);
                    let ks = self.keys@.push(tag);
                    assert forall|p: int, q: int|
                        0 <= p < ks.len() && 0 <= q < ks.len() && p != q implies ks[p]
                        != ks[q] by {
                        if p < ks.len() - 1 && q < ks.len() - 1 {
                            assert(self.keys@[p] != self.keys@[q]);
                        } else if p < ks.len() - 1 {
                            assert(self.keys@[p] != tag);
                        } else {
                            assert(self.keys@[q] != tag);
                        }
                    }
                }
                self.keys.push(tag);
                self.vals.push(value);
            },
        }
    }

    /// Whether the registry holds a value for the given tag.
    pub fn has(&self, tag: TypeTag) -> (r: bool)
        requires
            self.wf(),
        ensures
            r == self@.contains_key(tag),
    {
        proof {
            lemma_kv_map_dom(self.keys@, self.vals@);
        }
        self.index_of(tag).is_some()
    }

    /// The number of tags that hold a value.
    pub fn len(&self) -> (r: usize)
        requires
            self.wf(),
        ensures
            r == self@.dom().len(),
    {
        proof {
            lemma_kv_map_dom(self.keys@, self.vals@);
            self.keys@.unique_seq_to_set();
        }
        self.keys.len()
    }

    /// Whether the registry holds nothing.
    pub fn is_empty(&self) -> (r: bool)
        requires
            self.wf(),
        ensures
            r == (self@.dom().len() == 0),
    {
        proof {
            lemma_kv_map_dom(self.keys@, self.vals@);
            self.keys@.unique_seq_to_set();
        }
        self.keys.len() == 0
    }

    /// A reference to the value stored under a tag.
    pub fn get(&self, tag: TypeTag) -> (r: Option<&V>)
        requires
            self.wf(),
        ensures
            match r {
                Some(v) => self@.contains_key(tag) && *v == self@[tag],
                None => !self@.contains_key(tag),
            },
    {
        match self.index_of(tag) {
            Some(i) => {
                proof {
                    lemma_kv_map_index(self.keys@, self.vals@, i as int);
                }
                Some(&self.vals[i])
            },
            None => {
                proof {
                    lemma_kv_map_dom(self.keys@, self.vals@);
                }
                None
            },
        }
    }

    /// A mutable reference to the value stored under a tag; whatever the
    /// caller writes through it is what the tag then holds.
    pub fn get_mut(&mut self, tag: TypeTag) -> (r: Option<&mut V>)
        requires
            old(self).wf(),
        ensures
            final(self).wf(),
            match r {
                Some(v) => old(self)@.contains_key(tag) && *v == old(self)@[tag] && final(self)@
                    == old(self)@.insert(tag, *final(v)),
                None => !old(self)@.contains_key(tag) && final(self)@ == old(self)@,
            },
    {
        match self.index_of(tag) {
            Some(i) => {
                proof {
                    lemma_kv_map_index(self.keys@, self.vals@, i as int);
                    lemma_kv_map_update_all(self.keys@, self.vals@, i as int);
                }
                Some(&mut self.vals[i])
            },
            None => {
                proof {
                    lemma_kv_map_dom(self.keys@, self.vals@);
                }
                None
            },
        }
    }

    /// Remove every entry.
    pub fn clear(&mut self)
        requires
            old(self).wf(),
        ensures
            final(self).wf(),
            final(self)@ == Map::<TypeTag, V>::empty(),
    {
        self.keys.clear();
        self.vals.clear();
    }
}

impl<V> Default for TypeMap<V> {
    /// An empty registry.
    fn default() -> (m: Self)
        ensures
            m.wf(),
            m@ == Map::<TypeTag, V>::empty(),
    {
        TypeMap::new()
    }
}

/// Round trip through the registry: a value inserted under a tag is exactly
/// what a lookup for that tag then yields, and the tag reads as present; an
/// empty registry holds no tag and has length zero.
pub proof fn lemma_type_map_round_trip<V>(m: Map<TypeTag, V>, tag: TypeTag, value: V)
    ensures
        m.insert(tag, value).contains_key(tag),
        m.insert(tag, value)[tag] == value,
        !Map::<TypeTag, V>::empty().contains_key(tag),
        Map::<TypeTag, V>::empty().dom().len() == 0,
{
    assert(Map::<TypeTag, V>::empty().dom() =~= Set::<TypeTag>::empty());
}

} // verus!
