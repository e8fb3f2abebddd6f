//! The query engine: a two-phase accumulator over a read-only world view.
//!
//! The narrowing phase issues `with` clauses; each scans every live entity
//! and bumps a per-entity frequency counter for those qualifying. The
//! resolution phase, `get`, selects the entities whose counter equals the
//! number of issued clauses — exactly those that qualified for every clause —
//! and joins them against one tag's component table.

use vstd::prelude::*;

use crate::integrations::slab::Slab;
use crate::storage::Storage;
use crate::type_map::TypeTag;
use crate::type_map::kv_map;
use crate::type_map::lemma_kv_map_dom;
use crate::type_map::lemma_kv_map_index;
use crate::type_map::lemma_kv_map_push;
use crate::type_map::lemma_kv_map_update;
use crate::world::World;
use crate::world::WorldView;
use crate::world::lemma_world_view;
use crate::world::lemma_world_wf;

verus! {

/// How many of the issued clauses entity `e` satisfies: one for each clause
/// whose tag the entity holds a resolving component for.
pub open spec fn sat_count<V>(w: WorldView<V>, clauses: Seq<TypeTag>, e: int) -> nat
    decreases clauses.len(),
{
    if clauses.len() == 0 {
        0
    } else {
        sat_count(w, clauses.drop_last(), e) + if w.has_component(e, clauses.last()) {
            1nat
        } else {
            0nat
        }
    }
}

/// Whether entity `e` is in the match set after the issued clauses: at least
/// one clause was issued and the entity satisfied every one.
pub open spec fn matched<V>(w: WorldView<V>, clauses: Seq<TypeTag>, e: int) -> bool {
    clauses.len() > 0 && sat_count(w, clauses, e) == clauses.len()
}

/// What resolving tag `t` yields over the entities below `upto`: each matched
/// entity holding a resolving component for `t`, in entity-key order, paired
/// with that component value.
pub open spec fn resolved<V>(
    w: WorldView<V>,
    clauses: Seq<TypeTag>,
    t: TypeTag,
    upto: int,
) -> Seq<(usize, V)>
    decreases upto,
{
    if upto <= 0 {
        Seq::empty()
    } else {
        let rest = resolved(w, clauses, t, upto - 1);
        if matched(w, clauses, upto - 1) && w.has_component(upto - 1, t) {
            rest.push(((upto - 1) as usize, w.component(upto - 1, t)))
        } else {
            rest
        }
    }
}

/// An entity satisfies at most as many clauses as were issued.
pub proof fn lemma_sat_count_le<V>(w: WorldView<V>, clauses: Seq<TypeTag>, e: int)
    ensures
        sat_count(w, clauses, e) <= clauses.len(),
    decreases clauses.len(),
{
    if clauses.len() > 0 {
        lemma_sat_count_le(w, clauses.drop_last(), e);
    }
}

/// Issuing one more clause raises an entity's satisfied count by one exactly
/// when the entity holds a resolving component for the new tag.
pub proof fn lemma_sat_count_push<V>(w: WorldView<V>, clauses: Seq<TypeTag>, t: TypeTag, e: int)
    ensures
        sat_count(w, clauses.push(t), e) == sat_count(w, clauses, e) + if w.has_component(e, t) {
            1nat
        } else {
            0nat
        },
{
    assert(clauses.push(t).drop_last() =~= clauses);
    assert(clauses.push(t).last() == t);
}

/// An entity satisfies every issued clause exactly when it holds a resolving
/// component for each issued tag.
pub proof fn lemma_sat_count_full<V>(w: WorldView<V>, clauses: Seq<TypeTag>, e: int)
    ensures
        (sat_count(w, clauses, e) == clauses.len()) <==> (forall|i: int|
            0 <= i < clauses.len() ==> w.has_component(e, #[trigger] clauses[i])),
    decreases clauses.len(),
{
    if clauses.len() > 0 {
        let prefix = clauses.drop_last();
        lemma_sat_count_full(w, prefix, e);
        lemma_sat_count_le(w, prefix, e);
        if sat_count(w, clauses, e) == clauses.len() {
            assert forall|i: int| 0 <= i < clauses.len() implies w.has_component(
                e,
                #[trigger] clauses[i],
            ) by {
                if i < clauses.len() - 1 {
                    assert(prefix[i] == clauses[i]);
                    assert(w.has_component(e, prefix[i]));
                }
            }
        }
        if forall|i: int| 0 <= i < clauses.len() ==> w.has_component(e, #[trigger] clauses[i]) {
            assert forall|i: int| 0 <= i < prefix.len() implies w.has_component(
                e,
                #[trigger] prefix[i],
            ) by {
                assert(prefix[i] == clauses[i]);
            }
            assert(w.has_component(e, clauses.last()));
        }
    }
}

/// Clauses compose as an order-independent AND: two clause sequences over the
/// same set of tags produce the same match decision for every entity.
pub proof fn lemma_query_order_independent<V>(
    w: WorldView<V>,
    s1: Seq<TypeTag>,
    s2: Seq<TypeTag>,
    e: int,
)
    requires
        s1.to_set() == s2.to_set(),
        s1.len() > 0,
        s2.len() > 0,
    ensures
        matched(w, s1, e) == matched(w, s2, e),
{
    lemma_sat_count_full(w, s1, e);
    lemma_sat_count_full(w, s2, e);
    if forall|i: int| 0 <= i < s1.len() ==> w.has_component(e, #[trigger] s1[i]) {
        assert forall|i: int| 0 <= i < s2.len() implies w.has_component(e, #[trigger] s2[i]) by {
            assert(s2.to_set().contains(s2[i]));
            assert(s1.to_set().contains(s2[i]));
            let j = choose|j: int| 0 <= j < s1.len() && s1[j] == s2[i];
            assert(w.has_component(e, s1[j]));
        }
    }
    if forall|i: int| 0 <= i < s2.len() ==> w.has_component(e, #[trigger] s2[i]) {
        assert forall|i: int| 0 <= i < s1.len() implies w.has_component(e, #[trigger] s1[i]) by {
            assert(s1.to_set().contains(s1[i]));
            assert(s2.to_set().contains(s1[i]));
            let j = choose|j: int| 0 <= j < s2.len() && s2[j] == s1[i];
            assert(w.has_component(e, s2[j]));
        }
    }
}

/// The resolution phase is order-independent too: two clause sequences over
/// the same set of tags yield the very same pairs, since the match set is
/// the same and entities come out in entity-key order either way.
pub proof fn lemma_resolved_order_independent<V>(
    w: WorldView<V>,
    s1: Seq<TypeTag>,
    s2: Seq<TypeTag>,
    t: TypeTag,
    upto: int,
)
    requires
        s1.to_set() == s2.to_set(),
        s1.len() > 0,
        s2.len() > 0,
    ensures
        resolved(w, s1, t, upto) == resolved(w, s2, t, upto),
    decreases upto,
{
    if upto > 0 {
        lemma_resolved_order_independent(w, s1, s2, t, upto - 1);
        lemma_query_order_independent(w, s1, s2, upto - 1);
        assert(resolved(w, s1, t, upto) =~= resolved(w, s2, t, upto));
    }
}

/// With no issued clauses the resolution phase yields nothing: no entity is
/// matched against a clause count of zero.
pub proof fn lemma_get_without_clauses<V>(w: WorldView<V>, t: TypeTag, upto: int)
    ensures
        resolved(w, Seq::<TypeTag>::empty(), t, upto).len() == 0,
    decreases upto,
{
    if upto > 0 {
        lemma_get_without_clauses(w, t, upto - 1);
    }
}

/// A per-entity tally of satisfied clauses, holding a counter for each entity
/// that qualified for at least one clause.
#[derive(Debug)]
pub struct EntityFrequency {
    ids: Vec<usize>,
    counts: Vec<u32>,
}

impl View for EntityFrequency {
    type V = Map<usize, u32>;

    closed spec fn view(&self) -> Map<usize, u32> {
        kv_map(self.ids@, self.counts@)
    }
}

impl EntityFrequency {
    /// Internal consistency: one counter beside each listed entity, no entity
    /// listed twice.
    pub closed spec fn wf(&self) -> bool {
        self.ids@.len() == self.counts@.len() && self.ids@.no_duplicates()
    }

    /// The counter recorded for an entity, zero where none is recorded.
    pub open spec fn count_of(self, e: usize) -> u32 {
        if self@.contains_key(e) {
            self@[e]
        } else {
            0u32
        }
    }

    /// Create an empty tally.
    pub fn new() -> (f: Self)
        ensures
            f.wf(),
            f@ == Map::<usize, u32>::empty(),
    {
        EntityFrequency { ids: Vec::new(), counts: Vec::new() }
    }

    /// The position of an entity in the tally, if it is listed.
    fn index_of(&self, id: usize) -> (r: Option<usize>)
        ensures
            match r {
                Some(i) => i < self.ids@.len() && self.ids@[i as int] == id,
                None => !self.ids@.contains(id),
            },
    {
        let n = self.ids.len();
        let mut i: usize = 0;
        while i < n
            invariant
                i <= n,
                n == self.ids@.len(),
                forall|j: int| 0 <= j < i ==> self.ids@[j] != id,
            decreases n - i,
        {
            if self.ids[i] == id {
                return Some(i);
            }
            i += 1;
        }
        None
    }

    /// Count one more satisfied clause for an entity.
    pub fn add_entity(&mut self, id: usize)
        requires
            old(self).wf(),
            old(self).count_of(id) < u32::MAX,
        ensures
            final(self).wf(),
            final(self)@ == old(self)@.insert(id, (old(self).count_of(id) + 1) as u32),
    {
        proof {
            lemma_kv_map_dom(self.ids@, self.counts@);
        }
        match self.index_of(id) {
            Some(i) => {
                proof {
                    lemma_kv_map_index(self.ids@, self.counts@, i as int);
                    lemma_kv_map_update(
                        self.ids@,
                        self.counts@,
                        i as int,
                        (self.counts@[i as int] + 1) as u32,
                    );
                }
                let c = self.counts[i];
                self.counts[i] = c + 1;
            },
            None => {
                proof {
                    lemma_kv_map_push(self.ids@, self.counts@, id, 1u32);
                    let ks = self.ids@.push(id);
                    assert forall|p: int, q: int|
                        0 <= p < ks.len() && 0 <= q < ks.len() && p != q implies ks[p]
                        != ks[q] by {
                        if p < ks.len() - 1 && q < ks.len() - 1 {
                            assert(self.ids@[p] != self.ids@[q]);
                        } else if p < ks.len() - 1 {
                            assert(self.ids@[p] != id);
                        } else {
                            assert(self.ids@[q] != id);
                        }
                    }
                }
                self.ids.push(id);
                self.counts.push(1);
            },
        }
    }

    /// The counter recorded for an entity, zero where none is recorded.
    pub fn count(&self, id: usize) -> (r: u32)
        requires
            self.wf(),
        ensures
            r == self.count_of(id),
    {
        proof {
            lemma_kv_map_dom(self.ids@, self.counts@);
        }
        match self.index_of(id) {
            Some(i) => {
                proof {
                    lemma_kv_map_index(self.ids@, self.counts@, i as int);
                }
                self.counts[i]
            },
            None => 0,
        }
    }
}

impl Default for EntityFrequency {
    /// An empty tally.
    fn default() -> (f: Self)
        ensures
            f.wf(),
            f@ == Map::<usize, u32>::empty(),
    {
        EntityFrequency::new()
    }
}

/// The query accumulator: a read-only view of one world, the number of
/// clauses issued so far, and the per-entity tally of satisfied clauses.
pub struct QueryBuilder<'a, V, S: Storage<V> = Slab<V>> {
    pub(crate) with_call_count: u32,
    pub(crate) entity_freq: EntityFrequency,
    pub(crate) world: &'a World<V, S>,
    clause_tags: Ghost<Seq<TypeTag>>,
}

impl<'a, V, S: Storage<V>> QueryBuilder<'a, V, S> {
    /// The abstract state of the world this query reads.
    pub closed spec fn world_view(&self) -> WorldView<V> {
        self.world@
    }

    /// The tags of the clauses issued so far, in order. Only clauses whose
    /// tag has a component table are recorded: one on a tag with no table
    /// contributes nothing.
    pub closed spec fn clauses(&self) -> Seq<TypeTag> {
        self.clause_tags@
    }

    /// Internal consistency: the clause count is the number of issued
    /// clauses, and the tally records, for each live entity, exactly how many
    /// issued clauses it satisfies, listing exactly those entities that
    /// satisfy at least one.
    pub closed spec fn wf(&self) -> bool {
        &&& self.world.wf()
        &&& self.entity_freq.wf()
        &&& self.with_call_count == self.clause_tags@.len()
        &&& forall|x: usize|
            #[trigger] self.entity_freq@.contains_key(x) ==> (x as int) < self.world@.entities.len()
                && sat_count(self.world@, self.clause_tags@, x as int) > 0
        &&& forall|x: usize|
            (x as int) < self.world@.entities.len() ==> #[trigger] self.entity_freq.count_of(x)
                == sat_count(self.world@, self.clause_tags@, x as int)
    }

    /// Create a query over a read-only view of a world, with no clauses
    /// issued yet.
    pub fn new(world: &'a World<V, S>) -> (q: Self)
        requires
            world.wf(),
        ensures
            q.wf(),
            q.world_view() == world@,
            q.clauses() == Seq::<TypeTag>::empty(),
    {
        QueryBuilder {
            with_call_count: 0,
            entity_freq: EntityFrequency::new(),
            world,
            clause_tags: Ghost(Seq::empty()),
        }
    }

    /// Issue one clause: require a component for `tag`. Every live entity
    /// holding a resolving component for `tag` counts one more satisfied
    /// clause. Where no table exists for `tag` the call is a silent no-op and
    /// no clause is recorded.
    pub fn with(&mut self, tag: TypeTag)
        requires
            old(self).wf(),
            old(self).clauses().len() < u32::MAX,
        ensures
            final(self).wf(),
            final(self).world_view() == old(self).world_view(),
            final(self).clauses() == if old(self).world_view().has_table(tag) {
                old(self).clauses().push(tag)
            } else {
                old(self).clauses()
            },
    {
        let w: &World<V, S> = self.world;
        proof {
            lemma_world_view(w);
            lemma_world_wf(w);
        }
        let table = match w.tables.get(tag) {
            Some(tb) => tb,
            None => {
                return;
            },
        };
        let ghost cl = self.clause_tags@;
        let n = w.entities.len();
        let mut e: usize = 0;
        while e < n
            invariant
                e <= n,
                n == w.entities@.len(),
                w.wf(),
                self.world == w,
                self.with_call_count == cl.len(),
                self.clause_tags@ == cl,
                self.entity_freq.wf(),
                cl.len() < u32::MAX,
                w@.has_table(tag),
                *table == w.tables@[tag],
                forall|x: usize|
                    #[trigger] self.entity_freq@.contains_key(x) ==> (x as int) < n
                        && self.entity_freq.count_of(x) > 0,
                forall|x: usize|
                    (x as int) < n ==> #[trigger] self.entity_freq.count_of(x) == sat_count(
                        w@,
                        cl,
                        x as int,
                    ) + if (x as int) < e && w@.has_component(x as int, tag) {
                        1nat
                    } else {
                        0nat
                    },
            decreases n - e,
        {
            proof {
                lemma_world_view(w);
                lemma_world_wf(w);
            }
            let ghost f0 = self.entity_freq;
            let reg = self.world.entities.get(e).unwrap();
            match reg.get(tag) {
                Some(c) => {
                    if table.has(c.id) {
                        proof {
                            lemma_sat_count_le(w@, cl, e as int);
                            assert(w@.has_component(e as int, tag));
                        }
                        self.entity_freq.add_entity(e);
                        proof {
                            assert forall|x: usize| (x as int)
                                < n implies #[trigger] self.entity_freq.count_of(x) == sat_count(
                                w@,
                                cl,
                                x as int,
                            ) + if (x as int) < e + 1 && w@.has_component(x as int, tag) {
                                1nat
                            } else {
                                0nat
                            } by {
                                assert(f0.count_of(x) == sat_count(w@, cl, x as int) + if (
                                x as int) < e && w@.has_component(x as int, tag) {
                                    1nat
                                } else {
                                    0nat
                                });
                                if x == e {
                                    assert(self.entity_freq.count_of(x) == f0.count_of(x) + 1);
                                } else {
                                    assert(self.entity_freq.count_of(x) == f0.count_of(x));
                                }
                            }
                            assert forall|x: usize|
                                #[trigger] self.entity_freq@.contains_key(x) implies (x as int) < n
                                && self.entity_freq.count_of(x) > 0 by {
                                if x == e {
                                } else {
                                    assert(f0@.contains_key(x));
                                    assert(f0.count_of(x) > 0);
                                    assert(self.entity_freq.count_of(x) == f0.count_of(x));
                                }
                            }
                        }
                    } else {
                        proof {
                            assert(!w@.has_component(e as int, tag));
                        }
                    }
                },
                None => {
                    proof {
                        assert(!w@.has_component(e as int, tag));
                    }
                },
            }
            e += 1;
        }
        self.with_call_count = self.with_call_count + 1;
        proof {
            self.clause_tags@ = cl.push(tag);
            assert forall|x: usize| (x as int)
                < self.world@.entities.len() implies #[trigger] self.entity_freq.count_of(x)
                == sat_count(self.world@, self.clause_tags@, x as int) by {
                lemma_sat_count_push(w@, cl, tag, x as int);
            }
            assert forall|x: usize|
                #[trigger] self.entity_freq@.contains_key(x) implies (x as int)
                < self.world@.entities.len() && sat_count(self.world@, self.clause_tags@, x as int)
                > 0 by {
                assert(self.entity_freq.count_of(x) > 0);
                assert(self.entity_freq.count_of(x) == sat_count(
                    self.world@,
                    self.clause_tags@,
                    x as int,
                ));
            }
        }
    }

    /// Resolve the query for `tag`: nothing where no table exists for `tag`;
    /// otherwise, in entity-key order, every matched entity holding a
    /// resolving component for `tag`, paired with a reference to that
    /// component. With zero issued clauses the result is empty.
    pub fn get(&self, tag: TypeTag) -> (r: Option<Vec<(usize, &V)>>)
        requires
            self.wf(),
        ensures
            match r {
                None => !self.world_view().has_table(tag),
                Some(ps) => self.world_view().has_table(tag) && ({
                    let rs = resolved(
                        self.world_view(),
                        self.clauses(),
                        tag,
                        self.world_view().entities.len() as int,
                    );
                    &&& ps@.len() == rs.len()
                    &&& forall|j: int| 0 <= j < ps@.len() ==> ps@[j] == (rs[j].0, &rs[j].1)
                }),
            },
            (self.clauses().len() == 0 && r is Some) ==> r.unwrap()@.len() == 0,
    {
        let w: &World<V, S> = self.world;
        proof {
            lemma_world_view(w);
            lemma_world_wf(w);
        }
        let table = match w.tables.get(tag) {
            Some(tb) => tb,
            None => {
                return None;
            },
        };
        let ghost cl = self.clause_tags@;
        let count = self.with_call_count;
        let n = w.entities.len();
        let mut out: Vec<(usize, &V)> = Vec::new();
        let mut e: usize = 0;
        while e < n
            invariant
                e <= n,
                n == w.entities@.len(),
                w.wf(),
                self.wf(),
                self.world == w,
                self.clause_tags@ == cl,
                count == cl.len(),
                w@.has_table(tag),
                *table == w.tables@[tag],
                out@.len() == resolved(w@, cl, tag, e as int).len(),
                forall|j: int|
                    0 <= j < out@.len() ==> out@[j] == (
                        resolved(w@, cl, tag, e as int)[j].0,
                        &resolved(w@, cl, tag, e as int)[j].1,
                    ),
            decreases n - e,
        {
            proof {
                lemma_world_view(w);
                lemma_world_wf(w);
            }
            let ghost prev = resolved(w@, cl, tag, e as int);
            let reg = self.world.entities.get(e).unwrap();
            let fc = self.entity_freq.count(e);
            if count > 0 && fc == count {
                proof {
                    assert(matched(w@, cl, e as int));
                }
                match reg.get(tag) {
                    Some(c) => {
                        match table.get(c.id) {
                            Some(v) => {
                                proof {
                                    assert(w@.has_component(e as int, tag));
                                    assert(*v == w@.component(e as int, tag));
                                }
                                out.push((e, v));
                                proof {
                                    assert(resolved(w@, cl, tag, e as int + 1) =~= prev.push(
                                        (e, w@.component(e as int, tag)),
                                    ));
                                    assert(out@[prev.len() as int] == (e, v));
                                }
                            },
                            None => {
                                proof {
                                    assert(!w@.has_component(e as int, tag));
                                    assert(resolved(w@, cl, tag, e as int + 1) =~= prev);
                                }
                            },
                        }
                    },
                    None => {
                        proof {
                            assert(!w@.has_component(e as int, tag));
                            assert(resolved(w@, cl, tag, e as int + 1) =~= prev);
                        }
                    },
                }
            } else {
                proof {
                    assert(!matched(w@, cl, e as int));
                    assert(resolved(w@, cl, tag, e as int + 1) =~= prev);
                }
            }
            e += 1;
        }
        proof {
            if cl.len() == 0 {
                assert(cl =~= Seq::<TypeTag>::empty());
                lemma_get_without_clauses(w@, tag, n as int);
            }
        }
        Some(out)
    }
}

} // verus!
