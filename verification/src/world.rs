//! The world: one entity table and one outer registry of component tables.
//!
//! The entity table maps each entity key to that entity's own registry of
//! component handles; the outer registry maps each component type tag to the
//! table holding that type's values. Entities and components are addressed
//! only by keys into these tables, never by direct reference. Each component
//! table is a [`Storage`] backend chosen by the caller, the dense reference
//! allocator by default; the entity table is the reference allocator, whose
//! dense keys the query scan's order contract is stated over.

use core::marker::PhantomData;

use vstd::prelude::*;

use crate::entity_builder::EntityBuilder;
use crate::integrations::slab::Slab;
use crate::query_builder::QueryBuilder;
use crate::storage::Storage;
use crate::type_map::TypeMap;
use crate::type_map::TypeTag;

verus! {

/// A handle recording where, in the component table for one type tag, an
/// entity's component value lives.
#[derive(Debug, Clone, Copy, PartialEq, Eq, Structural)]
pub struct ComponentId {
    /// The slot key in the component table.
    pub id: usize,
}

/// The abstract state of a [`World`]: the registry of component handles of
/// each live entity, and the values each existing component table holds.
#[verifier::ext_equal]
pub struct WorldView<V> {
    /// Entity `e`'s registry, at index `e`: the tag of each held component,
    /// mapped to the handle into that tag's table.
    pub entities: Seq<Map<TypeTag, ComponentId>>,
    /// The tag of each existing component table, mapped to the slots the
    /// table holds: slot key to stored value.
    pub tables: Map<TypeTag, Map<usize, V>>,
}

impl<V> WorldView<V> {
    /// Whether `e` is a live entity key.
    pub open spec fn live(self, e: int) -> bool {
        0 <= e < self.entities.len()
    }

    /// Whether a component table exists for tag `t`.
    pub open spec fn has_table(self, t: TypeTag) -> bool {
        self.tables.contains_key(t)
    }

    /// Whether entity `e` holds a component for tag `t`: `e` is live, its
    /// registry holds a handle for `t`, and the handle resolves to a slot of
    /// `t`'s table.
    pub open spec fn has_component(self, e: int, t: TypeTag) -> bool {
        &&& self.live(e)
        &&& self.entities[e].contains_key(t)
        &&& self.has_table(t)
        &&& self.tables[t].contains_key(self.entities[e][t].id)
    }

    /// The component value entity `e` holds for tag `t`.
    pub open spec fn component(self, e: int, t: TypeTag) -> V
        recommends
            self.has_component(e, t),
    {
        self.tables[t][self.entities[e][t].id]
    }

    /// Every recorded handle resolves: each tag a live entity's registry
    /// holds leads to an existing table and a slot inside it. Handles are
    /// valid for the life of the world, since no slot is ever removed.
    pub open spec fn handles_resolve(self) -> bool {
        forall|e: int, t: TypeTag|
            self.live(e) && #[trigger] self.entities[e].contains_key(t) ==> self.has_table(t)
                && self.tables[t].contains_key(self.entities[e][t].id)
    }

    /// The table for tag `t`, or an empty one where none exists yet.
    pub open spec fn table_or_empty(self, t: TypeTag) -> Map<usize, V> {
        if self.has_table(t) {
            self.tables[t]
        } else {
            Map::empty()
        }
    }

    /// The state after inserting `value` for tag `t` on entity `e`, into the
    /// fresh slot `ck` that the table's backend chose: `t`'s table, created
    /// on first use, gains the value under `ck`, and `e`'s registry maps `t`
    /// to the new slot's handle, replacing any handle it held for `t`
    /// before. The slot a replaced handle pointed to is not freed.
    pub open spec fn insert_component_at(self, e: int, t: TypeTag, ck: usize, value: V) -> WorldView<
        V,
    >
        recommends
            self.live(e),
            !self.table_or_empty(t).contains_key(ck),
    {
        WorldView {
            entities: self.entities.update(
                e,
                self.entities[e].insert(t, ComponentId { id: ck }),
            ),
            tables: self.tables.insert(t, self.table_or_empty(t).insert(ck, value)),
        }
    }
}

/// An entity-component world: entity keys are handed out by the dense
/// reference allocator, each component table is a [`Storage`] backend `S` —
/// any conforming implementation plugs in, the reference allocator by
/// default — and component types are identified by [`TypeTag`]s paired with
/// the caller's component value type `V`.
#[derive(Debug)]
pub struct World<V, S: Storage<V> = Slab<V>> {
    /// The entity table: each live entity's registry of component handles.
    pub(crate) entities: Slab<TypeMap<ComponentId>>,
    /// The outer registry: each used type tag's component table.
    pub(crate) tables: TypeMap<S>,
    pub(crate) _values: PhantomData<V>,
}

impl<V, S: Storage<V>> View for World<V, S> {
    type V = WorldView<V>;

    closed spec fn view(&self) -> WorldView<V> {
        WorldView {
            entities: self.entities@.map_values(|r: TypeMap<ComponentId>| r@),
            tables: self.tables@.map_values(|s: S| s.contents()),
        }
    }
}

/// How a world's abstract state reads off its tables.
pub(crate) proof fn lemma_world_view<V, S: Storage<V>>(w: &World<V, S>)
    ensures
        w@.entities.len() == w.entities@.len(),
        forall|e: int| 0 <= e < w.entities@.len() ==> w@.entities[e] == (#[trigger] w.entities@[e])@,
        forall|t: TypeTag| #[trigger] w@.tables.contains_key(t) == w.tables@.contains_key(t),
        forall|t: TypeTag|
            w.tables@.contains_key(t) ==> w@.tables[t] == (#[trigger] w.tables@[t]).contents(),
{
}

/// A well-formed world's handles all resolve.
pub proof fn lemma_world_handles_resolve<V, S: Storage<V>>(w: &World<V, S>)
    requires
        w.wf(),
    ensures
        w@.handles_resolve(),
{
}

/// What a well-formed world guarantees of its parts.
pub(crate) proof fn lemma_world_wf<V, S: Storage<V>>(w: &World<V, S>)
    requires
        w.wf(),
    ensures
        w.tables.wf(),
        forall|e: int| 0 <= e < w.entities@.len() ==> (#[trigger] w.entities@[e]).wf(),
        forall|t: TypeTag| w.tables@.contains_key(t) ==> (#[trigger] w.tables@[t]).inv(),
{
}

impl<V, S: Storage<V>> World<V, S> {
    /// Internal consistency: the outer registry, every entity registry and
    /// every component table are well-formed, and every handle resolves.
    pub closed spec fn wf(&self) -> bool {
        &&& self.tables.wf()
        &&& forall|e: int| 0 <= e < self.entities@.len() ==> (#[trigger] self.entities@[e]).wf()
        &&& forall|t: TypeTag| self.tables@.contains_key(t) ==> (#[trigger] self.tables@[t]).inv()
        &&& self@.handles_resolve()
    }

    /// Create a world with no entities and no component tables.
    pub fn new() -> (w: Self)
        ensures
            w.wf(),
            w@.entities == Seq::<Map<TypeTag, ComponentId>>::empty(),
            w@.tables == Map::<TypeTag, Map<usize, V>>::empty(),
    {
        let w = World { entities: Slab::new(), tables: TypeMap::new(), _values: PhantomData };
        proof {
            assert(w@.entities =~= Seq::<Map<TypeTag, ComponentId>>::empty());
            assert(w@.tables =~= Map::<TypeTag, Map<usize, V>>::empty());
        }
        w
    }

    /// Allocate a fresh entity key with an empty registry and return a
    /// builder bound to it.
    pub fn spawn(&mut self) -> (b: EntityBuilder)
        requires
            old(self).wf(),
        ensures
            final(self).wf(),
            b.id == old(self)@.entities.len(),
            final(self)@.entities == old(self)@.entities.push(Map::<TypeTag, ComponentId>::empty()),
            final(self)@.tables == old(self)@.tables,
    {
        let id = self.entities.insert(TypeMap::new());
        proof {
            assert(self@.entities =~= old(self)@.entities.push(
                Map::<TypeTag, ComponentId>::empty(),
            ));
            assert(self@.tables =~= old(self)@.tables);
        }
        EntityBuilder { id }
    }

    /// Attach a component to a live entity: locate the table for `tag`,
    /// creating it on first use, store `value` in a fresh slot chosen by the
    /// table's backend, and record the slot's handle under `tag` in the
    /// entity's registry, overwriting any handle held for `tag` before.
    /// Returns the fresh slot key.
    pub fn insert(&mut self, entity: usize, tag: TypeTag, value: V) -> (ck: usize)
        requires
            old(self).wf(),
            old(self)@.live(entity as int),
        ensures
            final(self).wf(),
            !old(self)@.table_or_empty(tag).contains_key(ck),
            final(self)@ == old(self)@.insert_component_at(entity as int, tag, ck, value),
    {
        proof {
            lemma_world_view(self);
        }
        let ghost w0 = self@;
        if !self.tables.has(tag) {
            self.tables.insert(tag, S::new());
            proof {
                assert(self@.tables =~= w0.tables.insert(tag, Map::<usize, V>::empty()));
                assert(self@.entities =~= w0.entities);
            }
        }
        let ghost mid_tables = self.tables@;
        let table = self.tables.get_mut(tag).unwrap();
        let ck = table.insert(value);
        proof {
            assert(self.tables@ =~= mid_tables.insert(tag, *table));
        }
        let ghost after_tables = self@.tables;
        proof {
            assert(after_tables =~= w0.tables.insert(
                tag,
                w0.table_or_empty(tag).insert(ck, value),
            ));
            assert(!w0.table_or_empty(tag).contains_key(ck));
            assert(self@.entities =~= w0.entities);
        }
        let reg = self.entities.get_mut(entity).unwrap();
        reg.insert(tag, ComponentId { id: ck });
        proof {
            assert(self@.tables =~= after_tables);
            assert(self@.entities =~= w0.entities.update(
                entity as int,
                w0.entities[entity as int].insert(tag, ComponentId { id: ck }),
            ));
            assert(self@ =~= w0.insert_component_at(entity as int, tag, ck, value));
        }
        ck
    }

    /// A mutable reference to the component entity `entity` holds for `tag`,
    /// or nothing where the entity is missing, holds no handle for `tag`, or
    /// the handle does not resolve. Whatever the caller writes through the
    /// reference is the component the entity then holds.
    pub fn component_mut(&mut self, entity: usize, tag: TypeTag) -> (r: Option<&mut V>)
        requires
            old(self).wf(),
        ensures
            final(self).wf(),
            final(self)@.entities == old(self)@.entities,
            match r {
                Some(v) => old(self)@.has_component(entity as int, tag) && *v == old(
                    self,
                )@.component(entity as int, tag) && final(self)@.tables == old(
                    self,
                )@.tables.insert(
                    tag,
                    old(self)@.tables[tag].insert(
                        old(self)@.entities[entity as int][tag].id,
                        *final(v),
                    ),
                ),
                None => !old(self)@.has_component(entity as int, tag) && final(self)@ == old(
                    self,
                )@,
            },
    {
        proof {
            lemma_world_view(self);
            lemma_world_wf(self);
        }
        let comp_id = match self.entities.get(entity) {
            Some(reg) => {
                match reg.get(tag) {
                    Some(c) => *c,
                    None => {
                        return None;
                    },
                }
            },
            None => {
                return None;
            },
        };
        let ghost m0 = self.tables@;
        proof {
            assert forall|sv: S|
                (#[trigger] m0.insert(tag, sv)).map_values(|s: S| s.contents()) == m0.map_values(
                    |s: S| s.contents(),
                ).insert(tag, sv.contents()) by {
                assert(m0.insert(tag, sv).map_values(|s: S| s.contents()) =~= m0.map_values(
                    |s: S| s.contents(),
                ).insert(tag, sv.contents()));
            }
            if m0.contains_key(tag) {
                assert(m0.map_values(|s: S| s.contents()).insert(tag, m0[tag].contents())
                    =~= m0.map_values(|s: S| s.contents()));
            }
        }
        let table = match self.tables.get_mut(tag) {
            Some(tb) => tb,
            None => {
                return None;
            },
        };
        table.get_mut(comp_id.id)
    }

    /// A query accumulator over a read-only view of this world.
    pub fn query(&self) -> (q: QueryBuilder<'_, V, S>)
        requires
            self.wf(),
        ensures
            q.wf(),
            q.world_view() == self@,
            q.clauses() == Seq::<TypeTag>::empty(),
    {
        QueryBuilder::new(self)
    }
}

impl<V, S: Storage<V>> Default for World<V, S> {
    /// A world with no entities and no component tables.
    fn default() -> (w: Self)
        ensures
            w.wf(),
            w@.entities == Seq::<Map<TypeTag, ComponentId>>::empty(),
            w@.tables == Map::<TypeTag, Map<usize, V>>::empty(),
    {
        World::new()
    }
}

/// A value inserted for an entity and tag is the component then held: after
/// an insert of `v` that filled the fresh slot `ck`, entity `e` holds `v`
/// for tag `t`.
pub proof fn lemma_insert_component_visible<V>(w: WorldView<V>, e: int, t: TypeTag, ck: usize, v: V)
    requires
        w.live(e),
    ensures
        w.insert_component_at(e, t, ck, v).has_component(e, t),
        w.insert_component_at(e, t, ck, v).component(e, t) == v,
{
}

/// Unrelated inserts do not disturb a held component: inserting for another
/// entity or another tag preserves both whether entity `e` holds a component
/// for tag `t` and which value that is. The world's handles must resolve, as
/// they do in every world this library builds, and the filled slot must be
/// fresh, as every slot a backend hands out is: a dangling handle could
/// otherwise start to resolve, or a displaced value change, when the
/// unrelated insert lands in the table the handle points into.
pub proof fn lemma_insert_component_frame<V>(
    w: WorldView<V>,
    e: int,
    t: TypeTag,
    e2: int,
    t2: TypeTag,
    ck2: usize,
    v2: V,
)
    requires
        w.live(e2),
        e2 != e || t2 != t,
        !w.table_or_empty(t2).contains_key(ck2),
        w.handles_resolve(),
    ensures
        w.insert_component_at(e2, t2, ck2, v2).has_component(e, t) == w.has_component(e, t),
        w.has_component(e, t) ==> w.insert_component_at(e2, t2, ck2, v2).component(e, t)
            == w.component(e, t),
{
}

/// Inserting preserves the world's resolution invariant: the fresh handle
/// points at the slot just filled, and no existing slot goes away.
pub proof fn lemma_insert_component_preserves_resolve<V>(
    w: WorldView<V>,
    e: int,
    t: TypeTag,
    ck: usize,
    v: V,
)
    requires
        w.live(e),
        w.handles_resolve(),
    ensures
        w.insert_component_at(e, t, ck, v).handles_resolve(),
{
    let w2 = w.insert_component_at(e, t, ck, v);
    assert forall|e2: int, t2: TypeTag|
        w2.live(e2) && #[trigger] w2.entities[e2].contains_key(t2) implies w2.has_table(t2)
        && w2.tables[t2].contains_key(w2.entities[e2][t2].id) by {
        if e2 != e || t2 != t {
            assert(w.entities[e2].contains_key(t2));
        }
    }
}

/// Re-insertion overwrites visibility: after inserting `v1` and then `v2`
/// for the same entity and tag, into fresh slots `ck1` and then `ck2`, the
/// held component is `v2`.
pub proof fn lemma_reinsert_overwrites<V>(
    w: WorldView<V>,
    e: int,
    t: TypeTag,
    ck1: usize,
    ck2: usize,
    v1: V,
    v2: V,
)
    requires
        w.live(e),
    ensures
        w.insert_component_at(e, t, ck1, v1).insert_component_at(e, t, ck2, v2).has_component(e, t),
        w.insert_component_at(e, t, ck1, v1).insert_component_at(e, t, ck2, v2).component(e, t)
            == v2,
{
    let w1 = w.insert_component_at(e, t, ck1, v1);
    lemma_insert_component_visible(w1, e, t, ck2, v2);
}

} // verus!
