//! The entity builder: a short-lived handle bound to one freshly spawned
//! entity key, through which component values are routed into the world.

use vstd::prelude::*;

use crate::storage::Storage;
use crate::type_map::TypeTag;
use crate::world::World;

verus! {

/// A handle bound to one freshly spawned entity key, handed out by
/// [`World::spawn`].
#[derive(Debug, Clone, Copy)]
pub struct EntityBuilder {
    /// The spawned entity's key in the entity table.
    pub id: usize,
}

impl EntityBuilder {
    /// The entity key this builder is bound to.
    pub fn id(&self) -> (r: usize)
        ensures
            r == self.id,
    {
        self.id
    }

    /// Attach a component to the builder's entity: the value goes into a
    /// fresh slot of the world's table for `tag`, and the entity's registry
    /// records the slot's handle under `tag`, overwriting any handle held
    /// for `tag` before. Returns the builder, so that inserts chain.
    pub fn insert<V, S: Storage<V>>(
        &self,
        world: &mut World<V, S>,
        tag: TypeTag,
        value: V,
    ) -> (b: &Self)
        requires
            old(world).wf(),
            old(world)@.live(self.id as int),
        ensures
            final(world).wf(),
            exists|ck: usize|
                !old(world)@.table_or_empty(tag).contains_key(ck) && final(world)@ == #[trigger] old(
                    world,
                )@.insert_component_at(self.id as int, tag, ck, value),
            b == self,
    {
        world.insert(self.id, tag, value);
        self
    }
}

} // verus!
