//! Common imports for users of the library.

pub use crate::entity_builder::EntityBuilder;
pub use crate::integrations::slab::Slab;
pub use crate::query_builder::EntityFrequency;
pub use crate::query_builder::QueryBuilder;
pub use crate::storage::Identifier;
pub use crate::storage::Storage;
pub use crate::type_map::TypeMap;
pub use crate::type_map::TypeTag;
pub use crate::world::ComponentId;
pub use crate::world::World;
pub use crate::world::WorldView;
