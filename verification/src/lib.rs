//! An embeddable entity-component storage engine.
//!
//! Callers attach typed component values to opaque entity handles and later
//! run multi-clause intersection queries over them, without a predeclared
//! schema. Component types are identified by explicit type tags: a per-type
//! unique token chosen by the caller, paired with the caller's own component
//! value type.

pub mod entity_builder;
pub mod integrations;
pub mod prelude;
pub mod query_builder;
pub mod storage;
pub mod type_map;
pub mod world;

pub use entity_builder::EntityBuilder;
pub use integrations::slab::Slab;
pub use query_builder::EntityFrequency;
pub use query_builder::QueryBuilder;
pub use storage::Identifier;
pub use storage::Storage;
pub use type_map::TypeMap;
pub use type_map::TypeTag;
pub use world::ComponentId;
pub use world::World;
pub use world::WorldView;
