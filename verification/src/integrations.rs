//! Storage-backend integrations.

pub mod slab;
