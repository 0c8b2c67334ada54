//! An entity-component-system runtime: entities carry components keyed by
//! type, systems declare the keys they need, and a world keeps, for every
//! registered system, the set of entities that carry them.
pub mod component;
pub mod entity;
pub mod entity_builder;
pub mod error;
mod keyed;
pub mod model;
mod store;
pub mod system;
pub mod world;
