//! Runtime core of a data-oriented entity-component-system: columnar archetype
//! storage for entities and a dependency-ordered scheduler for systems.

pub mod types;
pub mod behavior;
pub mod data;
pub mod world;
