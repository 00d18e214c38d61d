//! Identifiers, archetype keys and error kinds shared by storage and scheduling.

pub mod archetype_type;
pub mod component_id;
pub mod entity_id;
pub mod result;
pub mod scene_id;

pub use archetype_type::ArchetypeType;
pub use component_id::ComponentId;
pub use entity_id::EntityId;
pub use result::{AddEntityError, AddSystemError, BuildEntityError, BuildSystemError};
pub use scene_id::SceneId;
