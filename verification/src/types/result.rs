use vstd::prelude::*;

use crate::types::archetype_type::ArchetypeType;
use crate::types::component_id::ComponentId;

verus! {

/// Why an entity could not be stored in an archetype.
#[derive(Debug)]
pub enum BuildEntityError {
    /// The components supplied are not those of the archetype.
    MismatchedArchetype { expected: ArchetypeType, actual: ArchetypeType },
}

/// Why a system could not be added.
#[derive(Debug)]
pub enum AddSystemError {
    SystemExist { system_id: u64 },
}

/// Why a system could not be registered.
#[derive(Debug, PartialEq, Eq, Structural)]
pub enum BuildSystemError {
    /// The declared links would put the system on a dependency cycle.
    CycledSystemLinks { system_id: u64 },
}

/// Why an entity could not be created.
#[derive(Debug, PartialEq, Eq, Structural)]
pub enum AddEntityError {
    /// A supplied component was never registered.
    ComponentNotRegistered { component_id: ComponentId },
}

} // verus!
