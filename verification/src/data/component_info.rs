use vstd::prelude::*;

use crate::types::component_id::ComponentId;

verus! {

/// What the registry records of one component type: its identifier and the
/// size in bytes of one value.
#[derive(Debug, Copy, Clone, PartialEq, Eq, Hash, Structural)]
pub struct ComponentInfo {
    pub component_id: ComponentId,
    pub size: usize,
}

impl ComponentInfo {
    pub fn new(component_id: ComponentId, size: usize) -> (r: Self)
        ensures
            r.component_id == component_id,
            r.size == size,
    {
        Self { component_id, size }
    }
}

} // verus!
