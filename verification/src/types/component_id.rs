use vstd::prelude::*;

verus! {

/// Stable identifier of a registered component type.
#[derive(Debug, Copy, Clone, PartialEq, Eq, Hash, Structural)]
pub struct ComponentId {
    pub id: u64,
}

impl ComponentId {
    pub fn new(id: u64) -> (r: Self)
        ensures
            r.id == id,
    {
        Self { id }
    }

    pub fn id(&self) -> (r: u64)
        ensures
            r == self.id,
    {
        self.id
    }
}

} // verus!
