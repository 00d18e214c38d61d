use vstd::prelude::*;

verus! {

/// Identifier of one independent scene inside a world.
#[derive(Debug, Copy, Clone, PartialEq, Eq, Hash, Structural)]
pub struct SceneId {
    pub id: u32,
}

impl SceneId {
    pub fn new(id: u32) -> (r: Self)
        ensures
            r.id == id,
    {
        Self { id }
    }

    pub fn id(&self) -> (r: u32)
        ensures
            r == self.id,
    {
        self.id
    }
}

} // verus!
