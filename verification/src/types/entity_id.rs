use vstd::prelude::*;

verus! {

/// Handle of an entity: a dense slot number and the generation of that slot.
///
/// A slot is handed out again after its entity is removed, each time with a
/// greater generation, so a handle kept from an earlier life of the slot never
/// equals a live one.
#[derive(Debug, Copy, Clone, PartialEq, Eq, Hash, Structural)]
pub struct EntityId {
    pub id: usize,
    pub version: usize,
}

impl EntityId {
    /// The first handle of slot `id`.
    pub fn new(id: usize) -> (r: Self)
        ensures
            r.id == id,
            r.version == 0,
    {
        Self { id, version: 0 }
    }

    pub fn id(&self) -> (r: usize)
        ensures
            r == self.id,
    {
        self.id
    }

    pub fn version(&self) -> (r: usize)
        ensures
            r == self.version,
    {
        self.version
    }

    /// The handle that the same slot gets in its next life, or `None` when the
    /// generation counter is exhausted and the slot must be retired.
    pub fn recycled(&self) -> (r: Option<Self>)
        ensures
            self.version < usize::MAX ==> r == Some(
                EntityId { id: self.id, version: (self.version + 1) as usize },
            ),
            self.version == usize::MAX ==> r.is_none(),
    {
        if self.version < usize::MAX {
            Some(Self { id: self.id, version: self.version + 1 })
        } else {
            None
        }
    }
}

} // verus!
