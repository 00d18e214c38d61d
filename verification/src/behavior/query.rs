use vstd::prelude::*;

use crate::data::archetype::ArchetypeChunk;
use crate::data::entity_data_accessor::{requests, ChunkDataAccessor};
use crate::types::archetype_type::ArchetypeType;
use crate::types::component_id::ComponentId;

verus! {

/// The identifier `c` is listed in `ids`.
pub open spec fn names(ids: Option<Vec<ComponentId>>, c: ComponentId) -> bool {
    ids matches Some(list) && list@.contains(c)
}

/// The component `c` is listed in `selection`, with either access mode.
pub open spec fn selects(selection: Option<Vec<(ComponentId, bool)>>, c: ComponentId) -> bool {
    selection matches Some(list) && exists|i: int|
        0 <= i < list@.len() && (#[trigger] list@[i]).0 == c
}

/// What a system asks of the archetypes it works on: components that must be
/// there, each with the access it wants (`true` for read-only), components
/// that must not be there, and components that it takes if they are there.
pub struct ArchetypeQuery {
    pub required: Option<Vec<(ComponentId, bool)>>,
    pub except: Option<Vec<ComponentId>>,
    pub addition: Option<Vec<(ComponentId, bool)>>,
    pub updated: Option<u32>,
}

impl ArchetypeQuery {
    pub fn new(
        required: Option<Vec<(ComponentId, bool)>>,
        except: Option<Vec<ComponentId>>,
        addition: Option<Vec<(ComponentId, bool)>>,
        updated: Option<u32>,
    ) -> (r: Self)
        ensures
            r.required == required,
            r.except == except,
            r.addition == addition,
            r.updated == updated,
    {
        Self { required, except, addition, updated }
    }

    /// The archetype `key` has every required component and none of the
    /// excluded ones.
    pub open spec fn matches(&self, key: Set<ComponentId>) -> bool {
        &&& forall|c: ComponentId| selects(self.required, c) ==> key.contains(c)
        &&& forall|c: ComponentId| names(self.except, c) ==> !key.contains(c)
    }

    /// Whether the query matches the archetype with the key
    /// `archetype_type`: every required component is in it and no excluded
    /// one is. The optional components play no part.
    pub fn is_archetype_match(&self, archetype_type: &ArchetypeType) -> (r: bool)
        ensures
            r == self.matches(archetype_type@),
    {
        match &self.required {
            Some(required) => {
                let mut i: usize = 0;
                while i < required.len()
                    invariant
                        i <= required.len(),
                        self.required == Some(*required),
                        forall|k: int|
                            0 <= k < i ==> archetype_type@.contains((#[trigger] required@[k]).0),
                    decreases required.len() - i,
                {
                    if !archetype_type.contain(required[i].0) {
                        assert(self.required matches Some(list) && list@ == required@);
                        assert(required@[i as int].0 == required@[i as int].0);
                        assert(selects(self.required, required@[i as int].0));
                        return false;
                    }
                    i += 1;
                }
            },
            None => {},
        }
        match &self.except {
            Some(except) => {
                let mut i: usize = 0;
                while i < except.len()
                    invariant
                        i <= except.len(),
                        self.except == Some(*except),
                        forall|c: ComponentId|
                            selects(self.required, c) ==> archetype_type@.contains(c),
                        forall|k: int|
                            0 <= k < i ==> !archetype_type@.contains(#[trigger] except@[k]),
                    decreases except.len() - i,
                {
                    if archetype_type.contain(except[i]) {
                        assert(except@.contains(except@[i as int]));
                        assert(names(self.except, except@[i as int]));
                        return false;
                    }
                    i += 1;
                }
            },
            None => {},
        }
        true
    }

    /// Whether the query takes the chunk `archetype_chunk` of a matching
    /// archetype. No filter on chunks is defined, so every chunk is taken.
    pub fn is_chunk_match<TComponent>(&self, archetype_chunk: &ArchetypeChunk<TComponent>) -> (r:
        bool)
        ensures
            r,
    {
        true
    }

    /// `accessor` holds what the query asks of a chunk with the components
    /// `ids`: a handle for each required component and for each optional
    /// component among `ids`, read-only or read-write as the query lists it,
    /// and nothing else.
    pub open spec fn granted(&self, ids: Seq<ComponentId>, accessor: ChunkDataAccessor) -> bool {
        &&& accessor.wf(ids)
        &&& forall|c: ComponentId| #![trigger accessor.reads(c)]
            accessor.reads(c) <==> ids.contains(c) && (requests(self.required, c, true)
                || requests(self.addition, c, true))
        &&& forall|c: ComponentId| #![trigger accessor.writes(c)]
            accessor.writes(c) <==> ids.contains(c) && (requests(self.required, c, false)
                || requests(self.addition, c, false))
    }

    /// The handles that the query gets on the chunk `chunk`, which is chunk
    /// `chunk_number` of archetype `archetype_number`: `None` when the
    /// archetype does not match; else one handle for each required component
    /// and for each optional component that the archetype has, read-only or
    /// read-write as the query asks.
    pub fn resolve<TComponent>(
        &self,
        chunk: &ArchetypeChunk<TComponent>,
        archetype_number: usize,
        chunk_number: usize,
    ) -> (r: Option<ChunkDataAccessor>)
        requires
            chunk.wf(),
        ensures
            r.is_some() == self.matches(chunk.archetype_type@),
            r matches Some(accessor) ==> self.granted(
                chunk.archetype_type.component_ids@,
                accessor,
            ) && accessor.archetype_number == archetype_number && accessor.chunk_number
                == chunk_number,
    {
        if !self.is_archetype_match(&chunk.archetype_type) {
            return None;
        }
        let mut accessor = ChunkDataAccessor::new(archetype_number, chunk_number);
        accessor.fill_data_from_chunk(&self.required, chunk);
        accessor.fill_data_from_chunk(&self.addition, chunk);
        Some(accessor)
    }
}

} // verus!
