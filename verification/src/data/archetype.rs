use vstd::prelude::*;

use crate::data::contents::{
    appended, cell, compacted, contents, distinct, holds, lemma_contents_at, lemma_empty_tail,
    lemma_place_unique, lemma_push_record, lemma_swap_remove_record, place, swap_removed, valid,
};
use crate::data::entity_data::{listed_ids, EntityData};
use crate::types::result::BuildEntityError;
use crate::types::archetype_type::ArchetypeType;
use crate::types::component_id::ComponentId;
use crate::types::entity_id::EntityId;

verus! {

/// How many entities a chunk holds when no byte budget decides it.
pub const CHUNK_ELEMENTS_COUNT: usize = 64;

/// The values of one component for the entities of one chunk, in the order of
/// the chunk's entities.
pub struct ComponentsArray<TComponent> {
    pub components_collection: Vec<TComponent>,
}

impl<TComponent> View for ComponentsArray<TComponent> {
    type V = Seq<TComponent>;

    open spec fn view(&self) -> Seq<TComponent> {
        self.components_collection@
    }
}

impl<TComponent> ComponentsArray<TComponent> {
    /// An empty array.
    pub fn new() -> (r: Self)
        ensures
            r@ == Seq::<TComponent>::empty(),
    {
        Self { components_collection: Vec::new() }
    }

    /// Appends a value.
    pub fn set_component(&mut self, component: TComponent)
        ensures
            final(self)@ == old(self)@.push(component),
    {
        self.components_collection.push(component);
    }

    /// Takes out the value at `position`; the last value moves into its place.
    pub fn remove_component(&mut self, position: usize) -> (r: TComponent)
        requires
            position < old(self)@.len(),
        ensures
            r == old(self)@[position as int],
            final(self)@ == old(self)@.update(position as int, old(self)@.last()).drop_last(),
    {
        self.components_collection.swap_remove(position)
    }

    /// The values.
    pub fn get_array(&self) -> (r: &Vec<TComponent>)
        ensures
            r@ == self@,
    {
        &self.components_collection
    }
}

/// A fixed-capacity page of an archetype's storage: the handles of its
/// entities and, for each component of the archetype, the array of their
/// values. Position `p` of every array belongs to entity `p`.
pub struct ArchetypeChunk<TComponent> {
    pub entity_ids: Vec<EntityId>,
    pub archetype_type: ArchetypeType,
    pub archetype_components: Vec<ComponentsArray<TComponent>>,
    pub chunk_size: usize,
    pub components_count: usize,
}

impl<TComponent> View for ArchetypeChunk<TComponent> {
    type V = Seq<(EntityId, Seq<(ComponentId, TComponent)>)>;

    /// The entities of the chunk in storage order, each with its component
    /// values in the canonical order of the archetype's key.
    open spec fn view(&self) -> Seq<(EntityId, Seq<(ComponentId, TComponent)>)> {
        Seq::new(self.entity_ids@.len(), |p: int| (self.entity_ids@[p], self.row(p)))
    }
}

impl<TComponent> ArchetypeChunk<TComponent> {
    /// The component values of the entity at position `p`.
    pub open spec fn row(&self, p: int) -> Seq<(ComponentId, TComponent)> {
        Seq::new(
            self.archetype_components@.len(),
            |j: int| (self.archetype_type.component_ids@[j], self.archetype_components@[j]@[p]),
        )
    }

    /// One array per component of the key, all as long as the list of
    /// entities, and no more entities than the capacity.
    pub open spec fn wf(&self) -> bool {
        &&& self.archetype_type.wf()
        &&& self.archetype_components@.len() == self.archetype_type.component_ids@.len()
        &&& self.components_count == self.entity_ids@.len()
        &&& self.components_count <= self.chunk_size
        &&& forall|j: int|
            0 <= j < self.archetype_components@.len() ==> (#[trigger] self.archetype_components@[j])@.len()
                == self.entity_ids@.len()
    }

    /// An empty chunk for the archetype `archetype_type` with room for
    /// `chunk_size` entities.
    pub fn new(archetype_type: ArchetypeType, chunk_size: usize) -> (r: Self)
        requires
            archetype_type.wf(),
        ensures
            r.wf(),
            r@.len() == 0,
            r.archetype_type.component_ids@ == archetype_type.component_ids@,
            r.chunk_size == chunk_size,
    {
        let mut columns: Vec<ComponentsArray<TComponent>> = Vec::new();
        let mut j: usize = 0;
        while j < archetype_type.component_ids.len()
            invariant
                j <= archetype_type.component_ids.len(),
                columns@.len() == j,
                forall|k: int| 0 <= k < j ==> (#[trigger] columns@[k])@.len() == 0,
            decreases archetype_type.component_ids.len() - j,
        {
            columns.push(ComponentsArray::new());
            j += 1;
        }
        Self {
            entity_ids: Vec::new(),
            archetype_type,
            archetype_components: columns,
            chunk_size,
            components_count: 0,
        }
    }

    /// Whether the chunk has no room left.
    pub fn is_filled(&self) -> (r: bool)
        ensures
            r == (self.chunk_size == self.components_count),
    {
        self.chunk_size == self.components_count
    }

    /// Whether the chunk holds no entity.
    pub fn is_empty(&self) -> (r: bool)
        ensures
            r == (self.components_count == 0),
    {
        self.components_count == 0
    }

    /// Appends an entity: its handle to the list of entities and each of its
    /// values to the array of its component.
    pub fn set_data(&mut self, entity_data: EntityData<TComponent>)
        requires
            old(self).wf(),
            old(self).components_count < old(self).chunk_size,
            listed_ids(entity_data.entity_components@) == old(self).archetype_type.component_ids@,
        ensures
            final(self).wf(),
            final(self)@ == old(self)@.push(entity_data@),
            final(self).components_count == old(self).components_count + 1,
            final(self).archetype_type == old(self).archetype_type,
            final(self).chunk_size == old(self).chunk_size,
    {
        let mut data = entity_data;
        let ghost values = entity_data.entity_components@;
        let ghost before = self.archetype_components@;
        self.components_count += 1;
        self.entity_ids.push(data.entity_id);
        let mut j: usize = self.archetype_components.len();
        assert(values.len() == j) by {
            assert(listed_ids(values).len() == values.len());
        }
        while j > 0
            invariant
                j <= before.len(),
                before.len() == values.len(),
                self.archetype_components@.len() == before.len(),
                data.entity_components@ == values.subrange(0, j as int),
                self.archetype_type == old(self).archetype_type,
                self.chunk_size == old(self).chunk_size,
                self.entity_ids@ == old(self).entity_ids@.push(entity_data.entity_id),
                self.components_count == old(self).components_count + 1,
                forall|k: int| 0 <= k < j ==> (#[trigger] self.archetype_components@[k])@ == before[k]@,
                forall|k: int|
                    j <= k < before.len() ==> (#[trigger] self.archetype_components@[k])@
                        == before[k]@.push(values[k].1),
            decreases j,
        {
            j -= 1;
            let entry = data.entity_components.pop();
            match entry {
                Some(pair) => {
                    let (_id, value) = pair;
                    self.archetype_components[j].set_component(value);
                },
                None => {},
            }
            assert(data.entity_components@ =~= values.subrange(0, j as int));
        }
        proof {
            let n = old(self).entity_ids@.len() as int;
            assert(self@.len() == n + 1);
            assert forall|p: int| 0 <= p < n + 1 implies self@[p] == old(self)@.push(
                (entity_data.entity_id, values),
            )[p] by {
                if p < n {
                    assert(self.row(p) =~= old(self).row(p));
                } else {
                    assert(listed_ids(values).len() == values.len());
                    assert forall|k: int| 0 <= k < values.len() implies self.row(p)[k]
                        == values[k] by {
                        assert(listed_ids(values)[k] == values[k].0);
                    }
                    assert(self.row(p) =~= values);
                }
            }
            assert(self@ =~= old(self)@.push((entity_data.entity_id, values)));
        }
    }

    /// Takes out the entity at `position`; the last entity of the chunk moves
    /// into its place, in the list of entities and in every array.
    pub fn remove_data(&mut self, position: usize) -> (r: EntityData<TComponent>)
        requires
            old(self).wf(),
            position < old(self).components_count,
        ensures
            final(self).wf(),
            r@ == old(self)@[position as int],
            r.wf(),
            listed_ids(r.entity_components@) == old(self).archetype_type.component_ids@,
            final(self)@ == old(self)@.update(position as int, old(self)@.last()).drop_last(),
            final(self).components_count == old(self).components_count - 1,
            final(self).archetype_type == old(self).archetype_type,
            final(self).chunk_size == old(self).chunk_size,
    {
        let ghost before = self.archetype_components@;
        let ghost ids = self.archetype_type.component_ids@;
        self.components_count -= 1;
        let mut values: Vec<(ComponentId, TComponent)> = Vec::new();
        let mut j: usize = 0;
        while j < self.archetype_components.len()
            invariant
                j <= before.len(),
                position < old(self).entity_ids@.len(),
                old(self).wf(),
                before == old(self).archetype_components@,
                ids == old(self).archetype_type.component_ids@,
                self.archetype_components@.len() == before.len(),
                self.archetype_type == old(self).archetype_type,
                self.chunk_size == old(self).chunk_size,
                self.entity_ids@ == old(self).entity_ids@,
                self.components_count == old(self).components_count - 1,
                values@.len() == j,
                forall|k: int| 0 <= k < j ==> (#[trigger] values@[k]) == (ids[k], before[k]@[position as int]),
                forall|k: int|
                    0 <= k < j ==> (#[trigger] self.archetype_components@[k])@ == before[k]@.update(
                        position as int,
                        before[k]@.last(),
                    ).drop_last(),
                forall|k: int|
                    j <= k < before.len() ==> (#[trigger] self.archetype_components@[k])@
                        == before[k]@,
            decreases before.len() - j,
        {
            assert(before[j as int]@.len() == old(self).entity_ids@.len());
            let value = self.archetype_components[j].remove_component(position);
            values.push((self.archetype_type.component_ids[j], value));
            j += 1;
        }
        let entity_id = self.entity_ids.swap_remove(position);
        let r = EntityData { entity_id, entity_components: values };
        proof {
            assert(listed_ids(r.entity_components@) =~= ids);
            assert(r.entity_components@ =~= old(self).row(position as int));
            let n = old(self).entity_ids@.len() as int;
            let target = old(self)@.update(position as int, old(self)@.last()).drop_last();
            assert(self@.len() == n - 1);
            assert forall|p: int| 0 <= p < n - 1 implies self@[p] == target[p] by {
                if p == position {
                    assert(self.row(p) =~= old(self).row(n - 1));
                } else {
                    assert(self.row(p) =~= old(self).row(p));
                }
            }
            assert(self@ =~= target);
        }
        r
    }

    /// Where in the chunk the entity `entity_id` stands, if it is there.
    pub fn find_entity(&self, entity_id: &EntityId) -> (r: Option<usize>)
        ensures
            r matches Some(p) ==> p < self.entity_ids@.len() && self.entity_ids@[p as int]
                == *entity_id,
            r.is_none() ==> forall|p: int|
                0 <= p < self.entity_ids@.len() ==> self.entity_ids@[p] != *entity_id,
    {
        let mut i: usize = 0;
        while i < self.entity_ids.len()
            invariant
                i <= self.entity_ids.len(),
                forall|p: int| 0 <= p < i ==> self.entity_ids@[p] != *entity_id,
            decreases self.entity_ids.len() - i,
        {
            if self.entity_ids[i].id == entity_id.id && self.entity_ids[i].version
                == entity_id.version {
                return Some(i);
            }
            i += 1;
        }
        None
    }

    /// Whether the chunk holds the entity `entity_id`.
    pub fn contain_entity(&self, entity_id: &EntityId) -> (r: bool)
        ensures
            r == self.entity_ids@.contains(*entity_id),
    {
        self.find_entity(entity_id).is_some()
    }

    /// The position of the entity `entity_id`, which the chunk holds.
    pub fn entity_position(&self, entity_id: &EntityId) -> (r: usize)
        requires
            self.entity_ids@.contains(*entity_id),
        ensures
            r < self.entity_ids@.len(),
            self.entity_ids@[r as int] == *entity_id,
    {
        match self.find_entity(entity_id) {
            Some(p) => p,
            None => {
                proof {
                    let p = choose|p: int|
                        0 <= p < self.entity_ids@.len() && self.entity_ids@[p] == *entity_id;
                    assert(self.entity_ids@[p] != *entity_id);
                }
                0
            },
        }
    }

    /// The array of the component `component_id`, if the archetype has it.
    pub fn get_components_array(&self, component_id: &ComponentId) -> (r: Option<
        &ComponentsArray<TComponent>,
    >)
        requires
            self.wf(),
        ensures
            r.is_some() == self.archetype_type@.contains(*component_id),
            r matches Some(array) ==> exists|j: int|
                0 <= j < self.archetype_components@.len() && self.archetype_type.component_ids@[j]
                    == *component_id && #[trigger] self.archetype_components@[j] == *array,
    {
        match self.archetype_type.position(*component_id) {
            Some(j) => Some(&self.archetype_components[j]),
            None => None,
        }
    }
}


/// All entities that have exactly one set of components, stored in chunks of
/// one capacity. Only the last chunk may have room left, and no chunk is
/// empty.
pub struct Archetype<TComponent> {
    pub archetype_type: ArchetypeType,
    pub chunks: Vec<ArchetypeChunk<TComponent>>,
    pub chunk_size: usize,
}

impl<TComponent> View for Archetype<TComponent> {
    type V = Map<EntityId, Seq<(ComponentId, TComponent)>>;

    /// What is stored: for each entity of the archetype its component values,
    /// in the canonical order of the key.
    open spec fn view(&self) -> Map<EntityId, Seq<(ComponentId, TComponent)>> {
        contents(self.grid())
    }
}

impl<TComponent> Archetype<TComponent> {
    /// The records of the chunks, chunk by chunk.
    pub open spec fn grid(&self) -> Seq<Seq<(EntityId, Seq<(ComponentId, TComponent)>)>> {
        Seq::new(self.chunks@.len(), |c: int| self.chunks@[c]@)
    }

    /// Every chunk but the last is full.
    pub open spec fn dense(&self) -> bool {
        forall|c: int|
            0 <= c < self.chunks@.len() - 1 ==> (#[trigger] self.chunks@[c]).components_count
                == self.chunk_size
    }

    /// Every chunk is a well-formed, non-empty chunk of this archetype.
    pub open spec fn chunks_wf(&self) -> bool {
        forall|c: int|
            0 <= c < self.chunks@.len() ==> {
                &&& (#[trigger] self.chunks@[c]).wf()
                &&& self.chunks@[c].archetype_type.component_ids@
                    == self.archetype_type.component_ids@
                &&& self.chunks@[c].chunk_size == self.chunk_size
                &&& self.chunks@[c].components_count > 0
            }
    }

    /// The archetype is consistent: its chunks are its own, they are dense,
    /// and no entity is stored twice.
    pub open spec fn wf(&self) -> bool {
        &&& self.archetype_type.wf()
        &&& self.chunk_size > 0
        &&& self.chunks_wf()
        &&& self.dense()
        &&& distinct(self.grid())
    }

    /// Every stored entity has a value for each component of the key, in the
    /// order of the key.
    pub proof fn lemma_listing(&self, e: EntityId)
        requires
            self.wf(),
            self@.dom().contains(e),
        ensures
            listed_ids(self@[e]) == self.archetype_type.component_ids@,
    {
        let grid = self.grid();
        let (c, p) = choose|c: int, p: int| valid(grid, c, p) && (#[trigger] cell(grid, c, p)).0 == e;
        lemma_contents_at(grid, c, p);
        assert(self.chunks@[c].wf());
        assert(self@[e] == self.chunks@[c].row(p));
        assert(listed_ids(self.chunks@[c].row(p)) =~= self.chunks@[c].archetype_type.component_ids@);
    }

    /// An archetype for the key `archetype_type`, without entities, whose
    /// chunks will hold `chunk_size` entities each.
    pub fn new(archetype_type: ArchetypeType, chunk_size: usize) -> (r: Self)
        requires
            archetype_type.wf(),
            chunk_size > 0,
        ensures
            r.wf(),
            r.archetype_type.component_ids@ == archetype_type.component_ids@,
            r.chunk_size == chunk_size,
            r.chunks@.len() == 0,
            r@ == Map::<EntityId, Seq<(ComponentId, TComponent)>>::empty(),
    {
        let r = Self { archetype_type, chunks: Vec::new(), chunk_size };
        assert(r@ =~= Map::<EntityId, Seq<(ComponentId, TComponent)>>::empty());
        r
    }

    /// The key of the archetype.
    pub fn archetype_type(&self) -> (r: &ArchetypeType)
        ensures
            *r == self.archetype_type,
    {
        &self.archetype_type
    }

    /// Whether the archetype has no chunk, and so no entity.
    pub fn is_empty(&self) -> (r: bool)
        ensures
            r == (self.chunks@.len() == 0),
            self.wf() ==> r == (self@.dom() =~= Set::<EntityId>::empty()),
    {
        proof {
            if self.wf() && self.chunks@.len() > 0 {
                assert(self.chunks@[0].components_count > 0);
                assert(valid(self.grid(), 0, 0));
                lemma_contents_at(self.grid(), 0, 0);
            }
        }
        self.chunks.is_empty()
    }

    /// The chunks, in order.
    pub fn get_chunks(&self) -> (r: &Vec<ArchetypeChunk<TComponent>>)
        ensures
            r@ == self.chunks@,
    {
        &self.chunks
    }

    /// Where the entity `entity_id` is stored: its chunk and its position
    /// there.
    pub fn find_entity(&self, entity_id: &EntityId) -> (r: Option<(usize, usize)>)
        ensures
            r.is_some() == holds(self.grid(), *entity_id),
            r matches Some(l) ==> valid(self.grid(), l.0 as int, l.1 as int) && cell(
                self.grid(),
                l.0 as int,
                l.1 as int,
            ).0 == *entity_id,
    {
        let mut c: usize = 0;
        while c < self.chunks.len()
            invariant
                c <= self.chunks.len(),
                forall|a: int, p: int|
                    0 <= a < c && valid(self.grid(), a, p) ==> (#[trigger] cell(
                        self.grid(),
                        a,
                        p,
                    )).0 != *entity_id,
            decreases self.chunks.len() - c,
        {
            match self.chunks[c].find_entity(entity_id) {
                Some(p) => {
                    assert(valid(self.grid(), c as int, p as int) && cell(
                        self.grid(),
                        c as int,
                        p as int,
                    ).0 == *entity_id);
                    return Some((c, p));
                },
                None => {},
            }
            c += 1;
        }
        None
    }

    /// Whether the archetype holds the entity `entity_id`.
    pub fn contain_entity(&self, entity_id: &EntityId) -> (r: bool)
        ensures
            r == self@.dom().contains(*entity_id),
    {
        self.find_entity(entity_id).is_some()
    }

    /// Stores an entity: in the last chunk if it has room, else in a new chunk
    /// at the end. An entity whose components are not those of the archetype
    /// is refused and nothing changes.
    pub fn add_entity(&mut self, entity_data: EntityData<TComponent>) -> (r: Result<
        (),
        BuildEntityError,
    >)
        requires
            old(self).wf(),
            entity_data.wf(),
            !old(self)@.dom().contains(entity_data.entity_id),
        ensures
            final(self).wf(),
            final(self).archetype_type == old(self).archetype_type,
            final(self).chunk_size == old(self).chunk_size,
            r.is_ok() <==> listed_ids(entity_data.entity_components@) == old(self).archetype_type.component_ids@,
            r.is_ok() ==> final(self)@ == old(self)@.insert(
                entity_data.entity_id,
                entity_data.entity_components@,
            ) && final(self).chunks@.len() > 0 && final(self).chunks@.last()@.last()
                == entity_data@,
            r.is_ok() && (old(self).chunks@.len() == 0 || old(self).chunks@.last().components_count
                == old(self).chunk_size) ==> final(self).grid() == old(self).grid().push(
                seq![entity_data@],
            ),
            r.is_ok() && old(self).chunks@.len() > 0 && old(self).chunks@.last().components_count
                < old(self).chunk_size ==> final(self).grid() == old(self).grid().update(
                old(self).chunks@.len() - 1,
                old(self).grid().last().push(entity_data@),
            ),
            r.is_ok() ==> final(self).grid() == appended(
                old(self).grid(),
                old(self).chunk_size as int,
                entity_data@,
            ),
            r.is_ok() && (old(self).chunks@.len() == 0 || old(self).chunks@.last().components_count
                == old(self).chunk_size) ==> final(self).chunks@.len() == old(self).chunks@.len()
                + 1,
            r.is_ok() && old(self).chunks@.len() > 0 && old(self).chunks@.last().components_count
                < old(self).chunk_size ==> final(self).chunks@.len() == old(self).chunks@.len(),
            r matches Err(BuildEntityError::MismatchedArchetype { expected, actual })
                ==> expected.component_ids@ == old(self).archetype_type.component_ids@
                && actual.component_ids@ == listed_ids(entity_data.entity_components@) && final(self).chunks@ == old(self).chunks@,
    {
        let actual = entity_data.build_archetype_type();
        if !actual.equals(&self.archetype_type) {
            return Err(
                BuildEntityError::MismatchedArchetype {
                    expected: self.archetype_type.clone(),
                    actual,
                },
            );
        }
        let ghost grid = self.grid();
        let n = self.chunks.len();
        if n > 0 && !self.chunks[n - 1].is_filled() {
            self.chunks[n - 1].set_data(entity_data);
            proof {
                assert(self.grid() =~= grid.update(n - 1, grid[n - 1].push(entity_data@)));
                lemma_push_record(grid, n - 1, entity_data@);
                assert(old(self).chunks@[n - 1].wf());
                assert(grid.last().len() == old(self).chunks@[n - 1].components_count);
            }
        } else {
            let mut chunk = ArchetypeChunk::new(self.archetype_type.clone(), self.chunk_size);
            chunk.set_data(entity_data);
            self.chunks.push(chunk);
            proof {
                let wider = grid.push(Seq::empty());
                assert(wider.drop_last() =~= grid);
                lemma_empty_tail(wider);
                assert(!holds(wider, entity_data.entity_id));
                lemma_push_record(wider, n as int, entity_data@);
                assert(Seq::<(EntityId, Seq<(ComponentId, TComponent)>)>::empty().push(entity_data@)
                    =~= chunk@);
                assert(self.grid() =~= wider.update(n as int, wider[n as int].push(entity_data@)));
                assert(self.grid() =~= grid.push(seq![entity_data@]));
                if n > 0 {
                    assert(old(self).chunks@[n - 1].wf());
                    assert(grid.last().len() == old(self).chunks@[n - 1].components_count);
                }
            }
        }
        Ok(())
    }

    /// Takes the entity `entity_id` out of storage and returns it, or returns
    /// `None` and changes nothing if it is not stored here.
    ///
    /// The last entity of its chunk moves into its place. If the chunk was
    /// not the last one, the last entity of the last chunk then fills the slot
    /// that this left open, and a last chunk that has become empty is dropped:
    /// only the last chunk ever has room left.
    pub fn remove_entity(&mut self, entity_id: EntityId) -> (r: Option<EntityData<TComponent>>)
        requires
            old(self).wf(),
        ensures
            final(self).wf(),
            final(self).archetype_type == old(self).archetype_type,
            final(self).chunk_size == old(self).chunk_size,
            r.is_some() == old(self)@.dom().contains(entity_id),
            r.is_none() ==> final(self).chunks@ == old(self).chunks@,
            r matches Some(data) ==> data.wf() && data@ == (entity_id, old(self)@[entity_id])
                && listed_ids(data.entity_components@) == old(self).archetype_type.component_ids@
                && final(self)@ == old(self)@.remove(entity_id),
            r.is_some() ==> final(self).grid() == compacted(
                old(self).grid(),
                place(old(self).grid(), entity_id).0,
                place(old(self).grid(), entity_id).1,
            ),
            r.is_some() ==> final(self).chunks@.len() == compacted(
                old(self).grid(),
                place(old(self).grid(), entity_id).0,
                place(old(self).grid(), entity_id).1,
            ).len(),
    {
        let (c, p) = match self.find_entity(&entity_id) {
            Some(l) => l,
            None => {
                return None;
            },
        };
        let ghost grid = self.grid();
        proof {
            lemma_contents_at(grid, c as int, p as int);
            lemma_swap_remove_record(grid, c as int, p as int);
            lemma_place_unique(grid, c as int, p as int);
        }
        let data = self.chunks[c].remove_data(p);
        let ghost grid1 = self.grid();
        assert(grid1 =~= grid.update(
            c as int,
            grid[c as int].update(p as int, grid[c as int].last()).drop_last(),
        ));
        let last: usize = self.chunks.len() - 1;
        let ghost taken = grid.update(c as int, swap_removed(grid[c as int], p as int));
        assert(grid1 == taken);
        if c != last {
            let tail_position: usize = self.chunks[last].components_count - 1;
            proof {
                lemma_contents_at(grid1, last as int, tail_position as int);
                lemma_swap_remove_record(grid1, last as int, tail_position as int);
            }
            let moved = self.chunks[last].remove_data(tail_position);
            let ghost grid2 = self.grid();
            assert(grid2 =~= grid1.update(
                last as int,
                grid1[last as int].update(tail_position as int, grid1[last as int].last()).drop_last(),
            ));
            self.chunks[c].set_data(moved);
            proof {
                let grid3 = self.grid();
                assert(grid3 =~= grid2.update(c as int, grid2[c as int].push(moved@)));
                lemma_push_record(grid2, c as int, moved@);
                assert(contents(grid3) =~= contents(grid1));
                assert(grid1[last as int].update(
                    tail_position as int,
                    grid1[last as int].last(),
                ).drop_last() =~= grid1[last as int].drop_last());
                assert(moved@ == grid1[last as int].last());
                assert(grid3 =~= taken.update(last as int, taken[last as int].drop_last()).update(
                    c as int,
                    taken[c as int].push(taken[last as int].last()),
                ));
            }
        }
        let ghost grid3 = self.grid();
        assert(grid3.last().len() == self.chunks@[last as int].components_count) by {
            assert(self.chunks@[last as int].wf());
        }
        if self.chunks[last].is_empty() {
            let _ = self.chunks.pop();
            proof {
                assert(self.grid() =~= grid3.drop_last());
                lemma_empty_tail(grid3);
            }
        }
        Some(data)
    }
}

} // verus!
