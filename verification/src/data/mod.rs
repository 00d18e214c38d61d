//! Entity storage: component registry, archetypes and their chunks, and the
//! manager that creates and removes entities.

pub mod archetype;
pub mod component_info;
pub mod contents;
pub mod entity_data;
pub mod entity_data_accessor;
pub mod entity_index;

use vec_map::VecMap;
use vstd::prelude::*;

use crate::behavior::query::ArchetypeQuery;
use crate::data::archetype::{Archetype, CHUNK_ELEMENTS_COUNT};
use crate::data::contents::{appended, compacted, place};
use crate::data::entity_data_accessor::ChunkDataAccessor;
use crate::data::component_info::ComponentInfo;
use crate::data::entity_data::{as_map, listed_ids, EntityData};
use crate::data::entity_index::{
    index_entries, index_get, index_insert, index_new, index_remove, MAX_ENTITY_SLOTS,
};
use crate::types::archetype_type::{strictly_increasing, ArchetypeType};
use crate::types::component_id::ComponentId;
use crate::types::entity_id::EntityId;
use crate::types::result::AddEntityError;

verus! {

/// The byte budget of one chunk.
pub const CHUNK_SIZE: usize = 16_000;

/// The component `id` has an entry in the registry.
pub open spec fn registered_component(registry: Seq<ComponentInfo>, id: ComponentId) -> bool {
    exists|i: int| 0 <= i < registry.len() && (#[trigger] registry[i]).component_id == id
}

/// A place of the component `id` in the registry.
pub open spec fn info_place(registry: Seq<ComponentInfo>, id: ComponentId) -> int {
    choose|i: int| 0 <= i < registry.len() && (#[trigger] registry[i]).component_id == id
}

/// The registered byte size of the component `id`; nothing for a component
/// that is not registered.
pub open spec fn size_of(registry: Seq<ComponentInfo>, id: ComponentId) -> int {
    if registered_component(registry, id) {
        registry[info_place(registry, id)].size as int
    } else {
        0
    }
}

/// The bytes that one entity with the components `ids` takes.
pub open spec fn footprint(registry: Seq<ComponentInfo>, ids: Seq<ComponentId>) -> int
    decreases ids.len(),
{
    if ids.len() == 0 {
        0
    } else {
        footprint(registry, ids.drop_last()) + size_of(registry, ids.last())
    }
}

/// How many entities one chunk holds when each takes `bytes` bytes: as many
/// as fit the byte budget, at least one, and a fixed count for entities that
/// take no space.
pub open spec fn capacity_for(bytes: int) -> int {
    if bytes <= 0 {
        CHUNK_ELEMENTS_COUNT as int
    } else if bytes >= CHUNK_SIZE {
        1
    } else {
        CHUNK_SIZE as int / bytes
    }
}

/// The archetype number `a` stores the entity `e`.
pub open spec fn stored<TComponent>(
    archetypes: Seq<Archetype<TComponent>>,
    a: int,
    e: EntityId,
) -> bool {
    0 <= a < archetypes.len() && archetypes[a]@.dom().contains(e)
}

/// The components that a list of values gives an entity: where the list
/// names a component more than once, the last value counts.
pub open spec fn collect<TComponent>(s: Seq<(ComponentId, TComponent)>) -> Map<
    ComponentId,
    TComponent,
>
    decreases s.len(),
{
    if s.len() == 0 {
        Map::empty()
    } else {
        collect(s.drop_last()).insert(s.last().0, s.last().1)
    }
}

/// `listing` is the canonical listing of the components `m`.
pub open spec fn lists<TComponent>(
    listing: Seq<(ComponentId, TComponent)>,
    m: Map<ComponentId, TComponent>,
) -> bool {
    strictly_increasing(listed_ids(listing)) && as_map(listing) == m
}

/// Owns the entities of one scene: the registry of component types, the
/// archetypes, the index from entity slot to archetype and the list of slots
/// that are free to be used again.
///
/// An archetype is made when the first entity with its set of components is
/// created and is kept from then on, under the same number, also while it
/// holds no entity; it then has no chunk.
pub struct EcsDataManager<TComponent> {
    pub free_entity_id: Vec<EntityId>,
    pub entity_index: VecMap<usize>,
    pub index_count: usize,
    pub archetypes: Vec<Archetype<TComponent>>,
    pub components_info: Vec<ComponentInfo>,
}

impl<TComponent> View for EcsDataManager<TComponent> {
    type V = Map<EntityId, Seq<(ComponentId, TComponent)>>;

    /// The live entities, each with its component values in canonical order.
    open spec fn view(&self) -> Map<EntityId, Seq<(ComponentId, TComponent)>> {
        Map::new(
            |e: EntityId| self.is_live(e),
            |e: EntityId| self.archetypes@[self.archetype_of(e)]@[e],
        )
    }
}

impl<TComponent> EcsDataManager<TComponent> {
    /// The slot index: for each slot in use, the number of the archetype of
    /// its entity.
    pub open spec fn index(&self) -> Map<usize, usize> {
        index_entries(self.entity_index)
    }

    /// Some archetype stores the entity `e`.
    pub open spec fn is_live(&self, e: EntityId) -> bool {
        exists|a: int| #[trigger] stored(self.archetypes@, a, e)
    }

    /// The number of the archetype that the index gives for the slot of `e`.
    pub open spec fn archetype_of(&self, e: EntityId) -> int {
        self.index()[e.id] as int
    }

    /// The component `id` is registered.
    pub open spec fn is_registered(&self, id: ComponentId) -> bool {
        registered_component(self.components_info@, id)
    }

    /// Every archetype is consistent and no two have the same key.
    pub open spec fn archetypes_wf(&self) -> bool {
        &&& forall|a: int| 0 <= a < self.archetypes@.len() ==> (#[trigger] self.archetypes@[a]).wf()
        &&& forall|a: int, b: int|
            0 <= a < b < self.archetypes@.len() ==> (#[trigger] self.archetypes@[a]).archetype_type.component_ids@
                != (#[trigger] self.archetypes@[b]).archetype_type.component_ids@
    }

    /// The index knows the archetype of every stored entity, holds nothing
    /// else, and no two stored entities share a slot.
    pub open spec fn index_wf(&self) -> bool {
        &&& forall|a: int, e: EntityId| #[trigger]
            stored(self.archetypes@, a, e) ==> self.index().dom().contains(e.id) && self.index()[e.id]
                == a
        &&& forall|k: usize| #[trigger]
            self.index().dom().contains(k) ==> k < self.index_count && exists|e: EntityId|
                e.id == k && #[trigger] stored(self.archetypes@, self.index()[k] as int, e)
        &&& forall|a: int, e: EntityId, b: int, f: EntityId|
            #[trigger] stored(self.archetypes@, a, e) && #[trigger] stored(self.archetypes@, b, f)
                && e.id == f.id ==> e == f
    }

    /// The free slots were handed out before, are not in use, and none is
    /// listed twice.
    pub open spec fn free_wf(&self) -> bool {
        &&& self.index_count <= MAX_ENTITY_SLOTS
        &&& forall|i: int|
            0 <= i < self.free_entity_id@.len() ==> (#[trigger] self.free_entity_id@[i]).id
                < self.index_count && !self.index().dom().contains(self.free_entity_id@[i].id)
        &&& forall|i: int, j: int|
            0 <= i < j < self.free_entity_id@.len() ==> (#[trigger] self.free_entity_id@[i]).id != (
            #[trigger] self.free_entity_id@[j]).id
    }

    /// No component is registered twice.
    pub open spec fn registry_wf(&self) -> bool {
        forall|i: int, j: int|
            0 <= i < j < self.components_info@.len() ==> (#[trigger] self.components_info@[i]).component_id != (
            #[trigger] self.components_info@[j]).component_id
    }

    /// The manager is consistent.
    pub open spec fn wf(&self) -> bool {
        &&& self.archetypes_wf()
        &&& self.index_wf()
        &&& self.free_wf()
        &&& self.registry_wf()
    }

    /// A manager without components, archetypes or entities.
    pub fn new() -> (r: Self)
        ensures
            r.wf(),
            r@ == Map::<EntityId, Seq<(ComponentId, TComponent)>>::empty(),
            r.components_info@.len() == 0,
            r.archetypes@.len() == 0,
            r.free_entity_id@.len() == 0,
            r.index_count == 0,
    {
        let r = Self {
            free_entity_id: Vec::new(),
            entity_index: index_new(),
            index_count: 0,
            archetypes: Vec::new(),
            components_info: Vec::new(),
        };
        assert(r@ =~= Map::<EntityId, Seq<(ComponentId, TComponent)>>::empty());
        r
    }

    /// What the registry holds for the component `component_id`.
    pub fn component_info(&self, component_id: ComponentId) -> (r: Option<ComponentInfo>)
        ensures
            r.is_some() == self.is_registered(component_id),
            r matches Some(info) ==> info.component_id == component_id
                && self.components_info@.contains(info),
            self.registry_wf() ==> (r matches Some(info) ==> info.size == size_of(
                self.components_info@,
                component_id,
            )),
    {
        let mut i: usize = 0;
        while i < self.components_info.len()
            invariant
                i <= self.components_info.len(),
                forall|k: int|
                    0 <= k < i ==> (#[trigger] self.components_info@[k]).component_id
                        != component_id,
            decreases self.components_info.len() - i,
        {
            if self.components_info[i].component_id.id == component_id.id {
                proof {
                    assert(self.components_info@[i as int].component_id == component_id);
                    if self.registry_wf() {
                        let j = info_place(self.components_info@, component_id);
                        if j < i {
                            assert(self.components_info@[j].component_id
                                != self.components_info@[i as int].component_id);
                        } else if j > i {
                            assert(self.components_info@[i as int].component_id
                                != self.components_info@[j].component_id);
                        }
                    }
                }
                return Some(self.components_info[i]);
            }
            i += 1;
        }
        None
    }

    /// Registers the component type `component_id` with the byte size of its
    /// values and returns its identifier. A type that is registered already
    /// keeps the entry it has.
    pub fn register_component(&mut self, component_id: ComponentId, size: usize) -> (r: ComponentId)
        requires
            old(self).wf(),
        ensures
            final(self).wf(),
            r == component_id,
            final(self).is_registered(component_id),
            old(self).is_registered(component_id) ==> final(self).components_info@ == old(
                self,
            ).components_info@,
            !old(self).is_registered(component_id) ==> final(self).components_info@ == old(
                self,
            ).components_info@.push(ComponentInfo { component_id, size }),
            final(self).archetypes@ == old(self).archetypes@,
            final(self).entity_index == old(self).entity_index,
            final(self).free_entity_id@ == old(self).free_entity_id@,
            final(self).index_count == old(self).index_count,
            final(self)@ == old(self)@,
    {
        if self.component_info(component_id).is_none() {
            self.components_info.push(ComponentInfo::new(component_id, size));
            proof {
                let before = old(self).components_info@;
                let after = self.components_info@;
                assert(after[after.len() - 1].component_id == component_id);
                assert forall|i: int, j: int| 0 <= i < j < after.len() implies (
                #[trigger] after[i]).component_id != (#[trigger] after[j]).component_id by {
                    if j < before.len() {
                        assert(before[i].component_id != before[j].component_id);
                    } else {
                        assert(before[i].component_id != component_id);
                    }
                }
            }
        }
        proof {
            assert(self.index() == old(self).index());
            assert forall|k: usize| #[trigger] self.index().dom().contains(k) implies k
                < self.index_count && exists|e: EntityId|
                e.id == k && #[trigger] stored(self.archetypes@, self.index()[k] as int, e) by {
                assert(old(self).index().dom().contains(k));
                let e = choose|e: EntityId|
                    e.id == k && #[trigger] stored(
                        old(self).archetypes@,
                        old(self).index()[k] as int,
                        e,
                    );
                assert(stored(self.archetypes@, self.index()[k] as int, e));
            }
        }
        assert(self@ =~= old(self)@);
        component_id
    }
}


/// The components that a list gives are those that it names.
pub proof fn lemma_collect_dom<TComponent>(s: Seq<(ComponentId, TComponent)>)
    ensures
        forall|c: ComponentId|
            collect(s).dom().contains(c) <==> exists|i: int|
                0 <= i < s.len() && (#[trigger] s[i]).0 == c,
    decreases s.len(),
{
    if s.len() > 0 {
        let rest = s.drop_last();
        lemma_collect_dom(rest);
        assert(collect(s) == collect(rest).insert(s.last().0, s.last().1));
        assert forall|c: ComponentId|
            collect(s).dom().contains(c) <==> exists|i: int|
                0 <= i < s.len() && (#[trigger] s[i]).0 == c by {
            if collect(s).dom().contains(c) {
                if c == s.last().0 {
                    assert(s[s.len() - 1].0 == c);
                } else {
                    let i = choose|i: int| 0 <= i < rest.len() && (#[trigger] rest[i]).0 == c;
                    assert(s[i].0 == c);
                }
            }
            if exists|i: int| 0 <= i < s.len() && (#[trigger] s[i]).0 == c {
                let i = choose|i: int| 0 <= i < s.len() && (#[trigger] s[i]).0 == c;
                if i < s.len() - 1 {
                    assert(rest[i].0 == c);
                }
            }
        }
    }
}

/// Gathers a list of component values into an entity: each component once,
/// with the last value that the list gives for it.
pub fn collect_entity<TComponent>(
    entity_id: EntityId,
    components: Vec<(ComponentId, TComponent)>,
) -> (r: EntityData<TComponent>)
    ensures
        r.wf(),
        r.entity_id == entity_id,
        r.components() == collect(components@),
{
    let mut data = EntityData::new(entity_id);
    let mut rest = components;
    let ghost mut taken: int = 0;
    assert(components@.subrange(0, 0) =~= Seq::empty());
    assert(rest@ =~= components@.subrange(0, components@.len() as int));
    while rest.len() > 0
        invariant
            0 <= taken <= components@.len(),
            data.wf(),
            data.entity_id == entity_id,
            rest@ == components@.subrange(taken, components@.len() as int),
            data.components() == collect(components@.subrange(0, taken)),
        decreases rest.len(),
    {
        let pair = rest.remove(0);
        let (id, value) = pair;
        proof {
            let upto = components@.subrange(0, taken + 1);
            assert(upto.drop_last() =~= components@.subrange(0, taken));
            assert(upto.last() == components@[taken]);
            assert(rest@ =~= components@.subrange(taken + 1, components@.len() as int));
        }
        let _ = data.add_component(id, value);
        proof {
            taken = taken + 1;
        }
    }
    assert(components@.subrange(0, taken) =~= components@);
    data
}

impl<TComponent> EcsDataManager<TComponent> {
    /// The number of the archetype with the key `key`, if there is one.
    pub fn find_archetype(&self, key: &ArchetypeType) -> (r: Option<usize>)
        ensures
            r matches Some(a) ==> a < self.archetypes@.len() && self.archetypes@[a as int].archetype_type.component_ids@
                == key.component_ids@,
            r.is_none() ==> forall|a: int|
                0 <= a < self.archetypes@.len() ==> (#[trigger] self.archetypes@[a]).archetype_type.component_ids@
                    != key.component_ids@,
    {
        let mut a: usize = 0;
        while a < self.archetypes.len()
            invariant
                a <= self.archetypes.len(),
                forall|b: int|
                    0 <= b < a ==> (#[trigger] self.archetypes@[b]).archetype_type.component_ids@
                        != key.component_ids@,
            decreases self.archetypes.len() - a,
        {
            if self.archetypes[a].archetype_type().equals(key) {
                return Some(a);
            }
            a += 1;
        }
        None
    }

    /// How many entities a chunk of the archetype `key` holds: the byte
    /// budget of a chunk divided by the summed byte sizes of the components.
    pub fn chunk_capacity(&self, key: &ArchetypeType) -> (r: usize)
        requires
            self.registry_wf(),
        ensures
            r == capacity_for(footprint(self.components_info@, key.component_ids@)),
            r > 0,
    {
        let mut total: usize = 0;
        let mut i: usize = 0;
        assert(key.component_ids@.subrange(0, 0) =~= Seq::empty());
        while i < key.component_ids.len()
            invariant
                i <= key.component_ids.len(),
                self.registry_wf(),
                total <= CHUNK_SIZE,
                footprint(self.components_info@, key.component_ids@.subrange(0, i as int)) >= 0,
                total == if footprint(
                    self.components_info@,
                    key.component_ids@.subrange(0, i as int),
                ) < CHUNK_SIZE {
                    footprint(self.components_info@, key.component_ids@.subrange(0, i as int))
                } else {
                    CHUNK_SIZE as int
                },
            decreases key.component_ids.len() - i,
        {
            let size: usize = match self.component_info(key.component_ids[i]) {
                Some(info) => info.size,
                None => 0,
            };
            proof {
                let upto = key.component_ids@.subrange(0, i + 1);
                assert(upto.drop_last() =~= key.component_ids@.subrange(0, i as int));
                assert(upto.last() == key.component_ids@[i as int]);
                assert(size == size_of(self.components_info@, key.component_ids@[i as int]));
            }
            if size >= CHUNK_SIZE - total {
                total = CHUNK_SIZE;
            } else {
                total = total + size;
            }
            i += 1;
        }
        assert(key.component_ids@.subrange(0, i as int) =~= key.component_ids@);
        if total == 0 {
            CHUNK_ELEMENTS_COUNT
        } else {
            assert(CHUNK_SIZE as int / total as int >= 1) by (nonlinear_arith)
                requires
                    0 < total <= CHUNK_SIZE,
            ;
            assert(total == CHUNK_SIZE ==> CHUNK_SIZE as int / total as int == 1) by (nonlinear_arith)
                requires
                    0 < total <= CHUNK_SIZE,
            ;
            CHUNK_SIZE / total
        }
    }

    /// The handle that the next new entity gets: the free slot listed last,
    /// or else the first slot that was never used, in its first generation.
    pub open spec fn next_id(&self) -> EntityId {
        if self.free_entity_id@.len() > 0 {
            self.free_entity_id@.last()
        } else {
            EntityId { id: self.index_count, version: 0 }
        }
    }

    /// A slot can be had for one more entity.
    pub open spec fn has_room(&self) -> bool {
        self.free_entity_id@.len() > 0 || self.index_count < MAX_ENTITY_SLOTS
    }

    /// Whether a slot can be had for one more entity.
    pub fn can_add_entity(&self) -> (r: bool)
        ensures
            r == self.has_room(),
    {
        self.free_entity_id.len() > 0 || self.index_count < MAX_ENTITY_SLOTS
    }
}


/// Storing a new entity `e` in archetype number `a`, which is an archetype of
/// before or a new one at the end, and entering it in the index keeps the
/// manager consistent and adds exactly that entity.
pub proof fn lemma_added<TComponent>(
    before: EcsDataManager<TComponent>,
    after: EcsDataManager<TComponent>,
    a: int,
    e: EntityId,
    listing: Seq<(ComponentId, TComponent)>,
)
    requires
        before.wf(),
        !before.index().dom().contains(e.id),
        after.index() == before.index().insert(e.id, a as usize),
        0 <= a < after.archetypes@.len(),
        a <= usize::MAX,
        e.id < after.index_count,
        before.index_count <= after.index_count <= MAX_ENTITY_SLOTS,
        after.components_info@ == before.components_info@,
        after.archetypes@.len() == before.archetypes@.len() || (after.archetypes@.len()
            == before.archetypes@.len() + 1 && a == before.archetypes@.len()),
        forall|b: int|
            0 <= b < before.archetypes@.len() && b != a ==> (#[trigger] after.archetypes@[b])
                == before.archetypes@[b],
        after.archetypes@[a].wf(),
        a < before.archetypes@.len() ==> after.archetypes@[a]@ == before.archetypes@[a]@.insert(
            e,
            listing,
        ) && after.archetypes@[a].archetype_type == before.archetypes@[a].archetype_type,
        a == before.archetypes@.len() ==> after.archetypes@[a]@.dom() == Set::<EntityId>::empty().insert(
            e,
        ) && after.archetypes@[a]@[e] == listing && forall|b: int|
            0 <= b < before.archetypes@.len() ==> (#[trigger] before.archetypes@[b]).archetype_type.component_ids@
                != after.archetypes@[a].archetype_type.component_ids@,
        after.free_entity_id@.len() <= before.free_entity_id@.len(),
        forall|i: int|
            0 <= i < after.free_entity_id@.len() ==> (#[trigger] after.free_entity_id@[i])
                == before.free_entity_id@[i] && after.free_entity_id@[i].id != e.id,
    ensures
        after.wf(),
        !before.is_live(e),
        after.is_live(e),
        after.archetype_of(e) == a,
        after@[e] == listing,
        after@ == before@.insert(e, listing),
        forall|x: EntityId| #[trigger]
            before.is_live(x) ==> after.archetype_of(x) == before.archetype_of(x),
{
    let arch0 = before.archetypes@;
    let arch3 = after.archetypes@;
    let idx0 = before.index();
    let idx3 = after.index();
    assert forall|b: int, x: EntityId| #[trigger] stored(arch0, b, x) implies x.id != e.id by {
        assert(idx0.dom().contains(x.id));
    }
    assert forall|b: int, x: EntityId| #[trigger]
        stored(arch3, b, x) <==> stored(arch0, b, x) || (b == a && x == e) by {
        if 0 <= b < arch3.len() && b != a {
            assert(arch3[b] == arch0[b]);
        }
    }
    assert forall|b: int, x: EntityId| stored(arch0, b, x) implies #[trigger] arch3[b]@[x]
        == arch0[b]@[x] by {
        assert(x.id != e.id);
        if b != a {
            assert(arch3[b] == arch0[b]);
        }
    }
    assert(after.index_wf()) by {
        assert forall|b: int, x: EntityId| #[trigger] stored(arch3, b, x) implies idx3.dom().contains(
            x.id,
        ) && idx3[x.id] == b by {
            if stored(arch0, b, x) {
                assert(idx0.dom().contains(x.id) && idx0[x.id] == b);
            }
        }
        assert forall|k: usize| #[trigger] idx3.dom().contains(k) implies k < after.index_count
            && exists|x: EntityId| x.id == k && #[trigger] stored(arch3, idx3[k] as int, x) by {
            if k == e.id {
                assert(stored(arch3, a, e));
            } else {
                assert(idx0.dom().contains(k));
                let x = choose|x: EntityId| x.id == k && #[trigger] stored(arch0, idx0[k] as int, x);
                assert(stored(arch3, idx3[k] as int, x));
            }
        }
        assert forall|b: int, x: EntityId, c: int, f: EntityId|
            #[trigger] stored(arch3, b, x) && #[trigger] stored(arch3, c, f) && x.id
                == f.id implies x == f by {
            if stored(arch0, b, x) && stored(arch0, c, f) {
            }
        }
    }
    assert(after.archetypes_wf()) by {
        assert forall|b: int| 0 <= b < arch3.len() implies (#[trigger] arch3[b]).wf() by {
            if b != a {
                assert(arch3[b] == arch0[b]);
            }
        }
        assert forall|b: int, c: int| 0 <= b < c < arch3.len() implies (#[trigger] arch3[b]).archetype_type.component_ids@
            != (#[trigger] arch3[c]).archetype_type.component_ids@ by {
            if c < arch0.len() {
                assert(arch0[b].archetype_type.component_ids@
                    != arch0[c].archetype_type.component_ids@);
                if b != a {
                    assert(arch3[b] == arch0[b]);
                }
                if c != a {
                    assert(arch3[c] == arch0[c]);
                }
            } else {
                assert(arch3[b] == arch0[b]);
            }
        }
    }
    assert(after.free_wf()) by {
        assert forall|i: int| 0 <= i < after.free_entity_id@.len() implies (
        #[trigger] after.free_entity_id@[i]).id < after.index_count && !idx3.dom().contains(
            after.free_entity_id@[i].id,
        ) by {
            assert(before.free_entity_id@[i].id < before.index_count);
        }
        assert forall|i: int, j: int| 0 <= i < j < after.free_entity_id@.len() implies (
        #[trigger] after.free_entity_id@[i]).id != (#[trigger] after.free_entity_id@[j]).id by {
            assert(before.free_entity_id@[i].id != before.free_entity_id@[j].id);
        }
    }
    assert(!before.is_live(e)) by {
        if before.is_live(e) {
            let b = choose|b: int| #[trigger] stored(arch0, b, e);
            assert(stored(arch0, b, e));
        }
    }
    assert(stored(arch3, a, e));
    assert forall|x: EntityId| after.is_live(x) <==> before.is_live(x) || x == e by {
        if after.is_live(x) {
            let b = choose|b: int| #[trigger] stored(arch3, b, x);
            if x != e {
                assert(stored(arch0, b, x));
            }
        }
        if before.is_live(x) {
            let b = choose|b: int| #[trigger] stored(arch0, b, x);
            assert(stored(arch3, b, x));
        }
    }
    assert forall|x: EntityId| before.is_live(x) implies after@[x] == before@[x] by {
        let b = choose|b: int| #[trigger] stored(arch0, b, x);
        assert(stored(arch0, b, x));
        assert(idx0.dom().contains(x.id) && idx0[x.id] == b);
        assert(x.id != e.id);
        assert(arch3[b]@[x] == arch0[b]@[x]);
    }
    assert(after@ =~= before@.insert(e, listing));
    assert forall|x: EntityId| #[trigger] before.is_live(x) implies after.archetype_of(x)
        == before.archetype_of(x) by {
        let b = choose|b: int| #[trigger] stored(arch0, b, x);
        assert(stored(arch0, b, x));
        assert(x.id != e.id);
    }
}

/// The records of archetype number `a`, chunk by chunk; none for a number
/// that no archetype has.
pub open spec fn grid_of<TComponent>(archetypes: Seq<Archetype<TComponent>>, a: int) -> Seq<
    Seq<(EntityId, Seq<(ComponentId, TComponent)>)>,
> {
    if 0 <= a < archetypes.len() {
        archetypes[a].grid()
    } else {
        Seq::empty()
    }
}

/// What creating an entity from `components` does to a manager, when it
/// succeeds with the handle `e`.
///
/// The entity gets the next free handle and was not live before. It is
/// stored, with each component once in canonical order, in the archetype
/// whose key is its set of components; that archetype is made only if none
/// with that key exists, at the end, and then with chunks as large as the
/// byte budget allows. There the entity is appended: to the last chunk if it
/// has room, else in a new chunk. Every other entity stays where it was, and
/// every other archetype as it was.
pub open spec fn added<TComponent>(
    before: EcsDataManager<TComponent>,
    after: EcsDataManager<TComponent>,
    components: Seq<(ComponentId, TComponent)>,
    e: EntityId,
) -> bool {
    &&& e == before.next_id()
    &&& !before.is_live(e)
    &&& after.free_entity_id@ == if before.free_entity_id@.len() > 0 {
        before.free_entity_id@.drop_last()
    } else {
        before.free_entity_id@
    }
    &&& after.index_count == if before.free_entity_id@.len() > 0 {
        before.index_count as int
    } else {
        before.index_count + 1
    }
    &&& lists(after@[e], collect(components))
    &&& after@ == before@.insert(e, after@[e])
    &&& 0 <= after.archetype_of(e) < after.archetypes@.len()
    &&& after.archetypes@[after.archetype_of(e)].archetype_type@ == collect(components).dom()
    &&& before.archetypes@.len() <= after.archetypes@.len() <= before.archetypes@.len() + 1
    &&& after.archetypes@.len() > before.archetypes@.len() ==> after.archetype_of(e)
        == before.archetypes@.len()
    &&& forall|a: int|
        0 <= a < before.archetypes@.len() ==> (#[trigger] after.archetypes@[a]).archetype_type
            == before.archetypes@[a].archetype_type && after.archetypes@[a].chunk_size
            == before.archetypes@[a].chunk_size
    &&& forall|a: int|
        0 <= a < before.archetypes@.len() && a != after.archetype_of(e) ==> (
        #[trigger] after.archetypes@[a]) == before.archetypes@[a]
    &&& after.archetypes@[after.archetype_of(e)].grid() == appended(
        grid_of(before.archetypes@, after.archetype_of(e)),
        after.archetypes@[after.archetype_of(e)].chunk_size as int,
        (e, after@[e]),
    )
    &&& forall|x: EntityId| #[trigger]
        before.is_live(x) ==> after.archetype_of(x) == before.archetype_of(x)
    &&& (exists|a: int|
        0 <= a < before.archetypes@.len() && (#[trigger] before.archetypes@[a]).archetype_type@
            == collect(components).dom()) ==> after.archetypes@.len() == before.archetypes@.len()
    &&& after.archetypes@.len() > before.archetypes@.len() ==> after.archetypes@.last().chunk_size
        == capacity_for(
        footprint(
            before.components_info@,
            after.archetypes@.last().archetype_type.component_ids@,
        ),
    )
}

impl<TComponent> EcsDataManager<TComponent> {
    /// Creates an entity with the given component values and returns its
    /// handle.
    ///
    /// Fails, creating nothing, exactly when one of the components is not
    /// registered, and then names such a component.
    pub fn add_entity(&mut self, components: Vec<(ComponentId, TComponent)>) -> (r: Result<
        EntityId,
        AddEntityError,
    >)
        requires
            old(self).wf(),
            old(self).has_room(),
        ensures
            final(self).wf(),
            final(self).components_info@ == old(self).components_info@,
            r.is_err() <==> exists|i: int|
                0 <= i < components@.len() && !old(self).is_registered(
                    (#[trigger] components@[i]).0,
                ),
            r matches Err(AddEntityError::ComponentNotRegistered { component_id }) ==> collect(
                components@,
            ).dom().contains(component_id) && !old(self).is_registered(component_id) && *final(self)
                == *old(self),
            r matches Err(AddEntityError::ComponentNotRegistered { component_id }) ==> forall|
                c: ComponentId,
            |
                collect(components@).dom().contains(c) && !old(self).is_registered(c)
                    ==> component_id.id <= c.id,
            r matches Ok(e) ==> added(*old(self), *final(self), components@, e),
    {
        let mut data = collect_entity(EntityId::new(0), components);
        let key = data.build_archetype_type();
        proof {
            lemma_collect_dom(components@);
            if exists|i: int|
                0 <= i < components@.len() && !self.is_registered((#[trigger] components@[i]).0) {
                let i = choose|i: int|
                    0 <= i < components@.len() && !self.is_registered(
                        (#[trigger] components@[i]).0,
                    );
                assert(collect(components@).dom().contains(components@[i].0));
                assert(key@.contains(components@[i].0));
            }
        }
        match key.check(&self.components_info) {
            Some(c) => {
                assert(collect(components@).dom().contains(c) && !self.is_registered(c));
                proof {
                    let at = choose|at: int|
                        0 <= at < components@.len() && (#[trigger] components@[at]).0 == c;
                    assert(!self.is_registered(components@[at].0));
                    let ids = key.component_ids@;
                    let i = choose|i: int|
                        0 <= i < ids.len() && ids[i] == c && forall|k: int|
                            0 <= k < i ==> registered_component(
                                self.components_info@,
                                #[trigger] ids[k],
                            );
                    assert forall|d: ComponentId|
                        collect(components@).dom().contains(d) && !self.is_registered(d) implies c.id
                        <= d.id by {
                        assert(key@.contains(d));
                        let j = choose|j: int| 0 <= j < ids.len() && ids[j] == d;
                        if j < i {
                            assert(registered_component(self.components_info@, ids[j]));
                        } else if j > i {
                            assert(ids[i].id < ids[j].id);
                        }
                    }
                }
                return Err(AddEntityError::ComponentNotRegistered { component_id: c });
            },
            None => {},
        }
        let ghost arch0 = self.archetypes@;
        let ghost idx0 = self.index();
        let entity_id = match self.free_entity_id.pop() {
            Some(id) => id,
            None => {
                let id = EntityId::new(self.index_count);
                self.index_count += 1;
                id
            },
        };
        assert(entity_id == old(self).next_id());
        assert(!idx0.dom().contains(entity_id.id)) by {
            if old(self).free_entity_id@.len() > 0 {
                assert(old(self).free_entity_id@[old(self).free_entity_id@.len() - 1].id
                    == entity_id.id);
            } else {
                if idx0.dom().contains(entity_id.id) {
                    assert(entity_id.id < old(self).index_count);
                }
            }
        }
        assert forall|b: int, e: EntityId| #[trigger] stored(arch0, b, e) implies e.id
            != entity_id.id by {
            assert(idx0.dom().contains(e.id));
        }
        data.entity_id = entity_id;
        let ghost listing = data.entity_components@;
        let a = match self.find_archetype(&key) {
            Some(a) => a,
            None => {
                let capacity = self.chunk_capacity(&key);
                self.archetypes.push(Archetype::new(key, capacity));
                self.archetypes.len() - 1
            },
        };
        let ghost arch2 = self.archetypes@;
        assert(forall|b: int| 0 <= b < arch0.len() ==> arch2[b] == arch0[b]);
        assert(!arch2[a as int]@.dom().contains(entity_id)) by {
            if a < arch0.len() {
                if arch0[a as int]@.dom().contains(entity_id) {
                    assert(stored(arch0, a as int, entity_id));
                }
            }
        }
        assert(arch2[a as int].wf());
        assert(grid_of(arch0, a as int) =~= arch2[a as int].grid());
        let _ = self.archetypes[a].add_entity(data);
        let _ = index_insert(&mut self.entity_index, entity_id.id, a);
        proof {
            let arch3 = self.archetypes@;
            assert forall|i: int| 0 <= i < self.free_entity_id@.len() implies (
            #[trigger] self.free_entity_id@[i]).id != entity_id.id by {
                if old(self).free_entity_id@.len() > 0 {
                    assert(old(self).free_entity_id@[i].id != old(self).free_entity_id@[old(
                        self,
                    ).free_entity_id@.len() - 1].id);
                } else {
                    assert(old(self).free_entity_id@[i].id < old(self).index_count);
                }
            }
            if a as int >= arch0.len() {
                assert(arch2[a as int]@.dom() =~= Set::<EntityId>::empty());
                assert(arch3[a as int]@.dom() =~= Set::<EntityId>::empty().insert(entity_id));
            }
            lemma_added(*old(self), *self, a as int, entity_id, listing);
            assert(self@[entity_id] == listing);
            assert(arch3[a as int].archetype_type@ == collect(components@).dom());
            if exists|b: int|
                0 <= b < arch0.len() && (#[trigger] arch0[b]).archetype_type@ == collect(
                    components@,
                ).dom() {
                let b = choose|b: int|
                    0 <= b < arch0.len() && (#[trigger] arch0[b]).archetype_type@ == collect(
                        components@,
                    ).dom();
                assert(arch0[b].wf());
                crate::types::archetype_type::lemma_canonical_listing_unique(
                    arch0[b].archetype_type.component_ids@,
                    key.component_ids@,
                );
            }
        }
        Ok(entity_id)
    }
}


/// Taking the entity `e` out of archetype number `a` and out of the index,
/// and listing its slot as free or retiring it, keeps the manager consistent
/// and removes exactly that entity.
pub proof fn lemma_removed<TComponent>(
    before: EcsDataManager<TComponent>,
    after: EcsDataManager<TComponent>,
    a: int,
    e: EntityId,
)
    requires
        before.wf(),
        stored(before.archetypes@, a, e),
        after.index() == before.index().remove(e.id),
        after.index_count == before.index_count,
        after.components_info@ == before.components_info@,
        after.archetypes@.len() == before.archetypes@.len(),
        forall|b: int|
            0 <= b < before.archetypes@.len() && b != a ==> (#[trigger] after.archetypes@[b])
                == before.archetypes@[b],
        after.archetypes@[a].wf(),
        after.archetypes@[a]@ == before.archetypes@[a]@.remove(e),
        after.archetypes@[a].archetype_type == before.archetypes@[a].archetype_type,
        after.free_entity_id@ == before.free_entity_id@ || (exists|next: EntityId|
            next.id == e.id && after.free_entity_id@ == #[trigger] before.free_entity_id@.push(
                next,
            )),
    ensures
        after.wf(),
        before.is_live(e),
        before.archetype_of(e) == a,
        before@[e] == before.archetypes@[a]@[e],
        after@ == before@.remove(e),
        forall|x: EntityId| #[trigger]
            after.is_live(x) ==> after.archetype_of(x) == before.archetype_of(x),
{
    let arch0 = before.archetypes@;
    let arch3 = after.archetypes@;
    let idx0 = before.index();
    let idx3 = after.index();
    assert(idx0.dom().contains(e.id) && idx0[e.id] == a);
    assert forall|b: int, x: EntityId| #[trigger] stored(arch0, b, x) && x != e implies x.id
        != e.id by {
        assert(stored(arch0, a, e));
    }
    assert forall|b: int, x: EntityId| #[trigger]
        stored(arch3, b, x) <==> stored(arch0, b, x) && x != e by {
        if 0 <= b < arch3.len() && b != a {
            assert(arch3[b] == arch0[b]);
            if stored(arch0, b, x) && x == e {
                assert(idx0[e.id] == b);
            }
        }
    }
    assert forall|b: int, x: EntityId| stored(arch3, b, x) implies #[trigger] arch3[b]@[x]
        == arch0[b]@[x] by {
        if b != a {
            assert(arch3[b] == arch0[b]);
        }
    }
    assert(after.index_wf()) by {
        assert forall|b: int, x: EntityId| #[trigger] stored(arch3, b, x) implies idx3.dom().contains(
            x.id,
        ) && idx3[x.id] == b by {
            assert(stored(arch0, b, x) && x != e);
            assert(idx0.dom().contains(x.id) && idx0[x.id] == b);
        }
        assert forall|k: usize| #[trigger] idx3.dom().contains(k) implies k < after.index_count
            && exists|x: EntityId| x.id == k && #[trigger] stored(arch3, idx3[k] as int, x) by {
            assert(idx0.dom().contains(k));
            let x = choose|x: EntityId| x.id == k && #[trigger] stored(arch0, idx0[k] as int, x);
            assert(stored(arch3, idx3[k] as int, x));
        }
        assert forall|b: int, x: EntityId, c: int, f: EntityId|
            #[trigger] stored(arch3, b, x) && #[trigger] stored(arch3, c, f) && x.id
                == f.id implies x == f by {
            assert(stored(arch0, b, x) && stored(arch0, c, f));
        }
    }
    assert(after.archetypes_wf()) by {
        assert forall|b: int| 0 <= b < arch3.len() implies (#[trigger] arch3[b]).wf() by {
            if b != a {
                assert(arch3[b] == arch0[b]);
            }
        }
        assert forall|b: int, c: int| 0 <= b < c < arch3.len() implies (#[trigger] arch3[b]).archetype_type.component_ids@
            != (#[trigger] arch3[c]).archetype_type.component_ids@ by {
            assert(arch0[b].archetype_type.component_ids@ != arch0[c].archetype_type.component_ids@);
            if b != a {
                assert(arch3[b] == arch0[b]);
            }
            if c != a {
                assert(arch3[c] == arch0[c]);
            }
        }
    }
    assert(after.free_wf()) by {
        assert forall|i: int| 0 <= i < after.free_entity_id@.len() implies (
        #[trigger] after.free_entity_id@[i]).id < after.index_count && !idx3.dom().contains(
            after.free_entity_id@[i].id,
        ) by {
            if i < before.free_entity_id@.len() {
                assert(before.free_entity_id@[i].id < before.index_count);
            }
        }
        assert forall|i: int, j: int| 0 <= i < j < after.free_entity_id@.len() implies (
        #[trigger] after.free_entity_id@[i]).id != (#[trigger] after.free_entity_id@[j]).id by {
            if j < before.free_entity_id@.len() {
                assert(before.free_entity_id@[i].id != before.free_entity_id@[j].id);
            } else {
                assert(!idx0.dom().contains(before.free_entity_id@[i].id));
            }
        }
    }
    assert(before.is_live(e));
    assert forall|x: EntityId| after.is_live(x) <==> before.is_live(x) && x != e by {
        if after.is_live(x) {
            let b = choose|b: int| #[trigger] stored(arch3, b, x);
            assert(stored(arch0, b, x));
        }
        if before.is_live(x) && x != e {
            let b = choose|b: int| #[trigger] stored(arch0, b, x);
            assert(stored(arch3, b, x));
        }
    }
    assert forall|x: EntityId| after.is_live(x) implies after@[x] == before@[x] by {
        let b = choose|b: int| #[trigger] stored(arch3, b, x);
        assert(stored(arch3, b, x));
        assert(stored(arch0, b, x));
        assert(idx0.dom().contains(x.id) && idx0[x.id] == b);
        assert(x.id != e.id);
        assert(arch3[b]@[x] == arch0[b]@[x]);
    }
    assert(after@ =~= before@.remove(e));
    assert forall|x: EntityId| #[trigger] after.is_live(x) implies after.archetype_of(x)
        == before.archetype_of(x) by {
        let b = choose|b: int| #[trigger] stored(arch3, b, x);
        assert(stored(arch3, b, x));
        assert(stored(arch0, b, x) && x != e);
        assert(x.id != e.id);
    }
}

/// What removing the live entity `e` does to a manager.
///
/// Its values are handed back as they were stored and it is live no longer;
/// its archetype is made dense again, every other archetype stays as it was,
/// and every other entity stays in its archetype with its values. Its slot is listed as free in its
/// next generation, or retired if it has no next generation.
pub open spec fn removed<TComponent>(
    before: EcsDataManager<TComponent>,
    after: EcsDataManager<TComponent>,
    e: EntityId,
    data: EntityData<TComponent>,
) -> bool {
    &&& data.wf()
    &&& data@ == (e, before@[e])
    &&& after@ == before@.remove(e)
    &&& after.index_count == before.index_count
    &&& after.free_entity_id@ == if e.version < usize::MAX {
        before.free_entity_id@.push(EntityId { id: e.id, version: (e.version + 1) as usize })
    } else {
        before.free_entity_id@
    }
    &&& after.archetypes@.len() == before.archetypes@.len()
    &&& forall|a: int|
        0 <= a < before.archetypes@.len() ==> (#[trigger] after.archetypes@[a]).archetype_type
            == before.archetypes@[a].archetype_type && after.archetypes@[a].chunk_size
            == before.archetypes@[a].chunk_size
    &&& 0 <= before.archetype_of(e) < before.archetypes@.len()
    &&& forall|a: int|
        0 <= a < before.archetypes@.len() && a != before.archetype_of(e) ==> (
        #[trigger] after.archetypes@[a]) == before.archetypes@[a]
    &&& after.archetypes@[before.archetype_of(e)].grid() == compacted(
        before.archetypes@[before.archetype_of(e)].grid(),
        place(before.archetypes@[before.archetype_of(e)].grid(), e).0,
        place(before.archetypes@[before.archetype_of(e)].grid(), e).1,
    )
    &&& forall|x: EntityId| #[trigger]
        after.is_live(x) ==> after.archetype_of(x) == before.archetype_of(x)
}

impl<TComponent> EcsDataManager<TComponent> {
    /// Whether the entity `entity_id` is live: stored under exactly this
    /// handle, generation included.
    pub fn contains_entity(&self, entity_id: EntityId) -> (r: bool)
        requires
            self.wf(),
        ensures
            r == self.is_live(entity_id),
            r == self@.dom().contains(entity_id),
    {
        match index_get(&self.entity_index, entity_id.id) {
            None => {
                proof {
                    if self.is_live(entity_id) {
                        let b = choose|b: int| #[trigger] stored(self.archetypes@, b, entity_id);
                        assert(stored(self.archetypes@, b, entity_id));
                    }
                }
                false
            },
            Some(a) => {
                proof {
                    assert(self.index().dom().contains(entity_id.id));
                    assert(self.index()[entity_id.id] == a);
                    let x = choose|x: EntityId|
                        x.id == entity_id.id && #[trigger] stored(
                            self.archetypes@,
                            self.index()[entity_id.id] as int,
                            x,
                        );
                    assert(stored(self.archetypes@, a as int, x));
                    if self.is_live(entity_id) {
                        let b = choose|b: int| #[trigger] stored(self.archetypes@, b, entity_id);
                        assert(stored(self.archetypes@, b, entity_id));
                    }
                    if self.archetypes@[a as int]@.dom().contains(entity_id) {
                        assert(stored(self.archetypes@, a as int, entity_id));
                    }
                }
                self.archetypes[a].contain_entity(&entity_id)
            },
        }
    }

    /// Removes the entity `entity_id` and returns what was stored for it.
    /// Returns `None`, changing nothing, when no entity is live under this
    /// handle.
    pub fn remove_entity(&mut self, entity_id: EntityId) -> (r: Option<EntityData<TComponent>>)
        requires
            old(self).wf(),
        ensures
            final(self).wf(),
            final(self).components_info@ == old(self).components_info@,
            r.is_some() == old(self).is_live(entity_id),
            r.is_none() ==> *final(self) == *old(self),
            r matches Some(data) ==> removed(*old(self), *final(self), entity_id, data),
    {
        if !self.contains_entity(entity_id) {
            return None;
        }
        let a = match index_get(&self.entity_index, entity_id.id) {
            Some(a) => a,
            None => {
                proof {
                    let b = choose|b: int| #[trigger] stored(self.archetypes@, b, entity_id);
                    assert(stored(self.archetypes@, b, entity_id));
                }
                return None;
            },
        };
        proof {
            let b = choose|b: int| #[trigger] stored(self.archetypes@, b, entity_id);
            assert(stored(self.archetypes@, b, entity_id));
            assert(b == a);
        }
        let taken = self.archetypes[a].remove_entity(entity_id);
        let _ = index_remove(&mut self.entity_index, entity_id.id);
        match entity_id.recycled() {
            Some(next) => {
                self.free_entity_id.push(next);
            },
            None => {},
        }
        proof {
            lemma_removed(*old(self), *self, a as int, entity_id);
        }
        taken
    }
}


/// Two live entities with the same set of components are stored in the same
/// archetype, whatever the order in which their components were given.
pub proof fn lemma_same_components_same_archetype<TComponent>(
    manager: EcsDataManager<TComponent>,
    e: EntityId,
    f: EntityId,
)
    requires
        manager.wf(),
        manager.is_live(e),
        manager.is_live(f),
        listed_ids(manager@[e]).to_set() == listed_ids(manager@[f]).to_set(),
    ensures
        manager.archetype_of(e) == manager.archetype_of(f),
        stored(manager.archetypes@, manager.archetype_of(e), e),
        stored(manager.archetypes@, manager.archetype_of(e), f),
{
    let archetypes = manager.archetypes@;
    let a = choose|a: int| #[trigger] stored(archetypes, a, e);
    let b = choose|b: int| #[trigger] stored(archetypes, b, f);
    assert(stored(archetypes, a, e));
    assert(stored(archetypes, b, f));
    assert(manager.archetype_of(e) == a);
    assert(manager.archetype_of(f) == b);
    assert(archetypes[a].wf());
    assert(archetypes[b].wf());
    archetypes[a].lemma_listing(e);
    archetypes[b].lemma_listing(f);
    crate::types::archetype_type::lemma_canonical_listing_unique(
        archetypes[a].archetype_type.component_ids@,
        archetypes[b].archetype_type.component_ids@,
    );
    if a < b {
        assert(archetypes[a].archetype_type.component_ids@
            != archetypes[b].archetype_type.component_ids@);
    } else if b < a {
        assert(archetypes[b].archetype_type.component_ids@
            != archetypes[a].archetype_type.component_ids@);
    }
}

/// Two entities created one after the other from the same set of components,
/// given in any order, are stored in the same archetype, and the second
/// creation makes no archetype.
pub proof fn lemma_same_set_added_to_same_archetype<TComponent>(
    before: EcsDataManager<TComponent>,
    between: EcsDataManager<TComponent>,
    after: EcsDataManager<TComponent>,
    first: Seq<(ComponentId, TComponent)>,
    second: Seq<(ComponentId, TComponent)>,
    e: EntityId,
    f: EntityId,
)
    requires
        between.wf(),
        after.wf(),
        added(before, between, first, e),
        added(between, after, second, f),
        collect(first).dom() == collect(second).dom(),
    ensures
        after.archetypes@.len() == between.archetypes@.len(),
        after.archetype_of(e) == after.archetype_of(f),
        stored(after.archetypes@, after.archetype_of(f), e),
        stored(after.archetypes@, after.archetype_of(f), f),
{
    let a = between.archetype_of(e);
    let b = after.archetype_of(f);
    assert(between.archetypes@[a].archetype_type@ == collect(second).dom());
    assert(after.archetypes@.len() == between.archetypes@.len());
    assert(after.archetypes@[b].archetype_type == between.archetypes@[b].archetype_type);
    assert(between.archetypes@[a].wf());
    assert(between.archetypes@[b].wf());
    crate::types::archetype_type::lemma_canonical_listing_unique(
        between.archetypes@[a].archetype_type.component_ids@,
        between.archetypes@[b].archetype_type.component_ids@,
    );
    if a < b {
        assert(between.archetypes@[a].archetype_type.component_ids@
            != between.archetypes@[b].archetype_type.component_ids@);
    } else if b < a {
        assert(between.archetypes@[b].archetype_type.component_ids@
            != between.archetypes@[a].archetype_type.component_ids@);
    }
    assert(between@.dom().contains(e));
    assert(between.is_live(e));
    assert(after.archetype_of(e) == a);
    assert(after@.dom().contains(e));
    assert(after@.dom().contains(f));
    let c = choose|c: int| #[trigger] stored(after.archetypes@, c, e);
    assert(stored(after.archetypes@, c, e));
    let d = choose|d: int| #[trigger] stored(after.archetypes@, d, f);
    assert(stored(after.archetypes@, d, f));
}

/// No two live entities share a slot.
pub proof fn lemma_live_slots_distinct<TComponent>(
    manager: EcsDataManager<TComponent>,
    e: EntityId,
    f: EntityId,
)
    requires
        manager.wf(),
        manager.is_live(e),
        manager.is_live(f),
        e.id == f.id,
    ensures
        e == f,
{
    let a = choose|a: int| #[trigger] stored(manager.archetypes@, a, e);
    let b = choose|b: int| #[trigger] stored(manager.archetypes@, b, f);
    assert(stored(manager.archetypes@, a, e));
    assert(stored(manager.archetypes@, b, f));
}

/// The entity created right after a removal gets the slot of the removed
/// entity, in the next generation.
pub proof fn lemma_free_slot_reused<TComponent>(
    before: EcsDataManager<TComponent>,
    between: EcsDataManager<TComponent>,
    after: EcsDataManager<TComponent>,
    gone: EntityId,
    data: EntityData<TComponent>,
    components: Seq<(ComponentId, TComponent)>,
    new: EntityId,
)
    requires
        gone.version < usize::MAX,
        removed(before, between, gone, data),
        added(between, after, components, new),
    ensures
        new.id == gone.id,
        new.version == gone.version + 1,
        new.version > gone.version,
{
}


/// `accessor` names chunk `c` of archetype `a`.
pub open spec fn located(accessor: ChunkDataAccessor, a: int, c: int) -> bool {
    accessor.archetype_number == a && accessor.chunk_number == c
}

/// The chunk that `first` names comes before the one that `second` names.
pub open spec fn earlier(first: ChunkDataAccessor, second: ChunkDataAccessor) -> bool {
    first.archetype_number < second.archetype_number || (first.archetype_number
        == second.archetype_number && first.chunk_number < second.chunk_number)
}

impl<TComponent> EcsDataManager<TComponent> {
    /// `c` is a chunk of archetype `a`.
    pub open spec fn is_chunk(&self, a: int, c: int) -> bool {
        0 <= a < self.archetypes@.len() && 0 <= c < self.archetypes@[a].chunks@.len()
    }

    /// `accessor` names a chunk of an archetype that `query` matches and
    /// holds what the query asks of it.
    pub open spec fn serves(&self, query: &ArchetypeQuery, accessor: ChunkDataAccessor) -> bool {
        &&& self.is_chunk(accessor.archetype_number as int, accessor.chunk_number as int)
        &&& query.matches(self.archetypes@[accessor.archetype_number as int].archetype_type@)
        &&& query.granted(
            self.archetypes@[accessor.archetype_number as int].archetype_type.component_ids@,
            accessor,
        )
    }

    /// The accessors that `query` gets: one for every chunk of every
    /// archetype that it matches, archetype by archetype and chunk by chunk,
    /// and none for any other chunk.
    pub fn select_chunks(&self, query: &ArchetypeQuery) -> (r: Vec<ChunkDataAccessor>)
        requires
            self.wf(),
        ensures
            forall|i: int| 0 <= i < r@.len() ==> self.serves(query, #[trigger] r@[i]),
            forall|i: int, j: int| 0 <= i < j < r@.len() ==> earlier(#[trigger] r@[i], #[trigger] r@[j]),
            forall|a: int, c: int|
                self.is_chunk(a, c) && query.matches(self.archetypes@[a].archetype_type@)
                    ==> exists|i: int| 0 <= i < r@.len() && #[trigger] located(r@[i], a, c),
    {
        let mut r: Vec<ChunkDataAccessor> = Vec::new();
        let mut a: usize = 0;
        while a < self.archetypes.len()
            invariant
                a <= self.archetypes.len(),
                self.wf(),
                forall|i: int| 0 <= i < r@.len() ==> self.serves(query, #[trigger] r@[i]),
                forall|i: int| 0 <= i < r@.len() ==> (#[trigger] r@[i]).archetype_number < a,
                forall|i: int, j: int|
                    0 <= i < j < r@.len() ==> earlier(#[trigger] r@[i], #[trigger] r@[j]),
                forall|b: int, c: int|
                    self.is_chunk(b, c) && b < a && query.matches(
                        self.archetypes@[b].archetype_type@,
                    ) ==> exists|i: int| 0 <= i < r@.len() && #[trigger] located(r@[i], b, c),
            decreases self.archetypes.len() - a,
        {
            assert(self.archetypes@[a as int].wf());
            if query.is_archetype_match(self.archetypes[a].archetype_type()) {
                let chunks = self.archetypes[a].get_chunks();
                let mut c: usize = 0;
                while c < chunks.len()
                    invariant
                        c <= chunks.len(),
                        a < self.archetypes.len(),
                        self.wf(),
                        chunks@ == self.archetypes@[a as int].chunks@,
                        query.matches(self.archetypes@[a as int].archetype_type@),
                        forall|i: int| 0 <= i < r@.len() ==> self.serves(query, #[trigger] r@[i]),
                        forall|i: int|
                            0 <= i < r@.len() ==> (#[trigger] r@[i]).archetype_number < a || (
                            r@[i].archetype_number == a && r@[i].chunk_number < c),
                        forall|i: int, j: int|
                            0 <= i < j < r@.len() ==> earlier(#[trigger] r@[i], #[trigger] r@[j]),
                        forall|b: int, d: int|
                            self.is_chunk(b, d) && (b < a || (b == a && d < c)) && query.matches(
                                self.archetypes@[b].archetype_type@,
                            ) ==> exists|i: int|
                                0 <= i < r@.len() && #[trigger] located(r@[i], b, d),
                    decreases chunks.len() - c,
                {
                    let ghost before = r@;
                    proof {
                        assert(self.archetypes@[a as int].wf());
                        assert(chunks@[c as int].wf());
                        assert(chunks@[c as int].archetype_type.component_ids@
                            == self.archetypes@[a as int].archetype_type.component_ids@);
                    }
                    if query.is_chunk_match(&chunks[c]) {
                        match query.resolve(&chunks[c], a, c) {
                            Some(accessor) => {
                                r.push(accessor);
                                proof {
                                    assert(self.serves(query, accessor));
                                    assert forall|b: int, d: int|
                                        self.is_chunk(b, d) && (b < a || (b == a && d < c + 1))
                                            && query.matches(
                                            self.archetypes@[b].archetype_type@,
                                        ) implies exists|i: int|
                                        0 <= i < r@.len() && #[trigger] located(r@[i], b, d) by {
                                        if b == a && d == c {
                                            assert(located(r@[before.len() as int], b, d));
                                        } else {
                                            let i = choose|i: int|
                                                0 <= i < before.len() && #[trigger] located(
                                                    before[i],
                                                    b,
                                                    d,
                                                );
                                            assert(located(r@[i], b, d));
                                        }
                                    }
                                }
                            },
                            None => {},
                        }
                    }
                    c += 1;
                }
            }
            a += 1;
        }
        r
    }
}

} // verus!
