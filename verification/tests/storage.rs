use ecs_core::behavior::query::ArchetypeQuery;
use ecs_core::data::archetype::{Archetype, ArchetypeChunk, ComponentsArray, CHUNK_ELEMENTS_COUNT};
use ecs_core::data::component_info::ComponentInfo;
use ecs_core::data::entity_data::EntityData;
use ecs_core::data::{collect_entity, EcsDataManager, CHUNK_SIZE};
use ecs_core::world::World;
use ecs_core::types::{
    AddEntityError, ArchetypeType, BuildEntityError, ComponentId, EntityId, SceneId,
};

const POSITION: ComponentId = ComponentId { id: 1 };
const VELOCITY: ComponentId = ComponentId { id: 2 };
const DISABLED: ComponentId = ComponentId { id: 3 };

fn key(ids: &[u64]) -> ArchetypeType {
    ArchetypeType::from_ids(&ids.iter().map(|id| ComponentId::new(*id)).collect())
}

fn entity(slot: usize, values: &[(u64, i32)]) -> EntityData<i32> {
    let mut data = EntityData::new(EntityId::new(slot));
    for (id, value) in values {
        data.add_component(ComponentId::new(*id), *value);
    }
    data
}

fn stored_ids(archetype: &Archetype<i32>) -> Vec<Vec<usize>> {
    archetype
        .get_chunks()
        .iter()
        .map(|chunk| chunk.entity_ids.iter().map(|e| e.id()).collect())
        .collect()
}

#[test]
fn ids_keep_what_they_are_given() {
    assert_eq!(ComponentId::new(7).id(), 7);
    assert_eq!(SceneId::new(3).id(), 3);
    let e = EntityId::new(5);
    assert_eq!(e.id(), 5);
    assert_eq!(e.version(), 0);
}

#[test]
fn recycled_handle_has_next_generation() {
    let e = EntityId { id: 4, version: 9 };
    assert_eq!(e.recycled(), Some(EntityId { id: 4, version: 10 }));
    let last = EntityId { id: 4, version: usize::MAX };
    assert_eq!(last.recycled(), None);
}

#[test]
fn archetype_key_is_canonical() {
    let a = key(&[3, 1, 2]);
    let b = key(&[2, 3, 1, 1]);
    assert_eq!(a, b);
    assert!(a.equals(&b));
    assert_eq!(a.component_ids, vec![POSITION, VELOCITY, DISABLED]);
    assert_eq!(a.components_count(), 3);
    assert!(a.contain(VELOCITY));
    assert!(!a.contain(ComponentId::new(9)));
    assert_eq!(a.position(DISABLED), Some(2));
    assert_eq!(a.position(ComponentId::new(9)), None);
    assert!(!a.equals(&key(&[1, 2])));
}

#[test]
fn empty_key_has_no_components() {
    let e = ArchetypeType::empty();
    assert_eq!(e.components_count(), 0);
    assert!(!e.contain(POSITION));
    assert!(e.equals(&key(&[])));
}

#[test]
fn key_insert_reports_new_components() {
    let mut k = key(&[5, 1]);
    assert!(k.insert(ComponentId::new(3)));
    assert!(!k.insert(ComponentId::new(5)));
    assert_eq!(k, key(&[1, 3, 5]));
}

#[test]
fn key_check_names_first_unregistered() {
    let registry = vec![ComponentInfo::new(POSITION, 8), ComponentInfo::new(DISABLED, 1)];
    assert_eq!(key(&[1, 3]).check(&registry), None);
    assert_eq!(key(&[3, 2, 1]).check(&registry), Some(VELOCITY));
    assert_eq!(key(&[]).check(&registry), None);
}

#[test]
fn entity_data_lists_components_in_canonical_order() {
    let mut data = EntityData::new(EntityId::new(0));
    data.add_component(VELOCITY, 20).add_component(POSITION, 10).add_component(VELOCITY, 21);
    assert_eq!(data.entity_components, vec![(POSITION, 10), (VELOCITY, 21)]);
    assert_eq!(data.build_archetype_type(), key(&[1, 2]));
    data.remove_component(&POSITION).remove_component(&DISABLED);
    assert_eq!(data.entity_components, vec![(VELOCITY, 21)]);
}

#[test]
fn collect_entity_takes_last_value_of_a_component() {
    let data = collect_entity(
        EntityId::new(2),
        vec![(VELOCITY, 1), (POSITION, 2), (VELOCITY, 3)],
    );
    assert_eq!(data.entity_id, EntityId::new(2));
    assert_eq!(data.entity_components, vec![(POSITION, 2), (VELOCITY, 3)]);
}

#[test]
fn components_array_swap_removes() {
    let mut array = ComponentsArray::new();
    array.set_component(10);
    array.set_component(20);
    array.set_component(30);
    assert_eq!(array.remove_component(0), 10);
    assert_eq!(array.get_array(), &vec![30, 20]);
}

#[test]
fn chunk_swap_remove_keeps_other_entities() {
    let mut chunk: ArchetypeChunk<i32> = ArchetypeChunk::new(key(&[1, 2]), 4);
    assert!(chunk.is_empty());
    for slot in 0..4 {
        chunk.set_data(entity(slot, &[(1, slot as i32 * 10), (2, slot as i32 * 10 + 1)]));
    }
    assert!(chunk.is_filled());
    let removed = chunk.remove_data(1);
    assert_eq!(removed.entity_id, EntityId::new(1));
    assert_eq!(removed.entity_components, vec![(POSITION, 10), (VELOCITY, 11)]);
    assert_eq!(chunk.components_count, 3);
    assert_eq!(
        chunk.entity_ids,
        vec![EntityId::new(0), EntityId::new(3), EntityId::new(2)]
    );
    assert_eq!(chunk.archetype_components[0].get_array(), &vec![0, 30, 20]);
    assert_eq!(chunk.archetype_components[1].get_array(), &vec![1, 31, 21]);
    assert!(chunk.contain_entity(&EntityId::new(3)));
    assert!(!chunk.contain_entity(&EntityId::new(1)));
    assert_eq!(chunk.entity_position(&EntityId::new(3)), 1);
    assert_eq!(chunk.find_entity(&EntityId::new(1)), None);
    assert!(!chunk.is_filled());
}

#[test]
fn chunk_gives_array_of_its_components_only() {
    let mut chunk: ArchetypeChunk<i32> = ArchetypeChunk::new(key(&[1, 2]), 4);
    chunk.set_data(entity(0, &[(1, 5), (2, 6)]));
    assert_eq!(chunk.get_components_array(&VELOCITY).unwrap().get_array(), &vec![6]);
    assert!(chunk.get_components_array(&DISABLED).is_none());
}

#[test]
fn archetype_fills_chunks_in_order() {
    let mut archetype: Archetype<i32> = Archetype::new(key(&[1]), 2);
    assert!(archetype.is_empty());
    for slot in 0..5 {
        assert!(archetype.add_entity(entity(slot, &[(1, slot as i32)])).is_ok());
    }
    assert_eq!(stored_ids(&archetype), vec![vec![0, 1], vec![2, 3], vec![4]]);
    assert!(!archetype.is_empty());
    assert!(archetype.archetype_type().equals(&key(&[1])));
    assert_eq!(archetype.find_entity(&EntityId::new(3)), Some((1, 1)));
    assert!(archetype.contain_entity(&EntityId::new(4)));
    assert!(!archetype.contain_entity(&EntityId::new(5)));
}

#[test]
fn archetype_refuses_other_component_sets() {
    let mut archetype: Archetype<i32> = Archetype::new(key(&[1, 2]), 2);
    let refused = archetype.add_entity(entity(0, &[(1, 1)]));
    match refused {
        Err(BuildEntityError::MismatchedArchetype { expected, actual }) => {
            assert_eq!(expected, key(&[1, 2]));
            assert_eq!(actual, key(&[1]));
        }
        Ok(()) => panic!("an entity with other components was stored"),
    }
    assert!(archetype.is_empty());
}

#[test]
fn archetype_stays_dense_after_removals() {
    let mut archetype: Archetype<i32> = Archetype::new(key(&[1]), 2);
    for slot in 0..5 {
        archetype.add_entity(entity(slot, &[(1, slot as i32 * 100)])).unwrap();
    }
    // from the first chunk: the last entity of the last chunk fills the gap,
    // and the emptied last chunk goes
    let removed = archetype.remove_entity(EntityId::new(0)).unwrap();
    assert_eq!(removed.entity_components, vec![(POSITION, 0)]);
    assert_eq!(stored_ids(&archetype), vec![vec![1, 4], vec![2, 3]]);
    // from the last chunk
    let removed = archetype.remove_entity(EntityId::new(2)).unwrap();
    assert_eq!(removed.entity_components, vec![(POSITION, 200)]);
    assert_eq!(stored_ids(&archetype), vec![vec![1, 4], vec![3]]);
    // from the first chunk again
    archetype.remove_entity(EntityId::new(1)).unwrap();
    assert_eq!(stored_ids(&archetype), vec![vec![4, 3]]);
    assert_eq!(archetype.get_chunks()[0].archetype_components[0].get_array(), &vec![400, 300]);
    // an entity that is not there
    assert!(archetype.remove_entity(EntityId::new(1)).is_none());
    archetype.remove_entity(EntityId::new(3)).unwrap();
    archetype.remove_entity(EntityId::new(4)).unwrap();
    assert!(archetype.is_empty());
}

#[test]
fn archetype_with_chunks_of_one_stays_dense() {
    let mut archetype: Archetype<i32> = Archetype::new(key(&[1]), 1);
    for slot in 0..3 {
        archetype.add_entity(entity(slot, &[(1, slot as i32)])).unwrap();
    }
    archetype.remove_entity(EntityId::new(0)).unwrap();
    assert_eq!(stored_ids(&archetype), vec![vec![2], vec![1]]);
}

fn manager() -> EcsDataManager<i32> {
    let mut m = EcsDataManager::new();
    assert_eq!(m.register_component(POSITION, 8), POSITION);
    assert_eq!(m.register_component(VELOCITY, 8), VELOCITY);
    assert_eq!(m.register_component(DISABLED, 0), DISABLED);
    m
}

#[test]
fn register_component_keeps_first_entry() {
    let mut m = manager();
    m.register_component(POSITION, 64);
    assert_eq!(m.components_info.len(), 3);
    assert_eq!(m.component_info(POSITION), Some(ComponentInfo::new(POSITION, 8)));
    assert_eq!(m.component_info(ComponentId::new(9)), None);
}

#[test]
fn add_entity_needs_registered_components() {
    let mut m = manager();
    let r = m.add_entity(vec![(POSITION, 1), (ComponentId::new(9), 2)]);
    assert_eq!(
        r,
        Err(AddEntityError::ComponentNotRegistered { component_id: ComponentId::new(9) })
    );
    assert_eq!(m.archetypes.len(), 0);
    assert_eq!(m.index_count, 0);
    assert!(!m.contains_entity(EntityId::new(0)));
}

#[test]
fn same_components_in_any_order_share_an_archetype() {
    let mut m = manager();
    let a = m.add_entity(vec![(POSITION, 1), (VELOCITY, 2)]).unwrap();
    let b = m.add_entity(vec![(VELOCITY, 4), (POSITION, 3)]).unwrap();
    let c = m.add_entity(vec![(POSITION, 5)]).unwrap();
    assert_eq!(m.archetypes.len(), 2);
    assert_eq!(m.find_archetype(&key(&[2, 1])), Some(0));
    assert_eq!(m.find_archetype(&key(&[1])), Some(1));
    assert_eq!(m.find_archetype(&key(&[3])), None);
    assert_eq!(m.entity_index.get(a.id()), Some(&0));
    assert_eq!(m.entity_index.get(b.id()), Some(&0));
    assert_eq!(m.entity_index.get(c.id()), Some(&1));
    assert_eq!(stored_ids(&m.archetypes[0]), vec![vec![0, 1]]);
    assert_eq!(
        m.archetypes[0].get_chunks()[0].archetype_components[0].get_array(),
        &vec![1, 3]
    );
    assert_eq!(
        m.archetypes[0].get_chunks()[0].archetype_components[1].get_array(),
        &vec![2, 4]
    );
}

#[test]
fn chunk_capacity_follows_byte_budget() {
    let mut m = manager();
    m.register_component(ComponentId::new(4), 20_000);
    assert_eq!(CHUNK_SIZE, 16_000);
    assert_eq!(m.chunk_capacity(&key(&[1, 2])), 1000);
    assert_eq!(m.chunk_capacity(&key(&[1])), 2000);
    assert_eq!(m.chunk_capacity(&key(&[3])), CHUNK_ELEMENTS_COUNT);
    assert_eq!(m.chunk_capacity(&key(&[])), 64);
    assert_eq!(m.chunk_capacity(&key(&[4])), 1);
    assert_eq!(m.chunk_capacity(&key(&[1, 4])), 1);
    m.add_entity(vec![(POSITION, 1), (VELOCITY, 2)]).unwrap();
    assert_eq!(m.archetypes[0].chunk_size, 1000);
}

#[test]
fn remove_entity_returns_what_was_stored() {
    let mut m = manager();
    let a = m.add_entity(vec![(POSITION, 1), (VELOCITY, 2)]).unwrap();
    let b = m.add_entity(vec![(VELOCITY, 4), (POSITION, 3)]).unwrap();
    assert!(m.contains_entity(a));
    let data = m.remove_entity(a).unwrap();
    assert_eq!(data.entity_id, a);
    assert_eq!(data.entity_components, vec![(POSITION, 1), (VELOCITY, 2)]);
    assert!(!m.contains_entity(a));
    assert!(m.contains_entity(b));
    assert_eq!(m.entity_index.get(a.id()), None);
    assert_eq!(m.entity_index.get(b.id()), Some(&0));
    assert!(m.remove_entity(a).is_none());
    let data = m.remove_entity(b).unwrap();
    assert_eq!(data.entity_components, vec![(POSITION, 3), (VELOCITY, 4)]);
    assert!(m.archetypes[0].is_empty());
}

#[test]
fn free_slot_is_reused_with_greater_generation() {
    let mut m = manager();
    let e0 = m.add_entity(vec![(POSITION, 1)]).unwrap();
    let e1 = m.add_entity(vec![(POSITION, 2)]).unwrap();
    assert_eq!(e0, EntityId::new(0));
    assert_eq!(e1, EntityId::new(1));
    m.remove_entity(e0).unwrap();
    assert_eq!(m.free_entity_id, vec![EntityId { id: 0, version: 1 }]);
    let e2 = m.add_entity(vec![(VELOCITY, 3)]).unwrap();
    assert_eq!(e2.id(), e0.id());
    assert!(e2.version() > e0.version());
    assert_eq!(e2, EntityId { id: 0, version: 1 });
    assert_eq!(m.index_count, 2);
    // the old handle of the slot is stale
    assert!(!m.contains_entity(e0));
    assert!(m.remove_entity(e0).is_none());
    assert!(m.contains_entity(e2));
    let e3 = m.add_entity(vec![(VELOCITY, 4)]).unwrap();
    assert_eq!(e3, EntityId::new(2));
}

#[test]
fn manager_says_when_it_has_room() {
    let m = manager();
    assert!(m.can_add_entity());
}

#[test]
fn query_selects_every_chunk_of_matching_archetypes() {
    let mut m: EcsDataManager<i32> = EcsDataManager::new();
    m.register_component(POSITION, 8000);
    m.register_component(VELOCITY, 8);
    m.register_component(DISABLED, 0);
    // chunks of this archetype hold two entities
    for value in 0..3 {
        m.add_entity(vec![(POSITION, value)]).unwrap();
    }
    m.add_entity(vec![(POSITION, 7), (DISABLED, 0)]).unwrap();
    m.add_entity(vec![(VELOCITY, 8)]).unwrap();
    m.add_entity(vec![(VELOCITY, 9), (POSITION, 10)]).unwrap();
    let query = ArchetypeQuery::new(
        Some(vec![(POSITION, false)]),
        Some(vec![DISABLED]),
        Some(vec![(VELOCITY, true)]),
        None,
    );
    let found = m.select_chunks(&query);
    let places: Vec<(usize, usize)> =
        found.iter().map(|a| (a.archetype_number, a.chunk_number)).collect();
    assert_eq!(places, vec![(0, 0), (0, 1), (3, 0)]);
    assert_eq!(found[0].rw_data, vec![(POSITION, 0)]);
    assert!(found[0].ro_data.is_empty());
    assert_eq!(found[2].rw_data, vec![(POSITION, 0)]);
    assert_eq!(found[2].ro_data, vec![(VELOCITY, 1)]);
    let nothing = ArchetypeQuery::new(Some(vec![(ComponentId::new(9), true)]), None, None, None);
    assert!(m.select_chunks(&nothing).is_empty());
}

#[test]
fn unregistered_component_with_least_identifier_is_named() {
    let mut m = manager();
    let r = m.add_entity(vec![(ComponentId::new(9), 1), (POSITION, 2), (ComponentId::new(7), 3)]);
    assert_eq!(
        r,
        Err(AddEntityError::ComponentNotRegistered { component_id: ComponentId::new(7) })
    );
}

#[test]
fn world_hands_out_scene_identifiers() {
    let mut world: World<&str> = World::new();
    assert!(world.can_add_scene());
    let first = world.new_scene("first");
    let second = world.new_scene("second");
    assert_eq!(first, SceneId::new(0));
    assert_eq!(second, SceneId::new(1));
    assert_eq!(world.get_scene(&second), Some(&"second"));
    assert_eq!(world.get_scene(&first), Some(&"first"));
    assert_eq!(world.get_scene(&SceneId::new(2)), None);
    assert_eq!(world.scene_count, 2);
}

#[test]
fn world_reuses_free_scene_identifiers() {
    let mut world: World<u8> = World::new();
    world.new_scene(1);
    world.scene_count = 8;
    world.free_scene_id.push(SceneId::new(5));
    assert_eq!(world.new_scene(2), SceneId::new(5));
    assert_eq!(world.new_scene(3), SceneId::new(8));
    assert_eq!(world.scene_count, 9);
}

#[test]
fn slot_with_exhausted_generation_is_retired() {
    let mut m = manager();
    m.free_entity_id.push(EntityId { id: 0, version: usize::MAX });
    m.index_count = 1;
    let e = m.add_entity(vec![(POSITION, 1)]).unwrap();
    assert_eq!(e, EntityId { id: 0, version: usize::MAX });
    m.remove_entity(e).unwrap();
    assert!(m.free_entity_id.is_empty());
    assert_eq!(m.add_entity(vec![(POSITION, 2)]).unwrap(), EntityId::new(1));
}

#[test]
fn entities_of_one_archetype_share_a_chunk_while_it_has_room() {
    let mut m = manager();
    m.add_entity(vec![(POSITION, 1), (VELOCITY, 2)]).unwrap();
    m.add_entity(vec![(VELOCITY, 4), (POSITION, 3)]).unwrap();
    assert_eq!(m.archetypes.len(), 1);
    assert_eq!(m.archetypes[0].get_chunks().len(), 1);
    assert_eq!(m.archetypes[0].get_chunks()[0].components_count, 2);
    assert_eq!(m.archetypes[0].chunk_size, 1000);
}

#[test]
fn removal_moves_only_the_rows_of_the_compaction() {
    let mut archetype: Archetype<i32> = Archetype::new(key(&[1]), 3);
    for slot in 0..8 {
        archetype.add_entity(entity(slot, &[(1, slot as i32)])).unwrap();
    }
    assert_eq!(stored_ids(&archetype), vec![vec![0, 1, 2], vec![3, 4, 5], vec![6, 7]]);
    archetype.remove_entity(EntityId::new(0)).unwrap();
    assert_eq!(stored_ids(&archetype), vec![vec![2, 1, 7], vec![3, 4, 5], vec![6]]);
    archetype.remove_entity(EntityId::new(4)).unwrap();
    assert_eq!(stored_ids(&archetype), vec![vec![2, 1, 7], vec![3, 5, 6]]);
    archetype.remove_entity(EntityId::new(5)).unwrap();
    assert_eq!(stored_ids(&archetype), vec![vec![2, 1, 7], vec![3, 6]]);
    archetype.add_entity(entity(9, &[(1, 9)])).unwrap();
    archetype.add_entity(entity(10, &[(1, 10)])).unwrap();
    assert_eq!(stored_ids(&archetype), vec![vec![2, 1, 7], vec![3, 6, 9], vec![10]]);
}
