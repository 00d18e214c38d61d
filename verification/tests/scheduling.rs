use ecs_core::behavior::graph::{contains_id, contains_link, reachable_from, SystemLink};
use ecs_core::behavior::query::ArchetypeQuery;
use ecs_core::behavior::system::{SystemInfo, SystemType};
use ecs_core::behavior::{EcsBehaviorManager, SystemBuilder};
use ecs_core::data::archetype::ArchetypeChunk;
use ecs_core::data::entity_data::EntityData;
use ecs_core::data::entity_data_accessor::ChunkDataAccessor;
use ecs_core::types::{ArchetypeType, BuildSystemError, ComponentId, EntityId};

const A: u64 = 10;
const B: u64 = 20;
const C: u64 = 30;

const POSITION: ComponentId = ComponentId { id: 1 };
const VELOCITY: ComponentId = ComponentId { id: 2 };
const DISABLED: ComponentId = ComponentId { id: 3 };

fn key(ids: &[ComponentId]) -> ArchetypeType {
    ArchetypeType::from_ids(&ids.to_vec())
}

fn link(prev: u64, next: u64) -> SystemLink {
    SystemLink { prev, next }
}

fn disabled(m: &EcsBehaviorManager, id: u64) -> bool {
    m.get_system(id).unwrap().disabled
}

fn chain() -> EcsBehaviorManager {
    let mut m = EcsBehaviorManager::new();
    m.register_system(A, SystemType::BlockingSystem, &vec![], &vec![]).unwrap();
    m.register_system(B, SystemType::MultithreadSystem, &vec![A], &vec![]).unwrap();
    m.register_system(C, SystemType::BlockingSystem, &vec![B], &vec![]).unwrap();
    m
}

fn ids(systems: &[SystemInfo]) -> Vec<u64> {
    systems.iter().map(|s| s.system_id).collect()
}

#[test]
fn query_matches_required_and_not_excluded() {
    let query = ArchetypeQuery::new(
        Some(vec![(POSITION, true)]),
        Some(vec![DISABLED]),
        None,
        None,
    );
    assert!(query.is_archetype_match(&key(&[POSITION, VELOCITY])));
    assert!(!query.is_archetype_match(&key(&[POSITION, DISABLED])));
    assert!(!query.is_archetype_match(&key(&[VELOCITY])));
}

#[test]
fn query_without_conditions_matches_everything() {
    let query = ArchetypeQuery::new(None, None, Some(vec![(VELOCITY, false)]), Some(3));
    assert!(query.is_archetype_match(&key(&[])));
    assert!(query.is_archetype_match(&key(&[DISABLED])));
    let chunk: ArchetypeChunk<i32> = ArchetypeChunk::new(key(&[DISABLED]), 4);
    assert!(query.is_chunk_match(&chunk));
}

#[test]
fn query_resolves_handles_for_present_components() {
    let mut chunk: ArchetypeChunk<i32> = ArchetypeChunk::new(key(&[POSITION, VELOCITY]), 4);
    let mut data = EntityData::new(EntityId::new(0));
    data.add_component(POSITION, 1).add_component(VELOCITY, 2);
    chunk.set_data(data);
    let query = ArchetypeQuery::new(
        Some(vec![(VELOCITY, false)]),
        Some(vec![DISABLED]),
        Some(vec![(POSITION, true), (ComponentId::new(9), true)]),
        None,
    );
    let mut accessor = query.resolve(&chunk, 3, 5).unwrap();
    assert_eq!(accessor.archetype_number, 3);
    assert_eq!(accessor.chunk_number, 5);
    assert!(accessor.contains(POSITION));
    assert!(accessor.contains(VELOCITY));
    assert!(!accessor.contains(ComponentId::new(9)));
    assert_eq!(accessor.resolve_rw_components(POSITION), None);
    assert_eq!(accessor.resolve_ro_components(POSITION), Some(0));
    assert_eq!(accessor.resolve_ro_components(POSITION), None);
    assert_eq!(accessor.resolve_rw_components(VELOCITY), Some(1));
    assert!(!accessor.contains(VELOCITY));
    let other: ArchetypeChunk<i32> = ArchetypeChunk::new(key(&[POSITION]), 4);
    assert!(query.resolve(&other, 0, 0).is_none());
}

#[test]
fn accessor_keeps_one_handle_per_component_and_mode() {
    let chunk: ArchetypeChunk<i32> = ArchetypeChunk::new(key(&[POSITION, VELOCITY]), 4);
    let mut accessor = ChunkDataAccessor::new(0, 0);
    accessor.fill_data_from_chunk(
        &Some(vec![(VELOCITY, true), (VELOCITY, true), (VELOCITY, false), (DISABLED, true)]),
        &chunk,
    );
    accessor.fill_data_from_chunk(&None, &chunk);
    assert_eq!(accessor.ro_data, vec![(VELOCITY, 1)]);
    assert_eq!(accessor.rw_data, vec![(VELOCITY, 1)]);
    assert!(accessor.handles_distinct());
    accessor.rw_data.push((POSITION, 0));
    assert!(accessor.handles_distinct());
    accessor.rw_data.push((VELOCITY, 1));
    assert!(!accessor.handles_distinct());
}

#[test]
fn reachable_from_follows_links_forward() {
    let links = vec![link(1, 2), link(2, 3), link(4, 5), link(3, 2)];
    let mut reached = reachable_from(&links, &vec![1]);
    reached.sort();
    assert_eq!(reached, vec![1, 2, 3]);
    let mut reached = reachable_from(&links, &vec![4, 3]);
    reached.sort();
    assert_eq!(reached, vec![2, 3, 4, 5]);
    assert_eq!(reachable_from(&links, &vec![]), Vec::<u64>::new());
    assert!(contains_id(&vec![1, 2], 2));
    assert!(!contains_id(&vec![1, 2], 3));
    assert!(contains_link(&links, 4, 5));
    assert!(!contains_link(&links, 5, 4));
}

#[test]
fn new_system_records_start_disabled() {
    assert_eq!(
        SystemInfo::new_blocking(A),
        SystemInfo { system_id: A, system: SystemType::BlockingSystem, disabled: true }
    );
    assert_eq!(
        SystemInfo::new_multithread(B),
        SystemInfo { system_id: B, system: SystemType::MultithreadSystem, disabled: true }
    );
}

#[test]
fn registration_commits_links_and_enables() {
    let m = chain();
    assert_eq!(m.links, vec![link(A, B), link(B, C)]);
    assert_eq!(ids(&m.systems_info), vec![A, B, C]);
    assert!(!disabled(&m, A));
    assert!(!disabled(&m, B));
    assert!(!disabled(&m, C));
    assert_eq!(m.get_system(B).unwrap().system, SystemType::MultithreadSystem);
    assert_eq!(ids(&m.pure_systems()), vec![A]);
    assert!(m.has_predecessor(B));
    assert!(!m.has_predecessor(A));
    assert_eq!(m.find_system(C), Some(2));
    assert_eq!(m.find_system(99), None);
}

#[test]
fn cycle_is_rejected_and_graph_unchanged() {
    let mut m = EcsBehaviorManager::new();
    m.register_system(A, SystemType::BlockingSystem, &vec![], &vec![]).unwrap();
    // B declares itself a predecessor of A
    m.register_system(B, SystemType::BlockingSystem, &vec![], &vec![A]).unwrap();
    let links = m.links.clone();
    let systems = m.systems_info.clone();
    assert!(!m.check_links(C, &vec![A], &vec![B]));
    let r = m.register_system(C, SystemType::BlockingSystem, &vec![A], &vec![B]);
    assert_eq!(r, Err(BuildSystemError::CycledSystemLinks { system_id: C }));
    assert_eq!(m.links, links);
    assert_eq!(m.systems_info, systems);
    // the other way round is in order
    assert!(m.check_links(C, &vec![B], &vec![]));
    assert!(m.register_system(C, SystemType::BlockingSystem, &vec![B], &vec![]).is_ok());
}

#[test]
fn transitive_cycle_is_rejected() {
    let mut m = chain();
    let r = m.register_system(40, SystemType::BlockingSystem, &vec![C], &vec![A]);
    assert_eq!(r, Err(BuildSystemError::CycledSystemLinks { system_id: 40 }));
    assert_eq!(m.links, vec![link(A, B), link(B, C)]);
    let r = m.register_system(40, SystemType::BlockingSystem, &vec![40], &vec![]);
    assert_eq!(r, Err(BuildSystemError::CycledSystemLinks { system_id: 40 }));
    assert_eq!(m.find_system(40), None);
}

#[test]
fn unregistering_disables_dependents_transitively() {
    let mut m = chain();
    m.remove_system(A);
    assert_eq!(ids(&m.systems_info), vec![B, C]);
    assert!(disabled(&m, B));
    assert!(disabled(&m, C));
    assert!(m.pure_systems().is_empty());
    m.register_system(A, SystemType::BlockingSystem, &vec![], &vec![]).unwrap();
    assert!(!disabled(&m, A));
    assert!(!disabled(&m, B));
    assert!(!disabled(&m, C));
    assert_eq!(m.links, vec![link(A, B), link(B, C)]);
    m.remove_system(99);
    assert_eq!(ids(&m.systems_info), vec![B, C, A]);
}

#[test]
fn system_waits_for_unregistered_predecessor() {
    let mut m = EcsBehaviorManager::new();
    m.register_system(B, SystemType::BlockingSystem, &vec![A], &vec![]).unwrap();
    assert!(disabled(&m, B));
    let (state, ready) = m.start_update();
    assert!(ready.is_empty());
    assert!(state.is_finished());
    m.register_system(A, SystemType::BlockingSystem, &vec![], &vec![]).unwrap();
    assert!(!disabled(&m, B));
    m.check_disabled_systems();
    assert!(!disabled(&m, B));
}

#[test]
fn registering_again_replaces_the_handler_kind() {
    let mut m = chain();
    m.register_system(B, SystemType::BlockingSystem, &vec![A], &vec![C]).unwrap();
    assert_eq!(ids(&m.systems_info), vec![A, B, C]);
    assert_eq!(m.get_system(B).unwrap().system, SystemType::BlockingSystem);
    assert_eq!(m.links, vec![link(A, B), link(B, C)]);
}

#[test]
fn tick_runs_chain_in_order_each_once() {
    let m = chain();
    let (mut state, ready) = m.start_update();
    assert_eq!(ids(&ready), vec![A]);
    assert_eq!(ready[0].system, SystemType::BlockingSystem);
    assert!(!state.is_finished());
    let ready = m.system_finished(&mut state, A);
    assert_eq!(ids(&ready), vec![B]);
    assert_eq!(ready[0].system, SystemType::MultithreadSystem);
    assert!(!state.is_finished());
    let ready = m.system_finished(&mut state, B);
    assert_eq!(ids(&ready), vec![C]);
    assert!(!state.is_finished());
    let ready = m.system_finished(&mut state, C);
    assert!(ready.is_empty());
    assert!(state.is_finished());
    assert_eq!(state.started, vec![A, B, C]);
    assert_eq!(state.finished, vec![A, B, C]);
}

#[test]
fn tick_waits_for_all_predecessors() {
    let mut m = EcsBehaviorManager::new();
    m.register_system(A, SystemType::MultithreadSystem, &vec![], &vec![C]).unwrap();
    m.register_system(B, SystemType::MultithreadSystem, &vec![], &vec![C]).unwrap();
    m.register_system(C, SystemType::BlockingSystem, &vec![], &vec![]).unwrap();
    assert_eq!(ids(&m.pure_systems()), vec![A, B]);
    let (mut state, ready) = m.start_update();
    assert_eq!(ids(&ready), vec![A, B]);
    assert!(m.system_finished(&mut state, B).is_empty());
    assert!(!m.predecessors_finished(&state.finished, C));
    assert_eq!(ids(&m.system_finished(&mut state, A)), vec![C]);
    assert!(m.predecessors_finished(&state.finished, C));
    assert!(m.system_finished(&mut state, C).is_empty());
    assert!(state.is_finished());
}

#[test]
fn tick_without_pure_systems_is_over_at_once() {
    let m = EcsBehaviorManager::new();
    let (state, ready) = m.start_update();
    assert!(ready.is_empty());
    assert!(state.is_finished());
}

#[test]
fn runs_after_and_runs_before_give_the_same_graph() {
    let mut first = EcsBehaviorManager::new();
    let mut builder = first.get_system_builder().unwrap();
    builder.need_system_result(A);
    builder.build_with_sync_handler(&mut first, B).unwrap();
    SystemBuilder::new().build_with_sync_handler(&mut first, A).unwrap();

    let mut second = EcsBehaviorManager::new();
    SystemBuilder::new().build_with_sync_handler(&mut second, B).unwrap();
    let mut builder = SystemBuilder::new();
    builder.result_for_system(B).result_for_system(B);
    assert_eq!(builder.next_systems, vec![B]);
    assert!(builder.prev_systems.is_empty());
    builder.build_with_sync_handler(&mut second, A).unwrap();

    assert_eq!(first.links, vec![link(A, B)]);
    assert_eq!(second.links, first.links);
    assert_eq!(ids(&first.pure_systems()), vec![A]);
    assert_eq!(ids(&second.pure_systems()), vec![A]);
    assert!(!disabled(&second, B));
}

#[test]
fn builder_registers_concurrent_systems() {
    let mut m = EcsBehaviorManager::new();
    let mut builder = SystemBuilder::new();
    builder.need_system_result(A).need_system_result(A);
    assert_eq!(builder.prev_systems, vec![A]);
    builder.build_with_muitithread_handler(&mut m, B).unwrap();
    assert_eq!(
        m.get_system(B),
        Some(SystemInfo { system_id: B, system: SystemType::MultithreadSystem, disabled: true })
    );
    let mut builder = SystemBuilder::new();
    builder.need_system_result(B).result_for_system(A);
    let r = builder.build_with_muitithread_handler(&mut m, C);
    assert_eq!(r, Err(BuildSystemError::CycledSystemLinks { system_id: C }));
    let mut builder = SystemBuilder::new();
    builder.need_system_result(B);
    assert!(builder.build_with_muitithread_handler(&mut m, C).is_ok());
    let mut builder = SystemBuilder::new();
    builder.need_system_result(C);
    let r = builder.build_with_sync_handler(&mut m, A);
    assert_eq!(r, Err(BuildSystemError::CycledSystemLinks { system_id: A }));
}

#[test]
fn handler_kinds_have_names() {
    assert_eq!(SystemType::BlockingSystem.get_system_type(), "BlockingSystemHandler");
    assert_eq!(SystemType::MultithreadSystem.get_system_type(), "MultithreadSystemHandler");
}

#[test]
fn disabled_system_is_skipped_with_its_dependents() {
    // A -> B -> C and an independent D; A is missing
    let mut m = EcsBehaviorManager::new();
    m.register_system(B, SystemType::BlockingSystem, &vec![A], &vec![C]).unwrap();
    m.register_system(C, SystemType::BlockingSystem, &vec![], &vec![]).unwrap();
    m.register_system(40, SystemType::BlockingSystem, &vec![], &vec![]).unwrap();
    assert!(disabled(&m, B));
    assert!(disabled(&m, C));
    assert!(!disabled(&m, 40));
    let (mut state, ready) = m.start_update();
    assert_eq!(ids(&ready), vec![40]);
    assert!(m.system_finished(&mut state, 40).is_empty());
    assert!(state.is_finished());
    assert_eq!(state.started, vec![40]);
}

#[test]
fn links_are_declared_once() {
    let mut m = chain();
    m.register_system(C, SystemType::BlockingSystem, &vec![B, B], &vec![]).unwrap();
    assert_eq!(m.links, vec![link(A, B), link(B, C)]);
    assert_eq!(
        m.links_with(C, &vec![A], &vec![40]),
        vec![link(A, B), link(B, C), link(A, C), link(C, 40)]
    );
}
