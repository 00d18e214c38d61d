use vstd::prelude::*;

use crate::behavior::query::ArchetypeQuery;
use crate::data::entity_data_accessor::ChunkDataAccessor;

verus! {

/// How a system's handler is run during a tick.
#[derive(Debug, Copy, Clone, PartialEq, Eq, Hash, Structural)]
pub enum SystemType {
    /// Runs inline on the coordinating thread, to completion.
    BlockingSystem,
    /// Is dispatched to run concurrently and reports its completion later.
    MultithreadSystem,
}

impl SystemType {
    /// The name of the kind of handler.
    pub fn get_system_type(&self) -> (r: String)
        ensures
            r@ == match *self {
                SystemType::BlockingSystem => "BlockingSystemHandler"@,
                SystemType::MultithreadSystem => "MultithreadSystemHandler"@,
            },
    {
        match self {
            SystemType::BlockingSystem => "BlockingSystemHandler".to_owned(),
            SystemType::MultithreadSystem => "MultithreadSystemHandler".to_owned(),
        }
    }
}

/// What the scheduler records of one registered system.
///
/// `disabled` is derived from the graph: it is set exactly when some
/// transitive predecessor of the system is not registered.
#[derive(Debug, Copy, Clone, PartialEq, Eq, Hash, Structural)]
pub struct SystemInfo {
    pub system_id: u64,
    pub system: SystemType,
    pub disabled: bool,
}

impl SystemInfo {
    /// A record for a system that runs inline; disabled until the scheduler
    /// has looked at its predecessors.
    pub fn new_blocking(system_id: u64) -> (r: Self)
        ensures
            r == (SystemInfo { system_id, system: SystemType::BlockingSystem, disabled: true }),
    {
        Self { system_id, system: SystemType::BlockingSystem, disabled: true }
    }

    /// A record for a system that runs concurrently; disabled until the
    /// scheduler has looked at its predecessors.
    pub fn new_multithread(system_id: u64) -> (r: Self)
        ensures
            r == (SystemInfo { system_id, system: SystemType::MultithreadSystem, disabled: true }),
    {
        Self { system_id, system: SystemType::MultithreadSystem, disabled: true }
    }
}

/// Gives a system a name for diagnostics.
pub trait ISystemInfo {
    fn get_system_name(&self) -> String;
}

/// Names the kind of handler that a system has.
pub trait ISystemType {
    fn get_system_type() -> String;
}

/// The logic of a system that runs inline on the coordinating thread.
pub trait IBlockingSystemHandler {
    /// Works on the arrays of one chunk that the query matched.
    fn handle(&mut self, archetype_data_accessor: ChunkDataAccessor);

    /// What the system asks of the archetypes it works on.
    fn archetype_query(&self) -> ArchetypeQuery;
}

/// The logic of a system that is dispatched to run concurrently.
pub trait IMultithreadSystemHandler {
    /// Works on the arrays of one chunk that the query matched.
    fn handle(&mut self, archetype_data_accessor: ChunkDataAccessor);

    /// What the system asks of the archetypes it works on.
    fn archetype_query(&self) -> ArchetypeQuery;
}

} // verus!
