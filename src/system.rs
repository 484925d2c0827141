use vstd::prelude::*;

use crate::access::{AllocId, FrostyAllocatable};
use crate::query::Query;
use crate::spawner::Spawner;

verus! {

/// The id that a task declares, and by which other tasks name it as a predecessor.
#[derive(Clone, Copy, Debug, PartialEq, Eq, Hash, Structural)]
pub struct SystemId(pub u64);

/// When a task queries again.
#[derive(Clone, Copy, Debug, PartialEq, Eq, Structural)]
pub enum SystemQuerySchedule {
    /// Each time a component is spawned.
    OnEntitySpawn,
    /// Each tick.
    Update,
}

/// How often a task runs.
#[derive(Clone, Copy, Debug, PartialEq, Eq, Structural)]
pub enum SystemUpdateSchedule {
    /// Once per tick.
    Variable,
    /// A fixed number of times each second.
    Fixed(u32),
}

/// What one run of a task reports.
#[derive(Clone, Copy, Debug, PartialEq, Eq, Structural)]
pub enum UpdateResult {
    /// The application should close after this tick.
    CloseApp,
    Spawn,
    /// Nothing for the runner to do.
    Skip,
    PollingError,
}

/// A task written over one component type: it gets the query of that type.
pub trait System {
    type Interop: FrostyAllocatable;

    fn update(&self, objs: Query<Self::Interop>, spawner: &mut Spawner) -> (r: UpdateResult)
        requires
            old(spawner).wf(),
            objs.query_index() < old(spawner).query_count(),
        ensures
            final(spawner).wf(),
            final(spawner).query_count() == old(spawner).query_count(),
    ;
}

/// A task that the schedule runs once per tick over the query of one component type.
pub trait SystemInterface {
    /// The task's own id.
    fn id(&self) -> SystemId;

    /// The ids of the tasks that must complete before this one starts.
    fn dependencies(&self) -> Vec<SystemId>;

    /// The type tag of the components that the task processes.
    fn alloc_id(&self) -> AllocId;

    /// Runs the task once over its query.
    fn start_update(&self, objs: Query<u8>, spawner: &mut Spawner) -> (r: UpdateResult)
        requires
            old(spawner).wf(),
            objs.query_index() < old(spawner).query_count(),
        ensures
            final(spawner).wf(),
            final(spawner).query_count() == old(spawner).query_count(),
    ;
}

} // verus!
