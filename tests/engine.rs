use frosty_engine::access::{AllocId, FrostyAllocatable, Tagged};
use frosty_engine::entity::Entity;
use frosty_engine::llqueue::{LLQueueError, LLQueueInner, QueueFull};
use frosty_engine::query::{DynQuery, Query};
use frosty_engine::schedule::{NextSystem, Schedule, ScheduleError, TaskState};
use frosty_engine::spawner::{SpawnError, Spawner, UnregisteredComponent};
use frosty_engine::system::{SystemId, SystemInterface, UpdateResult};
use frosty_engine::thread::{follow_schedule, AppSignal};

type Counter = Tagged<100, i32>;

fn counter(n: i32) -> Counter {
    Tagged(n)
}

fn accumulator(total: i64) -> Accumulator {
    Tagged(total)
}

fn log(digits: u64) -> Log {
    Tagged(digits)
}

type Accumulator = Tagged<101, i64>;

/// A log of digits, newest last.
type Log = Tagged<102, u64>;

/// Reads every value of a query, giving each write slot back.
fn collect<T: FrostyAllocatable>(q: &mut Query<T>, sp: &mut Spawner) -> Vec<T> {
    let mut out = Vec::new();
    while let Some(acc) = q.next(sp) {
        out.push(sp.read_mut(&acc));
        sp.release_mut(acc);
    }
    out
}

/// Appends `digit` to the single log component.
fn append_digit(sp: &mut Spawner, thread: u32, digit: u64) {
    let mut logs: Query<Log> = sp.get_query::<Log>(thread).unwrap();
    let acc = logs.next(sp).expect("the log is free");
    let current = sp.read_mut(&acc);
    sp.write(&acc, log(current.0 * 10 + digit));
    sp.release_mut(acc);
}

enum Task {
    /// Sums the counters into the accumulator.
    Sum,
    /// Appends a digit to the log, after the named tasks.
    Append { id: u64, digit: u64, after: Vec<u64> },
    /// Asks the application to close.
    Close,
    /// Declares an id and predecessors, does nothing.
    Plain { id: u64, after: Vec<u64> },
}

impl SystemInterface for Task {
    fn id(&self) -> SystemId {
        match self {
            Task::Sum => SystemId(1),
            Task::Append { id, .. } => SystemId(*id),
            Task::Close => SystemId(99),
            Task::Plain { id, .. } => SystemId(*id),
        }
    }

    fn dependencies(&self) -> Vec<SystemId> {
        match self {
            Task::Append { after, .. } | Task::Plain { after, .. } => after.iter().map(|a| SystemId(*a)).collect(),
            _ => Vec::new(),
        }
    }

    fn alloc_id(&self) -> AllocId {
        match self {
            Task::Sum => Counter::id(),
            _ => Log::id(),
        }
    }

    fn start_update(&self, objs: Query<u8>, spawner: &mut Spawner) -> UpdateResult {
        let thread = objs.thread();
        match self {
            Task::Sum => {
                let mut counters: Query<Counter> = objs.cast();
                let total: i64 = collect(&mut counters, spawner).iter().map(|c| c.0 as i64).sum();
                let mut accs: Query<Accumulator> = spawner.get_query::<Accumulator>(thread).unwrap();
                let acc = accs.next(spawner).expect("the accumulator is free");
                spawner.write(&acc, accumulator(total));
                spawner.release_mut(acc);
                UpdateResult::Skip
            }
            Task::Append { digit, .. } => {
                append_digit(spawner, thread, *digit);
                UpdateResult::Skip
            }
            Task::Close => UpdateResult::CloseApp,
            Task::Plain { .. } => UpdateResult::Skip,
        }
    }
}

fn read_single<T: FrostyAllocatable>(sp: &mut Spawner) -> T {
    let mut q: Query<T> = sp.get_query::<T>(0).unwrap();
    let values = collect(&mut q, sp);
    assert_eq!(values.len(), 1);
    values.into_iter().next().unwrap()
}

#[test]
fn register_spawn_iterate() {
    let mut sp = Spawner::new();
    sp.register_component::<Counter>();
    sp.register_component::<Accumulator>();
    for n in [1, 5, 10] {
        sp.spawn_obj(counter(n)).unwrap();
    }
    sp.spawn_obj(accumulator(0)).unwrap();
    let mut schedule = Schedule::new();
    schedule.add_system(Task::Sum, &sp).unwrap();
    let report = follow_schedule(&mut schedule, &mut sp, 1);
    assert_eq!(report.signal, AppSignal::Continue);
    assert_eq!(read_single::<Accumulator>(&mut sp).0, 16);
}

#[test]
fn dependency_ordering() {
    let mut sp = Spawner::new();
    sp.register_component::<Log>();
    sp.spawn_obj(log(0)).unwrap();
    let mut schedule = Schedule::new();
    schedule.add_system(Task::Append { id: 10, digit: 1, after: vec![] }, &sp).unwrap();
    schedule.add_system(Task::Append { id: 11, digit: 2, after: vec![] }, &sp).unwrap();
    schedule.add_system(Task::Append { id: 12, digit: 9, after: vec![10, 11] }, &sp).unwrap();
    let report = follow_schedule(&mut schedule, &mut sp, 1);
    assert_eq!(report.order.len(), 3);
    assert_eq!(report.order[2], 2);
    let log = read_single::<Log>(&mut sp).0;
    assert!(log == 129 || log == 219, "log was {}", log);
}

#[test]
fn dependent_declared_before_its_predecessor() {
    let mut sp = Spawner::new();
    sp.register_component::<Log>();
    sp.spawn_obj(log(0)).unwrap();
    let mut schedule = Schedule::new();
    // The first task names a predecessor that is added after it.
    schedule.add_system(Task::Append { id: 20, digit: 2, after: vec![21] }, &sp).unwrap();
    schedule.add_system(Task::Append { id: 21, digit: 1, after: vec![] }, &sp).unwrap();
    assert_eq!(schedule.depends_on(0), 1);
    let report = follow_schedule(&mut schedule, &mut sp, 1);
    assert_eq!(report.order, vec![1, 0]);
    assert_eq!(read_single::<Log>(&mut sp).0, 12);
}

#[test]
fn freed_handles_are_skipped() {
    let mut sp = Spawner::new();
    sp.register_component::<Counter>();
    sp.register_component::<Accumulator>();
    sp.spawn_obj(counter(1)).unwrap();
    let middle = sp.spawn_obj(counter(2)).unwrap();
    sp.spawn_obj(counter(3)).unwrap();
    sp.spawn_obj(accumulator(0)).unwrap();
    sp.free(&middle);
    let mut schedule = Schedule::new();
    schedule.add_system(Task::Sum, &sp).unwrap();
    follow_schedule(&mut schedule, &mut sp, 1);
    assert_eq!(read_single::<Accumulator>(&mut sp).0, 4);
    let mut counters: Query<Counter> = sp.get_query::<Counter>(0).unwrap();
    let seen: Vec<i32> = collect(&mut counters, &mut sp).iter().map(|c| c.0).collect();
    assert_eq!(seen, vec![1, 3]);
}

#[test]
fn cycle_detection() {
    let sp = {
        let mut sp = Spawner::new();
        sp.register_component::<Log>();
        sp
    };
    let mut schedule = Schedule::new();
    schedule.add_system(Task::Plain { id: 1, after: vec![2] }, &sp).unwrap();
    schedule.add_system(Task::Plain { id: 2, after: vec![3] }, &sp).unwrap();
    let r = schedule.add_system(Task::Plain { id: 3, after: vec![1] }, &sp);
    assert_eq!(r, Err(ScheduleError::CycleDetected));
    assert_eq!(schedule.len(), 2);
}

#[test]
fn self_dependency_is_a_cycle() {
    let mut sp = Spawner::new();
    sp.register_component::<Log>();
    let mut schedule = Schedule::new();
    let r = schedule.add_system(Task::Plain { id: 5, after: vec![5] }, &sp);
    assert_eq!(r, Err(ScheduleError::CycleDetected));
}

#[test]
fn unknown_component_type() {
    let sp = Spawner::new();
    let mut schedule = Schedule::new();
    assert_eq!(schedule.add_system(Task::Sum, &sp), Err(ScheduleError::UnknownComponentType));
}

#[test]
fn close_propagation() {
    let mut sp = Spawner::new();
    sp.register_component::<Log>();
    sp.spawn_obj(log(0)).unwrap();
    let mut schedule = Schedule::new();
    schedule.add_system(Task::Append { id: 10, digit: 4, after: vec![] }, &sp).unwrap();
    schedule.add_system(Task::Close, &sp).unwrap();
    schedule.add_system(Task::Append { id: 11, digit: 5, after: vec![99] }, &sp).unwrap();
    let report = follow_schedule(&mut schedule, &mut sp, 1);
    // The whole tick ran, then the signal says to close.
    assert_eq!(report.order.len(), 3);
    assert_eq!(report.signal, AppSignal::Close);
    let log = read_single::<Log>(&mut sp).0;
    assert!(log == 45 || log == 54);
}

#[test]
fn each_component_visited_once_per_tick() {
    let mut sp = Spawner::new();
    sp.register_component::<Counter>();
    sp.register_component::<Accumulator>();
    for n in 0..20 {
        sp.spawn_obj(counter(1 << (n % 5))).unwrap();
    }
    sp.spawn_obj(accumulator(0)).unwrap();
    let mut schedule = Schedule::new();
    schedule.add_system(Task::Sum, &sp).unwrap();
    for _ in 0..3 {
        follow_schedule(&mut schedule, &mut sp, 1);
        assert_eq!(read_single::<Accumulator>(&mut sp).0, 4 * 31);
    }
}

#[test]
fn prepare_tick_resets_waiting() {
    let mut sp = Spawner::new();
    sp.register_component::<Log>();
    let mut schedule = Schedule::new();
    schedule.add_system(Task::Plain { id: 1, after: vec![] }, &sp).unwrap();
    schedule.add_system(Task::Plain { id: 2, after: vec![1] }, &sp).unwrap();
    schedule.add_system(Task::Plain { id: 3, after: vec![1, 2] }, &sp).unwrap();
    schedule.prep_systems();
    for v in 0..3 {
        assert_eq!(schedule.waiting_on(v), schedule.depends_on(v));
    }
    assert_eq!(schedule.depends_on(2), 2);
    assert_eq!(schedule.task_state(0), TaskState::Ready);
    assert_eq!(schedule.task_state(1), TaskState::Blocked);
    // Task 0 runs; the others wait on it.
    assert_eq!(schedule.next(), NextSystem::System(0));
    assert_eq!(schedule.next(), NextSystem::Wait);
    schedule.return_node(0);
    assert_eq!(schedule.waiting_on(2), 1);
    assert_eq!(schedule.next(), NextSystem::System(1));
    schedule.return_node(1);
    assert_eq!(schedule.next(), NextSystem::System(2));
    schedule.return_node(2);
    assert_eq!(schedule.next(), NextSystem::Finished);
}

#[test]
fn ready_stack_is_last_in_first_out() {
    let mut sp = Spawner::new();
    sp.register_component::<Log>();
    let mut schedule = Schedule::new();
    schedule.add_system(Task::Plain { id: 1, after: vec![] }, &sp).unwrap();
    schedule.add_system(Task::Plain { id: 2, after: vec![] }, &sp).unwrap();
    schedule.prep_systems();
    assert_eq!(schedule.next(), NextSystem::System(1));
    assert_eq!(schedule.next(), NextSystem::System(0));
}

#[test]
fn spawn_unregistered_fails() {
    let mut sp = Spawner::new();
    let r = sp.spawn_obj(counter(1));
    assert!(matches!(r, Err(SpawnError::Unregistered(UnregisteredComponent))));
    assert!(sp.get_query::<Counter>(0).is_none());
    sp.register_component::<Counter>();
    assert!(sp.is_registered::<Counter>());
    assert!(sp.spawn_obj(counter(1)).is_ok());
    // Registering again keeps what was spawned.
    sp.register_component::<Counter>();
    let mut q: Query<Counter> = sp.get_query::<Counter>(0).unwrap();
    assert_eq!(collect(&mut q, &mut sp), vec![counter(1)]);
}

#[test]
fn spawn_entity_components() {
    let mut sp = Spawner::new();
    sp.register_component::<Counter>();
    sp.register_component::<Log>();
    let mut e = Entity::new();
    e.add(counter(3));
    e.add(log(7));
    e.add(counter(4));
    assert_eq!(e.len(), 2);
    sp.spawn(e).unwrap();
    assert_eq!(read_single::<Counter>(&mut sp), counter(4));
    assert_eq!(read_single::<Log>(&mut sp), log(7));
    let mut bad = Entity::new();
    bad.add(accumulator(1));
    bad.add(counter(1));
    assert!(matches!(sp.spawn(bad), Err(SpawnError::Unregistered(_))));
    assert_eq!(read_single::<Counter>(&mut sp), counter(4));
}

#[test]
fn spawn_generic() {
    type GenericI32 = Tagged<200, i32>;
    type GenericF32 = Tagged<201, u32>;

    let mut spawner = Spawner::new();
    spawner.register_component::<GenericI32>();
    spawner.register_component::<GenericF32>();
    spawner.spawn_obj::<GenericI32>(Tagged(6i32)).expect("Failed to register Generic<i32>");
    spawner.spawn_obj::<GenericF32>(Tagged(12.0f32.to_bits())).expect("Failed to register Generic<f32>");

    let mut ints: Query<GenericI32> = spawner
        .get_query_by_id(&GenericI32::id(), 0)
        .expect("Failed to load Generic<i32> Query")
        .cast();
    let mut floats: Query<GenericF32> = spawner
        .get_query_by_id(&GenericF32::id(), 0)
        .expect("Failed to load Generic<f32> Query")
        .cast();

    let first = ints.next(&mut spawner).expect("Failed to load initial element for Generic<i32> Query");
    assert_eq!(spawner.read_mut(&first).0, 6);
    spawner.release_mut(first);
    assert!(ints.next(&mut spawner).is_none(), "Too many ints read from Query");

    let first = floats.next(&mut spawner).expect("Failed to load initial element for Generic<i32> Query");
    assert_eq!(f32::from_bits(spawner.read_mut(&first).0), 12.0);
    spawner.release_mut(first);
    assert!(floats.next(&mut spawner).is_none(), "Too many ints read from Query");
}

trait HasData {
    fn get_data(&self) -> i32;
}

impl HasData for Counter {
    fn get_data(&self) -> i32 {
        self.0
    }
}

#[test]
fn query_test_dyn_reference() {
    let mut spawner = Spawner::new();
    spawner.register_component::<Counter>();
    spawner.spawn_obj(counter(3)).unwrap();
    let query: Query<Counter> = spawner.get_query::<Counter>(0).unwrap();

    let mut dyn_query = query.cast_dyn::<dyn HasData>(&spawner);
    let handle = dyn_query.next().unwrap();
    let access = spawner
        .get_access(&handle.as_handle::<Counter>(), 0)
        .expect("Failed to get access to dyn data");
    let num = spawner.read(&access).get_data();
    assert_eq!(3, num);
    spawner.release(access);
    assert!(dyn_query.next().is_none());
    dyn_query.reset();
    assert_eq!(dyn_query.get_count(), 1);
    assert!(dyn_query.next().is_some());
}

#[test]
fn dyn_query_gathers_handles() {
    let mut spawner = Spawner::new();
    spawner.register_component::<Counter>();
    let a = spawner.spawn_obj(counter(1)).unwrap();
    let b = spawner.spawn_obj(counter(2)).unwrap();
    let mut dq: DynQuery<dyn HasData> = DynQuery::new_empty();
    dq.push(&b);
    dq.push(&a);
    assert_eq!(dq.next().unwrap().index(), b.index());
    assert_eq!(dq.next().unwrap().index(), a.index());
    assert!(dq.next().is_none());
}

#[test]
fn busy_cell_keeps_the_cursor() {
    let mut sp = Spawner::new();
    sp.register_component::<Counter>();
    let h = sp.spawn_obj(counter(8)).unwrap();
    let reader = sp.get_access(&h, 2).unwrap();
    let mut q: Query<Counter> = sp.get_query::<Counter>(1).unwrap();
    assert!(q.next(&mut sp).is_none());
    assert!(!q.at_end(&sp));
    sp.release(reader);
    let acc = q.next(&mut sp).expect("free now");
    assert_eq!(sp.read_mut(&acc).0, 8);
    sp.release_mut(acc);
    assert!(q.at_end(&sp));
}

#[test]
fn request_queue_in_order() {
    let mut q: LLQueueInner<u32> = LLQueueInner::with_capacity(2);
    assert_eq!(q.pop(), None);
    assert!(q.push(1).is_ok());
    assert!(q.push(2).is_ok());
    assert!(matches!(q.push(3), Err(QueueFull)));
    assert_eq!(q.len(), 2);
    assert_eq!(q.pop(), Some(1));
    assert_eq!(q.pop(), Some(2));
    assert_eq!(q.pop(), None);
    let e: LLQueueError = QueueFull.into();
    assert_eq!(e, LLQueueError::Full(QueueFull));
    let mut none: LLQueueInner<u8> = LLQueueInner::new();
    assert!(none.push(1).is_err());
}
