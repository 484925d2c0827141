use vstd::prelude::*;
use vstd::set_lib::{lemma_int_range, lemma_len_subset, set_int_range};

use crate::query::Query;
use crate::schedule::{NextSystem, Schedule, TaskState};
use crate::spawner::Spawner;
use crate::system::{SystemInterface, UpdateResult};

verus! {

/// What the runner tells the event loop after a tick.
#[derive(Clone, Copy, Debug, PartialEq, Eq, Structural)]
pub enum AppSignal {
    Continue,
    Close,
}

/// What one tick did: the tasks in the order they ran, what each reported, and
/// whether the application should close.
pub struct TickReport {
    pub order: Vec<usize>,
    pub outcomes: Vec<UpdateResult>,
    pub signal: AppSignal,
}

/// Whether a close was asked for, after one more task reported `outcome`.
pub fn fold_outcome(close: bool, outcome: UpdateResult) -> (r: bool)
    ensures
        r == (close || outcome == UpdateResult::CloseApp),
{
    close || outcome == UpdateResult::CloseApp
}

/// The signal for a tick in which a close was asked for or not.
pub fn signal_for(close: bool) -> (r: AppSignal)
    ensures
        r == (if close {
            AppSignal::Close
        } else {
            AppSignal::Continue
        }),
{
    if close {
        AppSignal::Close
    } else {
        AppSignal::Continue
    }
}

/// Runs one tick on this thread alone: prepares the schedule, then hands out ready
/// tasks one at a time, runs each over its query, and reports it complete, until
/// the schedule is finished. Every task runs once, after all of its predecessors.
pub fn follow_schedule<S: SystemInterface>(schedule: &mut Schedule<S>, sp: &mut Spawner, thread: u32) -> (r: TickReport)
    requires
        old(schedule).wf(),
        old(sp).wf(),
        thread < crate::frosty_box::THREAD_SLOTS,
        forall|v: int| 0 <= v < old(schedule).n() ==> #[trigger] old(schedule).queries()[v] < old(sp).query_count(),
    ensures
        final(schedule).wf(),
        final(schedule).tick_wf(),
        final(schedule).idle(),
        final(schedule).ids() == old(schedule).ids(),
        final(schedule).decl() == old(schedule).decl(),
        final(schedule).queries() == old(schedule).queries(),
        final(sp).wf(),
        final(sp).query_count() == old(sp).query_count(),
        r.order@.len() == old(schedule).n(),
        r.outcomes@.len() == r.order@.len(),
        forall|v: int| 0 <= v < old(schedule).n() ==> r.order@.contains(#[trigger] (v as usize)),
        forall|a: int, b: int| 0 <= a < b < r.order@.len() ==> #[trigger] r.order@[a] != #[trigger] r.order@[b],
        forall|a: int, b: int|
            0 <= a < b < r.order@.len() ==> !old(schedule).before(#[trigger] r.order@[b] as int, #[trigger] r.order@[a] as int),
        r.signal == AppSignal::Close <==> exists|i: int| 0 <= i < r.outcomes@.len() && #[trigger] r.outcomes@[i] == UpdateResult::CloseApp,
{
    schedule.prep_systems();
    let n = schedule.len();
    let mut order: Vec<usize> = Vec::new();
    let mut outcomes: Vec<UpdateResult> = Vec::new();
    let mut close = false;
    let ghost mut done: Set<int> = Set::empty();
    proof {
        lemma_int_range(0, n as int);
    }
    loop
        invariant
            schedule.wf(),
            schedule.tick_wf(),
            schedule.ids() == old(schedule).ids(),
            schedule.decl() == old(schedule).decl(),
            schedule.queries() == old(schedule).queries(),
            n == schedule.n(),
            sp.wf(),
            sp.query_count() == old(sp).query_count(),
            thread < crate::frosty_box::THREAD_SLOTS,
            forall|v: int| 0 <= v < n ==> #[trigger] schedule.queries()[v] < sp.query_count(),
            set_int_range(0, n as int).finite(),
            set_int_range(0, n as int).len() == n,
            done.finite(),
            done.len() == order@.len(),
            done.subset_of(set_int_range(0, n as int)),
            outcomes@.len() == order@.len(),
            forall|v: int| 0 <= v < n ==> (schedule.states()[v] == TaskState::Done <==> #[trigger] done.contains(v)),
            forall|v: int| 0 <= v < n ==> #[trigger] schedule.states()[v] != TaskState::Running,
            forall|a: int| 0 <= a < order@.len() ==> done.contains(#[trigger] order@[a] as int) && order@[a] < n,
            forall|v: int| done.contains(v) ==> order@.contains(v as usize),
            forall|a: int, b: int| 0 <= a < b < order@.len() ==> #[trigger] order@[a] != #[trigger] order@[b],
            forall|a: int, b: int|
                0 <= a < b < order@.len() ==> !old(schedule).before(#[trigger] order@[b] as int, #[trigger] order@[a] as int),
            close <==> exists|i: int| 0 <= i < outcomes@.len() && #[trigger] outcomes@[i] == UpdateResult::CloseApp,
        ensures
            schedule.wf(),
            schedule.tick_wf(),
            schedule.idle(),
            schedule.ids() == old(schedule).ids(),
            schedule.decl() == old(schedule).decl(),
            schedule.queries() == old(schedule).queries(),
            sp.wf(),
            sp.query_count() == old(sp).query_count(),
            order@.len() == n,
            outcomes@.len() == order@.len(),
            forall|v: int| 0 <= v < n ==> order@.contains(#[trigger] (v as usize)),
            forall|a: int, b: int| 0 <= a < b < order@.len() ==> #[trigger] order@[a] != #[trigger] order@[b],
            forall|a: int, b: int|
                0 <= a < b < order@.len() ==> !old(schedule).before(#[trigger] order@[b] as int, #[trigger] order@[a] as int),
            close <==> exists|i: int| 0 <= i < outcomes@.len() && #[trigger] outcomes@[i] == UpdateResult::CloseApp,
        decreases n - done.len(),
    {
        proof {
            lemma_len_subset(done, set_int_range(0, n as int));
        }
        let ghost schedule_before = *schedule;
        let ghost st0 = schedule.states();
        match schedule.next() {
            NextSystem::System(v) => {
                let ghost st = schedule.states();
                let q = schedule.query_of(v);
                let query: Query<u8> = Query::new(q, thread);
                let outcome = schedule.get_system(v).start_update(query, sp);
                schedule.return_node(v);
                let ghost order0 = order@;
                let ghost outcomes0 = outcomes@;
                proof {
                    assert(!done.contains(v as int));
                    // Every predecessor of `v` was done, so it ran before `v`.
                    assert forall|a: int| 0 <= a < order0.len() implies !old(schedule).before(v as int, #[trigger] order0[a] as int) by {
                        if old(schedule).before(v as int, order0[a] as int) {
                            let w = order0[a] as int;
                            assert(done.contains(w));
                            assert(st0[w] == TaskState::Done);
                            assert(schedule_before.before(v as int, w));
                            schedule_before.lemma_unblocked_preds_done(w);
                        }
                    }
                }
                order.push(v);
                outcomes.push(outcome);
                close = fold_outcome(close, outcome);
                proof {
                    lemma_len_subset(done.insert(v as int), set_int_range(0, n as int));
                    done = done.insert(v as int);
                    assert(order@ == order0.push(v));
                    assert forall|a: int, b: int| 0 <= a < b < order@.len() implies #[trigger] order@[a] != #[trigger] order@[b] by {
                        if b == order0.len() {
                            // Tasks that already ran are done; `v` was not.
                            assert(order@[a] == order0[a]);
                            assert(done.contains(order0[a] as int));
                        }
                    }
                    assert forall|a: int, b: int|
                        0 <= a < b < order@.len() implies !old(schedule).before(#[trigger] order@[b] as int, #[trigger] order@[a] as int) by {
                        if b == order0.len() {
                            assert(order@[a] == order0[a]);
                        } else {
                            assert(order@[a] == order0[a] && order@[b] == order0[b]);
                        }
                    }
                    assert forall|w: int| done.contains(w) implies order@.contains(w as usize) by {
                        if w == v as int {
                            assert(order@[order@.len() - 1] == v);
                        } else {
                            assert(order0.contains(w as usize));
                            let a = choose|a: int| 0 <= a < order0.len() && order0[a] == w as usize;
                            assert(order@[a] == w as usize);
                        }
                    }
                    assert forall|a: int| 0 <= a < order@.len() implies done.contains(#[trigger] order@[a] as int) && order@[a] < n by {
                        if a < order0.len() {
                            assert(order@[a] == order0[a]);
                        }
                    }
                    if close {
                        if exists|i: int| 0 <= i < outcomes0.len() && #[trigger] outcomes0[i] == UpdateResult::CloseApp {
                            let i = choose|i: int| 0 <= i < outcomes0.len() && #[trigger] outcomes0[i] == UpdateResult::CloseApp;
                            assert(outcomes@[i] == outcomes0[i]);
                        } else {
                            assert(outcomes@[outcomes@.len() - 1] == UpdateResult::CloseApp);
                        }
                    } else {
                        assert forall|i: int| 0 <= i < outcomes@.len() implies #[trigger] outcomes@[i] != UpdateResult::CloseApp by {
                            if i < outcomes0.len() {
                                assert(outcomes@[i] == outcomes0[i]);
                            }
                        }
                    }
                }
            },
            NextSystem::Wait => {
                // Nothing runs, so the schedule never says to wait here.
                proof {
                    assert(false);
                }
            },
            NextSystem::Finished => {
                proof {
                    assert(done =~= set_int_range(0, n as int)) by {
                        assert forall|v: int| set_int_range(0, n as int).contains(v) implies done.contains(v) by {
                            assert(schedule.states()[v] == TaskState::Done);
                        }
                    }
                    assert forall|v: int| 0 <= v < n implies order@.contains(#[trigger] (v as usize)) by {
                        assert(done.contains(v));
                    }
                    assert(done.len() == n);
                }
                break;
            },
        }
    }
    TickReport { order, outcomes, signal: signal_for(close) }
}

} // verus!
