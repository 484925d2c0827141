use vstd::prelude::*;
use vstd::set_lib::set_int_range;

use crate::access::AllocId;
use crate::graph::{acyclic, decl_view, edge, has_edge, is_acyclic, lemma_blocked_set_cycle};
use crate::spawner::Spawner;
use crate::system::{SystemId, SystemInterface};

verus! {

/// Where a task stands in the current tick.
#[derive(Clone, Copy, Debug, PartialEq, Eq, Structural)]
pub enum TaskState {
    /// Some predecessor has not completed.
    Blocked,
    /// Every predecessor completed; not yet handed out.
    Ready,
    /// Handed out to a worker.
    Running,
    /// Reported complete.
    Done,
}

/// What the schedule offers next.
#[derive(Clone, Copy, Debug, PartialEq, Eq, Structural)]
pub enum NextSystem {
    /// The task at this position is ready: run it.
    System(usize),
    /// No task is ready; some are still running.
    Wait,
    /// Every task of the tick completed.
    Finished,
}

/// Why a task was not added.
#[derive(Clone, Copy, Debug, PartialEq, Eq, Structural)]
pub enum ScheduleError {
    /// With the task the dependency graph would have a cycle.
    CycleDetected,
    /// The task processes a component type that was never registered.
    UnknownComponentType,
}

/// Number of tasks among the first `m` that task `v` waits on.
pub open spec fn deg(ids: Seq<u64>, decl: Seq<Seq<u64>>, v: int, m: int) -> nat
    decreases m,
{
    if m <= 0 {
        0
    } else {
        deg(ids, decl, v, m - 1) + (if edge(ids, decl, m - 1, v) {
            1nat
        } else {
            0nat
        })
    }
}

/// Number of tasks among the first `m` that task `v` waits on and that are not done.
pub open spec fn pend(ids: Seq<u64>, decl: Seq<Seq<u64>>, st: Seq<TaskState>, v: int, m: int) -> nat
    decreases m,
{
    if m <= 0 {
        0
    } else {
        pend(ids, decl, st, v, m - 1) + (if edge(ids, decl, m - 1, v) && st[m - 1] != TaskState::Done {
            1nat
        } else {
            0nat
        })
    }
}

proof fn lemma_deg_le(ids: Seq<u64>, decl: Seq<Seq<u64>>, v: int, m: int)
    requires
        m >= 0,
    ensures
        deg(ids, decl, v, m) <= m,
    decreases m,
{
    if m > 0 {
        lemma_deg_le(ids, decl, v, m - 1);
    }
}

proof fn lemma_pend_none_done(ids: Seq<u64>, decl: Seq<Seq<u64>>, st: Seq<TaskState>, v: int, m: int)
    requires
        m <= st.len(),
        forall|u: int| 0 <= u < m ==> st[u] != TaskState::Done,
    ensures
        pend(ids, decl, st, v, m) == deg(ids, decl, v, m),
    decreases m,
{
    if m > 0 {
        lemma_pend_none_done(ids, decl, st, v, m - 1);
    }
}

proof fn lemma_pend_all_done(ids: Seq<u64>, decl: Seq<Seq<u64>>, st: Seq<TaskState>, v: int, m: int)
    requires
        m <= st.len(),
        forall|u: int| 0 <= u < m ==> st[u] == TaskState::Done,
    ensures
        pend(ids, decl, st, v, m) == 0,
    decreases m,
{
    if m > 0 {
        lemma_pend_all_done(ids, decl, st, v, m - 1);
    }
}

proof fn lemma_pend_same(
    ids: Seq<u64>,
    decl: Seq<Seq<u64>>,
    st1: Seq<TaskState>,
    st2: Seq<TaskState>,
    v: int,
    m: int,
)
    requires
        m <= st1.len(),
        m <= st2.len(),
        forall|u: int| 0 <= u < m ==> (st1[u] == TaskState::Done) == (st2[u] == TaskState::Done),
    ensures
        pend(ids, decl, st1, v, m) == pend(ids, decl, st2, v, m),
    decreases m,
{
    if m > 0 {
        lemma_pend_same(ids, decl, st1, st2, v, m - 1);
    }
}

proof fn lemma_pend_done(ids: Seq<u64>, decl: Seq<Seq<u64>>, st: Seq<TaskState>, u0: int, v: int, m: int)
    requires
        0 <= u0 < st.len(),
        m <= st.len(),
        st[u0] != TaskState::Done,
    ensures
        pend(ids, decl, st.update(u0, TaskState::Done), v, m) + (if u0 < m && edge(ids, decl, u0, v) {
            1int
        } else {
            0int
        }) == pend(ids, decl, st, v, m),
    decreases m,
{
    if m > 0 {
        lemma_pend_done(ids, decl, st, u0, v, m - 1);
    }
}

proof fn lemma_pend_zero(ids: Seq<u64>, decl: Seq<Seq<u64>>, st: Seq<TaskState>, v: int, m: int)
    requires
        m <= st.len(),
        pend(ids, decl, st, v, m) == 0,
    ensures
        forall|u: int| 0 <= u < m && #[trigger] edge(ids, decl, u, v) ==> st[u] == TaskState::Done,
    decreases m,
{
    if m > 0 {
        lemma_pend_zero(ids, decl, st, v, m - 1);
    }
}

proof fn lemma_pend_pos(ids: Seq<u64>, decl: Seq<Seq<u64>>, st: Seq<TaskState>, v: int, m: int)
    requires
        m <= st.len(),
        pend(ids, decl, st, v, m) > 0,
    ensures
        exists|u: int| 0 <= u < m && #[trigger] edge(ids, decl, u, v) && st[u] != TaskState::Done,
    decreases m,
{
    if m > 0 {
        if pend(ids, decl, st, v, m - 1) > 0 {
            lemma_pend_pos(ids, decl, st, v, m - 1);
        } else {
            assert(edge(ids, decl, m - 1, v) && st[m - 1] != TaskState::Done);
        }
    }
}

proof fn lemma_pend_ge1(ids: Seq<u64>, decl: Seq<Seq<u64>>, st: Seq<TaskState>, u: int, v: int, m: int)
    requires
        m <= st.len(),
        0 <= u < m,
        edge(ids, decl, u, v),
        st[u] != TaskState::Done,
    ensures
        pend(ids, decl, st, v, m) >= 1,
    decreases m,
{
    if u < m - 1 {
        lemma_pend_ge1(ids, decl, st, u, v, m - 1);
    }
}

/// `list` is exactly the tasks that wait on task `u`, in increasing order.
pub open spec fn dependents_list(ids: Seq<u64>, decl: Seq<Seq<u64>>, u: int, list: Seq<usize>) -> bool {
    &&& forall|i: int, j: int| 0 <= i < j < list.len() ==> #[trigger] list[i] < #[trigger] list[j]
    &&& forall|i: int| 0 <= i < list.len() ==> edge(ids, decl, u, #[trigger] list[i] as int)
    &&& forall|v: int| #[trigger] edge(ids, decl, u, v) ==> list.contains(v as usize)
}

/// The ids in a list of task ids.
pub open spec fn ids_of(s: Seq<SystemId>) -> Seq<u64> {
    Seq::new(s.len(), |i: int| s[i].0)
}

/// The empty graph has a ranking.
proof fn lemma_empty_acyclic(ids: Seq<u64>, decl: Seq<Seq<u64>>)
    requires
        ids.len() == 0,
    ensures
        acyclic(ids, decl),
{
    assert(crate::graph::valid_rank(ids, decl, Seq::<int>::empty()));
}

/// A task of the schedule with the position of the query it runs over.
pub struct SystemNode<S> {
    system: S,
    query: usize,
}

impl<S: SystemInterface> SystemNode<S> {
    pub closed spec fn task(&self) -> S {
        self.system
    }

    pub closed spec fn query(&self) -> usize {
        self.query
    }

    /// The type tag that the task declares.
    pub fn alloc_id(&self) -> AllocId {
        self.system.alloc_id()
    }

    pub fn get_system(&self) -> (r: &S)
        ensures
            *r == self.task(),
    {
        &self.system
    }

    pub fn query_index(&self) -> (r: usize)
        ensures
            r == self.query(),
    {
        self.query
    }
}

/// The tasks in the order they were added, their dependency graph, and the state of
/// the current tick.
pub struct Schedule<S> {
    systems: Vec<SystemNode<S>>,
    ids: Vec<u64>,
    decls: Vec<Vec<u64>>,
    deps: Vec<Vec<usize>>,
    depends_on: Vec<u32>,
    waiting_on: Vec<u32>,
    state: Vec<TaskState>,
    ready_systems: Vec<usize>,
}

impl<S> Schedule<S> {
    pub closed spec fn ids(&self) -> Seq<u64> {
        self.ids@
    }

    pub closed spec fn decl(&self) -> Seq<Seq<u64>> {
        decl_view(self.decls@)
    }

    pub closed spec fn states(&self) -> Seq<TaskState> {
        self.state@
    }

    pub closed spec fn waiting(&self) -> Seq<u32> {
        self.waiting_on@
    }

    pub closed spec fn depends(&self) -> Seq<u32> {
        self.depends_on@
    }

    pub closed spec fn ready(&self) -> Seq<usize> {
        self.ready_systems@
    }

    /// The tasks that wait on task `u`, in increasing order.
    pub closed spec fn dependents(&self, u: int) -> Seq<usize> {
        self.deps@[u]@
    }

    pub closed spec fn deps_count(&self) -> nat {
        self.deps@.len()
    }

    /// The tasks, in the order they were added.
    pub closed spec fn tasks(&self) -> Seq<S> {
        Seq::new(self.systems@.len(), |i: int| self.systems@[i].system)
    }

    pub closed spec fn queries(&self) -> Seq<usize> {
        Seq::new(self.systems@.len(), |i: int| self.systems@[i].query)
    }

    pub open spec fn n(&self) -> int {
        self.ids().len() as int
    }

    /// Task `u` must complete before task `v` starts.
    pub open spec fn before(&self, u: int, v: int) -> bool {
        edge(self.ids(), self.decl(), u, v)
    }

    /// The graph has no cycle, each task's count of predecessors is exact, and its
    /// list of dependents is exactly the tasks that wait on it, in increasing order.
    pub open spec fn wf(&self) -> bool {
        &&& self.decl().len() == self.n()
        &&& self.states().len() == self.n()
        &&& self.waiting().len() == self.n()
        &&& self.depends().len() == self.n()
        &&& self.queries().len() == self.n()
        &&& self.deps_count() == self.n()
        &&& self.n() < u32::MAX
        &&& acyclic(self.ids(), self.decl())
        &&& forall|v: int| 0 <= v < self.n() ==> #[trigger] self.depends()[v] == deg(self.ids(), self.decl(), v, self.n())
        &&& forall|u: int| 0 <= u < self.n() ==> self.dependents_exact(u)
    }

    pub open spec fn dependents_exact(&self, u: int) -> bool {
        &&& forall|i: int, j: int| 0 <= i < j < self.dependents(u).len() ==> #[trigger] self.dependents(u)[i] < #[trigger] self.dependents(u)[j]
        &&& forall|i: int| 0 <= i < self.dependents(u).len() ==> self.before(u, #[trigger] self.dependents(u)[i] as int)
        &&& forall|v: int| #[trigger] self.before(u, v) ==> self.dependents(u).contains(v as usize)
    }

    /// Each task waits on exactly its predecessors that are not done, is blocked
    /// exactly while it waits, and the ready stack holds each ready task once.
    pub open spec fn tick_wf(&self) -> bool {
        &&& forall|v: int| 0 <= v < self.n() ==> #[trigger] self.waiting()[v] == pend(self.ids(), self.decl(), self.states(), v, self.n())
        &&& forall|v: int| 0 <= v < self.n() ==> ((#[trigger] self.states()[v] == TaskState::Blocked) <==> self.waiting()[v] > 0)
        &&& forall|i: int, j: int| 0 <= i < j < self.ready().len() ==> #[trigger] self.ready()[i] != #[trigger] self.ready()[j]
        &&& forall|i: int| 0 <= i < self.ready().len() ==> #[trigger] self.ready()[i] < self.n() && self.states()[self.ready()[i] as int] == TaskState::Ready
        &&& forall|v: int| 0 <= v < self.n() && #[trigger] self.states()[v] == TaskState::Ready ==> self.ready().contains(v as usize)
    }

    /// A task that is not blocked has all of its predecessors done.
    pub proof fn lemma_unblocked_preds_done(&self, w: int)
        requires
            self.wf(),
            self.tick_wf(),
            0 <= w < self.n(),
            self.states()[w] != TaskState::Blocked,
        ensures
            forall|u: int| #[trigger] self.before(u, w) ==> self.states()[u] == TaskState::Done,
    {
        lemma_pend_zero(self.ids(), self.decl(), self.states(), w, self.n());
    }

    /// Between ticks: every task done and nothing ready.
    pub open spec fn idle(&self) -> bool {
        &&& self.ready().len() == 0
        &&& forall|v: int| 0 <= v < self.n() ==> #[trigger] self.states()[v] == TaskState::Done
    }

    pub fn new() -> (r: Self)
        ensures
            r.wf(),
            r.tick_wf(),
            r.idle(),
            r.n() == 0,
    {
        let r = Schedule {
            systems: Vec::new(),
            ids: Vec::new(),
            decls: Vec::new(),
            deps: Vec::new(),
            depends_on: Vec::new(),
            waiting_on: Vec::new(),
            state: Vec::new(),
            ready_systems: Vec::new(),
        };
        proof {
            assert(r.queries() =~= Seq::<usize>::empty());
            assert(r.decl() =~= Seq::<Seq<u64>>::empty());
            lemma_empty_acyclic(r.ids(), r.decl());
        }
        r
    }

    pub fn len(&self) -> (r: usize)
        requires
            self.wf(),
        ensures
            r == self.n(),
    {
        self.ids.len()
    }

    /// Changing only the tick's state keeps the graph facts.
    proof fn lemma_wf_frame(&self, old_s: &Self)
        requires
            old_s.wf(),
            self.ids@ == old_s.ids@,
            self.decls@ == old_s.decls@,
            self.deps@ == old_s.deps@,
            self.depends_on@ == old_s.depends_on@,
            self.systems@ == old_s.systems@,
            self.state@.len() == old_s.state@.len(),
            self.waiting_on@.len() == old_s.waiting_on@.len(),
        ensures
            self.wf(),
    {
        assert(self.queries() =~= old_s.queries());
        assert(self.ids() == old_s.ids());
        assert(self.decl() == old_s.decl());
        assert forall|u: int| 0 <= u < self.n() implies self.dependents_exact(u) by {
            assert(old_s.dependents_exact(u));
            assert(self.dependents(u) == old_s.dependents(u));
            assert forall|x: int| #[trigger] self.before(u, x) implies self.dependents(u).contains(x as usize) by {
                assert(old_s.before(u, x));
            }
            assert forall|i: int| 0 <= i < self.dependents(u).len() implies self.before(u, #[trigger] self.dependents(u)[i] as int) by {
                assert(old_s.before(u, old_s.dependents(u)[i] as int));
            }
        }
    }

    /// Starts a tick: each task waits on all of its predecessors again, and the tasks
    /// with none are ready.
    pub fn prep_systems(&mut self)
        requires
            old(self).wf(),
        ensures
            final(self).wf(),
            final(self).tick_wf(),
            final(self).ids() == old(self).ids(),
            final(self).decl() == old(self).decl(),
            final(self).queries() == old(self).queries(),
            final(self).waiting() == final(self).depends(),
            final(self).depends() == old(self).depends(),
            forall|v: int| 0 <= v < final(self).n() ==> #[trigger] final(self).states()[v] == (if final(self).depends()[v] == 0 {
                TaskState::Ready
            } else {
                TaskState::Blocked
            }),
    {
        let n = self.ids.len();
        self.ready_systems.clear();
        let mut v: usize = 0;
        while v < n
            invariant
                old(self).wf(),
                n == self.n(),
                self.depends().len() == n,
                self.ids@ == old(self).ids@,
                self.decls@ == old(self).decls@,
                self.deps@ == old(self).deps@,
                self.depends_on@ == old(self).depends_on@,
                self.systems@ == old(self).systems@,
                self.ids() == old(self).ids(),
                self.decl() == old(self).decl(),
                self.depends() == old(self).depends(),
                self.queries() == old(self).queries(),
                self.deps@ == old(self).deps@,
                self.states().len() == n,
                self.waiting().len() == n,
                v <= n,
                forall|w: int| 0 <= w < v ==> #[trigger] self.waiting()[w] == self.depends()[w],
                forall|w: int| 0 <= w < v ==> #[trigger] self.states()[w] == (if self.depends()[w] == 0 {
                    TaskState::Ready
                } else {
                    TaskState::Blocked
                }),
                forall|i: int, j: int| 0 <= i < j < self.ready().len() ==> #[trigger] self.ready()[i] < #[trigger] self.ready()[j],
                forall|i: int| 0 <= i < self.ready().len() ==> #[trigger] self.ready()[i] < v && self.depends()[self.ready()[i] as int] == 0,
                forall|w: int| 0 <= w < v && self.depends()[w] == 0 ==> self.ready().contains(w as usize),
            decreases n - v,
        {
            let ghost rdh = self.ready();
            let d = self.depends_on[v];
            self.waiting_on.set(v, d);
            // Setting a count leaves the ready stack as it was.
            assert(self.ready() == rdh);
            if d == 0 {
                let ghost rd0 = self.ready();
                self.state.set(v, TaskState::Ready);
                self.ready_systems.push(v);
                proof {
                    let rd = self.ready();
                    assert(rd == rd0.push(v));
                    assert forall|i: int| 0 <= i < rd.len() implies #[trigger] rd[i] < v + 1 && self.depends()[rd[i] as int] == 0 by {
                        if i < rd0.len() {
                            assert(rd[i] == rd0[i]);
                            assert(rd0[i] < v);
                            assert(self.depends()[rd0[i] as int] == 0);
                        } else {
                            assert(rd[i] == v);
                            assert(self.depends()[v as int] == d);
                        }
                    }
                    assert forall|i: int, j: int| 0 <= i < j < rd.len() implies #[trigger] rd[i] < #[trigger] rd[j] by {
                        assert(rd[i] == rd0[i]);
                        if j < rd0.len() {
                            assert(rd[j] == rd0[j]);
                        }
                    }
                    assert forall|w: int| 0 <= w < v + 1 && self.depends()[w] == 0 implies rd.contains(w as usize) by {
                        if w < v {
                            assert(rd0.contains(w as usize));
                            let a = choose|a: int| 0 <= a < rd0.len() && rd0[a] == w as usize;
                            assert(rd[a] == w as usize);
                        } else {
                            assert(rd[rd.len() - 1] == v);
                        }
                    }
                }
            } else {
                self.state.set(v, TaskState::Blocked);
            }
            v = v + 1;
        }
        proof {
            self.lemma_wf_frame(old(self));
            assert(self.waiting() =~= self.depends());
            let ids = self.ids();
            let decl = self.decl();
            let st = self.states();
            assert forall|w: int| 0 <= w < n implies #[trigger] self.waiting()[w] == pend(ids, decl, st, w, n as int) by {
                lemma_pend_none_done(ids, decl, st, w, n as int);
            }
            assert forall|i: int| 0 <= i < self.ready().len() implies #[trigger] self.ready()[i] < self.n() && self.states()[self.ready()[i] as int] == TaskState::Ready by {}
        }
    }

    /// Hands out a ready task (the one made ready last), or says to wait while some
    /// task runs, or that the tick is finished once every task is done.
    pub fn next(&mut self) -> (r: NextSystem)
        requires
            old(self).wf(),
            old(self).tick_wf(),
        ensures
            final(self).wf(),
            final(self).tick_wf(),
            final(self).ids() == old(self).ids(),
            final(self).decl() == old(self).decl(),
            final(self).queries() == old(self).queries(),
            final(self).depends() == old(self).depends(),
            final(self).waiting() == old(self).waiting(),
            r matches NextSystem::System(v) ==> {
                &&& v < old(self).n()
                &&& old(self).states()[v as int] == TaskState::Ready
                &&& final(self).states() == old(self).states().update(v as int, TaskState::Running)
                &&& forall|u: int| #[trigger] old(self).before(u, v as int) ==> old(self).states()[u] == TaskState::Done
            },
            !(r is System) ==> final(self).states() == old(self).states() && final(self).ready() == old(self).ready(),
            (r is System) <==> old(self).ready().len() > 0,
            r == NextSystem::Finished <==> (forall|v: int| 0 <= v < old(self).n() ==> #[trigger] old(self).states()[v] == TaskState::Done),
            r == NextSystem::Wait ==> exists|v: int| 0 <= v < old(self).n() && #[trigger] old(self).states()[v] == TaskState::Running,
    {
        let ghost st0 = self.states();
        match self.ready_systems.pop() {
            Some(v) => {
                proof {
                    let ids = self.ids();
                    let decl = self.decl();
                    let rd = old(self).ready();
                    assert(rd[rd.len() - 1] == v);
                    assert(st0[v as int] == TaskState::Ready);
                    assert(self.waiting()[v as int] == 0);
                    lemma_pend_zero(ids, decl, st0, v as int, self.n());
                }
                self.state.set(v, TaskState::Running);
                proof {
                    self.lemma_wf_frame(old(self));
                    let ids = self.ids();
                    let decl = self.decl();
                    let st = self.states();
                    let n = self.n();
                    assert forall|w: int| 0 <= w < n implies #[trigger] self.waiting()[w] == pend(ids, decl, st, w, n) by {
                        lemma_pend_same(ids, decl, st0, st, w, n);
                    }
                    let rd = old(self).ready();
                    assert forall|i: int| 0 <= i < self.ready().len() implies #[trigger] self.ready()[i] < self.n() && self.states()[self.ready()[i] as int] == TaskState::Ready by {
                        assert(self.ready()[i] == rd[i]);
                        assert(rd[i] != rd[rd.len() - 1]);
                    }
                    assert forall|w: int| 0 <= w < n && #[trigger] self.states()[w] == TaskState::Ready implies self.ready().contains(w as usize) by {
                        assert(w != v);
                        assert(rd.contains(w as usize));
                        let i = choose|i: int| 0 <= i < rd.len() && rd[i] == w as usize;
                        assert(i != rd.len() - 1);
                        assert(self.ready()[i] == w as usize);
                    }
                    assert forall|i: int, j: int| 0 <= i < j < self.ready().len() implies #[trigger] self.ready()[i] != #[trigger] self.ready()[j] by {
                        assert(self.ready()[i] == rd[i] && self.ready()[j] == rd[j]);
                    }
                }
                NextSystem::System(v)
            },
            None => {
                proof {
                    self.lemma_wf_frame(old(self));
                }
                let n = self.ids.len();
                let mut all_done = true;
                let mut running = false;
                let mut v: usize = 0;
                while v < n
                    invariant
                        n == self.n(),
                        self.states() == st0,
                        self.states().len() == n,
                        v <= n,
                        all_done <==> forall|w: int| 0 <= w < v ==> #[trigger] st0[w] == TaskState::Done,
                        running <==> exists|w: int| 0 <= w < v && #[trigger] st0[w] == TaskState::Running,
                    decreases n - v,
                {
                    if self.state[v] != TaskState::Done {
                        all_done = false;
                    }
                    if self.state[v] == TaskState::Running {
                        running = true;
                    }
                    proof {
                        if running && st0[v as int] == TaskState::Running {
                            assert(exists|w: int| 0 <= w < v + 1 && #[trigger] st0[w] == TaskState::Running);
                        }
                    }
                    v = v + 1;
                }
                if all_done {
                    NextSystem::Finished
                } else {
                    proof {
                        if !running {
                            self.lemma_stuck_is_cycle();
                        }
                    }
                    NextSystem::Wait
                }
            },
        }
    }

    /// With nothing ready and nothing running, a task not done would make a cycle.
    proof fn lemma_stuck_is_cycle(&self)
        requires
            self.states().len() == self.n(),
            self.waiting().len() == self.n(),
            self.tick_wf(),
            self.ready().len() == 0,
            forall|w: int| 0 <= w < self.n() ==> #[trigger] self.states()[w] != TaskState::Running,
            exists|w: int| 0 <= w < self.n() && #[trigger] self.states()[w] != TaskState::Done,
        ensures
            !acyclic(self.ids(), self.decl()),
    {
        let ids = self.ids();
        let decl = self.decl();
        let st = self.states();
        let n = self.n();
        let rest = set_int_range(0, n).filter(|w: int| st[w] != TaskState::Done);
        vstd::set_lib::lemma_int_range(0, n);
        assert(rest.subset_of(set_int_range(0, n)));
        vstd::set_lib::lemma_len_subset(rest, set_int_range(0, n));
        let w0 = choose|w: int| 0 <= w < n && #[trigger] st[w] != TaskState::Done;
        assert(rest.contains(w0));
        assert(rest.len() > 0) by {
            if rest.len() == 0 {
                assert(rest =~= Set::<int>::empty());
            }
        }
        assert forall|v: int| rest.contains(v) implies exists|u: int| rest.contains(u) && #[trigger] edge(ids, decl, u, v) by {
            assert(st[v] != TaskState::Ready) by {
                if st[v] == TaskState::Ready {
                    assert(self.ready().contains(v as usize));
                }
            }
            assert(st[v] == TaskState::Blocked);
            lemma_pend_pos(ids, decl, st, v, n);
            let u = choose|u: int| 0 <= u < n && #[trigger] edge(ids, decl, u, v) && st[u] != TaskState::Done;
            assert(rest.contains(u));
        }
        lemma_blocked_set_cycle(ids, decl, rest);
    }

    /// Records that running task `v` completed: each task that waited on it waits on
    /// one task fewer, and becomes ready when it waits on none.
    pub fn return_node(&mut self, v: usize)
        requires
            old(self).wf(),
            old(self).tick_wf(),
            v < old(self).n(),
            old(self).states()[v as int] == TaskState::Running,
        ensures
            final(self).wf(),
            final(self).tick_wf(),
            final(self).ids() == old(self).ids(),
            final(self).decl() == old(self).decl(),
            final(self).queries() == old(self).queries(),
            final(self).depends() == old(self).depends(),
            final(self).states()[v as int] == TaskState::Done,
            forall|w: int| 0 <= w < old(self).n() ==> #[trigger] final(self).waiting()[w] == old(self).waiting()[w] - (if old(self).before(v as int, w) {
                1int
            } else {
                0int
            }),
            forall|w: int| 0 <= w < old(self).n() && w != v ==> #[trigger] final(self).states()[w] == (if old(self).before(v as int, w) && old(self).waiting()[w] == 1 {
                TaskState::Ready
            } else {
                old(self).states()[w]
            }),
    {
        let ghost ids = self.ids();
        let ghost decl = self.decl();
        let ghost n = self.n();
        let ghost st0 = self.states();
        self.state.set(v, TaskState::Done);
        let ghost st1 = self.states();
        proof {
            self.lemma_wf_frame(old(self));
            assert forall|w: int| 0 <= w < n implies #[trigger] pend(ids, decl, st1, w, n) + (if edge(ids, decl, v as int, w) {
                1int
            } else {
                0int
            }) == pend(ids, decl, st0, w, n) by {
                lemma_pend_done(ids, decl, st0, v as int, w, n);
            }
        }
        let k = self.deps[v].len();
        let mut i: usize = 0;
        while i < k
            invariant
                old(self).wf(),
                old(self).tick_wf(),
                old(self).states()[v as int] == TaskState::Running,
                self.wf(),
                st0 == old(self).states(),
                st1 == st0.update(v as int, TaskState::Done),
                self.states().len() == n,
                self.waiting().len() == n,
                ids == self.ids(),
                decl == self.decl(),
                n == self.n(),
                self.queries() == old(self).queries(),
                self.depends() == old(self).depends(),
                self.deps@ == old(self).deps@,
                self.ids@ == old(self).ids@,
                self.decls@ == old(self).decls@,
                self.depends_on@ == old(self).depends_on@,
                self.systems@ == old(self).systems@,
                k == self.dependents(v as int).len(),
                i <= k,
                v < n,
                self.states()[v as int] == TaskState::Done,
                forall|w: int| 0 <= w < n ==> #[trigger] pend(ids, decl, st1, w, n) + (if edge(ids, decl, v as int, w) {
                    1int
                } else {
                    0int
                }) == pend(ids, decl, st0, w, n),
                forall|w: int| 0 <= w < n ==> (self.states()[w] == TaskState::Done) == (#[trigger] st1[w] == TaskState::Done),
                // Dependents already handled wait on one task fewer.
                forall|w: int| 0 <= w < n ==> #[trigger] self.waiting()[w] == old(self).waiting()[w] - (if edge(ids, decl, v as int, w) && self.dependents(v as int).subrange(0, i as int).contains(w as usize) {
                    1int
                } else {
                    0int
                }),
                forall|w: int| 0 <= w < n && w != v ==> #[trigger] self.states()[w] == (if edge(ids, decl, v as int, w) && self.dependents(v as int).subrange(0, i as int).contains(w as usize) && old(self).waiting()[w] == 1 {
                    TaskState::Ready
                } else {
                    old(self).states()[w]
                }),
                forall|a: int, b: int| 0 <= a < b < self.ready().len() ==> #[trigger] self.ready()[a] != #[trigger] self.ready()[b],
                forall|a: int| 0 <= a < self.ready().len() ==> #[trigger] self.ready()[a] < n && self.states()[self.ready()[a] as int] == TaskState::Ready,
                forall|w: int| 0 <= w < n && #[trigger] self.states()[w] == TaskState::Ready ==> self.ready().contains(w as usize),
            decreases k - i,
        {
            let w = self.deps[v][i];
            proof {
                assert(self.dependents_exact(v as int));
                assert(edge(ids, decl, v as int, w as int));
                assert(!self.dependents(v as int).subrange(0, i as int).contains(w)) by {
                    if self.dependents(v as int).subrange(0, i as int).contains(w) {
                        let a = choose|a: int| 0 <= a < i && self.dependents(v as int).subrange(0, i as int)[a] == w;
                        assert(self.dependents(v as int)[a] < self.dependents(v as int)[i as int]);
                    }
                }
                // `w` still waited on `v`, so it was blocked.
                assert(old(self).waiting()[w as int] == pend(ids, decl, st0, w as int, n));
                lemma_pend_ge1(ids, decl, st0, v as int, w as int, n);
                assert(w != v) by {
                    if w == v {
                        assert(st0[v as int] == TaskState::Running);
                        assert(old(self).waiting()[v as int] > 0);
                    }
                }
            }
            let ghost wt0 = self.waiting();
            let ghost rd0 = self.ready();
            let ghost sts0 = self.states();
            let ghost sub0 = self.dependents(v as int).subrange(0, i as int);
            proof {
                assert(sts0[w as int] == old(self).states()[w as int]);
                assert(old(self).states()[w as int] == TaskState::Blocked);
            }
            let cur = self.waiting_on[w];
            proof {
                assert(cur == old(self).waiting()[w as int]);
            }
            self.waiting_on.set(w, cur - 1);
            if cur == 1 {
                self.state.set(w, TaskState::Ready);
                self.ready_systems.push(w);
            }
            proof {
                let sub1 = self.dependents(v as int).subrange(0, i + 1);
                assert(sub1 =~= sub0.push(w));
                assert forall|x: int| 0 <= x < n implies #[trigger] self.waiting()[x] == old(self).waiting()[x] - (if edge(ids, decl, v as int, x) && sub1.contains(x as usize) {
                    1int
                } else {
                    0int
                }) by {
                    if x == w as int {
                        assert(sub1[sub1.len() - 1] == w);
                        assert(sub1.contains(w));
                    } else {
                        assert(self.waiting()[x] == wt0[x]);
                        assert(sub1.contains(x as usize) == sub0.contains(x as usize)) by {
                            if sub1.contains(x as usize) {
                                let a = choose|a: int| 0 <= a < sub1.len() && sub1[a] == x as usize;
                                assert(a < sub0.len());
                                assert(sub0[a] == x as usize);
                            }
                            if sub0.contains(x as usize) {
                                let a = choose|a: int| 0 <= a < sub0.len() && sub0[a] == x as usize;
                                assert(sub1[a] == x as usize);
                            }
                        }
                    }
                }
                assert forall|x: int| 0 <= x < n && x != v implies #[trigger] self.states()[x] == (if edge(ids, decl, v as int, x) && sub1.contains(x as usize) && old(self).waiting()[x] == 1 {
                    TaskState::Ready
                } else {
                    old(self).states()[x]
                }) by {
                    if x == w as int {
                        assert(sub1[sub1.len() - 1] == w);
                        assert(sub1.contains(w));
                    } else {
                        assert(self.states()[x] == sts0[x]);
                        assert(sub1.contains(x as usize) == sub0.contains(x as usize)) by {
                            if sub1.contains(x as usize) {
                                let a = choose|a: int| 0 <= a < sub1.len() && sub1[a] == x as usize;
                                assert(a < sub0.len());
                                assert(sub0[a] == x as usize);
                            }
                            if sub0.contains(x as usize) {
                                let a = choose|a: int| 0 <= a < sub0.len() && sub0[a] == x as usize;
                                assert(sub1[a] == x as usize);
                            }
                        }
                    }
                }
                let rd = self.ready();
                assert forall|a: int| 0 <= a < rd.len() implies #[trigger] rd[a] < n && self.states()[rd[a] as int] == TaskState::Ready by {
                    if a < rd0.len() {
                        assert(rd[a] == rd0[a]);
                        assert(sts0[rd0[a] as int] == TaskState::Ready);
                        assert(rd0[a] != w);
                    }
                }
                assert forall|a: int, b: int| 0 <= a < b < rd.len() implies #[trigger] rd[a] != #[trigger] rd[b] by {
                    if b < rd0.len() {
                        assert(rd[a] == rd0[a] && rd[b] == rd0[b]);
                    } else if a < rd0.len() {
                        assert(rd[a] == rd0[a]);
                        assert(sts0[rd0[a] as int] == TaskState::Ready);
                    }
                }
                assert forall|x: int| 0 <= x < n && #[trigger] self.states()[x] == TaskState::Ready implies rd.contains(x as usize) by {
                    if x != w as int {
                        assert(sts0[x] == TaskState::Ready);
                        assert(rd0.contains(x as usize));
                        let a = choose|a: int| 0 <= a < rd0.len() && rd0[a] == x as usize;
                        assert(rd[a] == x as usize);
                    } else {
                        assert(rd[rd.len() - 1] == w);
                    }
                }
            }
            proof {
                self.lemma_wf_frame(old(self));
            }
            i = i + 1;
        }
        proof {
            assert(self.dependents(v as int).subrange(0, k as int) =~= self.dependents(v as int));
            let st = self.states();
            assert forall|w: int| 0 <= w < n implies (#[trigger] self.dependents(v as int).contains(w as usize)) == edge(ids, decl, v as int, w) by {
                assert(self.dependents_exact(v as int));
                if edge(ids, decl, v as int, w) {
                    assert(self.before(v as int, w));
                }
                if self.dependents(v as int).contains(w as usize) {
                    let a = choose|a: int| 0 <= a < self.dependents(v as int).len() && self.dependents(v as int)[a] == w as usize;
                    assert(self.before(v as int, self.dependents(v as int)[a] as int));
                }
            }
            assert forall|w: int| 0 <= w < n implies #[trigger] self.waiting()[w] == pend(ids, decl, st, w, n) by {
                lemma_pend_same(ids, decl, st1, st, w, n);
                assert(old(self).waiting()[w] == pend(ids, decl, st0, w, n));
                assert(self.dependents(v as int).contains(w as usize) == edge(ids, decl, v as int, w));
            }
            assert forall|w: int| 0 <= w < n implies ((#[trigger] self.states()[w] == TaskState::Blocked) <==> self.waiting()[w] > 0) by {
                assert(self.dependents(v as int).contains(w as usize) == edge(ids, decl, v as int, w));
                assert(old(self).waiting()[w] == pend(ids, decl, st0, w, n));
                if w == v as int {
                    lemma_pend_zero(ids, decl, st0, v as int, n);
                    assert(old(self).waiting()[w] == 0);
                }
            }
            assert forall|w: int| 0 <= w < old(self).n() implies #[trigger] self.waiting()[w] == old(self).waiting()[w] - (if old(self).before(v as int, w) {
                1int
            } else {
                0int
            }) by {
                assert(self.dependents(v as int).contains(w as usize) == edge(ids, decl, v as int, w));
            }
            assert forall|w: int| 0 <= w < old(self).n() && w != v implies #[trigger] self.states()[w] == (if old(self).before(v as int, w) && old(self).waiting()[w] == 1 {
                TaskState::Ready
            } else {
                old(self).states()[w]
            }) by {
                assert(self.dependents(v as int).contains(w as usize) == edge(ids, decl, v as int, w));
            }
        }
    }

    /// The state of task `v` in the current tick.
    pub fn task_state(&self, v: usize) -> (r: TaskState)
        requires
            self.wf(),
            v < self.n(),
        ensures
            r == self.states()[v as int],
    {
        self.state[v]
    }

    /// How many predecessors task `v` still waits on.
    pub fn waiting_on(&self, v: usize) -> (r: u32)
        requires
            self.wf(),
            v < self.n(),
        ensures
            r == self.waiting()[v as int],
    {
        self.waiting_on[v]
    }

    /// How many predecessors task `v` has.
    pub fn depends_on(&self, v: usize) -> (r: u32)
        requires
            self.wf(),
            v < self.n(),
        ensures
            r == self.depends()[v as int],
    {
        self.depends_on[v]
    }
}


impl<S: SystemInterface> Schedule<S> {
    /// Recomputes every task's list of dependents and count of predecessors from
    /// the ids and predecessor lists.
    fn rebuild(&mut self)
        requires
            old(self).ids@.len() == old(self).decls@.len(),
            old(self).ids@.len() < u32::MAX,
        ensures
            final(self).ids@ == old(self).ids@,
            final(self).decls@ == old(self).decls@,
            final(self).systems@ == old(self).systems@,
            final(self).state@ == old(self).state@,
            final(self).waiting_on@ == old(self).waiting_on@,
            final(self).ready_systems@ == old(self).ready_systems@,
            final(self).deps_count() == final(self).n(),
            final(self).depends().len() == final(self).n(),
            forall|v: int| 0 <= v < final(self).n() ==> #[trigger] final(self).depends()[v] == deg(final(self).ids(), final(self).decl(), v, final(self).n()),
            forall|u: int| 0 <= u < final(self).n() ==> final(self).dependents_exact(u),
    {
        let n = self.ids.len();
        let ghost ids = self.ids();
        let ghost decl = self.decl();
        let mut deps: Vec<Vec<usize>> = Vec::new();
        let mut u: usize = 0;
        while u < n
            invariant
                n == self.ids@.len(),
                n == self.decls@.len(),
                ids == self.ids(),
                decl == self.decl(),
                u <= n,
                deps@.len() == u,
                forall|a: int| 0 <= a < u ==> dependents_list(ids, decl, a, #[trigger] deps@[a]@),
            decreases n - u,
        {
            let mut du: Vec<usize> = Vec::new();
            let mut v: usize = 0;
            while v < n
                invariant
                    n == self.ids@.len(),
                    n == self.decls@.len(),
                    ids == self.ids(),
                    decl == self.decl(),
                    u < n,
                    v <= n,
                    forall|i: int, j: int| 0 <= i < j < du@.len() ==> #[trigger] du@[i] < #[trigger] du@[j],
                    forall|i: int| 0 <= i < du@.len() ==> #[trigger] du@[i] < v && edge(ids, decl, u as int, du@[i] as int),
                    forall|x: int| 0 <= x < v && #[trigger] edge(ids, decl, u as int, x) ==> du@.contains(x as usize),
                decreases n - v,
            {
                if has_edge(&self.ids, &self.decls, u, v) {
                    let ghost du0 = du@;
                    du.push(v);
                    proof {
                        assert forall|x: int| 0 <= x < v + 1 && #[trigger] edge(ids, decl, u as int, x) implies du@.contains(x as usize) by {
                            if x < v {
                                let a = choose|a: int| 0 <= a < du0.len() && du0[a] == x as usize;
                                assert(du@[a] == x as usize);
                            } else {
                                assert(du@[du@.len() - 1] == v);
                            }
                        }
                    }
                }
                v = v + 1;
            }
            proof {
                assert forall|x: int| #[trigger] edge(ids, decl, u as int, x) implies du@.contains(x as usize) by {}
            }
            deps.push(du);
            proof {
                assert forall|a: int| 0 <= a < u + 1 implies dependents_list(ids, decl, a, #[trigger] deps@[a]@) by {
                    if a == u as int {
                        assert(deps@[a]@ == du@);
                    }
                }
            }
            u = u + 1;
        }
        let mut depends: Vec<u32> = Vec::new();
        let mut v: usize = 0;
        while v < n
            invariant
                n == self.ids@.len(),
                n == self.decls@.len(),
                n < u32::MAX,
                ids == self.ids(),
                decl == self.decl(),
                v <= n,
                depends@.len() == v,
                forall|w: int| 0 <= w < v ==> #[trigger] depends@[w] == deg(ids, decl, w, n as int),
            decreases n - v,
        {
            let mut cnt: u32 = 0;
            let mut x: usize = 0;
            while x < n
                invariant
                    n == self.ids@.len(),
                    n == self.decls@.len(),
                    n < u32::MAX,
                    ids == self.ids(),
                    decl == self.decl(),
                    v < n,
                    x <= n,
                    cnt == deg(ids, decl, v as int, x as int),
                decreases n - x,
            {
                proof {
                    lemma_deg_le(ids, decl, v as int, x as int);
                }
                if has_edge(&self.ids, &self.decls, x, v) {
                    cnt = cnt + 1;
                }
                x = x + 1;
            }
            depends.push(cnt);
            v = v + 1;
        }
        self.deps = deps;
        self.depends_on = depends;
        proof {
            assert forall|a: int| 0 <= a < self.n() implies self.dependents_exact(a) by {
                assert(dependents_list(ids, decl, a, deps@[a]@));
            }
        }
    }

    /// Adds `system` under id `id`, to run over the query of type tag `component`
    /// after the tasks whose ids are in `predecessors`, once they are added. Refused
    /// when the type has no query, or when the task would close a cycle of
    /// dependencies.
    pub fn add_task(
        &mut self,
        system: S,
        id: SystemId,
        predecessors: &Vec<SystemId>,
        component: AllocId,
        sp: &Spawner,
    ) -> (r: Result<usize, ScheduleError>)
        requires
            old(self).wf(),
            old(self).tick_wf(),
            old(self).idle(),
            old(self).n() + 1 < u32::MAX,
        ensures
            final(self).wf(),
            final(self).tick_wf(),
            final(self).idle(),
            !sp.tags().contains_key(component.uid) ==> r == Err::<usize, ScheduleError>(ScheduleError::UnknownComponentType),
            sp.tags().contains_key(component.uid) && !acyclic(
                old(self).ids().push(id.0),
                old(self).decl().push(ids_of(predecessors@)),
            ) ==> r == Err::<usize, ScheduleError>(ScheduleError::CycleDetected),
            sp.tags().contains_key(component.uid) && acyclic(
                old(self).ids().push(id.0),
                old(self).decl().push(ids_of(predecessors@)),
            ) ==> r.is_ok(),
            r.is_err() ==> final(self).ids() == old(self).ids() && final(self).decl() == old(self).decl()
                && final(self).queries() == old(self).queries(),
            r.is_ok() ==> {
                &&& sp.tags().contains_key(component.uid)
                &&& r.unwrap() == old(self).n()
                &&& final(self).ids() == old(self).ids().push(id.0)
                &&& final(self).decl() == old(self).decl().push(ids_of(predecessors@))
                &&& final(self).queries() == old(self).queries().push(sp.tags()[component.uid])
            },
    {
        let pos = match sp.query_position(component.uid) {
            Some(p) => p,
            None => {
                return Err(ScheduleError::UnknownComponentType);
            },
        };
        let id = id.0;
        let mut preds: Vec<u64> = Vec::new();
        let mut i: usize = 0;
        while i < predecessors.len()
            invariant
                i <= predecessors@.len(),
                preds@ == ids_of(predecessors@).subrange(0, i as int),
            decreases predecessors@.len() - i,
        {
            preds.push(predecessors[i].0);
            i = i + 1;
            proof {
                assert(preds@ =~= ids_of(predecessors@).subrange(0, i as int));
            }
        }
        proof {
            assert(preds@ =~= ids_of(predecessors@));
        }
        let n = self.ids.len();
        self.ids.push(id);
        self.decls.push(preds);
        proof {
            assert(self.decl() =~= old(self).decl().push(ids_of(predecessors@)));
        }
        if !is_acyclic(&self.ids, &self.decls) {
            self.ids.pop();
            self.decls.pop();
            proof {
                assert(self.ids@ =~= old(self).ids@);
                assert(self.decls@ =~= old(self).decls@);
                self.lemma_wf_frame(old(self));
                self.lemma_idle_tick(old(self));
            }
            return Err(ScheduleError::CycleDetected);
        }
        self.systems.push(SystemNode { system, query: pos });
        self.state.push(TaskState::Done);
        self.waiting_on.push(0);
        self.rebuild();
        proof {
            assert(self.queries() =~= old(self).queries().push(pos));
            assert forall|v: int| 0 <= v < self.n() implies #[trigger] self.states()[v] == TaskState::Done by {
                if v < n {
                    assert(self.states()[v] == old(self).states()[v]);
                }
            }
            let ids = self.ids();
            let decl = self.decl();
            let st = self.states();
            assert forall|v: int| 0 <= v < self.n() implies #[trigger] self.waiting()[v] == pend(ids, decl, st, v, self.n()) by {
                lemma_pend_all_done(ids, decl, st, v, self.n());
                if v < n {
                    assert(self.waiting()[v] == old(self).waiting()[v]);
                    assert(old(self).waiting()[v] == pend(old(self).ids(), old(self).decl(), old(self).states(), v, n as int));
                    lemma_pend_all_done(old(self).ids(), old(self).decl(), old(self).states(), v, n as int);
                }
            }
        }
        Ok(n)
    }

    /// Adding a task with id `x`, predecessor ids `d` and component type tag `c` took
    /// schedule `o` to `f` with result `r`: refused for an unregistered type, refused
    /// for a cycle, and otherwise added at the end.
    pub open spec fn task_added(
        o: Self,
        f: Self,
        sp: Spawner,
        x: u64,
        d: Seq<u64>,
        c: u64,
        r: Result<usize, ScheduleError>,
    ) -> bool {
        &&& !sp.tags().contains_key(c) ==> r == Err::<usize, ScheduleError>(ScheduleError::UnknownComponentType)
        &&& sp.tags().contains_key(c) && !acyclic(o.ids().push(x), o.decl().push(d)) ==> r == Err::<
            usize,
            ScheduleError,
        >(ScheduleError::CycleDetected)
        &&& sp.tags().contains_key(c) && acyclic(o.ids().push(x), o.decl().push(d)) ==> r.is_ok()
        &&& r.is_err() ==> f.ids() == o.ids() && f.decl() == o.decl() && f.queries() == o.queries()
        &&& r.is_ok() ==> {
            &&& r.unwrap() == o.n()
            &&& f.ids() == o.ids().push(x)
            &&& f.decl() == o.decl().push(d)
            &&& f.queries() == o.queries().push(sp.tags()[c])
        }
    }

    /// Adds `system` with the id, predecessors and component type that it declares:
    /// for those values, the outcome is the one `add_task` gives.
    pub fn add_system(&mut self, system: S, sp: &Spawner) -> (r: Result<usize, ScheduleError>)
        requires
            old(self).wf(),
            old(self).tick_wf(),
            old(self).idle(),
            old(self).n() + 1 < u32::MAX,
        ensures
            final(self).wf(),
            final(self).tick_wf(),
            final(self).idle(),
            exists|x: u64, d: Seq<u64>, c: u64| Self::task_added(*old(self), *final(self), *sp, x, d, c, r),
    {
        let id = system.id();
        let predecessors = system.dependencies();
        let component = system.alloc_id();
        let r = self.add_task(system, id, &predecessors, component, sp);
        proof {
            assert(Self::task_added(*old(self), *self, *sp, id.0, ids_of(predecessors@), component.uid, r));
        }
        r
    }

    /// The task at position `v`.
    pub fn get_system(&self, v: usize) -> (r: &S)
        requires
            self.wf(),
            v < self.n(),
        ensures
            *r == self.tasks()[v as int],
    {
        &self.systems[v].system
    }

    /// The position in the spawner of the query that task `v` runs over.
    pub fn query_of(&self, v: usize) -> (r: usize)
        requires
            self.wf(),
            v < self.n(),
        ensures
            r == self.queries()[v as int],
    {
        self.systems[v].query
    }
}

impl<S> Schedule<S> {
    /// Between ticks the tick's facts hold.
    proof fn lemma_idle_tick(&self, old_s: &Self)
        requires
            old_s.wf(),
            old_s.tick_wf(),
            old_s.idle(),
            self.ids@ == old_s.ids@,
            self.decls@ == old_s.decls@,
            self.state@ == old_s.state@,
            self.waiting_on@ == old_s.waiting_on@,
            self.ready_systems@ == old_s.ready_systems@,
        ensures
            self.tick_wf(),
            self.idle(),
    {
    }
}

} // verus!
