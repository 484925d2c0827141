use vstd::prelude::*;

use crate::access::{AllocId, FrostyAllocatable};
use crate::entity::{component_view, Entity};
use crate::allocator::{alloc_fails, cell_bytes, value_bytes, Allocator, CapacityExhausted};
use crate::frosty_box::{pending_bit, write_granted, BitMask, THREAD_SLOTS};
use crate::handle::{DataAccess, DataAccessMut, ObjectHandleMut};
use crate::query::{DynQuery, Query, QueryForm, RawQuery};
use crate::tag_map::{tag_map_contents, tag_map_get, tag_map_insert, tag_map_new, TagMap};

verus! {

/// A component was spawned whose type was never registered.
#[derive(Clone, Copy, Debug, PartialEq, Eq, Structural)]
pub struct UnregisteredComponent;

/// Why a spawn failed.
#[derive(Clone, Copy, Debug, PartialEq, Eq, Structural)]
pub enum SpawnError {
    Unregistered(UnregisteredComponent),
    Capacity(CapacityExhausted),
}

/// A cell that an iteration over a query of `T` may hand out: live and holding a `T`.
pub open spec fn visible<T: FrostyAllocatable>(a: Allocator, rec: int) -> bool {
    a.live(rec) && a.holds::<T>(rec)
}

/// `cs` records one pass of `next` over a query with entries `es`: it starts at the
/// first entry, each step passes over cells that may not be handed out and hands out
/// the next one, and after the last step no cell that may be handed out is left.
pub open spec fn is_full_pass(es: Seq<int>, shown: spec_fn(int) -> bool, cs: Seq<int>) -> bool {
    &&& cs.len() >= 1
    &&& cs[0] == 0
    &&& forall|k: int|
        0 <= k < cs.len() - 1 ==> {
            &&& cs[k] < #[trigger] cs[k + 1] <= es.len()
            &&& shown(es[cs[k + 1] - 1])
            &&& forall|e: int| cs[k] <= e < cs[k + 1] - 1 ==> !shown(#[trigger] es[e])
        }
    &&& cs[cs.len() - 1] <= es.len()
    &&& forall|e: int| cs[cs.len() - 1] <= e < es.len() ==> !shown(#[trigger] es[e])
}

/// One pass of `next` over a query hands out each cell that may be handed out once,
/// and no other: entry `e` is handed out exactly when it may be, and the steps hand
/// out distinct entries in increasing order.
pub proof fn lemma_pass_visits_each_once(es: Seq<int>, shown: spec_fn(int) -> bool, cs: Seq<int>)
    requires
        is_full_pass(es, shown, cs),
    ensures
        forall|e: int|
            0 <= e < es.len() ==> (shown(#[trigger] es[e]) <==> exists|k: int| 0 <= k < cs.len() - 1 && #[trigger] cs[k + 1] - 1 == e),
        forall|k1: int, k2: int| 0 <= k1 < k2 < cs.len() - 1 ==> #[trigger] cs[k1 + 1] < #[trigger] cs[k2 + 1],
    decreases cs.len(),
{
    assert forall|k1: int, k2: int| 0 <= k1 < k2 < cs.len() - 1 implies #[trigger] cs[k1 + 1] < #[trigger] cs[k2 + 1] by {
        lemma_pass_increasing(es, shown, cs, k1, k2);
    }
    assert forall|e: int| 0 <= e < es.len() implies (shown(#[trigger] es[e]) <==> exists|k: int|
        0 <= k < cs.len() - 1 && #[trigger] cs[k + 1] - 1 == e) by {
        if shown(es[e]) {
            let k = lemma_pass_covers(es, shown, cs, e);
            assert(cs[k + 1] - 1 == e);
        }
        if exists|k: int| 0 <= k < cs.len() - 1 && #[trigger] cs[k + 1] - 1 == e {
            let k = choose|k: int| 0 <= k < cs.len() - 1 && #[trigger] cs[k + 1] - 1 == e;
            assert(shown(es[cs[k + 1] - 1]));
        }
    }
}

proof fn lemma_pass_increasing(es: Seq<int>, shown: spec_fn(int) -> bool, cs: Seq<int>, k1: int, k2: int)
    requires
        is_full_pass(es, shown, cs),
        0 <= k1 < k2 < cs.len() - 1,
    ensures
        cs[k1 + 1] < cs[k2 + 1],
    decreases k2 - k1,
{
    assert(cs[k2] < cs[k2 + 1]);
    if k1 + 1 < k2 {
        lemma_pass_increasing(es, shown, cs, k1, k2 - 1);
    }
}

/// A shown entry lies in some step's range, and there it is the one handed out.
proof fn lemma_pass_covers(es: Seq<int>, shown: spec_fn(int) -> bool, cs: Seq<int>, e: int) -> (k: int)
    requires
        is_full_pass(es, shown, cs),
        0 <= e < es.len(),
        shown(es[e]),
    ensures
        0 <= k < cs.len() - 1,
        cs[k + 1] - 1 == e,
{
    lemma_pass_find(es, shown, cs, e, cs.len() - 1)
}

/// Searching back from step `j`: the last step whose start is at or before `e`.
proof fn lemma_pass_find(es: Seq<int>, shown: spec_fn(int) -> bool, cs: Seq<int>, e: int, j: int) -> (k: int)
    requires
        is_full_pass(es, shown, cs),
        0 <= e < es.len(),
        shown(es[e]),
        0 <= j < cs.len(),
        e >= cs[j] ==> j < cs.len() - 1 && e < cs[j + 1],
    ensures
        0 <= k < cs.len() - 1,
        cs[k + 1] - 1 == e,
    decreases j,
{
    if j == cs.len() - 1 && e >= cs[j] {
        assert(!shown(es[e]));
        0
    } else if e >= cs[j] {
        // Entry `e` lies in step `j`, where only the last entry is shown.
        if e < cs[j + 1] - 1 {
            assert(!shown(es[e]));
        }
        j
    } else {
        // `e` lies before the start of step `j`; since the pass starts at 0, `j > 0`.
        assert(j > 0);
        lemma_pass_find(es, shown, cs, e, j - 1)
    }
}

/// Owns the arena and, for each registered component type, the query of its handles.
pub struct Spawner {
    alloc: Allocator,
    queries: Vec<RawQuery>,
    index: TagMap,
}

impl Spawner {
    pub closed spec fn arena(&self) -> Allocator {
        self.alloc
    }

    /// For each registered type tag, the position of its query.
    pub closed spec fn tags(&self) -> Map<u64, usize> {
        tag_map_contents(self.index)
    }

    pub closed spec fn query_count(&self) -> nat {
        self.queries@.len()
    }

    /// The records of the handles in query `q`, in spawn order.
    pub closed spec fn entries(&self, q: int) -> Seq<int> {
        self.queries@[q].entries()
    }

    /// The records of the handles in the query of type tag `tag`.
    pub open spec fn entries_of(&self, tag: u64) -> Seq<int> {
        self.entries(self.tags()[tag] as int)
    }

    /// The arena is well formed; each registered tag has its own query, and every
    /// handle in it names a record of that tag.
    pub open spec fn wf(&self) -> bool {
        &&& self.arena().wf()
        &&& forall|t: u64| #[trigger] self.tags().contains_key(t) ==> self.tags()[t] < self.query_count()
        &&& forall|t1: u64, t2: u64|
            #[trigger] self.tags().contains_key(t1) && #[trigger] self.tags().contains_key(t2) && self.tags()[t1]
                == self.tags()[t2] ==> t1 == t2
        &&& forall|t: u64, e: int|
            #[trigger] self.tags().contains_key(t) && 0 <= e < self.entries(self.tags()[t] as int).len()
                ==> {
                let rec = #[trigger] self.entries(self.tags()[t] as int)[e];
                &&& 0 <= rec < self.arena().records().len()
                &&& self.arena().records()[rec].tag.uid == t
            }
    }

    /// The spawner stays well formed when the arena stays well formed, the queries
    /// and tags stay, and no record changes its tag.
    proof fn lemma_keep_wf(&self, old_s: &Spawner)
        requires
            old_s.wf(),
            self.arena().wf(),
            self.tags() == old_s.tags(),
            self.queries@ == old_s.queries@,
            self.arena().records().len() >= old_s.arena().records().len(),
            forall|j: int|
                0 <= j < old_s.arena().records().len() ==> (#[trigger] self.arena().records()[j]).tag
                    == old_s.arena().records()[j].tag,
        ensures
            self.wf(),
    {
        assert forall|t: u64, e: int|
            #[trigger] self.tags().contains_key(t) && 0 <= e < self.entries(self.tags()[t] as int).len()
                implies {
            let rec = #[trigger] self.entries(self.tags()[t] as int)[e];
            &&& 0 <= rec < self.arena().records().len()
            &&& self.arena().records()[rec].tag.uid == t
        } by {
            let rec = self.entries(self.tags()[t] as int)[e];
            assert(rec == old_s.entries(old_s.tags()[t] as int)[e]);
            assert(self.arena().records()[rec].tag == old_s.arena().records()[rec].tag);
        }
    }

    pub fn new() -> (r: Self)
        ensures
            r.wf(),
            r.tags() =~= Map::<u64, usize>::empty(),
            r.query_count() == 0,
    {
        Spawner { alloc: Allocator::new(), queries: Vec::new(), index: tag_map_new() }
    }

    pub fn with_capacity(capacity: usize) -> (r: Self)
        ensures
            r.wf(),
            r.tags() =~= Map::<u64, usize>::empty(),
            r.query_count() == 0,
            r.arena().region().len() == capacity,
    {
        Spawner { alloc: Allocator::with_capacity(capacity), queries: Vec::new(), index: tag_map_new() }
    }

    /// Number of queries, one per registered type.
    pub fn query_len(&self) -> (r: usize)
        ensures
            r == self.query_count(),
    {
        self.queries.len()
    }

    /// The arena, for reading.
    pub fn allocator(&self) -> (r: &Allocator)
        ensures
            *r == self.arena(),
    {
        &self.alloc
    }

    /// Registers `C`: its tag gets a new, empty query. A type already registered keeps
    /// its query.
    pub fn register_component<C: FrostyAllocatable>(&mut self)
        requires
            old(self).wf(),
        ensures
            final(self).wf(),
            final(self).arena() == old(self).arena(),
            old(self).tags().contains_key(C::type_tag()) ==> final(self).tags() == old(self).tags()
                && final(self).query_count() == old(self).query_count(),
            !old(self).tags().contains_key(C::type_tag()) ==> {
                &&& final(self).tags() == old(self).tags().insert(C::type_tag(), old(self).query_count() as usize)
                &&& final(self).query_count() == old(self).query_count() + 1
                &&& final(self).entries(old(self).query_count() as int) == Seq::<int>::empty()
            },
            forall|q: int| 0 <= q < old(self).query_count() ==> #[trigger] final(self).entries(q) == old(self).entries(q),
    {
        let tag = C::id().uid;
        if tag_map_get(&self.index, tag).is_some() {
            return ;
        }
        let pos = self.queries.len();
        let raw = RawQuery::new(QueryForm::Continuous, Vec::new());
        proof {
            assert(raw.entries() =~= Seq::<int>::empty());
        }
        self.queries.push(raw);
        tag_map_insert(&mut self.index, tag, pos);
        proof {
            assert forall|t: u64| #[trigger] self.tags().contains_key(t) implies self.tags()[t] < self.query_count() by {
                if t != tag {
                    assert(old(self).tags().contains_key(t));
                }
            }
            assert forall|t1: u64, t2: u64|
                #[trigger] self.tags().contains_key(t1) && #[trigger] self.tags().contains_key(t2) && self.tags()[t1]
                    == self.tags()[t2] implies t1 == t2 by {
                if t1 != tag {
                    assert(old(self).tags().contains_key(t1));
                }
                if t2 != tag {
                    assert(old(self).tags().contains_key(t2));
                }
            }
            assert forall|q: int| 0 <= q < old(self).query_count() implies #[trigger] self.entries(q)
                == old(self).entries(q) by {
                assert(self.queries@[q] == old(self).queries@[q]);
            }
            assert forall|t: u64, e: int|
                #[trigger] self.tags().contains_key(t) && 0 <= e < self.entries(self.tags()[t] as int).len()
                    implies {
                let rec = #[trigger] self.entries(self.tags()[t] as int)[e];
                &&& 0 <= rec < self.arena().records().len()
                &&& self.arena().records()[rec].tag.uid == t
            } by {
                if t != tag {
                    assert(old(self).tags().contains_key(t));
                    assert(self.entries(self.tags()[t] as int) == old(self).entries(old(self).tags()[t] as int));
                }
            }
        }
    }

    pub fn is_registered<C: FrostyAllocatable>(&self) -> (r: bool)
        ensures
            r == self.tags().contains_key(C::type_tag()),
    {
        tag_map_get(&self.index, C::id().uid).is_some()
    }

    /// Moves `obj` into the arena and appends its handle to the query of `C`; the
    /// caller gets a second handle to the new record.
    pub fn spawn_obj<C: FrostyAllocatable>(&mut self, obj: C) -> (r: Result<
        ObjectHandleMut<C>,
        SpawnError,
    >)
        requires
            old(self).wf(),
        ensures
            final(self).wf(),
            final(self).tags() == old(self).tags(),
            final(self).query_count() == old(self).query_count(),
            !old(self).tags().contains_key(C::type_tag()) ==> r == Err::<ObjectHandleMut<C>, SpawnError>(
                SpawnError::Unregistered(UnregisteredComponent),
            ),
            r.is_err() ==> {
                &&& final(self).arena().region() == old(self).arena().region()
                &&& final(self).arena().free_chunks() == old(self).arena().free_chunks()
                &&& final(self).arena().records() == old(self).arena().records()
                &&& forall|q: int| 0 <= q < old(self).query_count() ==> #[trigger] final(self).entries(q) == old(self).entries(q)
            },
            r.is_ok() ==> {
                let h = r.unwrap().record();
                &&& old(self).tags().contains_key(C::type_tag())
                &&& h == old(self).arena().records().len()
                &&& final(self).entries_of(C::type_tag()) == old(self).entries_of(C::type_tag()).push(h)
                &&& final(self).arena().live(h)
                &&& final(self).arena().holds::<C>(h)
                &&& final(self).arena().value_of::<C>(h) == obj
                &&& final(self).arena().semaphore_of(h) == 0
            },
            old(self).tags().contains_key(C::type_tag()) ==> (r.is_err() <==> alloc_fails(old(self).arena(), C::byte_len())),
            old(self).tags().contains_key(C::type_tag()) && r.is_err() ==> r matches Err(SpawnError::Capacity(_)),
            forall|q: int|
                0 <= q < old(self).query_count() && !(old(self).tags().contains_key(C::type_tag()) && q == old(self).tags()[C::type_tag()]) ==> #[trigger] final(self).entries(q)
                    == old(self).entries(q),
            forall|j: int|
                #![trigger old(self).arena().records()[j]]
                old(self).arena().live(j) ==> final(self).arena().live(j) && value_bytes(final(self).arena().region(), old(self).arena().records()[j])
                    == value_bytes(old(self).arena().region(), old(self).arena().records()[j]),
    {
        let tag = C::id().uid;
        let pos = match tag_map_get(&self.index, tag) {
            Some(p) => p,
            None => {
                return Err(SpawnError::Unregistered(UnregisteredComponent));
            },
        };
        proof {
            assert(old(self).tags().contains_key(tag));
            assert(pos < old(self).queries@.len());
        }
        let handle = match self.alloc.allocate(obj) {
            Ok(h) => h,
            Err(e) => {
                proof {
                    self.lemma_keep_wf(old(self));
                }
                return Err(SpawnError::Capacity(e));
            },
        };
        proof {
            assert(self.alloc.records()[handle.record()].active_handles == 1);
        }
        let mine = match self.alloc.get_mut::<C>(handle.index()) {
            Some(h) => h,
            None => {
                proof {
                    self.lemma_keep_wf(old(self));
                }
                return Err(SpawnError::Capacity(CapacityExhausted));
            },
        };
        let mut raw = self.queries.remove(pos);
        raw.add_handle(handle.dissolve_data());
        self.queries.insert(pos, raw);
        proof {
            let old_qs = old(self).queries@;
            let qs = self.queries@;
            assert(qs.len() == old_qs.len());
            assert forall|q: int| 0 <= q < qs.len() && q != pos implies #[trigger] self.entries(q) == old(self).entries(q) by {
                assert(qs[q] == old_qs[q]);
            }
            assert forall|t: u64, e: int|
                #[trigger] self.tags().contains_key(t) && 0 <= e < self.entries(self.tags()[t] as int).len()
                    implies {
                let rec = #[trigger] self.entries(self.tags()[t] as int)[e];
                &&& 0 <= rec < self.arena().records().len()
                &&& self.arena().records()[rec].tag.uid == t
            } by {
                if t != tag {
                    assert(old(self).tags().contains_key(t));
                    assert(self.tags()[t] != pos);
                    assert(self.entries(self.tags()[t] as int) == old(self).entries(old(self).tags()[t] as int));
                    let rec = self.entries(self.tags()[t] as int)[e];
                    assert(self.arena().records()[rec] == old(self).arena().records()[rec]);
                } else if e < old(self).entries(pos as int).len() {
                    let rec = self.entries(pos as int)[e];
                    assert(rec == old(self).entries(pos as int)[e]);
                    assert(self.arena().records()[rec].tag == old(self).arena().records()[rec].tag);
                }
            }
            assert forall|j: int|
                #![trigger old(self).arena().records()[j]]
                old(self).arena().live(j) implies self.arena().live(j) && value_bytes(self.arena().region(), old(self).arena().records()[j])
                    == value_bytes(old(self).arena().region(), old(self).arena().records()[j]) by {
                assert(self.arena().records()[j].freed == old(self).arena().records()[j].freed);
            }
        }
        Ok(mine)
    }

    /// From position `from` of query `q`, passes over the handles whose cells are
    /// freed or hold no `T`, then makes one write attempt of `thread` on the first
    /// other one. Returns the write slot when the attempt succeeds, and the position
    /// to go on from: past the handle on success, at it when the attempt failed, the
    /// end when no handle was left.
    pub fn next_in_query<T: FrostyAllocatable>(&mut self, q: usize, from: usize, thread: u32) -> (r: (
        Option<DataAccessMut<T>>,
        usize,
    ))
        requires
            old(self).wf(),
            q < old(self).query_count(),
            from <= old(self).entries(q as int).len(),
            thread < THREAD_SLOTS,
        ensures
            final(self).wf(),
            final(self).tags() == old(self).tags(),
            final(self).query_count() == old(self).query_count(),
            forall|q2: int| 0 <= q2 < old(self).query_count() ==> #[trigger] final(self).entries(q2) == old(self).entries(q2),
            final(self).arena().records() == old(self).arena().records(),
            forall|j: int|
                #![trigger old(self).arena().records()[j]]
                old(self).arena().live(j) ==> value_bytes(final(self).arena().region(), old(self).arena().records()[j])
                    == value_bytes(old(self).arena().region(), old(self).arena().records()[j]),
            ({
                let es = old(self).entries(q as int);
                let (acc, c) = r;
                &&& from <= c <= es.len()
                &&& acc.is_some() ==> {
                    &&& c >= from + 1
                    &&& forall|e: int| from <= e < c - 1 ==> !visible::<T>(old(self).arena(), #[trigger] es[e])
                    &&& visible::<T>(old(self).arena(), es[c - 1])
                    &&& acc.unwrap().record() == es[c - 1]
                    &&& acc.unwrap().thread() == thread
                    &&& write_granted(old(self).arena().semaphore_of(es[c - 1]), thread)
                    &&& final(self).arena().semaphore_of(es[c - 1]) == old(self).arena().semaphore_of(es[c - 1])
                        | pending_bit(thread) | BitMask::WRITE_FLAG
                }
                &&& acc.is_none() ==> {
                    &&& forall|e: int| from <= e < c ==> !visible::<T>(old(self).arena(), #[trigger] es[e])
                    &&& c == es.len() || (visible::<T>(old(self).arena(), es[c as int]) && !write_granted(
                        old(self).arena().semaphore_of(es[c as int]),
                        thread,
                    ))
                    &&& c < es.len() ==> final(self).arena().semaphore_of(es[c as int]) == old(self).arena().semaphore_of(
                        es[c as int],
                    ) | pending_bit(thread)
                }
                &&& forall|j: int|
                    #![trigger old(self).arena().records()[j]]
                    old(self).arena().live(j) && !(acc.is_some() && j == es[c - 1]) && !(acc.is_none() && c < es.len()
                        && j == es[c as int]) ==> final(self).arena().semaphore_of(j) == old(self).arena().semaphore_of(j)
            }),
    {
        let n = self.queries[q].len();
        let mut k = from;
        while k < n && !(self.alloc.is_live(self.queries[q].record_at(k)) && self.alloc.holds_type::<T>(
            self.queries[q].record_at(k),
        ))
            invariant
                self == old(self),
                q < self.query_count(),
                n == self.entries(q as int).len(),
                from <= k <= n,
                forall|e: int| from <= e < k ==> !visible::<T>(self.arena(), #[trigger] self.entries(q as int)[e]),
            decreases n - k,
        {
            k = k + 1;
        }
        if k == n {
            return (None, k);
        }
        let rec = self.queries[q].record_at(k);
        let h: ObjectHandleMut<T> = ObjectHandleMut::at(rec);
        let acc = self.alloc.get_access_mut::<T>(&h, thread);
        proof {
            self.lemma_keep_wf(old(self));
        }
        match acc {
            Some(a) => (Some(a), k + 1),
            None => (None, k),
        }
    }

    /// A read attempt through the spawner's arena; see `Allocator::get_access`.
    pub fn get_access<T: FrostyAllocatable>(&mut self, h: &ObjectHandleMut<T>, thread: u32) -> (r: Option<DataAccess<T>>)
        requires
            old(self).wf(),
            thread < THREAD_SLOTS,
        ensures
            final(self).wf(),
            final(self).tags() == old(self).tags(),
            final(self).query_count() == old(self).query_count(),
            forall|q2: int| 0 <= q2 < old(self).query_count() ==> #[trigger] final(self).entries(q2) == old(self).entries(q2),
            final(self).arena().records() == old(self).arena().records(),
            r.is_some() ==> r.unwrap().record() == h.record() && r.unwrap().thread() == thread,
            r.is_some() <==> old(self).arena().live(h.record()) && old(self).arena().holds::<T>(h.record()) && !crate::frosty_box::bit(
                old(self).arena().semaphore_of(h.record()),
                thread,
            ) && crate::frosty_box::read_granted(old(self).arena().semaphore_of(h.record())),
            forall|j: int|
                #![trigger old(self).arena().records()[j]]
                old(self).arena().live(j) ==> value_bytes(final(self).arena().region(), old(self).arena().records()[j])
                    == value_bytes(old(self).arena().region(), old(self).arena().records()[j]),
    {
        let r = self.alloc.get_access(h, thread);
        proof {
            self.lemma_keep_wf(old(self));
        }
        r
    }

    /// A write attempt through the spawner's arena; see `Allocator::get_access_mut`.
    pub fn get_access_mut<T: FrostyAllocatable>(&mut self, h: &ObjectHandleMut<T>, thread: u32) -> (r: Option<DataAccessMut<T>>)
        requires
            old(self).wf(),
            thread < THREAD_SLOTS,
        ensures
            final(self).wf(),
            final(self).tags() == old(self).tags(),
            final(self).query_count() == old(self).query_count(),
            forall|q2: int| 0 <= q2 < old(self).query_count() ==> #[trigger] final(self).entries(q2) == old(self).entries(q2),
            final(self).arena().records() == old(self).arena().records(),
            r.is_some() ==> r.unwrap().record() == h.record() && r.unwrap().thread() == thread,
            r.is_some() <==> old(self).arena().live(h.record()) && old(self).arena().holds::<T>(h.record())
                && write_granted(old(self).arena().semaphore_of(h.record()), thread),
            forall|j: int|
                #![trigger old(self).arena().records()[j]]
                old(self).arena().live(j) ==> value_bytes(final(self).arena().region(), old(self).arena().records()[j])
                    == value_bytes(old(self).arena().region(), old(self).arena().records()[j]),
    {
        let r = self.alloc.get_access_mut(h, thread);
        proof {
            self.lemma_keep_wf(old(self));
        }
        r
    }

    /// The value under a write slot.
    pub fn read_mut<T: FrostyAllocatable>(&self, a: &DataAccessMut<T>) -> (r: T)
        requires
            self.wf(),
            self.arena().holds::<T>(a.record()),
        ensures
            r == self.arena().value_of::<T>(a.record()),
    {
        a.as_ref(&self.alloc)
    }

    /// The value under a read slot.
    pub fn read<T: FrostyAllocatable>(&self, a: &DataAccess<T>) -> (r: T)
        requires
            self.wf(),
            self.arena().holds::<T>(a.record()),
        ensures
            r == self.arena().value_of::<T>(a.record()),
    {
        a.as_ref(&self.alloc)
    }

    /// Stores `v` under a write slot, when its cell is still live.
    pub fn write<T: FrostyAllocatable>(&mut self, a: &DataAccessMut<T>, v: T)
        requires
            old(self).wf(),
            old(self).arena().holds::<T>(a.record()),
        ensures
            final(self).wf(),
            final(self).tags() == old(self).tags(),
            final(self).query_count() == old(self).query_count(),
            forall|q2: int| 0 <= q2 < old(self).query_count() ==> #[trigger] final(self).entries(q2) == old(self).entries(q2),
            final(self).arena().records() == old(self).arena().records(),
            old(self).arena().live(a.record()) ==> final(self).arena().value_of::<T>(a.record()) == v,
            forall|j: int|
                #![trigger old(self).arena().records()[j]]
                old(self).arena().live(j) && j != a.record() ==> cell_bytes(final(self).arena().region(), old(self).arena().records()[j])
                    == cell_bytes(old(self).arena().region(), old(self).arena().records()[j]),
    {
        a.set(&mut self.alloc, v);
        proof {
            self.lemma_keep_wf(old(self));
        }
    }

    /// Gives a write slot back.
    pub fn release_mut<T: FrostyAllocatable>(&mut self, a: DataAccessMut<T>)
        requires
            old(self).wf(),
            a.thread() < THREAD_SLOTS,
        ensures
            final(self).wf(),
            final(self).tags() == old(self).tags(),
            final(self).query_count() == old(self).query_count(),
            forall|q2: int| 0 <= q2 < old(self).query_count() ==> #[trigger] final(self).entries(q2) == old(self).entries(q2),
            final(self).arena().records() == old(self).arena().records(),
            old(self).arena().live(a.record()) ==> final(self).arena().semaphore_of(a.record()) == old(self).arena().semaphore_of(
                a.record(),
            ) ^ (pending_bit(a.thread()) | BitMask::WRITE_FLAG),
            forall|j: int|
                #![trigger old(self).arena().records()[j]]
                old(self).arena().live(j) ==> value_bytes(final(self).arena().region(), old(self).arena().records()[j])
                    == value_bytes(old(self).arena().region(), old(self).arena().records()[j]),
    {
        a.release(&mut self.alloc);
        proof {
            self.lemma_keep_wf(old(self));
        }
    }

    /// Gives a read slot back.
    pub fn release<T: FrostyAllocatable>(&mut self, a: DataAccess<T>)
        requires
            old(self).wf(),
            a.thread() < THREAD_SLOTS,
        ensures
            final(self).wf(),
            final(self).tags() == old(self).tags(),
            final(self).query_count() == old(self).query_count(),
            forall|q2: int| 0 <= q2 < old(self).query_count() ==> #[trigger] final(self).entries(q2) == old(self).entries(q2),
            final(self).arena().records() == old(self).arena().records(),
            old(self).arena().live(a.record()) ==> final(self).arena().semaphore_of(a.record()) == old(self).arena().semaphore_of(
                a.record(),
            ) ^ crate::frosty_box::reader_bit(a.thread()),
            forall|j: int|
                #![trigger old(self).arena().records()[j]]
                old(self).arena().live(j) ==> value_bytes(final(self).arena().region(), old(self).arena().records()[j])
                    == value_bytes(old(self).arena().region(), old(self).arena().records()[j]),
    {
        a.release(&mut self.alloc);
        proof {
            self.lemma_keep_wf(old(self));
        }
    }

    /// Appends a handle to record `rec` to the query at position `pos`.
    fn append_to_query(&mut self, pos: usize, rec: usize)
        requires
            pos < old(self).query_count(),
        ensures
            final(self).arena() == old(self).arena(),
            final(self).tags() == old(self).tags(),
            final(self).query_count() == old(self).query_count(),
            final(self).entries(pos as int) == old(self).entries(pos as int).push(rec as int),
            forall|q: int| 0 <= q < old(self).query_count() && q != pos ==> #[trigger] final(self).entries(q) == old(self).entries(q),
    {
        let h: ObjectHandleMut<u8> = ObjectHandleMut::at(rec);
        let mut raw = self.queries.remove(pos);
        raw.add_handle(h);
        self.queries.insert(pos, raw);
        proof {
            let old_qs = old(self).queries@;
            let qs = self.queries@;
            assert forall|q: int| 0 <= q < qs.len() && q != pos implies #[trigger] self.entries(q) == old(self).entries(q) by {
                assert(qs[q] == old_qs[q]);
            }
        }
    }

    /// Moves every component of `entity` into the arena and appends each handle to
    /// the query of its type. When some component's type was never registered,
    /// nothing is spawned.
    #[verifier::spinoff_prover]
    pub fn spawn(&mut self, entity: Entity) -> (r: Result<(), SpawnError>)
        requires
            old(self).wf(),
            entity.wf(),
        ensures
            final(self).wf(),
            final(self).tags() == old(self).tags(),
            final(self).query_count() == old(self).query_count(),
            (exists|i: int| 0 <= i < entity.components().len() && !old(self).tags().contains_key(#[trigger] entity.components()[i].0))
                <==> r == Err::<(), SpawnError>(SpawnError::Unregistered(UnregisteredComponent)),
            r matches Err(SpawnError::Capacity(_)) ==> exists|k: int|
                0 <= k < entity.components().len() && alloc_fails(final(self).arena(), #[trigger] entity.components()[k].1.len()),
            r == Err::<(), SpawnError>(SpawnError::Unregistered(UnregisteredComponent)) ==> final(self).arena() == old(self).arena()
                && forall|q: int| 0 <= q < old(self).query_count() ==> #[trigger] final(self).entries(q) == old(self).entries(q),
            r.is_ok() ==> {
                let base = old(self).arena().records().len();
                let cs = entity.components();
                &&& final(self).arena().records().len() == base + cs.len()
                &&& forall|k: int| 0 <= k < cs.len() ==> {
                    let rec = #[trigger] final(self).arena().records()[base + k];
                    &&& final(self).arena().live(base + k)
                    &&& rec.tag.uid == cs[k].0
                    &&& value_bytes(final(self).arena().region(), rec) == cs[k].1
                    &&& final(self).entries_of(cs[k].0) == old(self).entries_of(cs[k].0).push(base + k)
                }
                &&& forall|t: u64| #[trigger] old(self).tags().contains_key(t) && (forall|k: int| 0 <= k < cs.len() ==> cs[k].0 != t)
                    ==> final(self).entries_of(t) == old(self).entries_of(t)
            },
    {
        let ghost cs = entity.components();
        let comps = entity.dissolve();
        let m = comps.len();
        let mut i: usize = 0;
        while i < m
            invariant
                m == comps@.len(),
                m == cs.len(),
                forall|k: int| 0 <= k < m ==> component_view(#[trigger] comps@[k]) == cs[k],
                i <= m,
                forall|k: int| 0 <= k < i ==> old(self).tags().contains_key(#[trigger] cs[k].0),
                self == old(self),
                old(self).wf(),
                cs == entity.components(),
            decreases m - i,
        {
            if tag_map_get(&self.index, comps[i].tag.uid).is_none() {
                proof {
                    assert(component_view(comps@[i as int]) == cs[i as int]);
                    assert(!old(self).tags().contains_key(cs[i as int].0));
                }
                return Err(SpawnError::Unregistered(UnregisteredComponent));
            }
            i = i + 1;
        }
        let ghost base = self.alloc.records().len();
        let mut i: usize = 0;
        while i < m
            invariant
                m == comps@.len(),
                m == cs.len(),
                forall|k: int| 0 <= k < m ==> component_view(#[trigger] comps@[k]) == cs[k],
                forall|a: int, b: int| 0 <= a < b < cs.len() ==> (#[trigger] cs[a]).0 != (#[trigger] cs[b]).0,
                forall|k: int| 0 <= k < m ==> old(self).tags().contains_key(#[trigger] cs[k].0),
                base == old(self).arena().records().len(),
                cs == entity.components(),
                i <= m,
                self.wf(),
                self.tags() == old(self).tags(),
                self.query_count() == old(self).query_count(),
                self.arena().records().len() == base + i,
                forall|k: int| 0 <= k < i ==> {
                    let rec = #[trigger] self.arena().records()[base + k];
                    &&& self.arena().live(base + k)
                    &&& rec.tag.uid == cs[k].0
                    &&& value_bytes(self.arena().region(), rec) == cs[k].1
                    &&& self.entries_of(cs[k].0) == old(self).entries_of(cs[k].0).push(base + k)
                },
                forall|t: u64| #[trigger] old(self).tags().contains_key(t) && (forall|k: int| 0 <= k < i ==> cs[k].0 != t)
                    ==> self.entries_of(t) == old(self).entries_of(t),
            decreases m - i,
        {
            let tag = comps[i].tag;
            let pos = match tag_map_get(&self.index, tag.uid) {
                Some(p) => p,
                None => {
                    proof {
                        assert(component_view(comps@[i as int]) == cs[i as int]);
                        assert(cs[i as int].0 == tag.uid);
                        assert(old(self).tags().contains_key(cs[i as int].0));
                    }
                    return Err(SpawnError::Unregistered(UnregisteredComponent));
                },
            };
            let ghost s0 = *self;
            let rec = match self.alloc.alloc_raw(tag, &comps[i].bytes) {
                Ok(r) => r,
                Err(e) => {
                    proof {
                        self.lemma_keep_wf(&s0);
                        assert(component_view(comps@[i as int]) == cs[i as int]);
                        assert(alloc_fails(s0.arena(), cs[i as int].1.len()));
                        assert(alloc_fails(self.arena(), entity.components()[i as int].1.len()));
                    }
                    return Err(SpawnError::Capacity(e));
                },
            };
            proof {
                assert(pos < self.query_count());
            }
            let ghost s1 = *self;
            self.append_to_query(pos, rec);
            proof {
                let t = cs[i as int].0;
                assert(tag.uid == t);
                // No earlier component has this type, so its query held only old handles.
                assert forall|k: int| 0 <= k < i implies cs[k].0 != t by {}
                assert(s0.entries_of(t) == old(self).entries_of(t));
                assert(s1.tags() == s0.tags());
                assert forall|tt: u64, e: int|
                    #[trigger] self.tags().contains_key(tt) && 0 <= e < self.entries(self.tags()[tt] as int).len()
                        implies {
                    let r2 = #[trigger] self.entries(self.tags()[tt] as int)[e];
                    &&& 0 <= r2 < self.arena().records().len()
                    &&& self.arena().records()[r2].tag.uid == tt
                } by {
                    let q = self.tags()[tt];
                    if q == pos {
                        assert(tt == t);
                        if e < s0.entries(pos as int).len() {
                            assert(self.entries(pos as int)[e] == s0.entries(pos as int)[e]);
                            let r2 = s0.entries(pos as int)[e];
                            assert(s1.arena().records()[r2] == s0.arena().records()[r2]);
                        }
                    } else {
                        assert(self.entries(q as int) == s0.entries(q as int));
                        let r2 = s0.entries(q as int)[e];
                        assert(s1.arena().records()[r2] == s0.arena().records()[r2]);
                    }
                }
                assert forall|k: int| 0 <= k < i + 1 implies {
                    let r2 = #[trigger] self.arena().records()[base + k];
                    &&& self.arena().live(base + k)
                    &&& r2.tag.uid == cs[k].0
                    &&& value_bytes(self.arena().region(), r2) == cs[k].1
                    &&& self.entries_of(cs[k].0) == old(self).entries_of(cs[k].0).push(base + k)
                } by {
                    if k < i {
                        assert(self.arena().records()[base + k] == s0.arena().records()[base + k]);
                        assert(cs[k].0 != t);
                        assert(s0.tags()[cs[k].0] != pos);
                    } else {
                        assert(component_view(comps@[k]) == cs[k]);
                    }
                }
                assert forall|tt: u64| #[trigger] old(self).tags().contains_key(tt) && (forall|k: int| 0 <= k < i + 1 ==> cs[k].0 != tt)
                    implies self.entries_of(tt) == old(self).entries_of(tt) by {
                    assert(cs[i as int].0 != tt);
                    assert(s0.tags()[tt] != pos);
                }
            }
            i = i + 1;
        }
        Ok(())
    }

    /// The position of the query of type tag `tag`.
    pub fn query_position(&self, tag: u64) -> (r: Option<usize>)
        ensures
            r == (if self.tags().contains_key(tag) {
                Some(self.tags()[tag])
            } else {
                None
            }),
    {
        tag_map_get(&self.index, tag)
    }

    /// A cursor over the query of `C`, for thread `thread`.
    pub fn get_query<C: FrostyAllocatable>(&self, thread: u32) -> (r: Option<Query<C>>)
        ensures
            r.is_some() <==> self.tags().contains_key(C::type_tag()),
            r.is_some() ==> r.unwrap().query_index() == self.tags()[C::type_tag()] && r.unwrap().cursor() == 0
                && r.unwrap().thread_id() == thread,
    {
        match tag_map_get(&self.index, C::id().uid) {
            Some(p) => Some(Query::new(p, thread)),
            None => None,
        }
    }

    /// A cursor over the query of type tag `id`, with the type dropped.
    pub fn get_query_by_id(&self, id: &AllocId, thread: u32) -> (r: Option<Query<u8>>)
        ensures
            r.is_some() <==> self.tags().contains_key(id.uid),
            r.is_some() ==> r.unwrap().query_index() == self.tags()[id.uid] && r.unwrap().cursor() == 0
                && r.unwrap().thread_id() == thread,
    {
        match tag_map_get(&self.index, id.uid) {
            Some(p) => Some(Query::new(p, thread)),
            None => None,
        }
    }

    /// The query at position `q`, for reading its handles.
    pub fn raw_query(&self, q: usize) -> (r: &RawQuery)
        requires
            q < self.query_count(),
        ensures
            r.entries() == self.entries(q as int),
    {
        &self.queries[q]
    }

    /// Frees the component of `h`; its handles stay in the queries and are skipped.
    pub fn free<C>(&mut self, h: &ObjectHandleMut<C>)
        requires
            old(self).wf(),
        ensures
            final(self).wf(),
            final(self).tags() == old(self).tags(),
            final(self).query_count() == old(self).query_count(),
            forall|q: int| 0 <= q < old(self).query_count() ==> #[trigger] final(self).entries(q) == old(self).entries(q),
            !final(self).arena().live(h.record()),
            forall|j: int|
                #![trigger old(self).arena().records()[j]]
                old(self).arena().live(j) && j != h.record() ==> final(self).arena().live(j) && value_bytes(final(self).arena().region(), old(self).arena().records()[j])
                    == value_bytes(old(self).arena().region(), old(self).arena().records()[j]),
    {
        self.alloc.free(h);
        proof {
            let ors = old(self).arena().records();
            let nrs = self.arena().records();
            assert(nrs.len() == ors.len());
            assert forall|j: int| 0 <= j < ors.len() implies (#[trigger] nrs[j]).tag == ors[j].tag && (j
                != h.record() ==> nrs[j] == ors[j]) by {
                if old(self).arena().live(h.record()) {
                    assert(nrs == ors.update(h.record(), crate::allocator::InterimPtr { freed: true, ..ors[h.record()] }));
                }
            }
            self.lemma_keep_wf(old(self));
            assert forall|j: int|
                #![trigger old(self).arena().records()[j]]
                old(self).arena().live(j) && j != h.record() implies self.arena().live(j) && value_bytes(self.arena().region(), old(self).arena().records()[j])
                    == value_bytes(old(self).arena().region(), old(self).arena().records()[j]) by {
                assert(self.arena().records()[j] == old(self).arena().records()[j]);
            }
        }
    }
}


impl<T: FrostyAllocatable> Query<T> {
    /// The next component of the query, with its write slot held by the query's
    /// thread: freed cells are passed over, and each live one is handed out once per
    /// pass. `None` at the end, and also when the write attempt on the next live cell
    /// failed; the cursor then stays on that cell, and the thread's pending bit on its
    /// word, for a later attempt.
    pub fn next(&mut self, sp: &mut Spawner) -> (r: Option<DataAccessMut<T>>)
        requires
            old(sp).wf(),
            old(self).query_index() < old(sp).query_count(),
            old(self).cursor() <= old(sp).entries(old(self).query_index()).len(),
            old(self).thread_id() < THREAD_SLOTS,
        ensures
            final(sp).wf(),
            final(sp).tags() == old(sp).tags(),
            final(sp).query_count() == old(sp).query_count(),
            forall|q2: int| 0 <= q2 < old(sp).query_count() ==> #[trigger] final(sp).entries(q2) == old(sp).entries(q2),
            final(sp).arena().records() == old(sp).arena().records(),
            final(self).query_index() == old(self).query_index(),
            final(self).thread_id() == old(self).thread_id(),
            ({
                let es = old(sp).entries(old(self).query_index());
                let from = old(self).cursor();
                let c = final(self).cursor();
                &&& from <= c <= es.len()
                &&& r.is_some() ==> {
                    &&& c >= from + 1
                    &&& forall|e: int| from <= e < c - 1 ==> !visible::<T>(old(sp).arena(), #[trigger] es[e])
                    &&& visible::<T>(old(sp).arena(), es[c - 1])
                    &&& r.unwrap().record() == es[c - 1]
                    &&& r.unwrap().thread() == old(self).thread_id()
                }
                &&& r.is_some() ==> final(sp).arena().semaphore_of(es[c - 1]) == old(sp).arena().semaphore_of(es[c - 1])
                    | pending_bit(old(self).thread_id()) | BitMask::WRITE_FLAG
                &&& r.is_none() ==> {
                    &&& forall|e: int| from <= e < c ==> !visible::<T>(old(sp).arena(), #[trigger] es[e])
                    &&& c == es.len() || (visible::<T>(old(sp).arena(), es[c]) && !write_granted(
                        old(sp).arena().semaphore_of(es[c]),
                        old(self).thread_id(),
                    ))
                    &&& c < es.len() ==> final(sp).arena().semaphore_of(es[c]) == old(sp).arena().semaphore_of(es[c])
                        | pending_bit(old(self).thread_id())
                }
                &&& forall|j: int|
                    #![trigger old(sp).arena().records()[j]]
                    old(sp).arena().live(j) && !(r.is_some() && j == es[c - 1]) && !(r.is_none() && c < es.len() && j
                        == es[c]) ==> final(sp).arena().semaphore_of(j) == old(sp).arena().semaphore_of(j)
            }),
            forall|j: int|
                #![trigger old(sp).arena().records()[j]]
                old(sp).arena().live(j) ==> value_bytes(final(sp).arena().region(), old(sp).arena().records()[j])
                    == value_bytes(old(sp).arena().region(), old(sp).arena().records()[j]),
    {
        let (acc, c) = sp.next_in_query::<T>(self.raw_index(), self.position(), self.thread());
        self.with_cursor(c);
        acc
    }

    /// The interface handles of every component in the query, for a reader that
    /// acts on them through an interface `U` of their type.
    pub fn cast_dyn<U: ?Sized>(self, sp: &Spawner) -> (r: DynQuery<U>)
        requires
            self.query_index() < sp.query_count(),
        ensures
            r.entries() == sp.entries(self.query_index()),
            r.cursor() == 0,
    {
        let raw = sp.raw_query(self.raw_index());
        let handles = raw.as_handles();
        let mut out: DynQuery<U> = DynQuery::new_empty();
        let mut i: usize = 0;
        while i < handles.len()
            invariant
                i <= handles@.len(),
                crate::query::records_of(handles@) == sp.entries(self.query_index()),
                out.entries() == crate::query::records_of(handles@).subrange(0, i as int),
                out.cursor() == 0,
            decreases handles@.len() - i,
        {
            out.push(&handles[i]);
            i = i + 1;
            proof {
                assert(out.entries() =~= crate::query::records_of(handles@).subrange(0, i as int));
            }
        }
        proof {
            assert(crate::query::records_of(handles@).subrange(0, i as int) =~= crate::query::records_of(handles@));
        }
        out
    }

    /// Whether the cursor has passed every handle of the query.
    pub fn at_end(&self, sp: &Spawner) -> (r: bool)
        requires
            self.query_index() < sp.query_count(),
        ensures
            r == (self.cursor() >= sp.entries(self.query_index()).len()),
    {
        self.position() >= sp.raw_query(self.raw_index()).len()
    }
}

} // verus!
