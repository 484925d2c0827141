use std::marker::PhantomData;

use vstd::prelude::*;

use crate::handle::ObjectHandleMut;

verus! {

/// How a task takes the handles of its query.
#[derive(Clone, Copy, Debug, PartialEq, Eq, Structural)]
pub enum QueryForm {
    /// All handles at once.
    Continuous,
    /// One handle at a time, for tasks spread over workers.
    Discrete(u8),
}

/// The handles of every component of one type, in the order they were spawned, with
/// their type tags dropped.
pub struct RawQuery {
    form: QueryForm,
    objs: Vec<ObjectHandleMut<u8>>,
}

/// The arena records that the handles of `objs` name.
pub open spec fn records_of(objs: Seq<ObjectHandleMut<u8>>) -> Seq<int> {
    Seq::new(objs.len(), |i: int| objs[i].record())
}

impl RawQuery {
    /// The records of the query's handles, in order.
    pub closed spec fn entries(&self) -> Seq<int> {
        records_of(self.objs@)
    }

    pub closed spec fn shape(&self) -> QueryForm {
        self.form
    }

    pub fn new(form: QueryForm, objs: Vec<ObjectHandleMut<u8>>) -> (r: Self)
        ensures
            r.entries() == records_of(objs@),
            r.shape() == form,
    {
        RawQuery { form, objs }
    }

    /// Appends a handle; nothing already in the query moves.
    pub fn add_handle(&mut self, handle: ObjectHandleMut<u8>)
        ensures
            final(self).entries() == old(self).entries().push(handle.record()),
            final(self).shape() == old(self).shape(),
    {
        self.objs.push(handle);
        proof {
            assert(records_of(self.objs@) =~= records_of(old(self).objs@).push(handle.record()));
        }
    }

    pub fn len(&self) -> (r: usize)
        ensures
            r == self.entries().len(),
    {
        self.objs.len()
    }

    /// The record of the handle at position `i`.
    pub fn record_at(&self, i: usize) -> (r: usize)
        requires
            i < self.entries().len(),
        ensures
            r == self.entries()[i as int],
    {
        self.objs[i].index()
    }

    /// The query's handles, for a reader that needs no access to the values.
    pub fn as_handles(&self) -> (r: &[ObjectHandleMut<u8>])
        ensures
            records_of(r@) == self.entries(),
    {
        self.objs.as_slice()
    }

    pub fn form(&self) -> (r: QueryForm)
        ensures
            r == self.shape(),
    {
        self.form
    }
}

/// A handle to a component seen through an interface `T` that its type offers; it
/// names the same record, and so shares the cell's semaphore.
pub struct DynObjectHandle<T: ?Sized> {
    ptr: usize,
    _pd: PhantomData<T>,
}

impl<T: ?Sized> DynObjectHandle<T> {
    pub closed spec fn record(&self) -> int {
        self.ptr as int
    }

    pub fn new<U>(handle: &ObjectHandleMut<U>) -> (r: Self)
        ensures
            r.record() == handle.record(),
    {
        DynObjectHandle { ptr: handle.index(), _pd: PhantomData }
    }

    pub fn index(&self) -> (r: usize)
        ensures
            r == self.record(),
    {
        self.ptr
    }

    /// The handle with its concrete type put back, for access to the value.
    pub fn as_handle<U>(&self) -> (r: ObjectHandleMut<U>)
        ensures
            r.record() == self.record(),
    {
        ObjectHandleMut::at(self.ptr)
    }
}

/// The records of a list of interface handles.
pub open spec fn dyn_records_of<T: ?Sized>(objs: Seq<DynObjectHandle<T>>) -> Seq<int> {
    Seq::new(objs.len(), |i: int| objs[i].record())
}

/// A collection of interface handles, gathered from one or more queries, with a
/// cursor.
pub struct DynQuery<T: ?Sized> {
    objs: Vec<DynObjectHandle<T>>,
    obj_ptr: usize,
}

impl<T: ?Sized> DynQuery<T> {
    pub closed spec fn entries(&self) -> Seq<int> {
        dyn_records_of(self.objs@)
    }

    pub closed spec fn cursor(&self) -> int {
        self.obj_ptr as int
    }

    /// A collection without handles.
    pub fn new_empty() -> (r: Self)
        ensures
            r.entries() == Seq::<int>::empty(),
            r.cursor() == 0,
    {
        let r = DynQuery { objs: Vec::new(), obj_ptr: 0 };
        proof {
            assert(r.entries() =~= Seq::<int>::empty());
        }
        r
    }

    /// Appends the interface handle of `obj`.
    pub fn push<U>(&mut self, obj: &ObjectHandleMut<U>)
        ensures
            final(self).entries() == old(self).entries().push(obj.record()),
            final(self).cursor() == old(self).cursor(),
    {
        self.objs.push(DynObjectHandle::new(obj));
        proof {
            assert(self.entries() =~= old(self).entries().push(obj.record()));
        }
    }

    /// Starts the iteration over.
    pub fn reset(&mut self)
        ensures
            final(self).entries() == old(self).entries(),
            final(self).cursor() == 0,
    {
        self.obj_ptr = 0;
    }

    pub fn get_count(&self) -> (r: usize)
        ensures
            r == self.entries().len(),
    {
        self.objs.len()
    }

    /// The handle under the cursor, which then moves past it.
    pub fn next(&mut self) -> (r: Option<DynObjectHandle<T>>)
        ensures
            final(self).entries() == old(self).entries(),
            0 <= old(self).cursor() < old(self).entries().len() ==> r.is_some() && r.unwrap().record()
                == old(self).entries()[old(self).cursor()] && final(self).cursor() == old(self).cursor() + 1,
            !(0 <= old(self).cursor() < old(self).entries().len()) ==> r.is_none() && final(self).cursor()
                == old(self).cursor(),
    {
        if self.obj_ptr >= self.objs.len() {
            return None;
        }
        let h = DynObjectHandle { ptr: self.objs[self.obj_ptr].index(), _pd: PhantomData };
        self.obj_ptr = self.obj_ptr + 1;
        Some(h)
    }
}

/// A cursor over the query of one component type, used by one thread.
pub struct Query<T> {
    raw: usize,
    obj_ptr: usize,
    pub(crate) thread: u32,
    _pd: PhantomData<T>,
}

impl<T> Query<T> {
    /// Position of the query in the spawner's list of queries.
    pub closed spec fn query_index(&self) -> int {
        self.raw as int
    }

    /// Position of the next handle to look at.
    pub closed spec fn cursor(&self) -> int {
        self.obj_ptr as int
    }

    pub closed spec fn thread_id(&self) -> u32 {
        self.thread
    }

    /// A cursor at the start of the query at position `raw`, for thread `thread_id`.
    pub fn new(raw: usize, thread_id: u32) -> (r: Self)
        ensures
            r.query_index() == raw,
            r.cursor() == 0,
            r.thread_id() == thread_id,
    {
        Query { raw, obj_ptr: 0, thread: thread_id, _pd: PhantomData }
    }

    pub(crate) fn with_cursor(&mut self, obj_ptr: usize)
        ensures
            final(self).cursor() == obj_ptr,
            final(self).query_index() == old(self).query_index(),
            final(self).thread_id() == old(self).thread_id(),
    {
        self.obj_ptr = obj_ptr;
    }

    pub fn raw_index(&self) -> (r: usize)
        ensures
            r == self.query_index(),
    {
        self.raw
    }

    pub fn position(&self) -> (r: usize)
        ensures
            r == self.cursor(),
    {
        self.obj_ptr
    }

    pub fn thread(&self) -> (r: u32)
        ensures
            r == self.thread_id(),
    {
        self.thread
    }

    /// The same cursor, reading the components as `U`.
    pub fn cast<U>(self) -> (r: Query<U>)
        ensures
            r.query_index() == self.query_index(),
            r.cursor() == self.cursor(),
            r.thread_id() == self.thread_id(),
    {
        Query { raw: self.raw, obj_ptr: self.obj_ptr, thread: self.thread, _pd: PhantomData }
    }

    /// Starts the iteration over.
    pub fn reset(&mut self)
        ensures
            final(self).cursor() == 0,
            final(self).query_index() == old(self).query_index(),
            final(self).thread_id() == old(self).thread_id(),
    {
        self.obj_ptr = 0;
    }
}

} // verus!
