use std::marker::PhantomData;

use vstd::prelude::*;

verus! {

/// A handle that may read the component in one arena record.
pub struct ObjectHandle<T> {
    ptr: usize,
    _pd: PhantomData<T>,
}

/// A handle that may read or write the component in one arena record.
pub struct ObjectHandleMut<T> {
    ptr: usize,
    _pd: PhantomData<T>,
}

/// A held read slot of one cell, taken by thread `thread`.
pub struct DataAccess<T> {
    ptr: usize,
    thread: u32,
    _pd: PhantomData<T>,
}

/// The held write slot of one cell, taken by thread `thread`.
pub struct DataAccessMut<T> {
    ptr: usize,
    thread: u32,
    _pd: PhantomData<T>,
}

impl<T> ObjectHandle<T> {
    /// The arena record that the handle names.
    pub closed spec fn record(&self) -> int {
        self.ptr as int
    }

    pub(crate) fn at(ptr: usize) -> (r: Self)
        ensures
            r.record() == ptr,
    {
        ObjectHandle { ptr, _pd: PhantomData }
    }

    pub fn index(&self) -> (r: usize)
        ensures
            r == self.record(),
    {
        self.ptr
    }
}

impl<T> ObjectHandleMut<T> {
    pub closed spec fn record(&self) -> int {
        self.ptr as int
    }

    pub(crate) fn at(ptr: usize) -> (r: Self)
        ensures
            r.record() == ptr,
    {
        ObjectHandleMut { ptr, _pd: PhantomData }
    }

    pub fn index(&self) -> (r: usize)
        ensures
            r == self.record(),
    {
        self.ptr
    }

    /// The same record with the type tag dropped, as queries hold it.
    pub fn dissolve_data(&self) -> (r: ObjectHandleMut<u8>)
        ensures
            r.record() == self.record(),
    {
        ObjectHandleMut { ptr: self.ptr, _pd: PhantomData }
    }

    /// The same record seen as holding a `U`.
    pub fn cast_clone<U>(&self) -> (r: ObjectHandleMut<U>)
        ensures
            r.record() == self.record(),
    {
        ObjectHandleMut { ptr: self.ptr, _pd: PhantomData }
    }

    /// A read-only handle to the same record.
    pub fn as_ref_handle(&self) -> (r: ObjectHandle<T>)
        ensures
            r.record() == self.record(),
    {
        ObjectHandle { ptr: self.ptr, _pd: PhantomData }
    }
}

impl<T> DataAccess<T> {
    pub closed spec fn record(&self) -> int {
        self.ptr as int
    }

    pub closed spec fn thread(&self) -> u32 {
        self.thread
    }

    pub(crate) fn at(ptr: usize, thread: u32) -> (r: Self)
        ensures
            r.record() == ptr,
            r.thread() == thread,
    {
        DataAccess { ptr, thread, _pd: PhantomData }
    }

    pub fn index(&self) -> (r: usize)
        ensures
            r == self.record(),
    {
        self.ptr
    }

    pub fn thread_id(&self) -> (r: u32)
        ensures
            r == self.thread(),
    {
        self.thread
    }
}

impl<T> DataAccessMut<T> {
    pub closed spec fn record(&self) -> int {
        self.ptr as int
    }

    pub closed spec fn thread(&self) -> u32 {
        self.thread
    }

    pub(crate) fn at(ptr: usize, thread: u32) -> (r: Self)
        ensures
            r.record() == ptr,
            r.thread() == thread,
    {
        DataAccessMut { ptr, thread, _pd: PhantomData }
    }

    pub fn index(&self) -> (r: usize)
        ensures
            r == self.record(),
    {
        self.ptr
    }

    pub fn thread_id(&self) -> (r: u32)
        ensures
            r == self.thread(),
    {
        self.thread
    }
}

} // verus!
