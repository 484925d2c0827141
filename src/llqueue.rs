use vstd::prelude::*;

verus! {

/// The queue holds as many items as it was made for.
#[derive(Clone, Copy, Debug, PartialEq, Eq, Structural)]
pub struct QueueFull;

/// The queue that a handle pointed to is gone.
#[derive(Clone, Copy, Debug, PartialEq, Eq, Structural)]
pub struct QueueLost;

#[derive(Clone, Copy, Debug, PartialEq, Eq, Structural)]
pub enum LLQueueError {
    Full(QueueFull),
    Lost(QueueLost),
}

impl From<QueueFull> for LLQueueError {
    fn from(value: QueueFull) -> (r: Self)
        ensures
            r == LLQueueError::Full(value),
    {
        LLQueueError::Full(value)
    }
}

impl vstd::std_specs::convert::FromSpecImpl<QueueFull> for LLQueueError {
    open spec fn obeys_from_spec() -> bool {
        true
    }

    open spec fn from_spec(v: QueueFull) -> LLQueueError {
        LLQueueError::Full(v)
    }
}

/// A bounded first-in first-out queue of requests, filled by tasks during a tick and
/// drained by the runner after it. Every slot is used once: a pushed item keeps its
/// slot after it is popped.
pub struct LLQueueInner<T> {
    data: Vec<T>,
    head: usize,
    capacity: usize,
}

impl<T: Copy> LLQueueInner<T> {
    /// The items pushed and not yet popped, oldest first.
    pub closed spec fn pending(&self) -> Seq<T> {
        self.data@.subrange(self.head as int, self.data@.len() as int)
    }

    /// How many items were pushed since the queue was made.
    pub closed spec fn pushed(&self) -> nat {
        self.data@.len()
    }

    /// How many pushes the queue takes in all.
    pub closed spec fn bound(&self) -> nat {
        self.capacity as nat
    }

    pub closed spec fn wf(&self) -> bool {
        self.head <= self.data@.len() <= self.capacity
    }

    /// A queue that takes no item.
    pub fn new() -> (r: Self)
        ensures
            r.wf(),
            r.pending() == Seq::<T>::empty(),
            r.pushed() == 0,
            r.bound() == 0,
    {
        Self::with_capacity(0)
    }

    /// A queue that takes `capacity` items in all.
    pub fn with_capacity(capacity: usize) -> (r: Self)
        ensures
            r.wf(),
            r.pending() == Seq::<T>::empty(),
            r.pushed() == 0,
            r.bound() == capacity,
    {
        let r = LLQueueInner { data: Vec::new(), head: 0, capacity };
        proof {
            assert(r.pending() =~= Seq::<T>::empty());
        }
        r
    }

    /// The oldest item not yet popped.
    pub fn pop(&mut self) -> (r: Option<T>)
        requires
            old(self).wf(),
        ensures
            final(self).wf(),
            final(self).pushed() == old(self).pushed(),
            final(self).bound() == old(self).bound(),
            old(self).pending().len() == 0 ==> r.is_none() && final(self).pending() == old(self).pending(),
            old(self).pending().len() > 0 ==> r == Some(old(self).pending()[0]) && final(self).pending()
                == old(self).pending().drop_first(),
    {
        if self.head == self.data.len() {
            return None;
        }
        let item = self.data[self.head];
        self.head = self.head + 1;
        proof {
            assert(self.pending() =~= old(self).pending().drop_first());
        }
        Some(item)
    }

    /// Appends `item`, unless the queue already took as many items as it was made for.
    pub fn push(&mut self, item: T) -> (r: Result<(), QueueFull>)
        requires
            old(self).wf(),
        ensures
            final(self).wf(),
            final(self).bound() == old(self).bound(),
            r.is_err() <==> old(self).pushed() >= old(self).bound(),
            r.is_err() ==> final(self).pending() == old(self).pending() && final(self).pushed() == old(self).pushed(),
            r.is_ok() ==> final(self).pending() == old(self).pending().push(item) && final(self).pushed() == old(self).pushed() + 1,
    {
        if self.data.len() >= self.capacity {
            return Err(QueueFull);
        }
        self.data.push(item);
        proof {
            assert(self.pending() =~= old(self).pending().push(item));
        }
        Ok(())
    }

    /// Number of items waiting.
    pub fn len(&self) -> (r: usize)
        requires
            self.wf(),
        ensures
            r == self.pending().len(),
    {
        self.data.len() - self.head
    }
}

} // verus!
