use vstd::prelude::*;

use crate::access::{AllocId, FrostyAllocatable};
use crate::handle::ObjectHandle;

verus! {

/// A reference from one component to another component of the same entity, set
/// once the entity is in the arena.
pub struct SiblingComponent<T> {
    handle: Option<ObjectHandle<T>>,
}

impl<T> SiblingComponent<T> {
    pub closed spec fn target(&self) -> Option<int> {
        match self.handle {
            Some(h) => Some(h.record()),
            None => None,
        }
    }

    /// A reference that points nowhere yet.
    pub fn new() -> (r: Self)
        ensures
            r.target().is_none(),
    {
        SiblingComponent { handle: None }
    }

    /// Points the reference at the sibling's record.
    pub fn set(&mut self, handle: ObjectHandle<T>)
        ensures
            final(self).target() == Some(handle.record()),
    {
        self.handle = Some(handle);
    }

    /// The sibling's handle, once set.
    pub fn get(&self) -> (r: &Option<ObjectHandle<T>>)
        ensures
            self.target().is_none() <==> r.is_none(),
            r.is_some() ==> self.target() == Some(r.unwrap().record()),
    {
        &self.handle
    }
}

/// One component of an entity: its type tag and its value bytes.
pub struct EntityComponent {
    pub tag: AllocId,
    pub bytes: Vec<u8>,
}

/// The tag of a component with the view of its bytes.
pub open spec fn component_view(c: EntityComponent) -> (u64, Seq<u8>) {
    (c.tag.uid, c.bytes@)
}

/// Components gathered before they go into the arena together, at most one of each
/// type.
pub struct Entity {
    comps: Vec<EntityComponent>,
}

impl Entity {
    /// The entity's components, in the order their types were first added.
    pub closed spec fn components(&self) -> Seq<(u64, Seq<u8>)> {
        Seq::new(self.comps@.len(), |i: int| component_view(self.comps@[i]))
    }

    /// No two components share a type.
    pub open spec fn wf(&self) -> bool {
        forall|i: int, j: int|
            0 <= i < j < self.components().len() ==> (#[trigger] self.components()[i]).0 != (
            #[trigger] self.components()[j]).0
    }

    pub fn new() -> (r: Self)
        ensures
            r.wf(),
            r.components() == Seq::<(u64, Seq<u8>)>::empty(),
    {
        let r = Entity { comps: Vec::new() };
        proof {
            assert(r.components() =~= Seq::<(u64, Seq<u8>)>::empty());
        }
        r
    }

    /// Adds `comp`; a component of the same type already there is replaced.
    pub fn add<T: FrostyAllocatable>(&mut self, comp: T)
        requires
            old(self).wf(),
        ensures
            final(self).wf(),
            (exists|i: int| 0 <= i < old(self).components().len() && (#[trigger] old(self).components()[i]).0 == T::type_tag())
                ==> final(self).components().len() == old(self).components().len() && forall|i: int|
                0 <= i < old(self).components().len() ==> #[trigger] final(self).components()[i] == (if old(self).components()[i].0 == T::type_tag() {
                    (T::type_tag(), T::encode(comp))
                } else {
                    old(self).components()[i]
                }),
            !(exists|i: int| 0 <= i < old(self).components().len() && (#[trigger] old(self).components()[i]).0 == T::type_tag())
                ==> final(self).components() == old(self).components().push((T::type_tag(), T::encode(comp))),
    {
        let tag = T::id();
        let bytes = comp.to_bytes();
        let n = self.comps.len();
        let mut i: usize = 0;
        while i < n
            invariant
                n == self.comps@.len(),
                self.comps@ == old(self).comps@,
                old(self).wf(),
                bytes@ == T::encode(comp),
                tag.uid == T::type_tag(),
                i <= n,
                forall|j: int| 0 <= j < i ==> (#[trigger] self.comps@[j]).tag.uid != tag.uid,
            decreases n - i,
        {
            if self.comps[i].tag.uid == tag.uid {
                let ghost c0 = old(self).components();
                proof {
                    assert(c0[i as int].0 == T::type_tag());
                }
                self.comps.set(i, EntityComponent { tag, bytes });
                proof {
                    let c1 = self.components();
                    assert forall|j: int| 0 <= j < c0.len() implies #[trigger] c1[j] == (if c0[j].0 == T::type_tag() {
                        (T::type_tag(), T::encode(comp))
                    } else {
                        c0[j]
                    }) by {
                        if j != i {
                            assert(c1[j] == c0[j]);
                            if c0[j].0 == T::type_tag() {
                                assert(c0[i as int].0 == T::type_tag());
                            }
                        }
                    }
                    assert forall|a: int, b: int| 0 <= a < b < c1.len() implies (#[trigger] c1[a]).0 != (#[trigger] c1[b]).0 by {
                        assert(c1[a].0 == c0[a].0 && c1[b].0 == c0[b].0);
                    }
                }
                return ;
            }
            i = i + 1;
        }
        let ghost c0 = old(self).components();
        self.comps.push(EntityComponent { tag, bytes });
        proof {
            let c1 = self.components();
            assert(c1 =~= c0.push((T::type_tag(), T::encode(comp))));
            assert forall|k: int| 0 <= k < c0.len() implies (#[trigger] c0[k]).0 != T::type_tag() by {
                assert(self.comps@[k].tag.uid != tag.uid);
            }
            assert forall|a: int, b: int| 0 <= a < b < c1.len() implies (#[trigger] c1[a]).0 != (#[trigger] c1[b]).0 by {
                if b < c0.len() {
                    assert(c1[a] == c0[a] && c1[b] == c0[b]);
                } else {
                    assert(c1[a] == c0[a]);
                }
            }
        }
    }

    pub fn len(&self) -> (r: usize)
        ensures
            r == self.components().len(),
    {
        self.comps.len()
    }

    /// Drops the entity, handing back its components.
    pub fn dissolve(self) -> (r: Vec<EntityComponent>)
        ensures
            r@.len() == self.components().len(),
            forall|i: int| 0 <= i < r@.len() ==> component_view(#[trigger] r@[i]) == self.components()[i],
    {
        self.comps
    }
}

} // verus!
