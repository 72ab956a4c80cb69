//! Colliders as this core sees them: a parent body and a world position kept
//! in sync by the maintenance pass. The set owns its colliders through the
//! same generation-indexed arena as the bodies, so collider handles enjoy the
//! same integrity guarantees.

use vstd::prelude::*;
use crate::arena;
use crate::rigid_body_set::RigidBodyHandle;
use crate::rigid_body_set::RigidBodySet;

verus! {

/// The unique handle of a collider added to a `ColliderSet`.
#[derive(Clone, Copy, PartialEq, Eq, Structural, Debug, Hash)]
pub struct ColliderHandle(pub arena::Index);

/// A collider as this core sees it: its parent body and its world position,
/// abstracted to an integer coordinate.
pub struct Collider {
    /// The body this collider is attached to.
    pub parent: RigidBodyHandle,
    /// World position, kept in sync with the parent by maintenance.
    pub position: i64,
}

impl Collider {
    /// A collider attached to `parent`, initially at the origin.
    pub fn new(parent: RigidBodyHandle) -> (c: Collider)
        ensures
            c.parent == parent,
            c.position == 0,
    {
        Collider { parent, position: 0 }
    }
}

/// A set of colliders, owned through a generation-indexed arena.
pub struct ColliderSet {
    pub(crate) colliders: arena::Arena<Collider>,
}

impl ColliderSet {
    /// The handle `ch` currently resolves to a collider.
    pub closed spec fn live(self, ch: ColliderHandle) -> bool {
        self.colliders.live(ch.0)
    }

    /// The handle `ch` is outdated: its collider was removed.
    pub closed spec fn stale(self, ch: ColliderHandle) -> bool {
        self.colliders.stale(ch.0)
    }

    /// The parent body of the live collider `ch`.
    pub closed spec fn parent_of(self, ch: ColliderHandle) -> RigidBodyHandle {
        self.colliders.value_at(ch.0).parent
    }

    /// The world position of the live collider `ch`.
    pub closed spec fn position_of(self, ch: ColliderHandle) -> i64 {
        self.colliders.value_at(ch.0).position
    }

    /// Number of live colliders.
    pub closed spec fn len_spec(self) -> nat {
        self.colliders.len_spec()
    }

    /// Internal consistency of the underlying arena.
    pub closed spec fn wf(self) -> bool {
        self.colliders.wf()
    }

    /// Create an empty collider set.
    pub fn new() -> (s: ColliderSet)
        ensures
            s.wf(),
            s.len_spec() == 0,
            forall|ch: ColliderHandle| !s.live(ch) && !s.stale(ch),
    {
        ColliderSet { colliders: arena::Arena::new() }
    }

    /// Number of colliders in this set.
    pub fn len(&self) -> (n: usize)
        ensures
            n == self.len_spec(),
    {
        self.colliders.len()
    }

    /// Is the given collider handle valid?
    pub fn contains(&self, ch: ColliderHandle) -> (b: bool)
        ensures
            b == self.live(ch),
    {
        self.colliders.contains(ch.0)
    }

    /// Gets the collider with the given handle.
    pub fn get(&self, ch: ColliderHandle) -> (r: Option<&Collider>)
        ensures
            self.live(ch) ==> (r matches Some(c) && c.parent == self.parent_of(ch) && c.position
                == self.position_of(ch)),
            !self.live(ch) ==> r is None,
    {
        self.colliders.get(ch.0)
    }

    /// Move the collider `ch` to `position`; a no-op on a stale or absent
    /// handle.
    pub fn set_position(&mut self, ch: ColliderHandle, position: i64)
        ensures
            old(self).wf() ==> final(self).wf(),
            forall|c2: ColliderHandle| final(self).live(c2) <==> old(self).live(c2),
            forall|c2: ColliderHandle| final(self).stale(c2) <==> old(self).stale(c2),
            final(self).len_spec() == old(self).len_spec(),
            forall|c2: ColliderHandle|
                old(self).live(c2) ==> #[trigger] final(self).parent_of(c2) == old(
                    self,
                ).parent_of(c2),
            forall|c2: ColliderHandle|
                old(self).live(c2) ==> #[trigger] final(self).position_of(c2) == (if c2 == ch {
                    position
                } else {
                    old(self).position_of(c2)
                }),
            !old(self).live(ch) ==> *final(self) == *old(self),
    {
        if !self.colliders.contains(ch.0) {
            return ;
        }
        let c = self.colliders.value_mut(ch.0);
        c.position = position;
        proof {
            assert forall|c2: ColliderHandle| old(self).live(c2) implies #[trigger] self
                .position_of(c2) == (if c2 == ch {
                position
            } else {
                old(self).position_of(c2)
            }) by {
                if c2 != ch && c2.0.index == ch.0.index {
                    old(self).colliders.lemma_live_same_slot(c2.0, ch.0);
                }
            }
        }
    }

    /// Inserts a new collider and attaches it to its parent body, which must
    /// be a live body of `bodies`; the attachment marks the parent changed.
    pub fn insert(&mut self, collider: Collider, bodies: &mut RigidBodySet) -> (ch: ColliderHandle)
        requires
            old(self).wf(),
            old(self).len_spec() < usize::MAX,
            old(bodies).wf(),
            old(bodies).live(collider.parent),
        ensures
            final(self).wf(),
            final(bodies).wf(),
            final(self).live(ch),
            !old(self).live(ch),
            !old(self).stale(ch),
            final(self).parent_of(ch) == collider.parent,
            final(self).position_of(ch) == collider.position,
            final(self).len_spec() == old(self).len_spec() + 1,
            forall|c2: ColliderHandle| c2 != ch ==> (final(self).live(c2) <==> old(self).live(c2)),
            forall|c2: ColliderHandle|
                c2 != ch && old(self).live(c2) ==> #[trigger] final(self).parent_of(c2) == old(
                    self,
                ).parent_of(c2),
            forall|c2: ColliderHandle|
                c2 != ch && old(self).live(c2) ==> #[trigger] final(self).position_of(c2) == old(
                    self,
                ).position_of(c2),
            forall|c2: ColliderHandle| old(self).stale(c2) ==> final(self).stale(c2),
            forall|h: RigidBodyHandle| final(bodies).live(h) <==> old(bodies).live(h),
            final(bodies).body_at(collider.parent).colliders@ == old(bodies).body_at(
                collider.parent,
            ).colliders@.push(ch),
            forall|h: RigidBodyHandle|
                h != collider.parent && old(bodies).live(h) ==> #[trigger] final(bodies).body_at(h)
                    == old(bodies).body_at(h),
            final(bodies).active_dynamic() == old(bodies).active_dynamic(),
            final(bodies).active_kinematic() == old(bodies).active_kinematic(),
    {
        let parent = collider.parent;
        let ch = ColliderHandle(self.colliders.insert(collider));
        bodies.attach_collider(parent, ch);
        ch
    }

    /// Removes a collider: detaches it from its parent body (waking the
    /// parent when `wake_up` asks for it) and deletes it from this set.
    /// Returns `None` on a stale or absent handle.
    pub fn remove(&mut self, ch: ColliderHandle, bodies: &mut RigidBodySet, wake_up: bool) -> (r:
        Option<Collider>)
        requires
            old(self).wf(),
            old(bodies).wf(),
        ensures
            final(self).wf(),
            final(bodies).wf(),
            !old(self).live(ch) ==> r is None && *final(self) == *old(self) && *final(bodies)
                == *old(bodies),
            old(self).live(ch) ==> {
                &&& r matches Some(c) && c.parent == old(self).parent_of(ch) && c.position == old(
                    self,
                ).position_of(ch)
                &&& !final(self).live(ch)
                &&& final(self).stale(ch)
                &&& final(self).len_spec() + 1 == old(self).len_spec()
            },
            forall|c2: ColliderHandle| c2 != ch ==> (final(self).live(c2) <==> old(self).live(c2)),
            forall|c2: ColliderHandle|
                c2 != ch && old(self).live(c2) ==> #[trigger] final(self).parent_of(c2) == old(
                    self,
                ).parent_of(c2),
            forall|c2: ColliderHandle|
                c2 != ch && old(self).live(c2) ==> #[trigger] final(self).position_of(c2) == old(
                    self,
                ).position_of(c2),
            forall|c2: ColliderHandle| old(self).stale(c2) ==> final(self).stale(c2),
            forall|c2: ColliderHandle| final(self).live(c2) ==> old(self).live(c2),
            forall|h: RigidBodyHandle| final(bodies).live(h) <==> old(bodies).live(h),
            old(self).live(ch) && !old(bodies).live(old(self).parent_of(ch)) ==> *final(bodies)
                == *old(bodies),
            old(self).live(ch) && old(bodies).live(old(self).parent_of(ch)) ==> {
                &&& !final(bodies).body_at(old(self).parent_of(ch)).colliders@.contains(ch)
                &&& forall|h2: RigidBodyHandle|
                    h2 != old(self).parent_of(ch) && old(bodies).live(h2)
                        ==> #[trigger] final(bodies).body_at(h2) == old(bodies).body_at(h2)
            },
    {
        let c = match self.colliders.remove(ch.0) {
            Some(c) => c,
            None => {
                return None;
            },
        };
        bodies.detach_collider(c.parent, ch, wake_up);
        Some(c)
    }
}

} // verus!
