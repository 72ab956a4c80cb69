//! The rigid-body payload, reduced to the fields this core reads and writes:
//! classification, change flags, activation (sleep) state, active-set
//! bookkeeping, attached colliders and the joint-graph index.
//!
//! Motion is abstracted to an integer `speed` magnitude and an integer
//! `position`; kinetic energy is tracked as an integer that decays by half
//! each step and is refreshed from the current speed. A freshly created body
//! starts awake, with energy one weak wake-up above its sleep threshold.

use vstd::prelude::*;
use crate::collider::ColliderHandle;
use crate::collider::ColliderSet;

verus! {

/// The classification of a body, fixed for its whole life.
#[derive(Clone, Copy, PartialEq, Eq, Structural, Debug)]
pub enum BodyStatus {
    /// Moved by forces; subject to energy-based sleep.
    Dynamic,
    /// Moved by the user; always active, never subject to sleep.
    Kinematic,
    /// Never moves; never enters an active set.
    Static,
}

/// Change flags accumulated by external mutators and consumed (then cleared)
/// by the per-step maintenance pass.
#[derive(Clone, Copy, PartialEq, Eq, Structural, Debug)]
pub struct RigidBodyChanges {
    /// The body's position changed.
    pub position: bool,
    /// The set of attached colliders changed.
    pub colliders: bool,
    /// The body's sleep state was touched.
    pub sleep: bool,
    /// The body was handed out mutably at least once.
    pub modified: bool,
}

impl RigidBodyChanges {
    /// Every flag set, the state of a freshly inserted body.
    pub fn all() -> (c: RigidBodyChanges)
        ensures
            c == (RigidBodyChanges { position: true, colliders: true, sleep: true, modified: true }),
    {
        RigidBodyChanges { position: true, colliders: true, sleep: true, modified: true }
    }

    /// No flag set, the state after a maintenance pass.
    pub fn empty() -> (c: RigidBodyChanges)
        ensures
            c == (RigidBodyChanges {
                position: false,
                colliders: false,
                sleep: false,
                modified: false,
            }),
    {
        RigidBodyChanges { position: false, colliders: false, sleep: false, modified: false }
    }
}

/// Energy-based activation state deciding sleep candidacy.
#[derive(Clone, Copy, PartialEq, Eq, Structural, Debug)]
pub struct RigidBodyActivation {
    /// A body whose energy falls to this level or below may fall asleep.
    pub threshold: u32,
    /// Current kinetic-energy estimate.
    pub energy: u64,
    /// Whether the body currently sleeps.
    pub sleeping: bool,
}

/// The energy a body holds right after a wake-up. A strong wake-up boosts far
/// enough above the threshold that the halving decay keeps the body awake for
/// several subsequent steps; a weak one boosts a drained body just above the
/// threshold and otherwise leaves the energy alone, so a body kept awake only
/// by propagation still decays towards sleep.
pub open spec fn wake_energy(a: RigidBodyActivation, strong: bool) -> u64 {
    if strong {
        (16 * a.threshold + 16) as u64
    } else if a.energy == 0 {
        (2 * a.threshold + 2) as u64
    } else {
        a.energy
    }
}

/// A rigid body as this core sees it.
pub struct RigidBody {
    /// Fixed classification.
    pub status: BodyStatus,
    /// World position, abstracted to an integer coordinate.
    pub position: i64,
    /// Magnitude of the current velocity; a kinematic body with zero speed
    /// wakes nothing.
    pub speed: u32,
    /// Sleep bookkeeping.
    pub activation: RigidBodyActivation,
    /// Flags accumulated since the last maintenance pass.
    pub changes: RigidBodyChanges,
    /// Handles of the colliders attached to this body.
    pub colliders: Vec<ColliderHandle>,
    /// This body's node in the joint graph; `usize::MAX` when unlinked.
    pub joint_graph_index: usize,
    /// Index of this body inside whichever active sequence holds it.
    pub active_set_id: usize,
    /// Island this body was assigned by the last traversal.
    pub active_island_id: usize,
    /// Offset of this body inside its island's slice.
    pub active_set_offset: usize,
    /// Timestamp of the last traversal that visited this body.
    pub active_set_timestamp: u32,
}

impl RigidBody {
    /// A fresh body of the given classification: at the origin, motionless,
    /// awake with the default activation state, unflagged and unattached.
    pub fn new(status: BodyStatus) -> (rb: RigidBody)
        ensures
            rb.status == status,
            rb.position == 0,
            rb.speed == 0,
            rb.activation == (RigidBodyActivation { threshold: 1, energy: 4, sleeping: false }),
            rb.changes == (RigidBodyChanges {
                position: false,
                colliders: false,
                sleep: false,
                modified: false,
            }),
            rb.colliders@.len() == 0,
            rb.joint_graph_index == usize::MAX,
            rb.active_set_id == 0,
            rb.active_island_id == 0,
            rb.active_set_offset == 0,
            rb.active_set_timestamp == 0,
    {
        RigidBody {
            status,
            position: 0,
            speed: 0,
            activation: RigidBodyActivation { threshold: 1, energy: 4, sleeping: false },
            changes: RigidBodyChanges {
                position: false,
                colliders: false,
                sleep: false,
                modified: false,
            },
            colliders: Vec::new(),
            joint_graph_index: usize::MAX,
            active_set_id: 0,
            active_island_id: 0,
            active_set_offset: 0,
            active_set_timestamp: 0,
        }
    }

    /// Is this body dynamic?
    pub fn is_dynamic(&self) -> (r: bool)
        ensures
            r == (self.status is Dynamic),
    {
        matches!(self.status, BodyStatus::Dynamic)
    }

    /// Is this body kinematic?
    pub fn is_kinematic(&self) -> (r: bool)
        ensures
            r == (self.status is Kinematic),
    {
        matches!(self.status, BodyStatus::Kinematic)
    }

    /// Is this body static?
    pub fn is_static(&self) -> (r: bool)
        ensures
            r == (self.status is Static),
    {
        matches!(self.status, BodyStatus::Static)
    }

    /// Is this body currently sleeping?
    pub fn is_sleeping(&self) -> (r: bool)
        ensures
            r == self.activation.sleeping,
    {
        self.activation.sleeping
    }

    /// Does this body currently move? A motionless kinematic body cannot wake
    /// anything it touches.
    pub fn is_moving(&self) -> (r: bool)
        ensures
            r == (self.speed > 0),
    {
        self.speed > 0
    }

    /// Wake the body: clear the sleeping flag, and boost the energy of a
    /// strongly woken or drained body. A strong wake-up boosts high enough
    /// that the body stays awake for several subsequent steps of halving
    /// decay.
    pub fn wake_up(&mut self, strong: bool)
        ensures
            *final(self) == (RigidBody {
                activation: RigidBodyActivation {
                    sleeping: false,
                    energy: wake_energy(old(self).activation, strong),
                    ..old(self).activation
                },
                ..*old(self)
            }),
    {
        if strong {
            self.activation.energy = 16 * (self.activation.threshold as u64) + 16;
        } else if self.activation.energy == 0 {
            self.activation.energy = 2 * (self.activation.threshold as u64) + 2;
        }
        self.activation.sleeping = false;
    }

    /// Put the body to sleep: clear its velocity and energy state.
    pub fn sleep(&mut self)
        ensures
            *final(self) == (RigidBody {
                speed: 0,
                activation: RigidBodyActivation {
                    sleeping: true,
                    energy: 0,
                    ..old(self).activation
                },
                ..*old(self)
            }),
    {
        self.activation.energy = 0;
        self.activation.sleeping = true;
        self.speed = 0;
    }

    /// Refresh the kinetic-energy estimate: the previous estimate decays by
    /// half and the current speed feeds back in.
    pub fn update_energy(&mut self)
        ensures
            *final(self) == (RigidBody {
                activation: RigidBodyActivation {
                    energy: (old(self).activation.energy / 2 + old(self).speed) as u64,
                    ..old(self).activation
                },
                ..*old(self)
            }),
    {
        self.activation.energy = self.activation.energy / 2 + self.speed as u64;
    }

    /// Reset every back-reference this body may still carry from being cloned
    /// out of another set: attached colliders, joint-graph node and active-set
    /// bookkeeping.
    pub fn reset_internal_references(&mut self)
        ensures
            final(self).colliders@.len() == 0,
            *final(self) == (RigidBody {
                colliders: final(self).colliders,
                joint_graph_index: usize::MAX,
                active_set_id: 0,
                active_island_id: 0,
                active_set_offset: 0,
                active_set_timestamp: 0,
                ..*old(self)
            }),
    {
        self.colliders = Vec::new();
        self.joint_graph_index = usize::MAX;
        self.active_set_id = 0;
        self.active_island_id = 0;
        self.active_set_offset = 0;
        self.active_set_timestamp = 0;
    }

    /// Push this body's position to every attached collider that is still
    /// present in the collider set; stale attachments are skipped.
    pub fn update_colliders_positions(&self, colliders: &mut ColliderSet)
        ensures
            old(colliders).wf() ==> final(colliders).wf(),
            forall|ch: ColliderHandle|
                final(colliders).live(ch) <==> old(colliders).live(ch),
            forall|ch: ColliderHandle|
                old(colliders).live(ch) ==> #[trigger] final(colliders).parent_of(ch) == old(
                    colliders,
                ).parent_of(ch),
            forall|ch: ColliderHandle|
                old(colliders).live(ch) ==> #[trigger] final(colliders).position_of(ch) == (
                if self.colliders@.contains(ch) {
                    self.position
                } else {
                    old(colliders).position_of(ch)
                }),
    {
        let mut i: usize = 0;
        while i < self.colliders.len()
            invariant
                i <= self.colliders@.len(),
                old(colliders).wf() ==> colliders.wf(),
                forall|ch: ColliderHandle| colliders.live(ch) <==> old(colliders).live(ch),
                forall|ch: ColliderHandle|
                    old(colliders).live(ch) ==> #[trigger] colliders.parent_of(ch) == old(
                        colliders,
                    ).parent_of(ch),
                forall|ch: ColliderHandle|
                    old(colliders).live(ch) ==> #[trigger] colliders.position_of(ch) == (
                    if self.colliders@.subrange(0, i as int).contains(ch) {
                        self.position
                    } else {
                        old(colliders).position_of(ch)
                    }),
            decreases self.colliders@.len() - i,
        {
            let ch = self.colliders[i];
            let ghost mid = *colliders;
            colliders.set_position(ch, self.position);
            proof {
                assert forall|c2: ColliderHandle| old(colliders).live(c2) implies
                    #[trigger] colliders.position_of(c2) == (if self.colliders@.subrange(
                    0,
                    i as int + 1,
                ).contains(c2) {
                    self.position
                } else {
                    old(colliders).position_of(c2)
                }) by {
                    let pre = self.colliders@.subrange(0, i as int);
                    let cur = self.colliders@.subrange(0, i as int + 1);
                    assert(cur.drop_last() =~= pre);
                    assert(cur.last() == ch);
                    assert(mid.live(c2));
                    if c2 == ch {
                        assert(cur[i as int] == c2);
                        assert(cur.contains(c2));
                        assert(colliders.position_of(c2) == self.position);
                    } else {
                        assert(colliders.position_of(c2) == mid.position_of(c2));
                        if cur.contains(c2) {
                            let j = choose|j: int| 0 <= j < cur.len() && cur[j] == c2;
                            assert(j != i as int);
                            assert(pre[j] == c2);
                            assert(pre.contains(c2));
                        }
                        if pre.contains(c2) {
                            let j = choose|j: int| 0 <= j < pre.len() && pre[j] == c2;
                            assert(cur[j] == c2);
                            assert(cur.contains(c2));
                        }
                    }
                }
            }
            i = i + 1;
        }
        proof {
            assert(self.colliders@.subrange(0, self.colliders@.len() as int) =~= self.colliders@);
        }
    }
}

} // verus!
