//! The body container: owns the arena of rigid bodies, the active dynamic and
//! kinematic sequences, per-step change tracking, and the island table built
//! by the activation traversal.

use vstd::prelude::*;
use crate::arena;
use crate::body::BodyStatus;
use crate::body::RigidBody;
use crate::body::RigidBodyChanges;
use crate::body::wake_energy;
use crate::collider::ColliderHandle;
use crate::collider::ColliderSet;
use crate::joint::JointSet;
use crate::narrow_phase::NarrowPhase;
use crate::narrow_phase::pair_live;
use crate::narrow_phase::pairs_coherent;
use crate::narrow_phase::select_other_collider;

verus! {

/// The unique handle of a rigid body added to a `RigidBodySet`.
#[derive(Clone, Copy, PartialEq, Eq, Structural, Debug, Hash)]
pub struct RigidBodyHandle(pub arena::Index);

impl RigidBodyHandle {
    /// The slot index and generation this handle is made of.
    pub fn into_raw_parts(self) -> (r: (usize, u64))
        ensures
            r.0 == self.0.index,
            r.1 == self.0.generation,
    {
        (self.0.index, self.0.generation)
    }

    /// Rebuild a handle from a slot index and a generation.
    pub fn from_raw_parts(id: usize, generation: u64) -> (h: Self)
        ensures
            h.0.index == id,
            h.0.generation == generation,
    {
        RigidBodyHandle(arena::Index { index: id, generation })
    }

    /// An always-invalid rigid-body handle: its sentinel generation can never
    /// belong to a live arena entry.
    pub fn invalid() -> (h: Self)
        ensures
            h.0.index == usize::MAX,
            h.0.generation == u64::MAX,
    {
        RigidBodyHandle(arena::Index { index: usize::MAX, generation: u64::MAX })
    }
}

/// A pair of rigid body handles.
#[derive(Clone, Copy, PartialEq, Eq, Structural, Debug)]
pub struct BodyPair {
    /// The first rigid body handle.
    pub body1: RigidBodyHandle,
    /// The second rigid body handle.
    pub body2: RigidBodyHandle,
}

impl BodyPair {
    /// Pair up two body handles.
    pub fn new(body1: RigidBodyHandle, body2: RigidBodyHandle) -> (p: Self)
        ensures
            p.body1 == body1,
            p.body2 == body2,
    {
        BodyPair { body1, body2 }
    }
}

/// Keep every collider handle other than `ch`: the predicate a detach applies
/// to a body's collider list.
pub open spec fn keeps(ch: ColliderHandle) -> spec_fn(ColliderHandle) -> bool {
    |c: ColliderHandle| c != ch
}

/// Maintenance syncs collider positions for a body whose position or collider
/// set changed.
pub open spec fn m1_pos_sync(rb: RigidBody) -> bool {
    rb.changes.position || rb.changes.colliders
}

/// Maintenance appends a changed kinematic body to the kinematic active
/// sequence when the sequence does not already hold it.
pub open spec fn m1_kin_push(rb: RigidBody, handle: RigidBodyHandle, kin: Seq<
    RigidBodyHandle,
>) -> bool {
    m1_pos_sync(rb) && rb.status is Kinematic && !(rb.active_set_id < kin.len() && kin[
        rb.active_set_id as int
    ] == handle)
}

/// Maintenance appends a dynamic body whose sleep state was touched, and who
/// is awake, to the active dynamic sequence when the sequence does not
/// already hold it.
pub open spec fn m1_dyn_push(rb: RigidBody, handle: RigidBodyHandle, dyn_seq: Seq<
    RigidBodyHandle,
>) -> bool {
    rb.changes.sleep && !rb.activation.sleeping && rb.status is Dynamic && !(rb.active_set_id
        < dyn_seq.len() && dyn_seq[rb.active_set_id as int] == handle)
}

/// Every live collider's parent is a live body: the coherence the traversal
/// relies on when it follows a contact to the body on the other side.
pub open spec fn parents_coherent(s: RigidBodySet, colliders: ColliderSet) -> bool {
    forall|ch: ColliderHandle| colliders.live(ch) ==> s.live(#[trigger] colliders.parent_of(ch))
}

/// Every live collider is listed by its own live parent: the attachment
/// invariant collider insertion maintains. The traversal needs it so that a
/// contact is discovered from whichever of its two bodies is examined.
pub open spec fn attachments_coherent(s: RigidBodySet, colliders: ColliderSet) -> bool {
    forall|ch: ColliderHandle|
        colliders.live(ch) ==> {
            let p = #[trigger] colliders.parent_of(ch);
            s.live(p) && s.body_at(p).colliders@.contains(ch)
        }
}

/// Every joint names two live bodies, through node indices that match those
/// bodies' own joint-graph indices: the coherence the traversal relies on
/// when it follows a joint edge from either end.
pub open spec fn joints_coherent(s: RigidBodySet, joints: JointSet) -> bool {
    forall|k: int|
        0 <= k < joints.joints@.len() ==> {
            let j = #[trigger] joints.joints@[k];
            &&& s.live(j.body1)
            &&& s.live(j.body2)
            &&& s.body_at(j.body1).joint_graph_index == j.node1
            &&& s.body_at(j.body2).joint_graph_index == j.node2
        }
}

/// Two bodies are linked by a live contact: some narrow-phase pair with at
/// least one solver contact names them as its colliders' parents, in either
/// order.
pub open spec fn contact_linked(
    colliders: ColliderSet,
    np: NarrowPhase,
    h1: RigidBodyHandle,
    h2: RigidBodyHandle,
) -> bool {
    exists|k: int|
        0 <= k < np.pairs@.len() && pair_live(#[trigger] np.pairs@[k]) && {
            ||| (colliders.parent_of(np.pairs@[k].collider1) == h1 && colliders.parent_of(
                np.pairs@[k].collider2,
            ) == h2)
            ||| (colliders.parent_of(np.pairs@[k].collider1) == h2 && colliders.parent_of(
                np.pairs@[k].collider2,
            ) == h1)
        }
}

/// Two bodies are linked by a joint edge, in either order.
pub open spec fn joint_linked(joints: JointSet, h1: RigidBodyHandle, h2: RigidBodyHandle) -> bool {
    exists|k: int|
        0 <= k < joints.joints@.len() && {
            ||| ((#[trigger] joints.joints@[k]).body1 == h1 && joints.joints@[k].body2 == h2)
            ||| (joints.joints@[k].body1 == h2 && joints.joints@[k].body2 == h1)
        }
}

/// The union of the contact and joint graphs: the relation wakefulness
/// propagates along, and the relation no island boundary may cut.
pub open spec fn interaction_linked(
    colliders: ColliderSet,
    np: NarrowPhase,
    joints: JointSet,
    h1: RigidBodyHandle,
    h2: RigidBodyHandle,
) -> bool {
    contact_linked(colliders, np, h1, h2) || joint_linked(joints, h1, h2)
}

/// The interaction relation is symmetric.
proof fn lemma_linked_symmetric(
    colliders: ColliderSet,
    np: NarrowPhase,
    joints: JointSet,
    h1: RigidBodyHandle,
    h2: RigidBodyHandle,
)
    requires
        interaction_linked(colliders, np, joints, h1, h2),
    ensures
        interaction_linked(colliders, np, joints, h2, h1),
{
    if contact_linked(colliders, np, h1, h2) {
        let k = choose|k: int|
            0 <= k < np.pairs@.len() && pair_live(#[trigger] np.pairs@[k]) && {
                ||| (colliders.parent_of(np.pairs@[k].collider1) == h1 && colliders.parent_of(
                    np.pairs@[k].collider2,
                ) == h2)
                ||| (colliders.parent_of(np.pairs@[k].collider1) == h2 && colliders.parent_of(
                    np.pairs@[k].collider2,
                ) == h1)
            };
        assert(pair_live(np.pairs@[k]));
        assert(contact_linked(colliders, np, h2, h1));
    } else {
        let k = choose|k: int|
            0 <= k < joints.joints@.len() && {
                ||| ((#[trigger] joints.joints@[k]).body1 == h1 && joints.joints@[k].body2 == h2)
                ||| (joints.joints@[k].body1 == h2 && joints.joints@[k].body2 == h1)
            };
        assert(0 <= k < joints.joints@.len() && {
            ||| (joints.joints@[k].body1 == h2 && joints.joints@[k].body2 == h1)
            ||| (joints.joints@[k].body1 == h1 && joints.joints@[k].body2 == h2)
        });
        assert(joint_linked(joints, h2, h1));
    }
}

/// A body's energy right after the refresh step of a traversal stays above
/// its sleep threshold: such a body seeds the propagation and must stay
/// active.
pub open spec fn refreshed_above(b: RigidBody) -> bool {
    b.activation.energy / 2 + b.speed > b.activation.threshold
}

/// A body the traversal must leave in the active dynamic sequence: an
/// old-active dynamic body whose refreshed energy stays above its threshold,
/// or a live dynamic body in live contact with a moving active kinematic
/// body.
pub open spec fn must_stay_active(
    s: RigidBodySet,
    colliders: ColliderSet,
    np: NarrowPhase,
    h: RigidBodyHandle,
) -> bool {
    s.live(h) && s.body_at(h).status is Dynamic && {
        ||| (s.active_dynamic().contains(h) && refreshed_above(s.body_at(h)))
        ||| exists|ki: int|
            0 <= ki < s.active_kinematic().len() && s.body_at(
                #[trigger] s.active_kinematic()[ki],
            ).speed > 0 && contact_linked(colliders, np, s.active_kinematic()[ki], h)
    }
}

/// `x` sits in `st` at or after position `from`.
spec fn pushed_since(st: Seq<RigidBodyHandle>, from: int, x: RigidBodyHandle) -> bool {
    exists|idx: int| from <= idx < st.len() && st[idx] == x
}

/// Slot `i` holds a dynamic body not yet visited at timestamp `ts`.
spec fn is_unvisited_slot(a: arena::Arena<RigidBody>, i: int, ts: u32) -> bool {
    a.occupied_at(i) && a.value_at(a.slot_handle(i)).status is Dynamic && a.value_at(
        a.slot_handle(i),
    ).active_set_timestamp != ts
}

/// How many of the slots below `n` hold an unvisited dynamic body: the
/// traversal's termination measure.
spec fn unvisited_below(a: arena::Arena<RigidBody>, ts: u32, n: int) -> nat
    decreases n,
{
    if n <= 0 {
        0
    } else {
        unvisited_below(a, ts, n - 1) + (if is_unvisited_slot(a, n - 1, ts) {
            1nat
        } else {
            0nat
        })
    }
}

proof fn lemma_unvisited_same(
    a1: arena::Arena<RigidBody>,
    a2: arena::Arena<RigidBody>,
    ts: u32,
    n: int,
)
    requires
        forall|i: int| 0 <= i < n ==> (is_unvisited_slot(a1, i, ts) == is_unvisited_slot(a2, i, ts)),
    ensures
        unvisited_below(a1, ts, n) == unvisited_below(a2, ts, n),
    decreases n,
{
    if n > 0 {
        lemma_unvisited_same(a1, a2, ts, n - 1);
    }
}

proof fn lemma_unvisited_drop(
    a1: arena::Arena<RigidBody>,
    a2: arena::Arena<RigidBody>,
    ts: u32,
    n: int,
    j: int,
)
    requires
        0 <= j < n,
        is_unvisited_slot(a1, j, ts),
        !is_unvisited_slot(a2, j, ts),
        forall|i: int|
            0 <= i < n && i != j ==> (is_unvisited_slot(a1, i, ts) == is_unvisited_slot(a2, i, ts)),
    ensures
        unvisited_below(a2, ts, n) < unvisited_below(a1, ts, n),
    decreases n,
{
    if j == n - 1 {
        lemma_unvisited_same(a1, a2, ts, n - 1);
    } else {
        lemma_unvisited_drop(a1, a2, ts, n - 1, j);
    }
}

/// The island table as it stands while the traversal is still running: it
/// starts at zero, stays within the sequence being rebuilt, and every island
/// closed so far holds at least `min` bodies.
spec fn islands_partial(islands: Seq<usize>, dyn_len: nat, min: nat) -> bool {
    &&& islands.len() >= 1
    &&& islands[0] == 0
    &&& islands[islands.len() - 1] <= dyn_len
    &&& forall|k: int|
        0 <= k < islands.len() - 1 ==> #[trigger] islands[k] <= islands[k + 1] && islands[k + 1]
            - islands[k] >= min
}

/// Every body of the rebuilt active dynamic sequence is awake, stamped with
/// the current timestamp, and sits inside the island range it was assigned,
/// at its recorded offset.
spec fn island_assignment(s: RigidBodySet, ts: u32) -> bool {
    forall|i: int|
        0 <= i < s.active_dynamic_set@.len() ==> {
            let b = #[trigger] s.bodies.value_at(s.active_dynamic_set@[i].0);
            &&& b.active_island_id < s.active_islands@.len()
            &&& s.active_islands@[b.active_island_id as int] <= i
            &&& (b.active_island_id + 1 < s.active_islands@.len() ==> i < s.active_islands@[
                b.active_island_id as int + 1
            ])
            &&& b.active_set_offset == i - s.active_islands@[b.active_island_id as int]
            &&& b.activation.sleeping == false
            &&& b.active_set_timestamp == ts
        }
}

/// A live body carries the current timestamp exactly when the rebuilt active
/// dynamic sequence holds it.
spec fn stamp_membership(s: RigidBodySet, ts: u32) -> bool {
    forall|h2: RigidBodyHandle|
        s.live(h2) ==> ((#[trigger] s.body_at(h2)).active_set_timestamp == ts
            <==> s.active_dynamic_set@.contains(h2))
}

/// What the activation traversal never touches, measured against the state
/// right after the timestamp bump: liveness, the kinematic sequence, change
/// tracking, and every body's identity fields.
spec fn traversal_frame(base: RigidBodySet, s: RigidBodySet) -> bool {
    &&& s.active_set_timestamp == base.active_set_timestamp
    &&& s.bodies.slot_count() == base.bodies.slot_count()
    &&& (forall|h2: RigidBodyHandle| s.live(h2) <==> base.live(h2))
    &&& (forall|h2: RigidBodyHandle| s.stale(h2) <==> base.stale(h2))
    &&& s.len_spec() == base.len_spec()
    &&& s.active_kinematic_set@ == base.active_kinematic_set@
    &&& s.modified_bodies@ == base.modified_bodies@
    &&& s.modified_all_bodies == base.modified_all_bodies
    &&& s.modified_inactive_set@ == base.modified_inactive_set@
    &&& (forall|h2: RigidBodyHandle|
        base.live(h2) ==> {
            let a = base.body_at(h2);
            let b = #[trigger] s.body_at(h2);
            &&& b.status == a.status
            &&& b.position == a.position
            &&& b.changes == a.changes
            &&& b.colliders == a.colliders
            &&& b.joint_graph_index == a.joint_graph_index
        })
}

/// A body as it looks right after `get_mut` handed it out: flagged modified
/// (with the other change flags restarted) unless the coalescing flag or an
/// earlier hand-out already covers it.
pub open spec fn marked_body(b: RigidBody, covered: bool) -> RigidBody {
    if covered || b.changes.modified {
        b
    } else {
        RigidBody {
            changes: RigidBodyChanges {
                position: false,
                colliders: false,
                sleep: false,
                modified: true,
            },
            ..b
        }
    }
}

/// A set of rigid bodies that can be handled by a physics pipeline.
pub struct RigidBodySet {
    pub(crate) bodies: arena::Arena<RigidBody>,
    pub(crate) active_dynamic_set: Vec<RigidBodyHandle>,
    pub(crate) active_kinematic_set: Vec<RigidBodyHandle>,
    pub(crate) modified_inactive_set: Vec<RigidBodyHandle>,
    pub(crate) active_islands: Vec<usize>,
    pub(crate) active_set_timestamp: u32,
    pub(crate) modified_bodies: Vec<RigidBodyHandle>,
    pub(crate) modified_all_bodies: bool,
    pub(crate) can_sleep: Vec<RigidBodyHandle>,
    pub(crate) stack: Vec<RigidBodyHandle>,
}

impl RigidBodySet {
    /// The handle `h` currently resolves to a body.
    pub closed spec fn live(self, h: RigidBodyHandle) -> bool {
        self.bodies.live(h.0)
    }

    /// The handle `h` is outdated: its body was removed.
    pub closed spec fn stale(self, h: RigidBodyHandle) -> bool {
        self.bodies.stale(h.0)
    }

    /// The body the live handle `h` resolves to.
    pub closed spec fn body_at(self, h: RigidBodyHandle) -> RigidBody {
        self.bodies.value_at(h.0)
    }

    /// Number of live bodies.
    pub closed spec fn len_spec(self) -> nat {
        self.bodies.len_spec()
    }

    /// The active dynamic sequence: awake dynamic bodies, in island order
    /// after a traversal.
    pub closed spec fn active_dynamic(self) -> Seq<RigidBodyHandle> {
        self.active_dynamic_set@
    }

    /// The active kinematic sequence.
    pub closed spec fn active_kinematic(self) -> Seq<RigidBodyHandle> {
        self.active_kinematic_set@
    }

    /// Modified static or otherwise inactive bodies, for downstream
    /// consumers.
    pub closed spec fn modified_inactive(self) -> Seq<RigidBodyHandle> {
        self.modified_inactive_set@
    }

    /// The island table: offsets into the active dynamic sequence, one
    /// sentinel end entry included.
    pub closed spec fn islands(self) -> Seq<usize> {
        self.active_islands@
    }

    /// The traversal timestamp.
    pub closed spec fn timestamp(self) -> u32 {
        self.active_set_timestamp
    }

    /// The precise modified-bodies list.
    pub closed spec fn modified(self) -> Seq<RigidBodyHandle> {
        self.modified_bodies@
    }

    /// The coalescing flag: when set, every body counts as modified and the
    /// precise list is ignored.
    pub closed spec fn modified_all(self) -> bool {
        self.modified_all_bodies
    }

    /// Active-set consistency: every entry of an active sequence is a live
    /// body of the matching classification whose `active_set_id` points back
    /// at its position, and no body's traversal stamp is ahead of the global
    /// one.
    pub closed spec fn wf(self) -> bool {
        &&& self.bodies.wf()
        &&& forall|i: int|
            0 <= i < self.active_dynamic_set@.len() ==> {
                let h = #[trigger] self.active_dynamic_set@[i];
                &&& self.bodies.live(h.0)
                &&& self.bodies.value_at(h.0).status is Dynamic
                &&& self.bodies.value_at(h.0).active_set_id == i
            }
        &&& forall|i: int|
            0 <= i < self.active_kinematic_set@.len() ==> {
                let h = #[trigger] self.active_kinematic_set@[i];
                &&& self.bodies.live(h.0)
                &&& self.bodies.value_at(h.0).status is Kinematic
                &&& self.bodies.value_at(h.0).active_set_id == i
            }
        &&& forall|h: arena::Index|
            self.bodies.live(h) ==> (#[trigger] self.bodies.value_at(
                h,
            )).active_set_timestamp <= self.active_set_timestamp
    }

    /// Auxiliary bookkeeping untouched between `pre` and `post`.
    pub open spec fn same_aux(pre: RigidBodySet, post: RigidBodySet) -> bool {
        &&& post.islands() == pre.islands()
        &&& post.timestamp() == pre.timestamp()
        &&& post.modified_all() == pre.modified_all()
        &&& post.modified_inactive() == pre.modified_inactive()
    }

    /// Re-establish well-formedness after a change that kept the active
    /// sequences, the timestamp, liveness, and every live body's
    /// classification, set position and stamp.
    proof fn lemma_wf_frame(pre: RigidBodySet, post: RigidBodySet)
        requires
            pre.wf(),
            post.bodies.wf(),
            post.active_dynamic_set@ == pre.active_dynamic_set@,
            post.active_kinematic_set@ == pre.active_kinematic_set@,
            post.active_set_timestamp == pre.active_set_timestamp,
            forall|h: arena::Index| post.bodies.live(h) <==> pre.bodies.live(h),
            forall|h: arena::Index|
                pre.bodies.live(h) ==> {
                    let a = pre.bodies.value_at(h);
                    let b = #[trigger] post.bodies.value_at(h);
                    &&& b.status == a.status
                    &&& b.active_set_id == a.active_set_id
                    &&& b.active_set_timestamp == a.active_set_timestamp
                },
        ensures
            post.wf(),
    {
        assert forall|i: int| 0 <= i < post.active_dynamic_set@.len() implies {
            let h = #[trigger] post.active_dynamic_set@[i];
            &&& post.bodies.live(h.0)
            &&& post.bodies.value_at(h.0).status is Dynamic
            &&& post.bodies.value_at(h.0).active_set_id == i
        } by {
            let h = post.active_dynamic_set@[i];
            assert(pre.active_dynamic_set@[i] == h);
            assert(pre.bodies.live(h.0));
        }
        assert forall|i: int| 0 <= i < post.active_kinematic_set@.len() implies {
            let h = #[trigger] post.active_kinematic_set@[i];
            &&& post.bodies.live(h.0)
            &&& post.bodies.value_at(h.0).status is Kinematic
            &&& post.bodies.value_at(h.0).active_set_id == i
        } by {
            let h = post.active_kinematic_set@[i];
            assert(pre.active_kinematic_set@[i] == h);
            assert(pre.bodies.live(h.0));
        }
        assert forall|h: arena::Index| post.bodies.live(h) implies (#[trigger] post.bodies.value_at(
            h,
        )).active_set_timestamp <= post.active_set_timestamp by {
            assert(pre.bodies.live(h));
        }
    }

    /// Re-establish well-formedness after appending `handle` to the active
    /// dynamic sequence with its `active_set_id` patched to its new position.
    proof fn lemma_wf_push_dynamic(pre: RigidBodySet, post: RigidBodySet, handle: RigidBodyHandle)
        requires
            pre.wf(),
            post.bodies.wf(),
            post.active_kinematic_set@ == pre.active_kinematic_set@,
            post.active_dynamic_set@ == pre.active_dynamic_set@.push(handle),
            post.active_set_timestamp == pre.active_set_timestamp,
            forall|h: arena::Index| post.bodies.live(h) <==> pre.bodies.live(h),
            post.bodies.live(handle.0),
            pre.bodies.value_at(handle.0).status is Dynamic,
            post.bodies.value_at(handle.0).status is Dynamic,
            post.bodies.value_at(handle.0).active_set_id == pre.active_dynamic_set@.len(),
            post.bodies.value_at(handle.0).active_set_timestamp <= post.active_set_timestamp,
            !pre.active_dynamic_set@.contains(handle),
            forall|h: arena::Index|
                pre.bodies.live(h) && h != handle.0 ==> {
                    let a = pre.bodies.value_at(h);
                    let b = #[trigger] post.bodies.value_at(h);
                    &&& b.status == a.status
                    &&& b.active_set_id == a.active_set_id
                    &&& b.active_set_timestamp == a.active_set_timestamp
                },
        ensures
            post.wf(),
    {
        assert forall|i: int| 0 <= i < post.active_dynamic_set@.len() implies {
            let h = #[trigger] post.active_dynamic_set@[i];
            &&& post.bodies.live(h.0)
            &&& post.bodies.value_at(h.0).status is Dynamic
            &&& post.bodies.value_at(h.0).active_set_id == i
        } by {
            let h = post.active_dynamic_set@[i];
            if i < pre.active_dynamic_set@.len() {
                assert(pre.active_dynamic_set@[i] == h);
                assert(pre.bodies.live(h.0));
                assert(h != handle);
                if h.0.index == handle.0.index {
                    pre.bodies.lemma_live_same_slot(h.0, handle.0);
                }
            } else {
                assert(h == handle);
            }
        }
        assert forall|i: int| 0 <= i < post.active_kinematic_set@.len() implies {
            let h = #[trigger] post.active_kinematic_set@[i];
            &&& post.bodies.live(h.0)
            &&& post.bodies.value_at(h.0).status is Kinematic
            &&& post.bodies.value_at(h.0).active_set_id == i
        } by {
            let h = post.active_kinematic_set@[i];
            assert(pre.active_kinematic_set@[i] == h);
            assert(pre.bodies.live(h.0));
            assert(!(pre.bodies.value_at(h.0).status is Dynamic));
            assert(h != handle);
            if h.0.index == handle.0.index {
                pre.bodies.lemma_live_same_slot(h.0, handle.0);
            }
        }
        assert forall|h: arena::Index| post.bodies.live(h) implies (#[trigger] post.bodies.value_at(
            h,
        )).active_set_timestamp <= post.active_set_timestamp by {
            assert(pre.bodies.live(h));
            if h != handle.0 {
                assert(pre.bodies.value_at(h).active_set_timestamp <= pre.active_set_timestamp);
            }
        }
    }

    /// Re-establish well-formedness after appending `handle` to the active
    /// kinematic sequence with its `active_set_id` patched to its new
    /// position.
    proof fn lemma_wf_push_kinematic(pre: RigidBodySet, post: RigidBodySet, handle: RigidBodyHandle)
        requires
            pre.wf(),
            post.bodies.wf(),
            post.active_dynamic_set@ == pre.active_dynamic_set@,
            post.active_kinematic_set@ == pre.active_kinematic_set@.push(handle),
            post.active_set_timestamp == pre.active_set_timestamp,
            forall|h: arena::Index| post.bodies.live(h) <==> pre.bodies.live(h),
            post.bodies.live(handle.0),
            pre.bodies.value_at(handle.0).status is Kinematic,
            post.bodies.value_at(handle.0).status is Kinematic,
            post.bodies.value_at(handle.0).active_set_id == pre.active_kinematic_set@.len(),
            post.bodies.value_at(handle.0).active_set_timestamp <= post.active_set_timestamp,
            !pre.active_kinematic_set@.contains(handle),
            forall|h: arena::Index|
                pre.bodies.live(h) && h != handle.0 ==> {
                    let a = pre.bodies.value_at(h);
                    let b = #[trigger] post.bodies.value_at(h);
                    &&& b.status == a.status
                    &&& b.active_set_id == a.active_set_id
                    &&& b.active_set_timestamp == a.active_set_timestamp
                },
        ensures
            post.wf(),
    {
        assert forall|i: int| 0 <= i < post.active_kinematic_set@.len() implies {
            let h = #[trigger] post.active_kinematic_set@[i];
            &&& post.bodies.live(h.0)
            &&& post.bodies.value_at(h.0).status is Kinematic
            &&& post.bodies.value_at(h.0).active_set_id == i
        } by {
            let h = post.active_kinematic_set@[i];
            if i < pre.active_kinematic_set@.len() {
                assert(pre.active_kinematic_set@[i] == h);
                assert(pre.bodies.live(h.0));
                assert(h != handle);
                if h.0.index == handle.0.index {
                    pre.bodies.lemma_live_same_slot(h.0, handle.0);
                }
            } else {
                assert(h == handle);
            }
        }
        assert forall|i: int| 0 <= i < post.active_dynamic_set@.len() implies {
            let h = #[trigger] post.active_dynamic_set@[i];
            &&& post.bodies.live(h.0)
            &&& post.bodies.value_at(h.0).status is Dynamic
            &&& post.bodies.value_at(h.0).active_set_id == i
        } by {
            let h = post.active_dynamic_set@[i];
            assert(pre.active_dynamic_set@[i] == h);
            assert(pre.bodies.live(h.0));
            assert(!(pre.bodies.value_at(h.0).status is Kinematic));
            assert(h != handle);
            if h.0.index == handle.0.index {
                pre.bodies.lemma_live_same_slot(h.0, handle.0);
            }
        }
        assert forall|h: arena::Index| post.bodies.live(h) implies (#[trigger] post.bodies.value_at(
            h,
        )).active_set_timestamp <= post.active_set_timestamp by {
            assert(pre.bodies.live(h));
            if h != handle.0 {
                assert(pre.bodies.value_at(h).active_set_timestamp <= pre.active_set_timestamp);
            }
        }
    }

    /// Create a new empty set of rigid bodies.
    pub fn new() -> (s: Self)
        ensures
            s.wf(),
            s.len_spec() == 0,
            s.active_dynamic().len() == 0,
            s.active_kinematic().len() == 0,
            s.modified_inactive().len() == 0,
            s.islands().len() == 0,
            s.timestamp() == 0,
            s.modified().len() == 0,
            !s.modified_all(),
            forall|h: RigidBodyHandle| !s.live(h) && !s.stale(h),
    {
        RigidBodySet {
            bodies: arena::Arena::new(),
            active_dynamic_set: Vec::new(),
            active_kinematic_set: Vec::new(),
            modified_inactive_set: Vec::new(),
            active_islands: Vec::new(),
            active_set_timestamp: 0,
            modified_bodies: Vec::new(),
            modified_all_bodies: false,
            can_sleep: Vec::new(),
            stack: Vec::new(),
        }
    }

    /// The number of rigid bodies in this set.
    pub fn len(&self) -> (n: usize)
        ensures
            n == self.len_spec(),
    {
        self.bodies.len()
    }

    /// Is the given body handle valid?
    pub fn contains(&self, handle: RigidBodyHandle) -> (b: bool)
        ensures
            b == self.live(handle),
    {
        self.bodies.contains(handle.0)
    }

    /// Gets the rigid-body with the given handle; `None` when the handle is
    /// stale or absent.
    pub fn get(&self, handle: RigidBodyHandle) -> (r: Option<&RigidBody>)
        ensures
            self.live(handle) ==> (r matches Some(b) && *b == self.body_at(handle)),
            !self.live(handle) ==> r is None,
    {
        self.bodies.get(handle.0)
    }

    /// Insert a rigid body into this set and retrieve its handle. The body's
    /// internal back-references are reset, it starts fully changed, and a
    /// kinematic body enters the kinematic active sequence at once.
    pub fn insert(&mut self, rb: RigidBody) -> (h: RigidBodyHandle)
        requires
            old(self).wf(),
            old(self).len_spec() < usize::MAX,
        ensures
            final(self).wf(),
            final(self).live(h),
            !old(self).live(h),
            !old(self).stale(h),
            final(self).len_spec() == old(self).len_spec() + 1,
            forall|h2: RigidBodyHandle| h2 != h ==> (final(self).live(h2) <==> old(self).live(h2)),
            forall|h2: RigidBodyHandle|
                h2 != h && old(self).live(h2) ==> #[trigger] final(self).body_at(h2) == old(
                    self,
                ).body_at(h2),
            forall|h2: RigidBodyHandle| old(self).stale(h2) ==> final(self).stale(h2),
            final(self).body_at(h).status == rb.status,
            final(self).body_at(h).position == rb.position,
            final(self).body_at(h).speed == rb.speed,
            final(self).body_at(h).activation == rb.activation,
            final(self).body_at(h).changes == (RigidBodyChanges {
                position: true,
                colliders: true,
                sleep: true,
                modified: true,
            }),
            final(self).body_at(h).colliders@.len() == 0,
            final(self).body_at(h).joint_graph_index == usize::MAX,
            final(self).body_at(h).active_set_timestamp == 0,
            rb.status is Kinematic ==> final(self).active_kinematic() == old(
                self,
            ).active_kinematic().push(h) && final(self).body_at(h).active_set_id == old(
                self,
            ).active_kinematic().len(),
            !(rb.status is Kinematic) ==> final(self).active_kinematic() == old(
                self,
            ).active_kinematic(),
            final(self).active_dynamic() == old(self).active_dynamic(),
            final(self).modified() == old(self).modified().push(h),
            RigidBodySet::same_aux(*old(self), *final(self)),
    {
        let mut rb = rb;
        rb.reset_internal_references();
        rb.changes = RigidBodyChanges::all();
        let is_kin = rb.is_kinematic();
        if is_kin {
            rb.active_set_id = self.active_kinematic_set.len();
        }
        let h = RigidBodyHandle(self.bodies.insert(rb));
        self.modified_bodies.push(h);
        if is_kin {
            self.active_kinematic_set.push(h);
        }
        proof {
            assert(self.active_dynamic_set@ =~= old(self).active_dynamic_set@);
            assert forall|i: int| 0 <= i < self.active_dynamic_set@.len() implies {
                let h2 = #[trigger] self.active_dynamic_set@[i];
                &&& self.bodies.live(h2.0)
                &&& self.bodies.value_at(h2.0).status is Dynamic
                &&& self.bodies.value_at(h2.0).active_set_id == i
            } by {
                let h2 = self.active_dynamic_set@[i];
                assert(old(self).bodies.live(h2.0));
                assert(h2.0 != h.0);
            }
            assert forall|i: int| 0 <= i < self.active_kinematic_set@.len() implies {
                let h2 = #[trigger] self.active_kinematic_set@[i];
                &&& self.bodies.live(h2.0)
                &&& self.bodies.value_at(h2.0).status is Kinematic
                &&& self.bodies.value_at(h2.0).active_set_id == i
            } by {
                let h2 = self.active_kinematic_set@[i];
                if i < old(self).active_kinematic_set@.len() {
                    assert(old(self).active_kinematic_set@[i] == h2);
                    assert(old(self).bodies.live(h2.0));
                    assert(h2.0 != h.0);
                } else {
                    assert(h2 == h);
                }
            }
            assert forall|h2: arena::Index| self.bodies.live(h2) implies (
            #[trigger] self.bodies.value_at(h2)).active_set_timestamp
                <= self.active_set_timestamp by {
                if h2 != h.0 {
                    assert(old(self).bodies.live(h2));
                }
            }
        }
        h
    }

    /// Forces the specified rigid-body to wake up if it is dynamic: its
    /// sleeping flag is cleared, its energy is boosted, and it joins the
    /// active dynamic sequence when absent from it. A no-op on a stale,
    /// absent or non-dynamic handle.
    ///
    /// If `strong` is `true` then it is assured that the rigid-body will
    /// remain awake during multiple subsequent timesteps.
    pub fn wake_up(&mut self, handle: RigidBodyHandle, strong: bool)
        requires
            old(self).wf(),
        ensures
            final(self).wf(),
            forall|h2: RigidBodyHandle| final(self).live(h2) <==> old(self).live(h2),
            forall|h2: RigidBodyHandle| final(self).stale(h2) <==> old(self).stale(h2),
            final(self).len_spec() == old(self).len_spec(),
            final(self).active_kinematic() == old(self).active_kinematic(),
            final(self).modified() == old(self).modified(),
            RigidBodySet::same_aux(*old(self), *final(self)),
            (!old(self).live(handle) || !(old(self).body_at(handle).status is Dynamic))
                ==> *final(self) == *old(self),
            old(self).live(handle) && old(self).body_at(handle).status is Dynamic ==> {
                let pre = old(self).body_at(handle);
                let post = final(self).body_at(handle);
                &&& post.activation.sleeping == false
                &&& post.activation.energy == wake_energy(pre.activation, strong)
                &&& post.activation.threshold == pre.activation.threshold
                &&& post.status == pre.status
                &&& post.position == pre.position
                &&& post.speed == pre.speed
                &&& post.changes == pre.changes
                &&& post.colliders == pre.colliders
                &&& post.joint_graph_index == pre.joint_graph_index
                &&& post.active_set_timestamp == pre.active_set_timestamp
                &&& (old(self).active_dynamic().contains(handle) ==> final(self).active_dynamic()
                    == old(self).active_dynamic() && post.active_set_id == pre.active_set_id)
                &&& (!old(self).active_dynamic().contains(handle) ==> final(self).active_dynamic()
                    == old(self).active_dynamic().push(handle) && post.active_set_id == old(
                    self,
                ).active_dynamic().len())
                &&& forall|h2: RigidBodyHandle|
                    h2 != handle && old(self).live(h2) ==> #[trigger] final(self).body_at(h2)
                        == old(self).body_at(h2)
            },
    {
        if !self.bodies.contains(handle.0) {
            return ;
        }
        let is_dyn = self.bodies.get(handle.0).unwrap().is_dynamic();
        if !is_dyn {
            return ;
        }
        let rb = self.bodies.value_mut(handle.0);
        rb.wake_up(strong);
        let asid = rb.active_set_id;
        let in_set = asid < self.active_dynamic_set.len() && self.active_dynamic_set[asid]
            == handle;
        proof {
            if self.active_dynamic_set@.contains(handle) {
                let i = choose|i: int|
                    0 <= i < self.active_dynamic_set@.len() && self.active_dynamic_set@[i]
                        == handle;
                assert(old(self).active_dynamic_set@[i] == handle);
                assert(old(self).bodies.value_at(handle.0).active_set_id == i);
            }
        }
        if !in_set {
            let len = self.active_dynamic_set.len();
            let rb2 = self.bodies.value_mut(handle.0);
            rb2.active_set_id = len;
            self.active_dynamic_set.push(handle);
            proof {
                assert forall|i: int| 0 <= i < self.active_dynamic_set@.len() implies {
                    let h2 = #[trigger] self.active_dynamic_set@[i];
                    &&& self.bodies.live(h2.0)
                    &&& self.bodies.value_at(h2.0).status is Dynamic
                    &&& self.bodies.value_at(h2.0).active_set_id == i
                } by {
                    let h2 = self.active_dynamic_set@[i];
                    if i < old(self).active_dynamic_set@.len() {
                        assert(old(self).active_dynamic_set@[i] == h2);
                        assert(old(self).bodies.live(h2.0));
                        assert(h2 != handle);
                        if h2.0.index == handle.0.index {
                            old(self).bodies.lemma_live_same_slot(h2.0, handle.0);
                        }
                    } else {
                        assert(h2 == handle);
                    }
                }
                assert forall|i: int| 0 <= i < self.active_kinematic_set@.len() implies {
                    let h2 = #[trigger] self.active_kinematic_set@[i];
                    &&& self.bodies.live(h2.0)
                    &&& self.bodies.value_at(h2.0).status is Kinematic
                    &&& self.bodies.value_at(h2.0).active_set_id == i
                } by {
                    let h2 = self.active_kinematic_set@[i];
                    assert(old(self).active_kinematic_set@[i] == h2);
                    assert(old(self).bodies.live(h2.0));
                    assert(!(old(self).bodies.value_at(h2.0).status is Dynamic));
                    assert(h2 != handle);
                    if h2.0.index == handle.0.index {
                        old(self).bodies.lemma_live_same_slot(h2.0, handle.0);
                    }
                }
                assert forall|h2: arena::Index| self.bodies.live(h2) implies (
                #[trigger] self.bodies.value_at(h2)).active_set_timestamp
                    <= self.active_set_timestamp by {
                    assert(old(self).bodies.live(h2));
                }
            }
        } else {
            proof {
                assert(self.active_dynamic_set@[asid as int] == handle);
                assert(self.active_dynamic_set@.contains(handle));
                RigidBodySet::lemma_wf_frame(*old(self), *self);
            }
        }
    }

    /// Gets a mutable reference to the rigid-body with the given handle, or
    /// `None` when the handle is stale or absent. The body is flagged
    /// modified and recorded in the modified-bodies list, unless the
    /// coalescing flag or an earlier hand-out already covers it.
    pub fn get_mut(&mut self, handle: RigidBodyHandle) -> (r: Option<&mut RigidBody>)
        ensures
            r is Some <==> old(self).live(handle),
            !old(self).live(handle) ==> *final(self) == *old(self),
            old(self).live(handle) ==> {
                let covered = old(self).modified_all() || old(self).body_at(
                    handle,
                ).changes.modified;
                &&& *r.unwrap() == marked_body(old(self).body_at(handle), old(self).modified_all())
                &&& final(self).body_at(handle) == *final(r.unwrap())
                &&& forall|h2: RigidBodyHandle| final(self).live(h2) <==> old(self).live(h2)
                &&& forall|h2: RigidBodyHandle| final(self).stale(h2) <==> old(self).stale(h2)
                &&& forall|h2: RigidBodyHandle|
                    h2 != handle && old(self).live(h2) ==> #[trigger] final(self).body_at(h2)
                        == old(self).body_at(h2)
                &&& final(self).len_spec() == old(self).len_spec()
                &&& final(self).active_dynamic() == old(self).active_dynamic()
                &&& final(self).active_kinematic() == old(self).active_kinematic()
                &&& final(self).modified() == (if covered {
                    old(self).modified()
                } else {
                    old(self).modified().push(handle)
                })
                &&& RigidBodySet::same_aux(*old(self), *final(self))
            },
    {
        if !self.bodies.contains(handle.0) {
            return None;
        }
        let mut need_mark = false;
        if !self.modified_all_bodies {
            need_mark = !self.bodies.get(handle.0).unwrap().changes.modified;
        }
        if need_mark {
            let rb = self.bodies.value_mut(handle.0);
            rb.changes = RigidBodyChanges {
                position: false,
                colliders: false,
                sleep: false,
                modified: true,
            };
            self.modified_bodies.push(handle);
        }
        Some(self.bodies.value_mut(handle.0))
    }

    /// Swap-remove the live body `handle` from whichever active sequence
    /// holds it, patching the displaced entry's `active_set_id`; everything
    /// else, including the body itself, is left untouched.
    fn remove_from_active_sets(&mut self, handle: RigidBodyHandle)
        requires
            old(self).wf(),
            old(self).live(handle),
        ensures
            final(self).wf(),
            forall|h2: RigidBodyHandle| final(self).live(h2) <==> old(self).live(h2),
            forall|h2: RigidBodyHandle| final(self).stale(h2) <==> old(self).stale(h2),
            final(self).len_spec() == old(self).len_spec(),
            final(self).modified() == old(self).modified(),
            RigidBodySet::same_aux(*old(self), *final(self)),
            !final(self).active_dynamic().contains(handle),
            !final(self).active_kinematic().contains(handle),
            forall|h2: RigidBodyHandle|
                h2 != handle ==> (final(self).active_dynamic().contains(h2) <==> old(
                    self,
                ).active_dynamic().contains(h2)),
            forall|h2: RigidBodyHandle|
                h2 != handle ==> (final(self).active_kinematic().contains(h2) <==> old(
                    self,
                ).active_kinematic().contains(h2)),
            final(self).body_at(handle) == old(self).body_at(handle),
            forall|h2: RigidBodyHandle|
                h2 != handle && old(self).live(h2) ==> {
                    let a = old(self).body_at(h2);
                    let b = #[trigger] final(self).body_at(h2);
                    &&& b.status == a.status
                    &&& b.position == a.position
                    &&& b.speed == a.speed
                    &&& b.activation == a.activation
                    &&& b.changes == a.changes
                    &&& b.colliders == a.colliders
                    &&& b.joint_graph_index == a.joint_graph_index
                    &&& b.active_island_id == a.active_island_id
                    &&& b.active_set_offset == a.active_set_offset
                    &&& b.active_set_timestamp == a.active_set_timestamp
                },
    {
        let status_kin = self.bodies.get(handle.0).unwrap().is_kinematic();
        let status_dyn = self.bodies.get(handle.0).unwrap().is_dynamic();
        let asid = self.bodies.get(handle.0).unwrap().active_set_id;
        if status_kin && asid < self.active_kinematic_set.len() && self.active_kinematic_set[asid]
            == handle {
            self.active_kinematic_set.swap_remove(asid);
            if asid < self.active_kinematic_set.len() {
                let displaced = self.active_kinematic_set[asid];
                proof {
                    assert(displaced == old(self).active_kinematic_set@[old(
                        self,
                    ).active_kinematic_set@.len() - 1]);
                    assert(old(self).bodies.value_at(displaced.0).active_set_id == old(
                        self,
                    ).active_kinematic_set@.len() - 1);
                    assert(displaced != handle);
                }
                let b = self.bodies.value_mut(displaced.0);
                b.active_set_id = asid;
            }
            proof {
                Self::lemma_after_swap_remove_kinematic(*old(self), *self, handle, asid as int);
            }
        } else if status_dyn && asid < self.active_dynamic_set.len()
            && self.active_dynamic_set[asid] == handle {
            self.active_dynamic_set.swap_remove(asid);
            if asid < self.active_dynamic_set.len() {
                let displaced = self.active_dynamic_set[asid];
                proof {
                    assert(displaced == old(self).active_dynamic_set@[old(
                        self,
                    ).active_dynamic_set@.len() - 1]);
                    assert(old(self).bodies.value_at(displaced.0).active_set_id == old(
                        self,
                    ).active_dynamic_set@.len() - 1);
                    assert(displaced != handle);
                }
                let b = self.bodies.value_mut(displaced.0);
                b.active_set_id = asid;
            }
            proof {
                Self::lemma_after_swap_remove_dynamic(*old(self), *self, handle, asid as int);
            }
        } else {
            proof {
                if self.active_kinematic_set@.contains(handle) {
                    let i = choose|i: int|
                        0 <= i < self.active_kinematic_set@.len() && self.active_kinematic_set@[i]
                            == handle;
                    assert(old(self).bodies.value_at(handle.0).active_set_id == i);
                    assert(old(self).bodies.value_at(handle.0).status is Kinematic);
                }
                if self.active_dynamic_set@.contains(handle) {
                    let i = choose|i: int|
                        0 <= i < self.active_dynamic_set@.len() && self.active_dynamic_set@[i]
                            == handle;
                    assert(old(self).bodies.value_at(handle.0).active_set_id == i);
                    assert(old(self).bodies.value_at(handle.0).status is Dynamic);
                }
            }
        }
    }

    /// After swap-removing `handle` at position `asid` of the kinematic
    /// sequence and patching the displaced entry, the container is
    /// well-formed again and membership changed only for `handle`.
    proof fn lemma_after_swap_remove_kinematic(
        pre: RigidBodySet,
        post: RigidBodySet,
        handle: RigidBodyHandle,
        asid: int,
    )
        requires
            pre.wf(),
            post.bodies.wf(),
            0 <= asid < pre.active_kinematic_set@.len(),
            pre.active_kinematic_set@[asid] == handle,
            pre.bodies.live(handle.0),
            post.active_kinematic_set@ == pre.active_kinematic_set@.update(
                asid,
                pre.active_kinematic_set@.last(),
            ).drop_last(),
            post.active_dynamic_set@ == pre.active_dynamic_set@,
            post.active_set_timestamp == pre.active_set_timestamp,
            forall|h: arena::Index| post.bodies.live(h) <==> pre.bodies.live(h),
            asid < post.active_kinematic_set@.len() ==> {
                &&& post.bodies.value_at(post.active_kinematic_set@[asid].0)
                    == (RigidBody {
                    active_set_id: asid as usize,
                    ..pre.bodies.value_at(post.active_kinematic_set@[asid].0)
                })
                &&& forall|h: arena::Index|
                    pre.bodies.live(h) && h != post.active_kinematic_set@[asid].0
                        ==> #[trigger] post.bodies.value_at(h) == pre.bodies.value_at(h)
            },
            asid >= post.active_kinematic_set@.len() ==> forall|h: arena::Index|
                pre.bodies.live(h) ==> #[trigger] post.bodies.value_at(h) == pre.bodies.value_at(
                    h,
                ),
        ensures
            post.wf(),
            !post.active_kinematic_set@.contains(handle),
            forall|h2: RigidBodyHandle|
                h2 != handle ==> (post.active_kinematic_set@.contains(h2)
                    <==> pre.active_kinematic_set@.contains(h2)),
    {
        let n = pre.active_kinematic_set@.len();
        assert forall|i: int, j: int|
            0 <= i < n && 0 <= j < n && i != j implies pre.active_kinematic_set@[i]
            != pre.active_kinematic_set@[j] by {
            assert(pre.bodies.value_at(pre.active_kinematic_set@[i].0).active_set_id == i);
            assert(pre.bodies.value_at(pre.active_kinematic_set@[j].0).active_set_id == j);
        }
        assert forall|i: int| 0 <= i < post.active_kinematic_set@.len() implies {
            let h = #[trigger] post.active_kinematic_set@[i];
            &&& post.bodies.live(h.0)
            &&& post.bodies.value_at(h.0).status is Kinematic
            &&& post.bodies.value_at(h.0).active_set_id == i
        } by {
            let h = post.active_kinematic_set@[i];
            assert(pre.bodies.value_at(handle.0).active_set_id == asid);
            if i == asid {
                assert(h == pre.active_kinematic_set@[n - 1]);
                assert(pre.bodies.value_at(h.0).active_set_id == n - 1);
            } else {
                assert(h == pre.active_kinematic_set@[i]);
                assert(pre.bodies.value_at(h.0).active_set_id == i);
            }
            assert(pre.bodies.live(h.0));
            assert(h != handle);
        }
        assert forall|i: int| 0 <= i < post.active_dynamic_set@.len() implies {
            let h = #[trigger] post.active_dynamic_set@[i];
            &&& post.bodies.live(h.0)
            &&& post.bodies.value_at(h.0).status is Dynamic
            &&& post.bodies.value_at(h.0).active_set_id == i
        } by {
            let h = post.active_dynamic_set@[i];
            assert(h == pre.active_dynamic_set@[i]);
            assert(pre.bodies.live(h.0));
            assert(pre.bodies.value_at(h.0).active_set_id == i);
            assert(!(pre.bodies.value_at(h.0).status is Kinematic));
            if asid < post.active_kinematic_set@.len() {
                assert(h != post.active_kinematic_set@[asid]);
                if h.0.index == post.active_kinematic_set@[asid].0.index {
                    pre.bodies.lemma_live_same_slot(h.0, post.active_kinematic_set@[asid].0);
                }
            }
        }
        assert forall|h: arena::Index| post.bodies.live(h) implies (#[trigger] post.bodies.value_at(
            h,
        )).active_set_timestamp <= post.active_set_timestamp by {
            assert(pre.bodies.live(h));
        }
        if post.active_kinematic_set@.contains(handle) {
            let i = choose|i: int|
                0 <= i < post.active_kinematic_set@.len() && post.active_kinematic_set@[i]
                    == handle;
            if i == asid {
                assert(handle == pre.active_kinematic_set@[n - 1]);
                assert(pre.bodies.value_at(handle.0).active_set_id == n - 1);
                assert(pre.bodies.value_at(handle.0).active_set_id == asid);
            } else {
                assert(pre.active_kinematic_set@[i] == handle);
                assert(pre.bodies.value_at(handle.0).active_set_id == i);
                assert(pre.bodies.value_at(handle.0).active_set_id == asid);
            }
        }
        assert forall|h2: RigidBodyHandle| h2 != handle implies (
        post.active_kinematic_set@.contains(h2) <==> pre.active_kinematic_set@.contains(h2)) by {
            if post.active_kinematic_set@.contains(h2) {
                let i = choose|i: int|
                    0 <= i < post.active_kinematic_set@.len() && post.active_kinematic_set@[i]
                        == h2;
                if i == asid {
                    assert(pre.active_kinematic_set@[n - 1] == h2);
                } else {
                    assert(pre.active_kinematic_set@[i] == h2);
                }
            }
            if pre.active_kinematic_set@.contains(h2) {
                let i = choose|i: int|
                    0 <= i < n && pre.active_kinematic_set@[i] == h2;
                assert(i != asid);
                if i == n - 1 {
                    assert(asid < post.active_kinematic_set@.len());
                    assert(post.active_kinematic_set@[asid] == h2);
                } else {
                    assert(post.active_kinematic_set@[i] == h2);
                }
            }
        }
    }

    /// After swap-removing `handle` at position `asid` of the dynamic
    /// sequence and patching the displaced entry, the container is
    /// well-formed again and membership changed only for `handle`.
    proof fn lemma_after_swap_remove_dynamic(
        pre: RigidBodySet,
        post: RigidBodySet,
        handle: RigidBodyHandle,
        asid: int,
    )
        requires
            pre.wf(),
            post.bodies.wf(),
            0 <= asid < pre.active_dynamic_set@.len(),
            pre.active_dynamic_set@[asid] == handle,
            pre.bodies.live(handle.0),
            post.active_dynamic_set@ == pre.active_dynamic_set@.update(
                asid,
                pre.active_dynamic_set@.last(),
            ).drop_last(),
            post.active_kinematic_set@ == pre.active_kinematic_set@,
            post.active_set_timestamp == pre.active_set_timestamp,
            forall|h: arena::Index| post.bodies.live(h) <==> pre.bodies.live(h),
            asid < post.active_dynamic_set@.len() ==> {
                &&& post.bodies.value_at(post.active_dynamic_set@[asid].0)
                    == (RigidBody {
                    active_set_id: asid as usize,
                    ..pre.bodies.value_at(post.active_dynamic_set@[asid].0)
                })
                &&& forall|h: arena::Index|
                    pre.bodies.live(h) && h != post.active_dynamic_set@[asid].0
                        ==> #[trigger] post.bodies.value_at(h) == pre.bodies.value_at(h)
            },
            asid >= post.active_dynamic_set@.len() ==> forall|h: arena::Index|
                pre.bodies.live(h) ==> #[trigger] post.bodies.value_at(h) == pre.bodies.value_at(
                    h,
                ),
        ensures
            post.wf(),
            !post.active_dynamic_set@.contains(handle),
            forall|h2: RigidBodyHandle|
                h2 != handle ==> (post.active_dynamic_set@.contains(h2)
                    <==> pre.active_dynamic_set@.contains(h2)),
    {
        let n = pre.active_dynamic_set@.len();
        assert forall|i: int, j: int|
            0 <= i < n && 0 <= j < n && i != j implies pre.active_dynamic_set@[i]
            != pre.active_dynamic_set@[j] by {
            assert(pre.bodies.value_at(pre.active_dynamic_set@[i].0).active_set_id == i);
            assert(pre.bodies.value_at(pre.active_dynamic_set@[j].0).active_set_id == j);
        }
        assert forall|i: int| 0 <= i < post.active_dynamic_set@.len() implies {
            let h = #[trigger] post.active_dynamic_set@[i];
            &&& post.bodies.live(h.0)
            &&& post.bodies.value_at(h.0).status is Dynamic
            &&& post.bodies.value_at(h.0).active_set_id == i
        } by {
            let h = post.active_dynamic_set@[i];
            assert(pre.bodies.value_at(handle.0).active_set_id == asid);
            if i == asid {
                assert(h == pre.active_dynamic_set@[n - 1]);
                assert(pre.bodies.value_at(h.0).active_set_id == n - 1);
            } else {
                assert(h == pre.active_dynamic_set@[i]);
                assert(pre.bodies.value_at(h.0).active_set_id == i);
            }
            assert(pre.bodies.live(h.0));
            assert(h != handle);
        }
        assert forall|i: int| 0 <= i < post.active_kinematic_set@.len() implies {
            let h = #[trigger] post.active_kinematic_set@[i];
            &&& post.bodies.live(h.0)
            &&& post.bodies.value_at(h.0).status is Kinematic
            &&& post.bodies.value_at(h.0).active_set_id == i
        } by {
            let h = post.active_kinematic_set@[i];
            assert(h == pre.active_kinematic_set@[i]);
            assert(pre.bodies.live(h.0));
            assert(pre.bodies.value_at(h.0).active_set_id == i);
            assert(!(pre.bodies.value_at(h.0).status is Dynamic));
            if asid < post.active_dynamic_set@.len() {
                assert(h != post.active_dynamic_set@[asid]);
                if h.0.index == post.active_dynamic_set@[asid].0.index {
                    pre.bodies.lemma_live_same_slot(h.0, post.active_dynamic_set@[asid].0);
                }
            }
        }
        assert forall|h: arena::Index| post.bodies.live(h) implies (#[trigger] post.bodies.value_at(
            h,
        )).active_set_timestamp <= post.active_set_timestamp by {
            assert(pre.bodies.live(h));
        }
        if post.active_dynamic_set@.contains(handle) {
            let i = choose|i: int|
                0 <= i < post.active_dynamic_set@.len() && post.active_dynamic_set@[i] == handle;
            if i == asid {
                assert(handle == pre.active_dynamic_set@[n - 1]);
                assert(pre.bodies.value_at(handle.0).active_set_id == n - 1);
                assert(pre.bodies.value_at(handle.0).active_set_id == asid);
            } else {
                assert(pre.active_dynamic_set@[i] == handle);
                assert(pre.bodies.value_at(handle.0).active_set_id == i);
                assert(pre.bodies.value_at(handle.0).active_set_id == asid);
            }
        }
        assert forall|h2: RigidBodyHandle| h2 != handle implies (
        post.active_dynamic_set@.contains(h2) <==> pre.active_dynamic_set@.contains(h2)) by {
            if post.active_dynamic_set@.contains(h2) {
                let i = choose|i: int|
                    0 <= i < post.active_dynamic_set@.len() && post.active_dynamic_set@[i] == h2;
                if i == asid {
                    assert(pre.active_dynamic_set@[n - 1] == h2);
                } else {
                    assert(pre.active_dynamic_set@[i] == h2);
                }
            }
            if pre.active_dynamic_set@.contains(h2) {
                let i = choose|i: int| 0 <= i < n && pre.active_dynamic_set@[i] == h2;
                assert(i != asid);
                if i == n - 1 {
                    assert(asid < post.active_dynamic_set@.len());
                    assert(post.active_dynamic_set@[asid] == h2);
                } else {
                    assert(post.active_dynamic_set@[i] == h2);
                }
            }
        }
    }

    /// Removes a rigid-body, and all its attached colliders and joints, from
    /// these sets. Returns `None` on a stale or absent handle. Every collider
    /// listed by the removed body is deleted from the collider set, and the
    /// body's joint-graph node is unlinked from every joint.
    pub fn remove(&mut self, handle: RigidBodyHandle, colliders: &mut ColliderSet,
        joints: &mut crate::joint::JointSet) -> (r: Option<RigidBody>)
        requires
            old(self).wf(),
            old(colliders).wf(),
            old(self).live(handle) ==> forall|j: int|
                0 <= j < old(self).body_at(handle).colliders@.len() && old(colliders).live(
                    #[trigger] old(self).body_at(handle).colliders@[j],
                ) ==> old(colliders).parent_of(old(self).body_at(handle).colliders@[j]) == handle,
        ensures
            final(self).wf(),
            final(colliders).wf(),
            !old(self).live(handle) ==> r is None && *final(self) == *old(self) && *final(colliders)
                == *old(colliders) && *final(joints) == *old(joints),
            old(self).live(handle) ==> {
                let rb = old(self).body_at(handle);
                &&& r == Some(rb)
                &&& !final(self).live(handle)
                &&& final(self).stale(handle)
                &&& final(self).len_spec() + 1 == old(self).len_spec()
                &&& !final(self).active_dynamic().contains(handle)
                &&& !final(self).active_kinematic().contains(handle)
                &&& forall|h2: RigidBodyHandle|
                    h2 != handle ==> (final(self).active_dynamic().contains(h2) <==> old(
                        self,
                    ).active_dynamic().contains(h2))
                &&& forall|h2: RigidBodyHandle|
                    h2 != handle ==> (final(self).active_kinematic().contains(h2) <==> old(
                        self,
                    ).active_kinematic().contains(h2))
                &&& forall|j: int|
                    0 <= j < rb.colliders@.len() ==> !final(colliders).live(
                        #[trigger] rb.colliders@[j],
                    )
                &&& forall|c2: ColliderHandle|
                    !rb.colliders@.contains(c2) ==> (final(colliders).live(c2) <==> old(
                        colliders,
                    ).live(c2))
                &&& forall|c2: ColliderHandle|
                    final(colliders).live(c2) ==> old(colliders).live(c2)
                        && #[trigger] final(colliders).parent_of(c2) == old(colliders).parent_of(
                        c2,
                    ) && final(colliders).position_of(c2) == old(colliders).position_of(c2)
                &&& final(joints).joints@ == old(joints).joints@.filter(
                    crate::joint::keeps_joint(rb.joint_graph_index),
                )
                &&& !final(joints).attached(rb.joint_graph_index)
            },
            forall|h2: RigidBodyHandle| h2 != handle ==> (final(self).live(h2) <==> old(self).live(
                h2,
            )),
            forall|h2: RigidBodyHandle| old(self).stale(h2) ==> final(self).stale(h2),
            forall|c2: ColliderHandle| old(colliders).stale(c2) ==> final(colliders).stale(c2),
            forall|h2: RigidBodyHandle|
                h2 != handle && old(self).live(h2) ==> {
                    let a = old(self).body_at(h2);
                    let b = #[trigger] final(self).body_at(h2);
                    &&& b.status == a.status
                    &&& b.position == a.position
                    &&& b.speed == a.speed
                    &&& b.activation == a.activation
                    &&& b.changes == a.changes
                    &&& b.colliders == a.colliders
                    &&& b.joint_graph_index == a.joint_graph_index
                    &&& b.active_set_timestamp == a.active_set_timestamp
                },
            final(self).modified() == old(self).modified(),
            RigidBodySet::same_aux(*old(self), *final(self)),
    {
        if !self.bodies.contains(handle.0) {
            return None;
        }
        self.remove_from_active_sets(handle);
        let ghost s_fix = *self;
        proof {
            assert(self.live(handle));
        }
        let rb = match self.bodies.remove(handle.0) {
            Some(rb) => rb,
            None => vstd::pervasive::unreached(),
        };
        proof {
            assert forall|i: int| 0 <= i < self.active_dynamic_set@.len() implies {
                let h = #[trigger] self.active_dynamic_set@[i];
                &&& self.bodies.live(h.0)
                &&& self.bodies.value_at(h.0).status is Dynamic
                &&& self.bodies.value_at(h.0).active_set_id == i
            } by {
                let h = self.active_dynamic_set@[i];
                assert(self.active_dynamic_set@.contains(h));
                assert(h != handle);
            }
            assert forall|i: int| 0 <= i < self.active_kinematic_set@.len() implies {
                let h = #[trigger] self.active_kinematic_set@[i];
                &&& self.bodies.live(h.0)
                &&& self.bodies.value_at(h.0).status is Kinematic
                &&& self.bodies.value_at(h.0).active_set_id == i
            } by {
                let h = self.active_kinematic_set@[i];
                assert(self.active_kinematic_set@.contains(h));
                assert(h != handle);
            }
            assert forall|h: arena::Index| self.bodies.live(h) implies (
            #[trigger] self.bodies.value_at(h)).active_set_timestamp
                <= self.active_set_timestamp by {
                assert(h != handle.0);
            }
            assert forall|h2: RigidBodyHandle| h2 != handle && old(self).live(h2) implies {
                let a = old(self).body_at(h2);
                let b = #[trigger] self.body_at(h2);
                &&& b.status == a.status
                &&& b.position == a.position
                &&& b.speed == a.speed
                &&& b.activation == a.activation
                &&& b.changes == a.changes
                &&& b.colliders == a.colliders
                &&& b.joint_graph_index == a.joint_graph_index
                &&& b.active_set_timestamp == a.active_set_timestamp
            } by {
                assert(s_fix.live(h2));
                assert(self.body_at(h2) == s_fix.body_at(h2));
            }
        }
        let ghost s0 = *self;
        let ghost c0 = *colliders;
        let mut i: usize = 0;
        let n = rb.colliders.len();
        while i < n
            invariant
                n == rb.colliders@.len(),
                i <= n,
                *self == s0,
                self.wf(),
                colliders.wf(),
                !self.live(handle),
                forall|j: int| 0 <= j < i ==> !colliders.live(#[trigger] rb.colliders@[j]),
                forall|c2: ColliderHandle| colliders.live(c2) ==> c0.live(c2),
                forall|c2: ColliderHandle|
                    !rb.colliders@.subrange(0, i as int).contains(c2) ==> (colliders.live(c2)
                        <==> c0.live(c2)),
                forall|c2: ColliderHandle|
                    colliders.live(c2) ==> #[trigger] colliders.parent_of(c2) == c0.parent_of(c2)
                        && colliders.position_of(c2) == c0.position_of(c2),
                forall|c2: ColliderHandle| c0.stale(c2) ==> colliders.stale(c2),
                forall|j: int|
                    0 <= j < n && c0.live(#[trigger] rb.colliders@[j]) ==> c0.parent_of(
                        rb.colliders@[j],
                    ) == handle,
            decreases n - i,
        {
            let ch = rb.colliders[i];
            let ghost cmid = *colliders;
            colliders.remove(ch, self, false);
            proof {
                if cmid.live(ch) {
                    assert(c0.live(ch));
                    assert(cmid.parent_of(ch) == handle);
                    assert(!self.live(handle));
                }
                assert forall|c2: ColliderHandle| colliders.live(c2) implies #[trigger] colliders
                    .parent_of(c2) == c0.parent_of(c2) && colliders.position_of(c2)
                    == c0.position_of(c2) by {
                    assert(cmid.live(c2));
                    assert(cmid.parent_of(c2) == c0.parent_of(c2));
                    assert(cmid.position_of(c2) == c0.position_of(c2));
                    if cmid.live(ch) {
                        assert(c2 != ch);
                        assert(colliders.parent_of(c2) == cmid.parent_of(c2));
                        assert(colliders.position_of(c2) == cmid.position_of(c2));
                    } else {
                        assert(*colliders == cmid);
                    }
                }
                assert forall|c2: ColliderHandle|
                    !rb.colliders@.subrange(0, i as int + 1).contains(c2) implies (colliders.live(
                    c2,
                ) <==> c0.live(c2)) by {
                    let pre = rb.colliders@.subrange(0, i as int);
                    let cur = rb.colliders@.subrange(0, i as int + 1);
                    assert(cur.drop_last() =~= pre);
                    if pre.contains(c2) {
                        let j = choose|j: int| 0 <= j < pre.len() && pre[j] == c2;
                        assert(cur[j] == c2);
                    }
                    assert(c2 != ch || cur[i as int] == c2);
                }
            }
            i = i + 1;
        }
        proof {
            assert(rb.colliders@.subrange(0, n as int) =~= rb.colliders@);
            assert forall|c2: ColliderHandle|
                !rb.colliders@.contains(c2) implies (colliders.live(c2) <==> c0.live(c2)) by {
                assert(!rb.colliders@.subrange(0, n as int).contains(c2));
            }
        }
        joints.remove_rigid_body(rb.joint_graph_index);
        Some(rb)
    }

    /// Like `lemma_wf_frame`, but for a change that may rewrite stamps, as
    /// long as no live body's stamp passes the global timestamp.
    proof fn lemma_wf_frame_relaxed(pre: RigidBodySet, post: RigidBodySet)
        requires
            pre.wf(),
            post.bodies.wf(),
            post.active_dynamic_set@ == pre.active_dynamic_set@,
            post.active_kinematic_set@ == pre.active_kinematic_set@,
            forall|h: arena::Index| post.bodies.live(h) <==> pre.bodies.live(h),
            forall|h: arena::Index|
                pre.bodies.live(h) ==> {
                    let a = pre.bodies.value_at(h);
                    let b = #[trigger] post.bodies.value_at(h);
                    &&& b.status == a.status
                    &&& b.active_set_id == a.active_set_id
                },
            forall|h: arena::Index|
                post.bodies.live(h) ==> (#[trigger] post.bodies.value_at(
                    h,
                )).active_set_timestamp <= post.active_set_timestamp,
        ensures
            post.wf(),
    {
        assert forall|i: int| 0 <= i < post.active_dynamic_set@.len() implies {
            let h = #[trigger] post.active_dynamic_set@[i];
            &&& post.bodies.live(h.0)
            &&& post.bodies.value_at(h.0).status is Dynamic
            &&& post.bodies.value_at(h.0).active_set_id == i
        } by {
            let h = post.active_dynamic_set@[i];
            assert(pre.active_dynamic_set@[i] == h);
            assert(pre.bodies.live(h.0));
        }
        assert forall|i: int| 0 <= i < post.active_kinematic_set@.len() implies {
            let h = #[trigger] post.active_kinematic_set@[i];
            &&& post.bodies.live(h.0)
            &&& post.bodies.value_at(h.0).status is Kinematic
            &&& post.bodies.value_at(h.0).active_set_id == i
        } by {
            let h = post.active_kinematic_set@[i];
            assert(pre.active_kinematic_set@[i] == h);
            assert(pre.bodies.live(h.0));
        }
    }

    /// Re-establish well-formedness after popping the last entry of the
    /// active dynamic sequence, with every live body's classification, set
    /// position and stamp kept.
    proof fn lemma_wf_drop_dynamic(pre: RigidBodySet, post: RigidBodySet)
        requires
            pre.wf(),
            post.bodies.wf(),
            pre.active_dynamic_set@.len() > 0,
            post.active_dynamic_set@ == pre.active_dynamic_set@.drop_last(),
            post.active_kinematic_set@ == pre.active_kinematic_set@,
            post.active_set_timestamp == pre.active_set_timestamp,
            forall|h: arena::Index| post.bodies.live(h) <==> pre.bodies.live(h),
            forall|h: arena::Index|
                pre.bodies.live(h) ==> {
                    let a = pre.bodies.value_at(h);
                    let b = #[trigger] post.bodies.value_at(h);
                    &&& b.status == a.status
                    &&& b.active_set_id == a.active_set_id
                    &&& b.active_set_timestamp == a.active_set_timestamp
                },
        ensures
            post.wf(),
    {
        assert forall|i: int| 0 <= i < post.active_dynamic_set@.len() implies {
            let h = #[trigger] post.active_dynamic_set@[i];
            &&& post.bodies.live(h.0)
            &&& post.bodies.value_at(h.0).status is Dynamic
            &&& post.bodies.value_at(h.0).active_set_id == i
        } by {
            let h = post.active_dynamic_set@[i];
            assert(pre.active_dynamic_set@[i] == h);
            assert(pre.bodies.live(h.0));
        }
        assert forall|i: int| 0 <= i < post.active_kinematic_set@.len() implies {
            let h = #[trigger] post.active_kinematic_set@[i];
            &&& post.bodies.live(h.0)
            &&& post.bodies.value_at(h.0).status is Kinematic
            &&& post.bodies.value_at(h.0).active_set_id == i
        } by {
            let h = post.active_kinematic_set@[i];
            assert(pre.active_kinematic_set@[i] == h);
            assert(pre.bodies.live(h.0));
        }
        assert forall|h: arena::Index| post.bodies.live(h) implies (#[trigger] post.bodies.value_at(
            h,
        )).active_set_timestamp <= post.active_set_timestamp by {
            assert(pre.bodies.live(h));
        }
    }

    /// Advance the traversal timestamp so that no live body carries the new
    /// stamp. When the counter is exhausted, every body's stamp is restarted
    /// instead of wrapping, so stamp comparisons can never alias.
    fn bump_timestamp(&mut self)
        requires
            old(self).wf(),
        ensures
            final(self).wf(),
            forall|h2: RigidBodyHandle| final(self).live(h2) <==> old(self).live(h2),
            forall|h2: RigidBodyHandle| final(self).stale(h2) <==> old(self).stale(h2),
            final(self).len_spec() == old(self).len_spec(),
            final(self).bodies.slot_count() == old(self).bodies.slot_count(),
            final(self).active_dynamic_set@ == old(self).active_dynamic_set@,
            final(self).active_kinematic_set@ == old(self).active_kinematic_set@,
            final(self).modified_bodies@ == old(self).modified_bodies@,
            final(self).modified_all_bodies == old(self).modified_all_bodies,
            final(self).modified_inactive_set@ == old(self).modified_inactive_set@,
            final(self).active_islands@ == old(self).active_islands@,
            final(self).stack@ == old(self).stack@,
            final(self).can_sleep@ == old(self).can_sleep@,
            forall|h: arena::Index|
                final(self).bodies.live(h) ==> (#[trigger] final(self).bodies.value_at(
                    h,
                )).active_set_timestamp < final(self).active_set_timestamp,
            forall|h: arena::Index|
                old(self).bodies.live(h) ==> (#[trigger] final(self).bodies.value_at(h))
                    == (RigidBody {
                    active_set_timestamp: final(self).bodies.value_at(h).active_set_timestamp,
                    ..old(self).bodies.value_at(h)
                }),
            old(self).active_set_timestamp < u32::MAX ==> final(self).active_set_timestamp == old(
                self,
            ).active_set_timestamp + 1,
            old(self).active_set_timestamp < u32::MAX ==> forall|h: arena::Index|
                old(self).bodies.live(h) ==> #[trigger] final(self).bodies.value_at(h) == old(
                    self,
                ).bodies.value_at(h),
    {
        if self.active_set_timestamp == u32::MAX {
            let cap = self.bodies.slot_cap();
            let mut i: usize = 0;
            while i < cap
                invariant
                    self.wf(),
                    i <= cap,
                    cap == self.bodies.slot_count(),
                    self.active_set_timestamp == u32::MAX,
                    self.active_dynamic_set@ == old(self).active_dynamic_set@,
                    self.active_kinematic_set@ == old(self).active_kinematic_set@,
                    self.modified_bodies@ == old(self).modified_bodies@,
                    self.modified_all_bodies == old(self).modified_all_bodies,
                    self.modified_inactive_set@ == old(self).modified_inactive_set@,
                    self.active_islands@ == old(self).active_islands@,
                    self.stack@ == old(self).stack@,
                    self.can_sleep@ == old(self).can_sleep@,
                    forall|h2: RigidBodyHandle| self.live(h2) <==> old(self).live(h2),
                    forall|h2: RigidBodyHandle| self.stale(h2) <==> old(self).stale(h2),
                    self.len_spec() == old(self).len_spec(),
                    forall|h: arena::Index|
                        old(self).bodies.live(h) ==> (#[trigger] self.bodies.value_at(h))
                            == (RigidBody {
                            active_set_timestamp: self.bodies.value_at(h).active_set_timestamp,
                            ..old(self).bodies.value_at(h)
                        }),
                    forall|h: arena::Index|
                        self.bodies.live(h) && h.index < i ==> (#[trigger] self.bodies.value_at(
                            h,
                        )).active_set_timestamp == 0,
                decreases cap - i,
            {
                let ghost pre = *self;
                let found = self.bodies.handle_at_slot(i);
                if let Some(idx) = found {
                    let b = self.bodies.value_mut(idx);
                    b.active_set_timestamp = 0;
                    proof {
                        Self::lemma_wf_frame_relaxed(pre, *self);
                        assert forall|h: arena::Index| self.bodies.live(h) && h.index
                            < i + 1 implies (#[trigger] self.bodies.value_at(
                            h,
                        )).active_set_timestamp == 0 by {
                            if h.index == i {
                                self.bodies.lemma_live_same_slot(h, idx);
                            }
                        }
                        assert forall|h: arena::Index| old(self).bodies.live(h) implies (
                        #[trigger] self.bodies.value_at(h)) == (RigidBody {
                            active_set_timestamp: self.bodies.value_at(h).active_set_timestamp,
                            ..old(self).bodies.value_at(h)
                        }) by {
                            assert(old(self).live(RigidBodyHandle(h)));
                            assert(pre.live(RigidBodyHandle(h)));
                            assert(pre.bodies.live(h));
                            if h != idx {
                                assert(self.bodies.value_at(h) == pre.bodies.value_at(h));
                            }
                            assert(pre.bodies.value_at(h) == (RigidBody {
                                active_set_timestamp: pre.bodies.value_at(h).active_set_timestamp,
                                ..old(self).bodies.value_at(h)
                            }));
                        }
                    }
                } else {
                    proof {
                        assert forall|h: arena::Index| self.bodies.live(h) && h.index
                            < i + 1 implies (#[trigger] self.bodies.value_at(
                            h,
                        )).active_set_timestamp == 0 by {
                            if h.index == i {
                                assert(!self.bodies.live(h));
                            }
                        }
                    }
                }
                i = i + 1;
            }
            let ghost pre2 = *self;
            self.active_set_timestamp = 1;
            proof {
                assert forall|h: arena::Index| self.bodies.live(h) implies (
                #[trigger] self.bodies.value_at(h)).active_set_timestamp
                    < self.active_set_timestamp by {
                    assert(h.index < cap) by {
                        pre2.bodies.lemma_live_slot(h);
                    }
                }
                Self::lemma_wf_frame_relaxed(pre2, *self);
            }
        } else {
            let ghost pre = *self;
            self.active_set_timestamp = self.active_set_timestamp + 1;
            proof {
                Self::lemma_wf_frame_relaxed(pre, *self);
            }
        }
    }

    /// Carry a stack-segment membership fact across appends.
    proof fn lemma_pushed_since_extend(
        st1: Seq<RigidBodyHandle>,
        st2: Seq<RigidBodyHandle>,
        from: int,
        x: RigidBodyHandle,
    )
        requires
            0 <= from,
            pushed_since(st1, from, x),
            st2.len() >= st1.len(),
            forall|idx: int| 0 <= idx < st1.len() ==> st2[idx] == #[trigger] st1[idx],
        ensures
            pushed_since(st2, from, x),
    {
        let idx = choose|idx: int| from <= idx < st1.len() && st1[idx] == x;
        assert(st2[idx] == x);
    }

    /// A sequence extended by a push holds its old elements and the new one.
    proof fn lemma_contains_after_push(s: Seq<RigidBodyHandle>, x: RigidBodyHandle, y: RigidBodyHandle)
        requires
            s.contains(y) || y == x,
        ensures
            s.push(x).contains(y),
    {
        if s.contains(y) {
            let j = choose|j: int| 0 <= j < s.len() && s[j] == y;
            assert(s.push(x)[j] == y);
        } else {
            assert(s.push(x)[s.len() as int] == y);
        }
    }

    /// Push onto the traversal stack the parent body of every collider in
    /// live contact with one of `handle`'s colliders. Only the stack changes,
    /// it only gains live handles, and for every live pair with a collider
    /// listed by `handle`, the other collider's parent lands on the stack.
    fn push_contacting_bodies_of(
        &mut self,
        handle: RigidBodyHandle,
        colliders: &ColliderSet,
        narrow_phase: &NarrowPhase,
    )
        requires
            old(self).live(handle),
            pairs_coherent(*narrow_phase, *colliders),
            parents_coherent(*old(self), *colliders),
        ensures
            *final(self) == (RigidBodySet { stack: final(self).stack, ..*old(self) }),
            old(self).stack@.is_prefix_of(final(self).stack@),
            forall|j: int|
                old(self).stack@.len() <= j < final(self).stack@.len() ==> old(self).live(
                    #[trigger] final(self).stack@[j],
                ),
            forall|k: int|
                0 <= k < narrow_phase.pairs@.len() && pair_live(#[trigger] narrow_phase.pairs@[k])
                    ==> {
                    &&& (old(self).body_at(handle).colliders@.contains(
                        narrow_phase.pairs@[k].collider1,
                    ) ==> pushed_since(
                        final(self).stack@,
                        old(self).stack@.len() as int,
                        colliders.parent_of(narrow_phase.pairs@[k].collider2),
                    ))
                    &&& (old(self).body_at(handle).colliders@.contains(
                        narrow_phase.pairs@[k].collider2,
                    ) ==> pushed_since(
                        final(self).stack@,
                        old(self).stack@.len() as int,
                        colliders.parent_of(narrow_phase.pairs@[k].collider1),
                    ))
                },
    {
        let ghost from = old(self).stack@.len() as int;
        let np_len = narrow_phase.pairs.len();
        proof {
            assert(narrow_phase.pairs@.len() <= usize::MAX);
        }
        let rb = self.bodies.get(handle.0).unwrap();
        let nc = rb.colliders.len();
        let mut ci: usize = 0;
        while ci < nc
            invariant
                ci <= nc,
                nc == rb.colliders@.len(),
                rb.colliders@ == old(self).body_at(handle).colliders@,
                from == old(self).stack@.len() as int,
                narrow_phase.pairs@.len() <= usize::MAX,
                pairs_coherent(*narrow_phase, *colliders),
                parents_coherent(*old(self), *colliders),
                *self == (RigidBodySet { stack: self.stack, ..*old(self) }),
                old(self).stack@.is_prefix_of(self.stack@),
                forall|j: int|
                    old(self).stack@.len() <= j < self.stack@.len() ==> old(self).live(
                        #[trigger] self.stack@[j],
                    ),
                forall|k: int|
                    0 <= k < narrow_phase.pairs@.len() && pair_live(
                        #[trigger] narrow_phase.pairs@[k],
                    ) ==> {
                        &&& (rb.colliders@.subrange(0, ci as int).contains(
                            narrow_phase.pairs@[k].collider1,
                        ) ==> pushed_since(
                            self.stack@,
                            from,
                            colliders.parent_of(narrow_phase.pairs@[k].collider2),
                        ))
                        &&& (rb.colliders@.subrange(0, ci as int).contains(
                            narrow_phase.pairs@[k].collider2,
                        ) ==> pushed_since(
                            self.stack@,
                            from,
                            colliders.parent_of(narrow_phase.pairs@[k].collider1),
                        ))
                    },
            decreases nc - ci,
        {
            let ch = rb.colliders[ci];
            let touching = narrow_phase.contacts_with(ch);
            let nt = touching.len();
            let mut ti: usize = 0;
            while ti < nt
                invariant
                    ti <= nt,
                    nt == touching@.len(),
                    ci < nc,
                    nc == rb.colliders@.len(),
                    rb.colliders@ == old(self).body_at(handle).colliders@,
                    ch == rb.colliders@[ci as int],
                    from == old(self).stack@.len() as int,
                    narrow_phase.pairs@.len() <= usize::MAX,
                    pairs_coherent(*narrow_phase, *colliders),
                    parents_coherent(*old(self), *colliders),
                    forall|j: int|
                        0 <= j < touching@.len() ==> (#[trigger] touching@[j])
                            < narrow_phase.pairs@.len() && (narrow_phase.pairs@[
                            touching@[j] as int
                        ].collider1 == ch || narrow_phase.pairs@[touching@[j] as int].collider2
                            == ch),
                    forall|k: int|
                        0 <= k < narrow_phase.pairs@.len() && ((#[trigger] narrow_phase.pairs@[
                            k
                        ]).collider1 == ch || narrow_phase.pairs@[k].collider2 == ch)
                            ==> touching@.contains(k as usize),
                    *self == (RigidBodySet { stack: self.stack, ..*old(self) }),
                    old(self).stack@.is_prefix_of(self.stack@),
                    forall|j: int|
                        old(self).stack@.len() <= j < self.stack@.len() ==> old(self).live(
                            #[trigger] self.stack@[j],
                        ),
                    forall|k: int|
                        0 <= k < narrow_phase.pairs@.len() && pair_live(
                            #[trigger] narrow_phase.pairs@[k],
                        ) ==> {
                            &&& (rb.colliders@.subrange(0, ci as int).contains(
                                narrow_phase.pairs@[k].collider1,
                            ) ==> pushed_since(
                                self.stack@,
                                from,
                                colliders.parent_of(narrow_phase.pairs@[k].collider2),
                            ))
                            &&& (rb.colliders@.subrange(0, ci as int).contains(
                                narrow_phase.pairs@[k].collider2,
                            ) ==> pushed_since(
                                self.stack@,
                                from,
                                colliders.parent_of(narrow_phase.pairs@[k].collider1),
                            ))
                        },
                    forall|t: int|
                        0 <= t < ti && pair_live(
                            #[trigger] narrow_phase.pairs@[touching@[t] as int],
                        ) ==> {
                            &&& (narrow_phase.pairs@[touching@[t] as int].collider1 == ch
                                ==> pushed_since(
                                self.stack@,
                                from,
                                colliders.parent_of(
                                    narrow_phase.pairs@[touching@[t] as int].collider2,
                                ),
                            ))
                            &&& (narrow_phase.pairs@[touching@[t] as int].collider2 == ch
                                ==> pushed_since(
                                self.stack@,
                                from,
                                colliders.parent_of(
                                    narrow_phase.pairs@[touching@[t] as int].collider1,
                                ),
                            ))
                        },
                decreases nt - ti,
            {
                let pi = touching[ti];
                let pair = &narrow_phase.pairs[pi];
                if pair.has_live_contact() {
                    let other = select_other_collider((pair.collider1, pair.collider2), ch);
                    proof {
                        assert(colliders.live(other));
                    }
                    let parent = colliders.get(other).unwrap().parent;
                    let ghost st0 = self.stack@;
                    self.stack.push(parent);
                    proof {
                        assert(old(self).live(parent));
                        assert(self.stack@.subrange(0, old(self).stack@.len() as int)
                            =~= st0.subrange(0, old(self).stack@.len() as int));
                        assert forall|j: int|
                            old(self).stack@.len() <= j < self.stack@.len() implies old(self).live(
                            #[trigger] self.stack@[j],
                        ) by {
                            if j < st0.len() {
                                assert(self.stack@[j] == st0[j]);
                            } else {
                                assert(self.stack@[j] == parent);
                            }
                        }
                        assert(pushed_since(self.stack@, from, parent)) by {
                            assert(self.stack@[self.stack@.len() - 1] == parent);
                        }
                        assert forall|k: int|
                            0 <= k < narrow_phase.pairs@.len() && pair_live(
                                #[trigger] narrow_phase.pairs@[k],
                            ) implies {
                            &&& (rb.colliders@.subrange(0, ci as int).contains(
                                narrow_phase.pairs@[k].collider1,
                            ) ==> pushed_since(
                                self.stack@,
                                from,
                                colliders.parent_of(narrow_phase.pairs@[k].collider2),
                            ))
                            &&& (rb.colliders@.subrange(0, ci as int).contains(
                                narrow_phase.pairs@[k].collider2,
                            ) ==> pushed_since(
                                self.stack@,
                                from,
                                colliders.parent_of(narrow_phase.pairs@[k].collider1),
                            ))
                        } by {
                            if rb.colliders@.subrange(0, ci as int).contains(
                                narrow_phase.pairs@[k].collider1,
                            ) {
                                Self::lemma_pushed_since_extend(
                                    st0,
                                    self.stack@,
                                    from,
                                    colliders.parent_of(narrow_phase.pairs@[k].collider2),
                                );
                            }
                            if rb.colliders@.subrange(0, ci as int).contains(
                                narrow_phase.pairs@[k].collider2,
                            ) {
                                Self::lemma_pushed_since_extend(
                                    st0,
                                    self.stack@,
                                    from,
                                    colliders.parent_of(narrow_phase.pairs@[k].collider1),
                                );
                            }
                        }
                        assert forall|t: int|
                            0 <= t < ti + 1 && pair_live(
                                #[trigger] narrow_phase.pairs@[touching@[t] as int],
                            ) implies {
                            &&& (narrow_phase.pairs@[touching@[t] as int].collider1 == ch
                                ==> pushed_since(
                                self.stack@,
                                from,
                                colliders.parent_of(
                                    narrow_phase.pairs@[touching@[t] as int].collider2,
                                ),
                            ))
                            &&& (narrow_phase.pairs@[touching@[t] as int].collider2 == ch
                                ==> pushed_since(
                                self.stack@,
                                from,
                                colliders.parent_of(
                                    narrow_phase.pairs@[touching@[t] as int].collider1,
                                ),
                            ))
                        } by {
                            let p = narrow_phase.pairs@[touching@[t] as int];
                            if t == ti {
                                if p.collider1 == ch {
                                    assert(other == p.collider2);
                                    assert(parent == colliders.parent_of(p.collider2));
                                }
                                if p.collider2 == ch && p.collider1 != ch {
                                    assert(other == p.collider1);
                                    assert(parent == colliders.parent_of(p.collider1));
                                }
                                if p.collider2 == ch && p.collider1 == ch {
                                    assert(other == p.collider2);
                                }
                            } else {
                                if p.collider1 == ch {
                                    Self::lemma_pushed_since_extend(
                                        st0,
                                        self.stack@,
                                        from,
                                        colliders.parent_of(p.collider2),
                                    );
                                }
                                if p.collider2 == ch {
                                    Self::lemma_pushed_since_extend(
                                        st0,
                                        self.stack@,
                                        from,
                                        colliders.parent_of(p.collider1),
                                    );
                                }
                            }
                        }
                    }
                }
                ti = ti + 1;
            }
            proof {
                let pre = rb.colliders@.subrange(0, ci as int);
                let cur = rb.colliders@.subrange(0, ci as int + 1);
                assert(cur.drop_last() =~= pre);
                assert(cur.last() == ch);
                assert forall|k: int|
                    0 <= k < narrow_phase.pairs@.len() && pair_live(
                        #[trigger] narrow_phase.pairs@[k],
                    ) implies {
                    &&& (cur.contains(narrow_phase.pairs@[k].collider1) ==> pushed_since(
                        self.stack@,
                        from,
                        colliders.parent_of(narrow_phase.pairs@[k].collider2),
                    ))
                    &&& (cur.contains(narrow_phase.pairs@[k].collider2) ==> pushed_since(
                        self.stack@,
                        from,
                        colliders.parent_of(narrow_phase.pairs@[k].collider1),
                    ))
                } by {
                    let p = narrow_phase.pairs@[k];
                    if cur.contains(p.collider1) {
                        let j = choose|j: int| 0 <= j < cur.len() && cur[j] == p.collider1;
                        if j < ci as int {
                            assert(pre[j] == p.collider1);
                            assert(pre.contains(p.collider1));
                        } else {
                            assert(p.collider1 == ch);
                            assert(touching@.contains(k as usize));
                            let t = choose|t: int|
                                0 <= t < touching@.len() && touching@[t] == k as usize;
                            assert(touching@[t] as int == k);
                            assert(pair_live(narrow_phase.pairs@[touching@[t] as int]));
                            assert(narrow_phase.pairs@[touching@[t] as int].collider1 == ch);
                        }
                    }
                    if cur.contains(p.collider2) {
                        let j = choose|j: int| 0 <= j < cur.len() && cur[j] == p.collider2;
                        if j < ci as int {
                            assert(pre[j] == p.collider2);
                            assert(pre.contains(p.collider2));
                        } else {
                            assert(p.collider2 == ch);
                            assert(touching@.contains(k as usize));
                            let t = choose|t: int|
                                0 <= t < touching@.len() && touching@[t] == k as usize;
                            assert(touching@[t] as int == k);
                            assert(pair_live(narrow_phase.pairs@[touching@[t] as int]));
                            assert(narrow_phase.pairs@[touching@[t] as int].collider2 == ch);
                        }
                    }
                }
            }
            ci = ci + 1;
        }
        proof {
            assert(rb.colliders@.subrange(0, nc as int) =~= rb.colliders@);
        }
    }

    /// Carry the traversal frame across a step that rewrote at most the body
    /// `touched`, and only in its non-identity fields.
    proof fn lemma_frame_step(
        base: RigidBodySet,
        mid: RigidBodySet,
        post: RigidBodySet,
        touched: RigidBodyHandle,
    )
        requires
            traversal_frame(base, mid),
            post.active_set_timestamp == mid.active_set_timestamp,
            post.bodies.slot_count() == mid.bodies.slot_count(),
            forall|h2: RigidBodyHandle| post.live(h2) <==> mid.live(h2),
            forall|h2: RigidBodyHandle| post.stale(h2) <==> mid.stale(h2),
            post.len_spec() == mid.len_spec(),
            post.active_kinematic_set@ == mid.active_kinematic_set@,
            post.modified_bodies@ == mid.modified_bodies@,
            post.modified_all_bodies == mid.modified_all_bodies,
            post.modified_inactive_set@ == mid.modified_inactive_set@,
            forall|h2: RigidBodyHandle|
                mid.live(h2) && h2 != touched ==> #[trigger] post.body_at(h2) == mid.body_at(h2),
            mid.live(touched) ==> {
                let a = mid.body_at(touched);
                let b = post.body_at(touched);
                &&& b.status == a.status
                &&& b.position == a.position
                &&& b.changes == a.changes
                &&& b.colliders == a.colliders
                &&& b.joint_graph_index == a.joint_graph_index
            },
        ensures
            traversal_frame(base, post),
    {
        assert forall|h2: RigidBodyHandle| base.live(h2) implies {
            let a = base.body_at(h2);
            let b = #[trigger] post.body_at(h2);
            &&& b.status == a.status
            &&& b.position == a.position
            &&& b.changes == a.changes
            &&& b.colliders == a.colliders
            &&& b.joint_graph_index == a.joint_graph_index
        } by {
            assert(mid.live(h2));
            let m = mid.body_at(h2);
            if h2 != touched {
                assert(post.body_at(h2) == m);
            }
        }
    }

    /// Carry the traversal frame across a step that left the bodies alone.
    proof fn lemma_frame_same(base: RigidBodySet, mid: RigidBodySet, post: RigidBodySet)
        requires
            traversal_frame(base, mid),
            post.bodies == mid.bodies,
            post.active_set_timestamp == mid.active_set_timestamp,
            post.active_kinematic_set@ == mid.active_kinematic_set@,
            post.modified_bodies@ == mid.modified_bodies@,
            post.modified_all_bodies == mid.modified_all_bodies,
            post.modified_inactive_set@ == mid.modified_inactive_set@,
        ensures
            traversal_frame(base, post),
    {
        assert forall|h2: RigidBodyHandle| base.live(h2) implies {
            let a = base.body_at(h2);
            let b = #[trigger] post.body_at(h2);
            &&& b.status == a.status
            &&& b.position == a.position
            &&& b.changes == a.changes
            &&& b.colliders == a.colliders
            &&& b.joint_graph_index == a.joint_graph_index
        } by {
            assert(mid.live(h2));
            assert(post.body_at(h2) == mid.body_at(h2));
        }
        assert forall|h2: RigidBodyHandle| post.live(h2) <==> mid.live(h2) by {}
        assert forall|h2: RigidBodyHandle| post.stale(h2) <==> mid.stale(h2) by {}
    }

    /// Carry the traversal loop's body-and-island invariants across a step
    /// that changed only the workspace stack.
    proof fn lemma_traversal_invs_stack_only(a: RigidBodySet, b: RigidBodySet, ts: u32)
        requires
            b.bodies == a.bodies,
            b.active_dynamic_set@ == a.active_dynamic_set@,
            b.active_islands@ == a.active_islands@,
            island_assignment(a, ts),
            stamp_membership(a, ts),
        ensures
            island_assignment(b, ts),
            stamp_membership(b, ts),
    {
        assert forall|i: int| 0 <= i < b.active_dynamic_set@.len() implies {
            let bd = #[trigger] b.bodies.value_at(b.active_dynamic_set@[i].0);
            &&& bd.active_island_id < b.active_islands@.len()
            &&& b.active_islands@[bd.active_island_id as int] <= i
            &&& (bd.active_island_id + 1 < b.active_islands@.len() ==> i < b.active_islands@[
                bd.active_island_id as int + 1
            ])
            &&& bd.active_set_offset == i - b.active_islands@[bd.active_island_id as int]
            &&& bd.activation.sleeping == false
            &&& bd.active_set_timestamp == ts
        } by {
            assert(a.bodies.value_at(a.active_dynamic_set@[i].0) == b.bodies.value_at(
                b.active_dynamic_set@[i].0,
            ));
        }
        assert forall|h2: RigidBodyHandle| b.live(h2) implies ((#[trigger] b.body_at(
            h2,
        )).active_set_timestamp == ts <==> b.active_dynamic_set@.contains(h2)) by {
            assert(a.live(h2));
            assert(b.body_at(h2) == a.body_at(h2));
        }
    }

    /// Recompute sleep states and islands from the contact and joint graphs.
    ///
    /// Every previously active dynamic body either keeps enough energy to
    /// stay awake and seeds the traversal, or becomes a sleep candidate.
    /// Wakefulness propagates from the seeds and from moving kinematic
    /// bodies, across live contact manifolds and joint edges; every body
    /// reached is woken, stamped with the fresh timestamp and appended to the
    /// rebuilt active dynamic sequence, which the island table cuts into
    /// contiguous islands of at least `min_island_size` bodies each, except
    /// possibly the last. Candidates the propagation never reached are put to
    /// sleep.
    #[verifier::rlimit(100)]
    pub fn update_active_set_with_contacts(
        &mut self,
        colliders: &ColliderSet,
        narrow_phase: &NarrowPhase,
        joint_graph: &JointSet,
        min_island_size: usize,
    )
        requires
            old(self).wf(),
            min_island_size >= 1,
            pairs_coherent(*narrow_phase, *colliders),
            attachments_coherent(*old(self), *colliders),
            joints_coherent(*old(self), *joint_graph),
        ensures
            final(self).wf(),
            old(self).timestamp() < u32::MAX ==> final(self).timestamp() == old(self).timestamp()
                + 1,
            final(self).islands().len() >= 2,
            final(self).islands()[0] == 0,
            final(self).islands()[final(self).islands().len() - 1]
                == final(self).active_dynamic().len(),
            forall|k: int|
                0 <= k < final(self).islands().len() - 1 ==> #[trigger] final(self).islands()[k]
                    <= final(self).islands()[k + 1],
            forall|k: int|
                0 <= k < final(self).islands().len() - 2 ==> #[trigger] final(self).islands()[k
                    + 1] - final(self).islands()[k] >= min_island_size,
            forall|i: int|
                0 <= i < final(self).active_dynamic().len() ==> {
                    let b = #[trigger] final(self).body_at(final(self).active_dynamic()[i]);
                    &&& b.active_island_id < final(self).islands().len() - 1
                    &&& final(self).islands()[b.active_island_id as int] <= i
                    &&& i < final(self).islands()[b.active_island_id as int + 1]
                    &&& b.active_set_offset == i - final(self).islands()[
                        b.active_island_id as int
                    ]
                    &&& b.activation.sleeping == false
                    &&& b.active_set_timestamp == final(self).timestamp()
                },
            forall|h2: RigidBodyHandle|
                final(self).live(h2) ==> ((#[trigger] final(self).body_at(h2)).active_set_timestamp
                    == final(self).timestamp() <==> final(self).active_dynamic().contains(h2)),
            forall|h2: RigidBodyHandle| final(self).live(h2) <==> old(self).live(h2),
            forall|h2: RigidBodyHandle| final(self).stale(h2) <==> old(self).stale(h2),
            final(self).len_spec() == old(self).len_spec(),
            final(self).active_kinematic() == old(self).active_kinematic(),
            final(self).modified() == old(self).modified(),
            final(self).modified_all() == old(self).modified_all(),
            final(self).modified_inactive() == old(self).modified_inactive(),
            forall|h2: RigidBodyHandle|
                old(self).live(h2) ==> {
                    let a = old(self).body_at(h2);
                    let b = #[trigger] final(self).body_at(h2);
                    &&& b.status == a.status
                    &&& b.position == a.position
                    &&& b.changes == a.changes
                    &&& b.colliders == a.colliders
                    &&& b.joint_graph_index == a.joint_graph_index
                },
    {
        self.bump_timestamp();
        let ts = self.active_set_timestamp;
        self.stack.clear();
        self.can_sleep.clear();
        let ghost base = *self;
        let cap_exec = self.bodies.slot_cap();
        let ghost n_slots = self.bodies.slot_count() as int;
        proof {
            assert forall|ch: ColliderHandle| colliders.live(ch) implies {
                let p = #[trigger] colliders.parent_of(ch);
                base.live(p) && base.body_at(p).colliders@.contains(ch)
            } by {
                let p = colliders.parent_of(ch);
                assert(old(self).live(p));
                assert(old(self).body_at(p).colliders@.contains(ch));
                assert(base.body_at(p) == (RigidBody {
                    active_set_timestamp: base.body_at(p).active_set_timestamp,
                    ..old(self).body_at(p)
                }));
            }
            assert forall|i: int, j: int|
                0 <= i < j < base.active_dynamic_set@.len() implies #[trigger] base
                .active_dynamic_set@[i] != #[trigger] base.active_dynamic_set@[j] by {
                assert(base.bodies.value_at(base.active_dynamic_set@[i].0).active_set_id == i);
                assert(base.bodies.value_at(base.active_dynamic_set@[j].0).active_set_id == j);
            }
            assert(base.active_dynamic_set@.subrange(0, base.active_dynamic_set@.len() as int)
                =~= base.active_dynamic_set@);
            assert forall|k: int| 0 <= k < joint_graph.joints@.len() implies {
                let j = #[trigger] joint_graph.joints@[k];
                &&& base.live(j.body1)
                &&& base.live(j.body2)
                &&& base.body_at(j.body1).joint_graph_index == j.node1
                &&& base.body_at(j.body2).joint_graph_index == j.node2
            } by {
                let j = joint_graph.joints@[k];
                assert(old(self).live(j.body1));
                assert(old(self).live(j.body2));
                assert(base.body_at(j.body1) == (RigidBody {
                    active_set_timestamp: base.body_at(j.body1).active_set_timestamp,
                    ..old(self).body_at(j.body1)
                }));
                assert(base.body_at(j.body2) == (RigidBody {
                    active_set_timestamp: base.body_at(j.body2).active_set_timestamp,
                    ..old(self).body_at(j.body2)
                }));
            }
        }

        proof {
            assert forall|i: int| 0 <= i < base.active_dynamic_set@.len() implies self.live(
                #[trigger] base.active_dynamic_set@[i],
            ) && self.body_at(base.active_dynamic_set@[i]).status is Dynamic by {
                assert(self.bodies.live(self.active_dynamic_set@[i].0));
            }
        }

        // Refresh energies; split the previously active dynamic bodies into
        // seeds (kept on the stack) and sleep candidates, draining the
        // sequence from the back so two successive steps keep their order.
        while self.active_dynamic_set.len() > 0
            invariant
                self.wf(),
                ts == self.active_set_timestamp,
                traversal_frame(base, *self),
                forall|j: int| 0 <= j < self.stack@.len() ==> self.live(#[trigger] self.stack@[j]),
                forall|j: int|
                    0 <= j < self.can_sleep@.len() ==> self.live(#[trigger] self.can_sleep@[j])
                        && self.body_at(self.can_sleep@[j]).status is Dynamic && self.body_at(
                        self.can_sleep@[j],
                    ).activation.sleeping,
                forall|j: int|
                    0 <= j < self.can_sleep@.len() ==> exists|i: int|
                        self.active_dynamic_set@.len() <= i < base.active_dynamic_set@.len()
                            && base.active_dynamic_set@[i] == #[trigger] self.can_sleep@[j],
                forall|h: arena::Index|
                    self.bodies.live(h) ==> (#[trigger] self.bodies.value_at(
                        h,
                    )).active_set_timestamp < ts,
                self.active_dynamic_set@.len() <= base.active_dynamic_set@.len(),
                forall|i: int|
                    0 <= i < base.active_dynamic_set@.len() ==> self.live(
                        #[trigger] base.active_dynamic_set@[i],
                    ) && self.body_at(base.active_dynamic_set@[i]).status is Dynamic,
                self.active_dynamic_set@ == base.active_dynamic_set@.subrange(
                    0,
                    self.active_dynamic_set@.len() as int,
                ),
                forall|i: int, j: int|
                    0 <= i < j < base.active_dynamic_set@.len() ==> #[trigger] base
                        .active_dynamic_set@[i] != #[trigger] base.active_dynamic_set@[j],
                forall|i: int|
                    self.active_dynamic_set@.len() <= i < base.active_dynamic_set@.len() ==> {
                        let h2 = #[trigger] base.active_dynamic_set@[i];
                        &&& (refreshed_above(base.body_at(h2)) ==> self.stack@.contains(h2))
                        &&& (!refreshed_above(base.body_at(h2)) ==> self.can_sleep@.contains(h2))
                    },
                forall|i: int|
                    0 <= i < self.active_dynamic_set@.len() ==> #[trigger] self.body_at(
                        base.active_dynamic_set@[i],
                    ) == base.body_at(base.active_dynamic_set@[i]),
                forall|h2: RigidBodyHandle|
                    base.live(h2) && !base.active_dynamic_set@.contains(h2)
                        ==> #[trigger] self.body_at(h2) == base.body_at(h2),
            decreases self.active_dynamic_set@.len(),
        {
            let ghost pre = *self;
            let last_i = self.active_dynamic_set.len() - 1;
            let h = self.active_dynamic_set[last_i];
            proof {
                assert(pre.bodies.live(h.0));
                assert(pre.bodies.value_at(h.0).status is Dynamic);
                assert(pre.active_dynamic_set@ == base.active_dynamic_set@.subrange(
                    0,
                    last_i as int + 1,
                ));
                assert(base.active_dynamic_set@.subrange(0, last_i as int + 1)[last_i as int]
                    == base.active_dynamic_set@[last_i as int]);
                assert(h == base.active_dynamic_set@[last_i as int]);
                assert(pre.body_at(h) == base.body_at(h));
            }
            let rb = self.bodies.value_mut(h.0);
            rb.update_energy();
            let asleep = rb.activation.energy <= rb.activation.threshold as u64;
            if asleep {
                rb.activation.sleeping = true;
            }
            proof {
                Self::lemma_wf_frame(pre, *self);
            }
            let ghost mid = *self;
            let popped = self.active_dynamic_set.pop();
            proof {
                Self::lemma_wf_drop_dynamic(mid, *self);
                assert(mid.active_dynamic_set@ == base.active_dynamic_set@.subrange(
                    0,
                    last_i as int + 1,
                ));
                assert(self.active_dynamic_set@ == mid.active_dynamic_set@.drop_last());
                assert(self.active_dynamic_set@ =~= base.active_dynamic_set@.subrange(
                    0,
                    last_i as int,
                ));
                assert(asleep == !refreshed_above(base.body_at(h)));
            }
            if asleep {
                self.can_sleep.push(h);
                proof {
                    assert forall|j: int| 0 <= j < self.can_sleep@.len() implies exists|i: int|
                        self.active_dynamic_set@.len() <= i < base.active_dynamic_set@.len()
                            && base.active_dynamic_set@[i] == #[trigger] self.can_sleep@[j] by {
                        if j < pre.can_sleep@.len() {
                            assert(self.can_sleep@[j] == pre.can_sleep@[j]);
                            let i0 = choose|i0: int|
                                pre.active_dynamic_set@.len() <= i0
                                    < base.active_dynamic_set@.len() && base.active_dynamic_set@[
                                    i0
                                ] == pre.can_sleep@[j];
                            assert(self.active_dynamic_set@.len() <= i0);
                        } else {
                            assert(self.can_sleep@[j] == h);
                            assert(base.active_dynamic_set@[last_i as int] == h);
                            assert(self.active_dynamic_set@.len() <= last_i as int);
                        }
                    }
                    assert forall|j: int| 0 <= j < self.can_sleep@.len() implies self.live(
                        #[trigger] self.can_sleep@[j],
                    ) && self.body_at(self.can_sleep@[j]).status is Dynamic && self.body_at(
                        self.can_sleep@[j],
                    ).activation.sleeping by {
                        if j < pre.can_sleep@.len() {
                            assert(self.can_sleep@[j] == pre.can_sleep@[j]);
                            let i0 = choose|i0: int|
                                pre.active_dynamic_set@.len() <= i0
                                    < base.active_dynamic_set@.len() && base.active_dynamic_set@[
                                    i0
                                ] == pre.can_sleep@[j];
                            assert(pre.can_sleep@[j] != h) by {
                                if pre.can_sleep@[j] == h {
                                    assert(base.active_dynamic_set@[i0] == h);
                                    assert(base.active_dynamic_set@[last_i as int] == h);
                                    assert(i0 != last_i as int);
                                }
                            }
                            assert(self.body_at(self.can_sleep@[j]) == pre.body_at(
                                pre.can_sleep@[j],
                            ));
                        } else {
                            assert(self.can_sleep@[j] == h);
                        }
                    }
                    assert forall|i: int|
                        self.active_dynamic_set@.len() <= i
                            < base.active_dynamic_set@.len() implies {
                        let h2 = #[trigger] base.active_dynamic_set@[i];
                        &&& (refreshed_above(base.body_at(h2)) ==> self.stack@.contains(h2))
                        &&& (!refreshed_above(base.body_at(h2)) ==> self.can_sleep@.contains(h2))
                    } by {
                        let h2 = base.active_dynamic_set@[i];
                        if i == last_i as int {
                            assert(h2 == h);
                            assert(self.can_sleep@[self.can_sleep@.len() - 1] == h);
                        } else {
                            if pre.stack@.contains(h2) {
                                let j0 = choose|j0: int|
                                    0 <= j0 < pre.stack@.len() && pre.stack@[j0] == h2;
                                assert(self.stack@[j0] == h2);
                            }
                            if pre.can_sleep@.contains(h2) {
                                Self::lemma_contains_after_push(pre.can_sleep@, h, h2);
                            }
                        }
                    }
                }
            } else {
                self.stack.push(h);
                proof {
                    assert forall|j: int| 0 <= j < self.stack@.len() implies self.live(
                        #[trigger] self.stack@[j],
                    ) by {
                        if j < pre.stack@.len() {
                            assert(self.stack@[j] == pre.stack@[j]);
                        } else {
                            assert(self.stack@[j] == h);
                        }
                    }
                    assert forall|i: int|
                        self.active_dynamic_set@.len() <= i
                            < base.active_dynamic_set@.len() implies {
                        let h2 = #[trigger] base.active_dynamic_set@[i];
                        &&& (refreshed_above(base.body_at(h2)) ==> self.stack@.contains(h2))
                        &&& (!refreshed_above(base.body_at(h2)) ==> self.can_sleep@.contains(h2))
                    } by {
                        let h2 = base.active_dynamic_set@[i];
                        if i == last_i as int {
                            assert(h2 == h);
                            assert(self.stack@[self.stack@.len() - 1] == h);
                        } else {
                            if pre.stack@.contains(h2) {
                                Self::lemma_contains_after_push(pre.stack@, h, h2);
                            }
                        }
                    }
                    assert forall|j: int| 0 <= j < self.can_sleep@.len() implies self.live(
                        #[trigger] self.can_sleep@[j],
                    ) && self.body_at(self.can_sleep@[j]).status is Dynamic && self.body_at(
                        self.can_sleep@[j],
                    ).activation.sleeping by {
                        assert(pre.can_sleep@[j] == self.can_sleep@[j]);
                        let i0 = choose|i0: int|
                            pre.active_dynamic_set@.len() <= i0 < base.active_dynamic_set@.len()
                                && base.active_dynamic_set@[i0] == pre.can_sleep@[j];
                        assert(pre.can_sleep@[j] != h) by {
                            if pre.can_sleep@[j] == h {
                                assert(base.active_dynamic_set@[i0] == h);
                                assert(base.active_dynamic_set@[last_i as int] == h);
                                assert(i0 != last_i as int);
                            }
                        }
                        assert(self.body_at(self.can_sleep@[j]) == pre.body_at(pre.can_sleep@[j]));
                    }
                    assert forall|j: int| 0 <= j < self.can_sleep@.len() implies exists|i: int|
                        self.active_dynamic_set@.len() <= i < base.active_dynamic_set@.len()
                            && base.active_dynamic_set@[i] == #[trigger] self.can_sleep@[j] by {
                        let i0 = choose|i0: int|
                            pre.active_dynamic_set@.len() <= i0 < base.active_dynamic_set@.len()
                                && base.active_dynamic_set@[i0] == pre.can_sleep@[j];
                        assert(self.can_sleep@[j] == pre.can_sleep@[j]);
                        assert(self.active_dynamic_set@.len() <= i0);
                    }
                }
            }
            proof {
                assert forall|h2: RigidBodyHandle| pre.live(h2) && h2 != h implies
                    #[trigger] self.body_at(h2) == pre.body_at(h2) by {
                    assert(self.bodies.value_at(h2.0) == pre.bodies.value_at(h2.0));
                }
                Self::lemma_frame_step(base, pre, *self, h);
                assert forall|i: int|
                    0 <= i < self.active_dynamic_set@.len() implies #[trigger] self.body_at(
                    base.active_dynamic_set@[i],
                ) == base.body_at(base.active_dynamic_set@[i]) by {
                    let h2 = base.active_dynamic_set@[i];
                    assert(h2 != h);
                    assert(pre.body_at(h2) == base.body_at(h2));
                    assert(self.body_at(h2) == pre.body_at(h2));
                }
                assert forall|h2: RigidBodyHandle|
                    base.live(h2) && !base.active_dynamic_set@.contains(h2) implies
                    #[trigger] self.body_at(h2) == base.body_at(h2) by {
                    assert(h2 != h) by {
                        if h2 == h {
                            assert(base.active_dynamic_set@[last_i as int] == h);
                        }
                    }
                    assert(pre.body_at(h2) == base.body_at(h2));
                    assert(self.body_at(h2) == pre.body_at(h2));
                }
            }
        }

        // Everything a moving kinematic body touches must be examined too.
        let nk = self.active_kinematic_set.len();
        let mut ki: usize = 0;
        while ki < nk
            invariant
                ki <= nk,
                nk == self.active_kinematic_set@.len(),
                self.wf(),
                ts == self.active_set_timestamp,
                traversal_frame(base, *self),
                pairs_coherent(*narrow_phase, *colliders),
                attachments_coherent(base, *colliders),
                self.active_dynamic_set@.len() == 0,
                forall|j: int| 0 <= j < self.stack@.len() ==> self.live(#[trigger] self.stack@[j]),
                forall|j: int|
                    0 <= j < self.can_sleep@.len() ==> self.live(#[trigger] self.can_sleep@[j])
                        && self.body_at(self.can_sleep@[j]).status is Dynamic && self.body_at(
                        self.can_sleep@[j],
                    ).activation.sleeping && base.active_dynamic_set@.contains(self.can_sleep@[j]),
                forall|h: arena::Index|
                    self.bodies.live(h) ==> (#[trigger] self.bodies.value_at(
                        h,
                    )).active_set_timestamp < ts,
                forall|i: int|
                    0 <= i < base.active_dynamic_set@.len() ==> self.live(
                        #[trigger] base.active_dynamic_set@[i],
                    ) && self.body_at(base.active_dynamic_set@[i]).status is Dynamic,
                forall|i: int|
                    0 <= i < base.active_dynamic_set@.len() ==> {
                        let h2 = #[trigger] base.active_dynamic_set@[i];
                        &&& (refreshed_above(base.body_at(h2)) ==> self.stack@.contains(h2))
                        &&& (!refreshed_above(base.body_at(h2)) ==> self.can_sleep@.contains(h2))
                    },
                forall|h2: RigidBodyHandle|
                    base.live(h2) && !base.active_dynamic_set@.contains(h2)
                        ==> #[trigger] self.body_at(h2) == base.body_at(h2),
                forall|h2: RigidBodyHandle, ki2: int|
                    0 <= ki2 < ki && base.body_at(base.active_kinematic_set@[ki2]).speed > 0
                        && #[trigger] contact_linked(
                        *colliders,
                        *narrow_phase,
                        base.active_kinematic_set@[ki2],
                        h2,
                    ) ==> self.stack@.contains(h2),
            decreases nk - ki,
        {
            let ghost pre = *self;
            let h = self.active_kinematic_set[ki];
            proof {
                assert(self.bodies.live(h.0));
                assert(self.bodies.value_at(h.0).status is Kinematic);
                assert(!base.active_dynamic_set@.contains(h)) by {
                    if base.active_dynamic_set@.contains(h) {
                        let i0 = choose|i0: int|
                            0 <= i0 < base.active_dynamic_set@.len() && base.active_dynamic_set@[
                                i0
                            ] == h;
                        assert(self.body_at(base.active_dynamic_set@[i0]).status is Dynamic);
                    }
                }
                assert(self.body_at(h) == base.body_at(h));
            }
            let moving = self.bodies.get(h.0).unwrap().is_moving();
            if moving {
                proof {
                    assert forall|ch: ColliderHandle| colliders.live(ch) implies self.live(
                        #[trigger] colliders.parent_of(ch),
                    ) by {
                        assert(base.live(colliders.parent_of(ch)));
                    }
                }
                self.push_contacting_bodies_of(h, colliders, narrow_phase);
                proof {
                    Self::lemma_frame_same(base, pre, *self);
                    assert(self.bodies == pre.bodies);
                    assert forall|h2: RigidBodyHandle|
                        base.live(h2) && !base.active_dynamic_set@.contains(h2) implies
                        #[trigger] self.body_at(h2) == base.body_at(h2) by {
                        assert(self.body_at(h2) == pre.body_at(h2));
                    }
                    assert forall|j: int| 0 <= j < self.stack@.len() implies self.live(
                        #[trigger] self.stack@[j],
                    ) by {
                        if j < pre.stack@.len() {
                            assert(self.stack@[j] == pre.stack@[j]);
                        }
                    }
                    assert forall|i: int|
                        0 <= i < base.active_dynamic_set@.len() implies {
                        let h2 = #[trigger] base.active_dynamic_set@[i];
                        &&& (refreshed_above(base.body_at(h2)) ==> self.stack@.contains(h2))
                        &&& (!refreshed_above(base.body_at(h2)) ==> self.can_sleep@.contains(h2))
                    } by {
                        let h2 = base.active_dynamic_set@[i];
                        if pre.stack@.contains(h2) {
                            let j0 = choose|j0: int|
                                0 <= j0 < pre.stack@.len() && pre.stack@[j0] == h2;
                            assert(self.stack@[j0] == h2);
                        }
                    }
                    assert forall|h2: RigidBodyHandle, ki2: int|
                        0 <= ki2 < ki + 1 && base.body_at(base.active_kinematic_set@[ki2]).speed
                            > 0 && #[trigger] contact_linked(
                            *colliders,
                            *narrow_phase,
                            base.active_kinematic_set@[ki2],
                            h2,
                        ) implies self.stack@.contains(h2) by {
                        if ki2 < ki {
                            assert(pre.stack@.contains(h2));
                            let j0 = choose|j0: int|
                                0 <= j0 < pre.stack@.len() && pre.stack@[j0] == h2;
                            assert(self.stack@[j0] == h2);
                        } else {
                            let kh = base.active_kinematic_set@[ki2];
                            assert(kh == h);
                            let k0 = choose|k0: int|
                                0 <= k0 < narrow_phase.pairs@.len() && pair_live(
                                    #[trigger] narrow_phase.pairs@[k0],
                                ) && {
                                    ||| (colliders.parent_of(narrow_phase.pairs@[k0].collider1)
                                        == kh && colliders.parent_of(
                                        narrow_phase.pairs@[k0].collider2,
                                    ) == h2)
                                    ||| (colliders.parent_of(narrow_phase.pairs@[k0].collider1)
                                        == h2 && colliders.parent_of(
                                        narrow_phase.pairs@[k0].collider2,
                                    ) == kh)
                                };
                            assert(colliders.live(narrow_phase.pairs@[k0].collider1));
                            assert(colliders.live(narrow_phase.pairs@[k0].collider2));
                            if colliders.parent_of(narrow_phase.pairs@[k0].collider1) == kh
                                && colliders.parent_of(narrow_phase.pairs@[k0].collider2) == h2 {
                                assert(base.body_at(kh).colliders@.contains(
                                    narrow_phase.pairs@[k0].collider1,
                                ));
                                assert(pre.body_at(h).colliders@.contains(
                                    narrow_phase.pairs@[k0].collider1,
                                ));
                                assert(pushed_since(
                                    self.stack@,
                                    pre.stack@.len() as int,
                                    h2,
                                ));
                            } else {
                                assert(base.body_at(kh).colliders@.contains(
                                    narrow_phase.pairs@[k0].collider2,
                                ));
                                assert(pre.body_at(h).colliders@.contains(
                                    narrow_phase.pairs@[k0].collider2,
                                ));
                                assert(pushed_since(
                                    self.stack@,
                                    pre.stack@.len() as int,
                                    h2,
                                ));
                            }
                            let idx = choose|idx: int|
                                pre.stack@.len() <= idx < self.stack@.len() && self.stack@[idx]
                                    == h2;
                            assert(self.stack@.contains(h2));
                        }
                    }
                }
            } else {
                proof {
                    assert forall|h2: RigidBodyHandle, ki2: int|
                        0 <= ki2 < ki + 1 && base.body_at(base.active_kinematic_set@[ki2]).speed
                            > 0 && #[trigger] contact_linked(
                            *colliders,
                            *narrow_phase,
                            base.active_kinematic_set@[ki2],
                            h2,
                        ) implies self.stack@.contains(h2) by {
                        if ki2 == ki {
                            assert(base.body_at(h).speed == 0);
                        }
                    }
                }
            }
            ki = ki + 1;
        }

        // Propagate wakefulness through the union of the contact and joint
        // graphs, rebuilding the active dynamic sequence and the island
        // table.
        let ghost p3 = *self;
        self.active_islands.clear();
        self.active_islands.push(0);
        let mut island_marker: usize = if self.stack.len() > 0 {
            self.stack.len() - 1
        } else {
            0
        };
        proof {
            assert(self.active_islands@ =~= seq![0usize]);
            Self::lemma_frame_same(base, p3, *self);
            assert(self.bodies == p3.bodies);
            assert forall|h2: RigidBodyHandle|
                must_stay_active(base, *colliders, *narrow_phase, h2) implies (
            #[trigger] self.body_at(h2)).active_set_timestamp == ts || self.stack@.contains(
                h2,
            ) by {
                if base.active_dynamic_set@.contains(h2) && refreshed_above(base.body_at(h2)) {
                    let i0 = choose|i0: int|
                        0 <= i0 < base.active_dynamic_set@.len() && base.active_dynamic_set@[i0]
                            == h2;
                    assert(self.stack@.contains(h2));
                } else {
                    let ki0 = choose|ki0: int|
                        0 <= ki0 < base.active_kinematic_set@.len() && base.body_at(
                            base.active_kinematic_set@[ki0],
                        ).speed > 0 && contact_linked(
                            *colliders,
                            *narrow_phase,
                            base.active_kinematic_set@[ki0],
                            h2,
                        );
                    assert(self.stack@.contains(h2));
                }
            }
            assert forall|h2: RigidBodyHandle|
                base.live(h2) && !base.active_dynamic_set@.contains(h2) && (
            #[trigger] self.body_at(h2)).active_set_timestamp != ts implies self.body_at(h2)
                == base.body_at(h2) by {
                assert(self.body_at(h2) == p3.body_at(h2));
            }
        }
        while self.stack.len() > 0
            invariant
                self.wf(),
                ts == self.active_set_timestamp,
                min_island_size >= 1,
                traversal_frame(base, *self),
                pairs_coherent(*narrow_phase, *colliders),
                parents_coherent(base, *colliders),
                joints_coherent(base, *joint_graph),
                forall|j: int| 0 <= j < self.stack@.len() ==> self.live(#[trigger] self.stack@[j]),
                forall|j: int|
                    0 <= j < self.can_sleep@.len() ==> self.live(#[trigger] self.can_sleep@[j])
                        && self.body_at(self.can_sleep@[j]).status is Dynamic,
                islands_partial(
                    self.active_islands@,
                    self.active_dynamic_set@.len(),
                    min_island_size as nat,
                ),
                island_assignment(*self, ts),
                stamp_membership(*self, ts),
                n_slots == self.bodies.slot_count(),
                n_slots <= usize::MAX,
                forall|h2: RigidBodyHandle|
                    must_stay_active(base, *colliders, *narrow_phase, h2) ==> (
                    #[trigger] self.body_at(h2)).active_set_timestamp == ts || self.stack@.contains(
                        h2,
                    ),
                forall|j: int|
                    0 <= j < self.can_sleep@.len() ==> ((#[trigger] self.body_at(
                        self.can_sleep@[j],
                    )).active_set_timestamp == ts || self.body_at(
                        self.can_sleep@[j],
                    ).activation.sleeping) && self.live(self.can_sleep@[j])
                        && base.active_dynamic_set@.contains(self.can_sleep@[j]),
                forall|i: int|
                    0 <= i < base.active_dynamic_set@.len() && !refreshed_above(
                        base.body_at(#[trigger] base.active_dynamic_set@[i]),
                    ) ==> self.can_sleep@.contains(base.active_dynamic_set@[i]),
                forall|h2: RigidBodyHandle|
                    base.live(h2) && !base.active_dynamic_set@.contains(h2) && (
                    #[trigger] self.body_at(h2)).active_set_timestamp != ts ==> self.body_at(h2)
                        == base.body_at(h2),
            decreases unvisited_below(self.bodies, ts, n_slots), self.stack@.len(),
        {
            let ghost pre = *self;
            let handle = match self.stack.pop() {
                Some(h) => h,
                None => vstd::pervasive::unreached(),
            };
            let visited = self.bodies.get(handle.0).unwrap().active_set_timestamp == ts;
            let is_dyn = self.bodies.get(handle.0).unwrap().is_dynamic();
            if visited || !is_dyn {
                proof {
                    assert forall|j: int| 0 <= j < self.stack@.len() implies self.live(
                        #[trigger] self.stack@[j],
                    ) by {
                        assert(self.stack@[j] == pre.stack@[j]);
                    }
                    Self::lemma_frame_same(base, pre, *self);
                    Self::lemma_traversal_invs_stack_only(pre, *self, ts);
                    assert(self.bodies == pre.bodies);
                    assert forall|h2: RigidBodyHandle|
                        base.live(h2) && !base.active_dynamic_set@.contains(h2) && (
                    #[trigger] self.body_at(h2)).active_set_timestamp != ts implies self.body_at(
                        h2,
                    ) == base.body_at(h2) by {
                        assert(self.body_at(h2) == pre.body_at(h2));
                    }
                    assert forall|h2: RigidBodyHandle|
                        must_stay_active(base, *colliders, *narrow_phase, h2) implies (
                    #[trigger] self.body_at(h2)).active_set_timestamp == ts
                        || self.stack@.contains(h2) by {
                        assert(self.body_at(h2) == pre.body_at(h2));
                        if pre.body_at(h2).active_set_timestamp != ts {
                            assert(pre.stack@.contains(h2));
                            let j0 = choose|j0: int|
                                0 <= j0 < pre.stack@.len() && pre.stack@[j0] == h2;
                            if j0 < pre.stack@.len() - 1 {
                                assert(self.stack@[j0] == h2);
                            } else {
                                assert(h2 == handle);
                                assert(pre.body_at(h2).status == base.body_at(h2).status);
                                assert(visited || !is_dyn);
                                assert(visited);
                            }
                        }
                    }
                }
                continue ;
            }
            if self.stack.len() < island_marker {
                let last = self.active_islands[self.active_islands.len() - 1];
                if self.active_dynamic_set.len() - last >= min_island_size {
                    let ghost isl0 = self.active_islands@;
                    self.active_islands.push(self.active_dynamic_set.len());
                    proof {
                        assert forall|k: int| 0 <= k < self.active_islands@.len() - 1 implies
                            #[trigger] self.active_islands@[k] <= self.active_islands@[k + 1]
                            && self.active_islands@[k + 1] - self.active_islands@[k]
                            >= min_island_size by {
                            if k < isl0.len() - 1 {
                                assert(self.active_islands@[k] == isl0[k]);
                                assert(self.active_islands@[k + 1] == isl0[k + 1]);
                            } else {
                                assert(self.active_islands@[k] == isl0[isl0.len() - 1]);
                            }
                        }
                        assert forall|i: int| 0 <= i < self.active_dynamic_set@.len() implies {
                            let b = #[trigger] self.bodies.value_at(self.active_dynamic_set@[i].0);
                            &&& b.active_island_id < self.active_islands@.len()
                            &&& self.active_islands@[b.active_island_id as int] <= i
                            &&& (b.active_island_id + 1 < self.active_islands@.len() ==> i
                                < self.active_islands@[b.active_island_id as int + 1])
                            &&& b.active_set_offset == i - self.active_islands@[
                                b.active_island_id as int
                            ]
                            &&& b.activation.sleeping == false
                            &&& b.active_set_timestamp == ts
                        } by {
                            let b = self.bodies.value_at(self.active_dynamic_set@[i].0);
                            assert(b.active_island_id < isl0.len());
                            assert(self.active_islands@[b.active_island_id as int] == isl0[
                                b.active_island_id as int
                            ]);
                            if b.active_island_id + 1 < isl0.len() {
                                assert(self.active_islands@[b.active_island_id as int + 1] == isl0[
                                    b.active_island_id as int + 1
                                ]);
                            }
                        }
                    }
                }
                island_marker = self.stack.len();
            }
            let island_id = self.active_islands.len() - 1;
            let island_start = self.active_islands[island_id];
            let new_asid = self.active_dynamic_set.len();
            let ghost mid = *self;
            let rb = self.bodies.value_mut(handle.0);
            rb.wake_up(false);
            rb.active_island_id = island_id;
            rb.active_set_id = new_asid;
            rb.active_set_offset = new_asid - island_start;
            rb.active_set_timestamp = ts;
            proof {
                assert(pre.live(handle));
                assert(pre.body_at(handle).active_set_timestamp != ts);
                assert(!pre.active_dynamic_set@.contains(handle));
                assert(!mid.active_dynamic_set@.contains(handle));
            }
            self.active_dynamic_set.push(handle);
            proof {
                Self::lemma_wf_push_dynamic(mid, *self, handle);
                assert forall|i: int| 0 <= i < self.active_dynamic_set@.len() implies {
                    let b = #[trigger] self.bodies.value_at(self.active_dynamic_set@[i].0);
                    &&& b.active_island_id < self.active_islands@.len()
                    &&& self.active_islands@[b.active_island_id as int] <= i
                    &&& (b.active_island_id + 1 < self.active_islands@.len() ==> i
                        < self.active_islands@[b.active_island_id as int + 1])
                    &&& b.active_set_offset == i - self.active_islands@[b.active_island_id as int]
                    &&& b.activation.sleeping == false
                    &&& b.active_set_timestamp == ts
                } by {
                    let h2 = self.active_dynamic_set@[i];
                    if i < mid.active_dynamic_set@.len() {
                        assert(h2 == mid.active_dynamic_set@[i]);
                        assert(mid.active_dynamic_set@.contains(h2));
                        assert(h2 != handle);
                        assert(self.bodies.value_at(h2.0) == mid.bodies.value_at(h2.0));
                    } else {
                        assert(h2 == handle);
                    }
                }
                assert forall|h2: RigidBodyHandle| self.live(h2) implies ((
                #[trigger] self.body_at(h2)).active_set_timestamp == ts
                    <==> self.active_dynamic_set@.contains(h2)) by {
                    if h2 == handle {
                        assert(self.active_dynamic_set@[self.active_dynamic_set@.len() - 1]
                            == handle);
                        assert(self.active_dynamic_set@.contains(handle));
                    } else {
                        assert(mid.live(h2));
                        assert(pre.live(h2));
                        assert(self.body_at(h2) == mid.body_at(h2));
                        assert(pre.body_at(h2) == mid.body_at(h2));
                        assert(pre.active_dynamic_set@ == mid.active_dynamic_set@);
                        if self.active_dynamic_set@.contains(h2) {
                            let j2 = choose|j2: int|
                                0 <= j2 < self.active_dynamic_set@.len()
                                    && self.active_dynamic_set@[j2] == h2;
                            assert(j2 < mid.active_dynamic_set@.len());
                            assert(mid.active_dynamic_set@[j2] == h2);
                            assert(mid.active_dynamic_set@.contains(h2));
                        }
                        if mid.active_dynamic_set@.contains(h2) {
                            let j2 = choose|j2: int|
                                0 <= j2 < mid.active_dynamic_set@.len()
                                    && mid.active_dynamic_set@[j2] == h2;
                            assert(self.active_dynamic_set@[j2] == h2);
                            assert(self.active_dynamic_set@.contains(h2));
                        }
                    }
                }
            }
            let ghost woken = *self;
            proof {
                assert forall|ch: ColliderHandle| colliders.live(ch) implies self.live(
                    #[trigger] colliders.parent_of(ch),
                ) by {
                    assert(base.live(colliders.parent_of(ch)));
                    assert(mid.live(colliders.parent_of(ch)));
                }
            }
            self.push_contacting_bodies_of(handle, colliders, narrow_phase);
            proof {
                assert forall|j: int| 0 <= j < self.stack@.len() implies self.live(
                    #[trigger] self.stack@[j],
                ) by {
                    if j < woken.stack@.len() {
                        assert(self.stack@[j] == woken.stack@[j]);
                    }
                }
            }
            let jgi = self.bodies.get(handle.0).unwrap().joint_graph_index;
            let inters = joint_graph.interactions_with(jgi);
            let ni = inters.len();
            let mut ji: usize = 0;
            let ghost snap = *self;
            proof {
                assert forall|k: int| 0 <= k < joint_graph.joints@.len() implies {
                    let j = #[trigger] joint_graph.joints@[k];
                    &&& snap.live(j.body1)
                    &&& snap.live(j.body2)
                    &&& snap.body_at(j.body1).joint_graph_index == j.node1
                    &&& snap.body_at(j.body2).joint_graph_index == j.node2
                } by {
                    let j = joint_graph.joints@[k];
                    assert(base.live(j.body1));
                    assert(base.live(j.body2));
                    assert(pre.live(j.body1));
                    assert(pre.live(j.body2));
                    assert(pre.body_at(j.body1).joint_graph_index == base.body_at(
                        j.body1,
                    ).joint_graph_index);
                    assert(pre.body_at(j.body2).joint_graph_index == base.body_at(
                        j.body2,
                    ).joint_graph_index);
                    if j.body1 != handle {
                        assert(snap.bodies.value_at(j.body1.0) == mid.bodies.value_at(j.body1.0));
                    }
                    if j.body2 != handle {
                        assert(snap.bodies.value_at(j.body2.0) == mid.bodies.value_at(j.body2.0));
                    }
                }
            }
            while ji < ni
                invariant
                    ji <= ni,
                    ni == inters@.len(),
                    inters@ == crate::joint::interactions_of(joint_graph.joints@, jgi),
                    joints_coherent(snap, *joint_graph),
                    *self == (RigidBodySet { stack: self.stack, ..snap }),
                    snap.stack@.is_prefix_of(self.stack@),
                    forall|j: int|
                        0 <= j < self.stack@.len() ==> snap.live(#[trigger] self.stack@[j]),
                decreases ni - ji,
            {
                proof {
                    crate::joint::lemma_interactions_sound(joint_graph.joints@, jgi, ji as int);
                }
                let p = inters[ji];
                let other = if p.0 == handle {
                    p.1
                } else {
                    p.0
                };
                proof {
                    let k = choose|k: int|
                        0 <= k < joint_graph.joints@.len() && crate::joint::joint_touches(
                            #[trigger] joint_graph.joints@[k],
                            jgi,
                        ) && inters@[ji as int] == (
                            joint_graph.joints@[k].body1,
                            joint_graph.joints@[k].body2,
                        );
                    assert(snap.live(joint_graph.joints@[k].body1));
                    assert(snap.live(joint_graph.joints@[k].body2));
                    assert(snap.live(other));
                }
                let ghost st0 = self.stack@;
                self.stack.push(other);
                proof {
                    assert(snap.stack@.is_prefix_of(self.stack@)) by {
                        assert(self.stack@.subrange(0, snap.stack@.len() as int) =~= st0.subrange(
                            0,
                            snap.stack@.len() as int,
                        ));
                    }
                    assert forall|j: int| 0 <= j < self.stack@.len() implies snap.live(
                        #[trigger] self.stack@[j],
                    ) by {
                        if j < st0.len() {
                            assert(self.stack@[j] == st0[j]);
                        } else {
                            assert(self.stack@[j] == other);
                        }
                    }
                }
                ji = ji + 1;
            }
            proof {
                let jslot = handle.0.index as int;
                pre.bodies.lemma_live_slot(handle.0);
                self.bodies.lemma_live_slot(handle.0);
                assert(is_unvisited_slot(pre.bodies, jslot, ts));
                assert(!is_unvisited_slot(self.bodies, jslot, ts));
                assert forall|i2: int| 0 <= i2 < n_slots && i2 != jslot implies (is_unvisited_slot(
                    pre.bodies,
                    i2,
                    ts,
                ) == is_unvisited_slot(self.bodies, i2, ts)) by {
                    assert(pre.bodies.occupied_at(i2) == self.bodies.occupied_at(i2));
                    if pre.bodies.occupied_at(i2) {
                        pre.bodies.lemma_slot_handle_live(i2);
                        self.bodies.lemma_slot_handle_live(i2);
                        assert(self.bodies.slot_handle(i2) == pre.bodies.slot_handle(i2));
                        assert(pre.bodies.slot_handle(i2).index == i2);
                        assert(pre.bodies.slot_handle(i2) != handle.0);
                        assert(self.bodies.value_at(self.bodies.slot_handle(i2))
                            == pre.bodies.value_at(pre.bodies.slot_handle(i2)));
                    }
                }
                lemma_unvisited_drop(pre.bodies, self.bodies, ts, n_slots, jslot);
                assert forall|h2: RigidBodyHandle| pre.live(h2) && h2 != handle implies
                    #[trigger] self.body_at(h2) == pre.body_at(h2) by {
                    assert(self.bodies.value_at(h2.0) == mid.bodies.value_at(h2.0));
                    assert(pre.bodies.value_at(h2.0) == mid.bodies.value_at(h2.0));
                }
                Self::lemma_frame_step(base, pre, *self, handle);
                assert forall|j: int| 0 <= j < self.stack@.len() implies self.live(
                    #[trigger] self.stack@[j],
                ) by {
                    assert(snap.live(self.stack@[j]));
                }
                Self::lemma_traversal_invs_stack_only(woken, *self, ts);
                assert(self.bodies == woken.bodies);
                assert forall|j0: int| 0 <= j0 < pre.stack@.len() - 1 implies self.stack@[j0]
                    == #[trigger] pre.stack@[j0] by {
                    assert(woken.stack@[j0] == pre.stack@[j0]);
                    assert(snap.stack@[j0] == woken.stack@[j0]);
                }
                assert forall|h2: RigidBodyHandle|
                    must_stay_active(base, *colliders, *narrow_phase, h2) implies (
                #[trigger] self.body_at(h2)).active_set_timestamp == ts || self.stack@.contains(
                    h2,
                ) by {
                    if h2 == handle {
                        assert(self.body_at(h2).active_set_timestamp == ts);
                    } else {
                        assert(self.body_at(h2) == pre.body_at(h2)) by {
                            assert(self.bodies.value_at(h2.0) == mid.bodies.value_at(h2.0));
                            assert(pre.bodies.value_at(h2.0) == mid.bodies.value_at(h2.0));
                        }
                        if pre.body_at(h2).active_set_timestamp != ts {
                            assert(pre.stack@.contains(h2));
                            let j0 = choose|j0: int|
                                0 <= j0 < pre.stack@.len() && pre.stack@[j0] == h2;
                            if j0 < pre.stack@.len() - 1 {
                                assert(self.stack@[j0] == h2);
                            } else {
                                assert(h2 == handle);
                            }
                        }
                    }
                }
                assert forall|j: int| 0 <= j < self.can_sleep@.len() implies ((
                #[trigger] self.body_at(self.can_sleep@[j])).active_set_timestamp == ts
                    || self.body_at(self.can_sleep@[j]).activation.sleeping) && self.live(
                    self.can_sleep@[j],
                ) && base.active_dynamic_set@.contains(self.can_sleep@[j]) by {
                    assert(self.can_sleep@[j] == pre.can_sleep@[j]);
                    if self.can_sleep@[j] != handle {
                        assert(self.body_at(self.can_sleep@[j]) == pre.body_at(
                            pre.can_sleep@[j],
                        )) by {
                            assert(self.bodies.value_at(pre.can_sleep@[j].0)
                                == mid.bodies.value_at(pre.can_sleep@[j].0));
                            assert(pre.bodies.value_at(pre.can_sleep@[j].0)
                                == mid.bodies.value_at(pre.can_sleep@[j].0));
                        }
                    } else {
                        assert(self.body_at(self.can_sleep@[j]).active_set_timestamp == ts);
                    }
                }
                assert forall|h2: RigidBodyHandle|
                    base.live(h2) && !base.active_dynamic_set@.contains(h2) && (
                #[trigger] self.body_at(h2)).active_set_timestamp != ts implies self.body_at(h2)
                    == base.body_at(h2) by {
                    assert(h2 != handle);
                    assert(self.body_at(h2) == pre.body_at(h2)) by {
                        assert(self.bodies.value_at(h2.0) == mid.bodies.value_at(h2.0));
                        assert(pre.bodies.value_at(h2.0) == mid.bodies.value_at(h2.0));
                    }
                }
            }
        }

        // Close the final island.
        let dn = self.active_dynamic_set.len();
        let ghost p4 = *self;
        let ghost isl_loop = self.active_islands@;
        self.active_islands.push(dn);

        proof {
            Self::lemma_frame_same(base, p4, *self);
            assert forall|h2: RigidBodyHandle| self.live(h2) implies ((
            #[trigger] self.body_at(h2)).active_set_timestamp == ts
                <==> self.active_dynamic_set@.contains(h2)) by {
                assert(p4.live(h2));
                assert(self.body_at(h2) == p4.body_at(h2));
                assert(self.active_dynamic_set@ == p4.active_dynamic_set@);
            }
            assert forall|k: int| 0 <= k < self.active_islands@.len() - 1 implies
                #[trigger] self.active_islands@[k] <= self.active_islands@[k + 1] by {
                if k < isl_loop.len() - 1 {
                    assert(self.active_islands@[k] == isl_loop[k]);
                    assert(self.active_islands@[k + 1] == isl_loop[k + 1]);
                } else {
                    assert(self.active_islands@[k] == isl_loop[isl_loop.len() - 1]);
                }
            }
            assert forall|k: int| 0 <= k < self.active_islands@.len() - 2 implies
                #[trigger] self.active_islands@[k + 1] - self.active_islands@[k]
                >= min_island_size by {
                assert(self.active_islands@[k] == isl_loop[k]);
                assert(self.active_islands@[k + 1] == isl_loop[k + 1]);
            }
            assert forall|i: int| 0 <= i < self.active_dynamic_set@.len() implies {
                let b = #[trigger] self.bodies.value_at(self.active_dynamic_set@[i].0);
                &&& b.active_island_id < self.active_islands@.len() - 1
                &&& self.active_islands@[b.active_island_id as int] <= i < self.active_islands@[
                    b.active_island_id as int + 1
                ]
                &&& b.active_set_offset == i - self.active_islands@[b.active_island_id as int]
                &&& b.activation.sleeping == false
                &&& b.active_set_timestamp == ts
            } by {
                let b = self.bodies.value_at(self.active_dynamic_set@[i].0);
                assert(b.active_island_id < isl_loop.len());
                assert(self.active_islands@[b.active_island_id as int] == isl_loop[
                    b.active_island_id as int
                ]);
                if b.active_island_id + 1 < isl_loop.len() {
                    assert(self.active_islands@[b.active_island_id as int + 1] == isl_loop[
                        b.active_island_id as int + 1
                    ]);
                } else {
                    assert(b.active_island_id as int + 1 == isl_loop.len());
                    assert(self.active_islands@[b.active_island_id as int + 1] == dn);
                }
            }
        }

        // Actually put to sleep the candidates the traversal never reached.
        let ns = self.can_sleep.len();
        let mut si: usize = 0;
        while si < ns
            invariant
                si <= ns,
                ns == self.can_sleep@.len(),
                self.wf(),
                ts == self.active_set_timestamp,
                traversal_frame(base, *self),
                self.active_islands@.len() >= 2,
                self.active_islands@[0] == 0,
                self.active_islands@[self.active_islands@.len() - 1]
                    == self.active_dynamic_set@.len(),
                forall|k: int|
                    0 <= k < self.active_islands@.len() - 1 ==> #[trigger] self.active_islands@[k]
                        <= self.active_islands@[k + 1],
                forall|k: int|
                    0 <= k < self.active_islands@.len() - 2 ==> #[trigger] self.active_islands@[k
                        + 1] - self.active_islands@[k] >= min_island_size,
                forall|i: int|
                    0 <= i < self.active_dynamic_set@.len() ==> {
                        let b = #[trigger] self.bodies.value_at(self.active_dynamic_set@[i].0);
                        &&& b.active_island_id < self.active_islands@.len() - 1
                        &&& self.active_islands@[b.active_island_id as int] <= i
                            < self.active_islands@[b.active_island_id as int + 1]
                        &&& b.active_set_offset == i - self.active_islands@[
                            b.active_island_id as int
                        ]
                        &&& b.activation.sleeping == false
                        &&& b.active_set_timestamp == ts
                    },
                stamp_membership(*self, ts),
                forall|j: int|
                    0 <= j < self.can_sleep@.len() ==> self.live(#[trigger] self.can_sleep@[j]),
            decreases ns - si,
        {
            let ghost pre = *self;
            let h = self.can_sleep[si];
            let sleeping = self.bodies.get(h.0).unwrap().is_sleeping();
            if sleeping {
                proof {
                    assert(!pre.active_dynamic_set@.contains(h)) by {
                        if pre.active_dynamic_set@.contains(h) {
                            let j2 = choose|j2: int|
                                0 <= j2 < pre.active_dynamic_set@.len()
                                    && pre.active_dynamic_set@[j2] == h;
                            assert(pre.bodies.value_at(
                                pre.active_dynamic_set@[j2].0,
                            ).activation.sleeping == false);
                        }
                    }
                }
                let b = self.bodies.value_mut(h.0);
                b.sleep();
                proof {
                    Self::lemma_wf_frame(pre, *self);
                    assert forall|i: int| 0 <= i < self.active_dynamic_set@.len() implies {
                        let b2 = #[trigger] self.bodies.value_at(self.active_dynamic_set@[i].0);
                        &&& b2.active_island_id < self.active_islands@.len() - 1
                        &&& self.active_islands@[b2.active_island_id as int] <= i
                            < self.active_islands@[b2.active_island_id as int + 1]
                        &&& b2.active_set_offset == i - self.active_islands@[
                            b2.active_island_id as int
                        ]
                        &&& b2.activation.sleeping == false
                        &&& b2.active_set_timestamp == ts
                    } by {
                        let h2 = self.active_dynamic_set@[i];
                        assert(pre.active_dynamic_set@.contains(h2));
                        assert(h2 != h);
                        assert(self.bodies.value_at(h2.0) == pre.bodies.value_at(h2.0));
                    }
                    assert forall|h2: RigidBodyHandle| self.live(h2) implies ((
                    #[trigger] self.body_at(h2)).active_set_timestamp == ts
                        <==> self.active_dynamic_set@.contains(h2)) by {
                        assert(pre.live(h2));
                        if h2 != h {
                            assert(self.body_at(h2) == pre.body_at(h2));
                        }
                    }
                    assert forall|h2: RigidBodyHandle| pre.live(h2) && h2 != h implies
                        #[trigger] self.body_at(h2) == pre.body_at(h2) by {
                        assert(self.bodies.value_at(h2.0) == pre.bodies.value_at(h2.0));
                    }
                    Self::lemma_frame_step(base, pre, *self, h);
                }
            }
            si = si + 1;
        }

        proof {
            assert forall|h2: RigidBodyHandle| old(self).live(h2) implies {
                let a = old(self).body_at(h2);
                let b = #[trigger] self.body_at(h2);
                &&& b.status == a.status
                &&& b.position == a.position
                &&& b.changes == a.changes
                &&& b.colliders == a.colliders
                &&& b.joint_graph_index == a.joint_graph_index
            } by {
                assert(base.live(h2));
                assert(base.body_at(h2) == (RigidBody {
                    active_set_timestamp: base.body_at(h2).active_set_timestamp,
                    ..old(self).body_at(h2)
                }));
            }
        }
    }

    /// Reconcile one body's accumulated change flags: sync its colliders'
    /// positions, record a changed static body as modified-inactive, let a
    /// changed kinematic body or a manually woken dynamic body re-enter its
    /// active sequence, and clear the change flags unconditionally.
    fn maintain_one(
        colliders: &mut ColliderSet,
        handle: RigidBodyHandle,
        rb: &mut RigidBody,
        modified_inactive_set: &mut Vec<RigidBodyHandle>,
        active_kinematic_set: &mut Vec<RigidBodyHandle>,
        active_dynamic_set: &mut Vec<RigidBodyHandle>,
    )
        ensures
            old(colliders).wf() ==> final(colliders).wf(),
            forall|ch: ColliderHandle| final(colliders).live(ch) <==> old(colliders).live(ch),
            forall|ch: ColliderHandle|
                old(colliders).live(ch) ==> #[trigger] final(colliders).parent_of(ch) == old(
                    colliders,
                ).parent_of(ch),
            forall|ch: ColliderHandle|
                old(colliders).live(ch) ==> #[trigger] final(colliders).position_of(ch) == (
                if m1_pos_sync(*old(rb)) && old(rb).colliders@.contains(ch) {
                    old(rb).position
                } else {
                    old(colliders).position_of(ch)
                }),
            *final(rb) == (RigidBody {
                changes: RigidBodyChanges {
                    position: false,
                    colliders: false,
                    sleep: false,
                    modified: false,
                },
                active_set_id: (if m1_kin_push(*old(rb), handle, old(active_kinematic_set)@) {
                    old(active_kinematic_set)@.len() as usize
                } else if m1_dyn_push(*old(rb), handle, old(active_dynamic_set)@) {
                    old(active_dynamic_set)@.len() as usize
                } else {
                    old(rb).active_set_id
                }),
                ..*old(rb)
            }),
            final(modified_inactive_set)@ == (if m1_pos_sync(*old(rb)) && old(
                rb,
            ).status is Static {
                old(modified_inactive_set)@.push(handle)
            } else {
                old(modified_inactive_set)@
            }),
            final(active_kinematic_set)@ == (if m1_kin_push(
                *old(rb),
                handle,
                old(active_kinematic_set)@,
            ) {
                old(active_kinematic_set)@.push(handle)
            } else {
                old(active_kinematic_set)@
            }),
            final(active_dynamic_set)@ == (if m1_dyn_push(
                *old(rb),
                handle,
                old(active_dynamic_set)@,
            ) {
                old(active_dynamic_set)@.push(handle)
            } else {
                old(active_dynamic_set)@
            }),
    {
        if rb.changes.position || rb.changes.colliders {
            rb.update_colliders_positions(colliders);
            if rb.is_static() {
                modified_inactive_set.push(handle);
            }
            if rb.is_kinematic() {
                let asid = rb.active_set_id;
                if !(asid < active_kinematic_set.len() && active_kinematic_set[asid] == handle) {
                    rb.active_set_id = active_kinematic_set.len();
                    active_kinematic_set.push(handle);
                }
            }
        }
        if rb.changes.sleep && !rb.is_sleeping() && rb.is_dynamic() {
            let asid = rb.active_set_id;
            if !(asid < active_dynamic_set.len() && active_dynamic_set[asid] == handle) {
                rb.active_set_id = active_dynamic_set.len();
                active_dynamic_set.push(handle);
            }
        }
        rb.changes = RigidBodyChanges::empty();
    }

    /// Reconcile every body considered possibly changed — the full sweep when
    /// the coalescing flag is set, otherwise exactly the modified-bodies
    /// list — then forget all change tracking. Running it again right away
    /// changes nothing: with no intervening mutation the second pass is a
    /// no-op.
    pub fn maintain(&mut self, colliders: &mut ColliderSet)
        requires
            old(self).wf(),
            old(colliders).wf(),
        ensures
            final(self).wf(),
            final(colliders).wf(),
            final(self).modified().len() == 0,
            !final(self).modified_all(),
            forall|h2: RigidBodyHandle| final(self).live(h2) <==> old(self).live(h2),
            forall|h2: RigidBodyHandle| final(self).stale(h2) <==> old(self).stale(h2),
            final(self).len_spec() == old(self).len_spec(),
            final(self).timestamp() == old(self).timestamp(),
            final(self).islands() == old(self).islands(),
            old(self).active_dynamic().is_prefix_of(final(self).active_dynamic()),
            old(self).active_kinematic().is_prefix_of(final(self).active_kinematic()),
            forall|ch: ColliderHandle| final(colliders).live(ch) <==> old(colliders).live(ch),
            (old(self).modified().len() == 0 && !old(self).modified_all()) ==> (*final(self)
                == *old(self) && *final(colliders) == *old(colliders)),
    {
        if self.modified_all_bodies {
            let cap = self.bodies.slot_cap();
            let mut slot: usize = 0;
            while slot < cap
                invariant
                    self.wf(),
                    colliders.wf(),
                    cap == self.bodies.slot_count(),
                    self.active_set_timestamp == old(self).active_set_timestamp,
                    self.active_islands@ == old(self).active_islands@,
                    self.modified_bodies@ == old(self).modified_bodies@,
                    self.modified_all_bodies == old(self).modified_all_bodies,
                    forall|h2: RigidBodyHandle| self.live(h2) <==> old(self).live(h2),
                    forall|h2: RigidBodyHandle| self.stale(h2) <==> old(self).stale(h2),
                    self.len_spec() == old(self).len_spec(),
                    old(self).active_dynamic_set@.is_prefix_of(self.active_dynamic_set@),
                    old(self).active_kinematic_set@.is_prefix_of(self.active_kinematic_set@),
                    forall|ch: ColliderHandle| colliders.live(ch) <==> old(colliders).live(ch),
                decreases cap - slot,
            {
                let found = self.bodies.handle_at_slot(slot);
                if let Some(idx) = found {
                    let handle = RigidBodyHandle(idx);
                    self.maintain_at(colliders, handle);
                }
                slot = slot + 1;
            }
            self.modified_bodies.clear();
            self.modified_all_bodies = false;
        } else if self.modified_bodies.len() > 0 {
            let n = self.modified_bodies.len();
            let mut i: usize = 0;
            while i < n
                invariant
                    self.wf(),
                    colliders.wf(),
                    n == self.modified_bodies@.len(),
                    self.active_set_timestamp == old(self).active_set_timestamp,
                    self.active_islands@ == old(self).active_islands@,
                    self.modified_bodies@ == old(self).modified_bodies@,
                    self.modified_all_bodies == old(self).modified_all_bodies,
                    forall|h2: RigidBodyHandle| self.live(h2) <==> old(self).live(h2),
                    forall|h2: RigidBodyHandle| self.stale(h2) <==> old(self).stale(h2),
                    self.len_spec() == old(self).len_spec(),
                    old(self).active_dynamic_set@.is_prefix_of(self.active_dynamic_set@),
                    old(self).active_kinematic_set@.is_prefix_of(self.active_kinematic_set@),
                    forall|ch: ColliderHandle| colliders.live(ch) <==> old(colliders).live(ch),
                decreases n - i,
            {
                let handle = self.modified_bodies[i];
                if self.bodies.contains(handle.0) {
                    self.maintain_at(colliders, handle);
                }
                i = i + 1;
            }
            self.modified_bodies.clear();
        }
    }

    /// Run the single-body maintenance step on the live body `handle`,
    /// re-establishing the container invariant.
    fn maintain_at(&mut self, colliders: &mut ColliderSet, handle: RigidBodyHandle)
        requires
            old(self).wf(),
            old(colliders).wf(),
            old(self).live(handle),
        ensures
            final(self).wf(),
            final(colliders).wf(),
            forall|h2: RigidBodyHandle| final(self).live(h2) <==> old(self).live(h2),
            forall|h2: RigidBodyHandle| final(self).stale(h2) <==> old(self).stale(h2),
            final(self).len_spec() == old(self).len_spec(),
            final(self).timestamp() == old(self).timestamp(),
            final(self).islands() == old(self).islands(),
            final(self).modified() == old(self).modified(),
            final(self).modified_all() == old(self).modified_all(),
            old(self).active_dynamic().is_prefix_of(final(self).active_dynamic()),
            old(self).active_kinematic().is_prefix_of(final(self).active_kinematic()),
            forall|ch: ColliderHandle| final(colliders).live(ch) <==> old(colliders).live(ch),
            final(self).bodies.slot_count() == old(self).bodies.slot_count(),
    {
        let ghost pre = *self;
        let kin_len = self.active_kinematic_set.len();
        let dyn_len = self.active_dynamic_set.len();
        proof {
            assert(kin_len as nat == pre.active_kinematic_set@.len());
            assert(dyn_len as nat == pre.active_dynamic_set@.len());
        }
        Self::maintain_one(
            colliders,
            handle,
            self.bodies.value_mut(handle.0),
            &mut self.modified_inactive_set,
            &mut self.active_kinematic_set,
            &mut self.active_dynamic_set,
        );
        proof {
            let rb0 = pre.body_at(handle);
            if m1_kin_push(rb0, handle, pre.active_kinematic_set@) {
                if pre.active_kinematic_set@.contains(handle) {
                    let i2 = choose|i2: int|
                        0 <= i2 < pre.active_kinematic_set@.len() && pre.active_kinematic_set@[i2]
                            == handle;
                    assert(pre.bodies.value_at(handle.0).active_set_id == i2);
                }
                Self::lemma_wf_push_kinematic(pre, *self, handle);
                assert(pre.active_dynamic_set@.is_prefix_of(self.active_dynamic_set@));
                assert(pre.active_kinematic_set@.is_prefix_of(self.active_kinematic_set@)) by {
                    assert(self.active_kinematic_set@.subrange(
                        0,
                        pre.active_kinematic_set@.len() as int,
                    ) =~= pre.active_kinematic_set@);
                }
            } else if m1_dyn_push(rb0, handle, pre.active_dynamic_set@) {
                if pre.active_dynamic_set@.contains(handle) {
                    let i2 = choose|i2: int|
                        0 <= i2 < pre.active_dynamic_set@.len() && pre.active_dynamic_set@[i2]
                            == handle;
                    assert(pre.bodies.value_at(handle.0).active_set_id == i2);
                }
                Self::lemma_wf_push_dynamic(pre, *self, handle);
                assert(pre.active_kinematic_set@.is_prefix_of(self.active_kinematic_set@));
                assert(pre.active_dynamic_set@.is_prefix_of(self.active_dynamic_set@)) by {
                    assert(self.active_dynamic_set@.subrange(
                        0,
                        pre.active_dynamic_set@.len() as int,
                    ) =~= pre.active_dynamic_set@);
                }
            } else {
                Self::lemma_wf_frame(pre, *self);
                assert(pre.active_dynamic_set@.is_prefix_of(self.active_dynamic_set@));
                assert(pre.active_kinematic_set@.is_prefix_of(self.active_kinematic_set@));
            }
        }
    }

    /// The island table is usable: it starts at zero, its offsets never
    /// decrease, and they stay within the active dynamic sequence. It holds
    /// after every traversal, until the next mutation of the active dynamic
    /// sequence.
    pub open spec fn islands_ok(self) -> bool {
        &&& self.islands().len() >= 1
        &&& forall|k: int|
            0 <= k < self.islands().len() - 1 ==> #[trigger] self.islands()[k] <= self.islands()[k
                + 1]
        &&& self.islands()[self.islands().len() - 1] <= self.active_dynamic().len()
    }

    /// The island table's offsets never decrease across any distance.
    pub proof fn lemma_islands_mono(self, i: int, j: int)
        requires
            self.islands_ok(),
            0 <= i <= j < self.islands().len(),
        ensures
            self.islands()[i] <= self.islands()[j],
        decreases j - i,
    {
        if i < j {
            self.lemma_islands_mono(i + 1, j);
        }
    }

    /// Active-set consistency: under the container invariant, every entry of
    /// the active dynamic sequence is a live dynamic body whose
    /// `active_set_id` points back at its position.
    pub proof fn lemma_active_dynamic_consistency(self, i: int)
        requires
            self.wf(),
            0 <= i < self.active_dynamic().len(),
        ensures
            self.live(self.active_dynamic()[i]),
            self.body_at(self.active_dynamic()[i]).status is Dynamic,
            self.body_at(self.active_dynamic()[i]).active_set_id == i,
    {
    }

    /// Active-set consistency: under the container invariant, every entry of
    /// the active kinematic sequence is a live kinematic body whose
    /// `active_set_id` points back at its position.
    pub proof fn lemma_active_kinematic_consistency(self, i: int)
        requires
            self.wf(),
            0 <= i < self.active_kinematic().len(),
        ensures
            self.live(self.active_kinematic()[i]),
            self.body_at(self.active_kinematic()[i]).status is Kinematic,
            self.body_at(self.active_kinematic()[i]).active_set_id == i,
    {
    }

    /// The distinguished invalid handle (sentinel generation) never resolves
    /// to a live body, so `contains(RigidBodyHandle::invalid())` is always
    /// false on a well-formed set.
    pub proof fn lemma_invalid_never_live(self, h: RigidBodyHandle)
        requires
            self.wf(),
            h.0.generation == u64::MAX,
        ensures
            !self.live(h),
    {
        self.bodies.lemma_max_generation_never_live(h.0);
    }

    /// Does the island table hold at least its sentinel entry, so that
    /// `num_islands` may be asked? False only before the first traversal.
    pub fn has_islands(&self) -> (r: bool)
        ensures
            r == (self.islands().len() >= 1),
    {
        self.active_islands.len() >= 1
    }

    /// Run-time check of `islands_ok`, for callers that cannot carry the
    /// proof: true exactly when the island table is usable.
    pub fn islands_usable(&self) -> (r: bool)
        ensures
            r == self.islands_ok(),
    {
        let n = self.active_islands.len();
        if n == 0 {
            return false;
        }
        if self.active_islands[n - 1] > self.active_dynamic_set.len() {
            return false;
        }
        let mut k: usize = 0;
        while k + 1 < n
            invariant
                n == self.active_islands@.len(),
                n >= 1,
                k < n,
                self.active_islands@[n - 1] <= self.active_dynamic_set@.len(),
                forall|k2: int|
                    0 <= k2 < k ==> #[trigger] self.active_islands@[k2] <= self.active_islands@[k2
                        + 1],
            decreases n - k,
        {
            if self.active_islands[k] > self.active_islands[k + 1] {
                return false;
            }
            k = k + 1;
        }
        true
    }

    /// The number of islands the last traversal produced.
    pub fn num_islands(&self) -> (n: usize)
        requires
            self.islands().len() >= 1,
        ensures
            n == self.islands().len() - 1,
    {
        self.active_islands.len() - 1
    }

    /// The bounds of the island `island_id` inside the active dynamic
    /// sequence: its start offset and its end offset.
    pub fn active_island_range(&self, island_id: usize) -> (r: (usize, usize))
        requires
            self.islands_ok(),
            island_id < self.islands().len() - 1,
        ensures
            r.0 == self.islands()[island_id as int],
            r.1 == self.islands()[island_id as int + 1],
            r.0 <= r.1 <= self.active_dynamic().len(),
    {
        let n = self.active_islands.len();
        proof {
            self.lemma_islands_mono(island_id as int + 1, self.islands().len() - 1);
            assert(island_id + 1 < n);
        }
        (self.active_islands[island_id], self.active_islands[island_id + 1])
    }

    /// The handles of the island `island_id`, in active-sequence order.
    pub fn active_island(&self, island_id: usize) -> (r: Vec<RigidBodyHandle>)
        requires
            self.islands_ok(),
            island_id < self.islands().len() - 1,
        ensures
            r@ == self.active_dynamic().subrange(
                self.islands()[island_id as int] as int,
                self.islands()[island_id as int + 1] as int,
            ),
    {
        let (start, end) = self.active_island_range(island_id);
        let mut r: Vec<RigidBodyHandle> = Vec::new();
        let mut i: usize = start;
        proof {
            assert(r@ =~= self.active_dynamic().subrange(start as int, start as int));
        }
        while i < end
            invariant
                start <= i <= end,
                end <= self.active_dynamic_set@.len(),
                r@ == self.active_dynamic_set@.subrange(start as int, i as int),
            decreases end - i,
        {
            let h = self.active_dynamic_set[i];
            r.push(h);
            proof {
                assert(self.active_dynamic_set@.subrange(start as int, i as int + 1).drop_last()
                    =~= self.active_dynamic_set@.subrange(start as int, i as int));
                assert(r@ =~= self.active_dynamic_set@.subrange(start as int, i as int + 1));
            }
            i = i + 1;
        }
        r
    }

    /// Iterates through all the rigid-bodies of this set, as the sequence of
    /// their handles in slot order.
    pub fn iter(&self) -> (r: Vec<RigidBodyHandle>)
        ensures
            forall|j: int| 0 <= j < r@.len() ==> self.live(#[trigger] r@[j]),
            forall|h2: RigidBodyHandle| self.live(h2) ==> r@.contains(h2),
            forall|j1: int, j2: int|
                0 <= j1 < j2 < r@.len() ==> #[trigger] r@[j1].0.index < #[trigger] r@[j2].0.index,
    {
        let cap = self.bodies.slot_cap();
        let mut r: Vec<RigidBodyHandle> = Vec::new();
        let mut i: usize = 0;
        while i < cap
            invariant
                i <= cap,
                cap == self.bodies.slot_count(),
                forall|j: int|
                    0 <= j < r@.len() ==> self.live(#[trigger] r@[j]) && r@[j].0.index < i,
                forall|h2: RigidBodyHandle|
                    self.live(h2) && h2.0.index < i ==> r@.contains(h2),
                forall|j1: int, j2: int|
                    0 <= j1 < j2 < r@.len() ==> #[trigger] r@[j1].0.index < #[trigger] r@[
                        j2
                    ].0.index,
            decreases cap - i,
        {
            let found = self.bodies.handle_at_slot(i);
            if let Some(idx) = found {
                let ghost r0 = r@;
                r.push(RigidBodyHandle(idx));
                proof {
                    assert forall|h2: RigidBodyHandle| self.live(h2) && h2.0.index
                        < i + 1 implies r@.contains(h2) by {
                        if h2.0.index < i {
                            assert(r0.contains(h2));
                            let j = choose|j: int| 0 <= j < r0.len() && r0[j] == h2;
                            assert(r@[j] == h2);
                        } else {
                            self.bodies.lemma_live_same_slot(h2.0, idx);
                            assert(r@[r@.len() - 1] == h2);
                        }
                    }
                }
            } else {
                proof {
                    assert forall|h2: RigidBodyHandle| self.live(h2) && h2.0.index
                        < i + 1 implies r@.contains(h2) by {
                        if h2.0.index == i {
                            assert(!self.bodies.live(h2.0));
                        }
                    }
                }
            }
            i = i + 1;
        }
        proof {
            assert forall|h2: RigidBodyHandle| self.live(h2) implies r@.contains(h2) by {
                self.bodies.lemma_live_slot(h2.0);
            }
        }
        r
    }

    /// Iterates mutably through all the rigid-bodies of this set: returns
    /// their handles in slot order, clears the modified-bodies list and sets
    /// the coalescing flag, since every body must conservatively count as
    /// modified afterwards.
    pub fn iter_mut(&mut self) -> (r: Vec<RigidBodyHandle>)
        ensures
            forall|j: int| 0 <= j < r@.len() ==> final(self).live(#[trigger] r@[j]),
            forall|h2: RigidBodyHandle| final(self).live(h2) ==> r@.contains(h2),
            forall|j1: int, j2: int|
                0 <= j1 < j2 < r@.len() ==> #[trigger] r@[j1].0.index < #[trigger] r@[j2].0.index,
            final(self).modified().len() == 0,
            final(self).modified_all(),
            old(self).wf() ==> final(self).wf(),
            forall|h2: RigidBodyHandle| final(self).live(h2) <==> old(self).live(h2),
            forall|h2: RigidBodyHandle| final(self).stale(h2) <==> old(self).stale(h2),
            forall|h2: RigidBodyHandle|
                old(self).live(h2) ==> #[trigger] final(self).body_at(h2) == old(self).body_at(h2),
            final(self).len_spec() == old(self).len_spec(),
            final(self).active_dynamic() == old(self).active_dynamic(),
            final(self).active_kinematic() == old(self).active_kinematic(),
            final(self).islands() == old(self).islands(),
            final(self).timestamp() == old(self).timestamp(),
            final(self).modified_inactive() == old(self).modified_inactive(),
    {
        self.modified_bodies.clear();
        self.modified_all_bodies = true;
        self.iter()
    }

    /// Iter through all the active dynamic rigid-bodies of this set.
    pub fn iter_active_dynamic(&self) -> (r: Vec<RigidBodyHandle>)
        ensures
            r@ == self.active_dynamic(),
    {
        let mut r: Vec<RigidBodyHandle> = Vec::new();
        let n = self.active_dynamic_set.len();
        let mut i: usize = 0;
        while i < n
            invariant
                i <= n,
                n == self.active_dynamic_set@.len(),
                r@ == self.active_dynamic_set@.subrange(0, i as int),
            decreases n - i,
        {
            r.push(self.active_dynamic_set[i]);
            proof {
                assert(self.active_dynamic_set@.subrange(0, i as int + 1).drop_last()
                    =~= self.active_dynamic_set@.subrange(0, i as int));
                assert(r@ =~= self.active_dynamic_set@.subrange(0, i as int + 1));
            }
            i = i + 1;
        }
        proof {
            assert(self.active_dynamic_set@.subrange(0, n as int) =~= self.active_dynamic_set@);
        }
        r
    }

    /// Iter through all the active kinematic rigid-bodies of this set.
    pub fn iter_active_kinematic(&self) -> (r: Vec<RigidBodyHandle>)
        ensures
            r@ == self.active_kinematic(),
    {
        let mut r: Vec<RigidBodyHandle> = Vec::new();
        let n = self.active_kinematic_set.len();
        let mut i: usize = 0;
        while i < n
            invariant
                i <= n,
                n == self.active_kinematic_set@.len(),
                r@ == self.active_kinematic_set@.subrange(0, i as int),
            decreases n - i,
        {
            r.push(self.active_kinematic_set[i]);
            proof {
                assert(self.active_kinematic_set@.subrange(0, i as int + 1).drop_last()
                    =~= self.active_kinematic_set@.subrange(0, i as int));
                assert(r@ =~= self.active_kinematic_set@.subrange(0, i as int + 1));
            }
            i = i + 1;
        }
        proof {
            assert(self.active_kinematic_set@.subrange(0, n as int) =~= self.active_kinematic_set@);
        }
        r
    }

    /// Iter through the bodies of one island of the last traversal.
    pub fn iter_active_island(&self, island_id: usize) -> (r: Vec<RigidBodyHandle>)
        requires
            self.islands_ok(),
            island_id < self.islands().len() - 1,
        ensures
            r@ == self.active_dynamic().subrange(
                self.islands()[island_id as int] as int,
                self.islands()[island_id as int + 1] as int,
            ),
    {
        self.active_island(island_id)
    }

    /// Gets the rigid-body sitting in arena slot `i`, whatever generation the
    /// slot carries, together with its full handle. This bypasses the
    /// generation check, so a recycled slot silently yields a different live
    /// body: use it only when no handle is available.
    pub fn get_unknown_gen(&self, i: usize) -> (r: Option<(&RigidBody, RigidBodyHandle)>)
        ensures
            r matches Some(p) ==> p.1.0.index == i && self.live(p.1) && *p.0 == self.body_at(p.1),
            r is None ==> forall|h: RigidBodyHandle| h.0.index == i ==> !self.live(h),
    {
        match self.bodies.get_unknown_gen(i) {
            Some((b, h)) => Some((b, RigidBodyHandle(h))),
            None => None,
        }
    }

    /// Gets a mutable reference to the rigid-body sitting in arena slot `i`,
    /// whatever generation the slot carries, together with its full handle;
    /// the body is tracked as modified like `get_mut` does. As with
    /// `get_unknown_gen`, a recycled slot silently yields a different live
    /// body.
    pub fn get_unknown_gen_mut(&mut self, i: usize) -> (r: Option<(&mut RigidBody, RigidBodyHandle)>)
        ensures
            r is None ==> *final(self) == *old(self) && (forall|h: RigidBodyHandle|
                h.0.index == i ==> !old(self).live(h)),
            r is Some ==> {
                let handle = r.unwrap().1;
                let covered = old(self).modified_all() || old(self).body_at(
                    handle,
                ).changes.modified;
                &&& handle.0.index == i
                &&& old(self).live(handle)
                &&& *r.unwrap().0 == marked_body(old(self).body_at(handle), old(self).modified_all())
                &&& final(self).body_at(handle) == *final(r.unwrap().0)
                &&& forall|h2: RigidBodyHandle| final(self).live(h2) <==> old(self).live(h2)
                &&& forall|h2: RigidBodyHandle| final(self).stale(h2) <==> old(self).stale(h2)
                &&& forall|h2: RigidBodyHandle|
                    h2 != handle && old(self).live(h2) ==> #[trigger] final(self).body_at(h2)
                        == old(self).body_at(h2)
                &&& final(self).len_spec() == old(self).len_spec()
                &&& final(self).active_dynamic() == old(self).active_dynamic()
                &&& final(self).active_kinematic() == old(self).active_kinematic()
                &&& final(self).modified() == (if covered {
                    old(self).modified()
                } else {
                    old(self).modified().push(handle)
                })
                &&& RigidBodySet::same_aux(*old(self), *final(self))
            },
    {
        let found = self.bodies.handle_at_slot(i);
        match found {
            Some(idx) => {
                let handle = RigidBodyHandle(idx);
                match self.get_mut(handle) {
                    Some(b) => Some((b, handle)),
                    None => None,
                }
            },
            None => None,
        }
    }

    /// Record the collider `ch` on the body `handle`: append it to the body's
    /// collider list and flag the body's collider set as changed, tracking
    /// the body as modified like `get_mut` does.
    pub fn attach_collider(&mut self, handle: RigidBodyHandle, ch: ColliderHandle)
        requires
            old(self).wf(),
            old(self).live(handle),
        ensures
            final(self).wf(),
            forall|h2: RigidBodyHandle| final(self).live(h2) <==> old(self).live(h2),
            forall|h2: RigidBodyHandle| final(self).stale(h2) <==> old(self).stale(h2),
            final(self).len_spec() == old(self).len_spec(),
            final(self).active_dynamic() == old(self).active_dynamic(),
            final(self).active_kinematic() == old(self).active_kinematic(),
            RigidBodySet::same_aux(*old(self), *final(self)),
            forall|h2: RigidBodyHandle|
                h2 != handle && old(self).live(h2) ==> #[trigger] final(self).body_at(h2) == old(
                    self,
                ).body_at(h2),
            final(self).body_at(handle).colliders@ == old(self).body_at(
                handle,
            ).colliders@.push(ch),
            final(self).body_at(handle) == (RigidBody {
                colliders: final(self).body_at(handle).colliders,
                changes: RigidBodyChanges {
                    colliders: true,
                    ..marked_body(old(self).body_at(handle), old(self).modified_all()).changes
                },
                ..old(self).body_at(handle)
            }),
            final(self).modified() == (if old(self).modified_all() || old(self).body_at(
                handle,
            ).changes.modified {
                old(self).modified()
            } else {
                old(self).modified().push(handle)
            }),
    {
        let mut need_mark = false;
        if !self.modified_all_bodies {
            need_mark = !self.bodies.get(handle.0).unwrap().changes.modified;
        }
        let rb = self.bodies.value_mut(handle.0);
        if need_mark {
            rb.changes = RigidBodyChanges {
                position: false,
                colliders: false,
                sleep: false,
                modified: true,
            };
        }
        rb.changes.colliders = true;
        rb.colliders.push(ch);
        if need_mark {
            self.modified_bodies.push(handle);
        }
        proof {
            RigidBodySet::lemma_wf_frame(*old(self), *self);
        }
    }

    /// Strike the collider `ch` from the body `handle`'s collider list,
    /// waking the body strongly when `wake` asks for it. A no-op on a stale
    /// or absent handle.
    pub fn detach_collider(&mut self, handle: RigidBodyHandle, ch: ColliderHandle, wake: bool)
        requires
            old(self).wf(),
        ensures
            final(self).wf(),
            forall|h2: RigidBodyHandle| final(self).live(h2) <==> old(self).live(h2),
            forall|h2: RigidBodyHandle| final(self).stale(h2) <==> old(self).stale(h2),
            final(self).len_spec() == old(self).len_spec(),
            final(self).active_kinematic() == old(self).active_kinematic(),
            final(self).modified() == old(self).modified(),
            RigidBodySet::same_aux(*old(self), *final(self)),
            !old(self).live(handle) ==> *final(self) == *old(self),
            old(self).live(handle) ==> {
                &&& !final(self).body_at(handle).colliders@.contains(ch)
                &&& final(self).body_at(handle).colliders@ == old(self).body_at(
                    handle,
                ).colliders@.filter(keeps(ch))
                &&& forall|h2: RigidBodyHandle|
                    h2 != handle && old(self).live(h2) ==> #[trigger] final(self).body_at(h2)
                        == old(self).body_at(h2)
            },
            (!wake || !old(self).live(handle)) ==> final(self).active_dynamic() == old(
                self,
            ).active_dynamic(),
            old(self).active_dynamic().is_prefix_of(final(self).active_dynamic()),
    {
        if !self.bodies.contains(handle.0) {
            return ;
        }
        let rb = self.bodies.value_mut(handle.0);
        let mut kept: Vec<ColliderHandle> = Vec::new();
        let n = rb.colliders.len();
        let mut i: usize = 0;
        proof {
            reveal_with_fuel(Seq::<_>::filter, 1);
            assert(rb.colliders@.subrange(0, 0) =~= Seq::<ColliderHandle>::empty());
            assert(kept@ =~= rb.colliders@.subrange(0, 0).filter(keeps(ch)));
        }
        while i < n
            invariant
                n == rb.colliders@.len(),
                i <= n,
                kept@ == rb.colliders@.subrange(0, i as int).filter(keeps(ch)),
            decreases n - i,
        {
            let c = rb.colliders[i];
            proof {
                reveal_with_fuel(Seq::<_>::filter, 2);
                let pre = rb.colliders@.subrange(0, i as int);
                let cur = rb.colliders@.subrange(0, i as int + 1);
                assert(cur.drop_last() =~= pre);
                assert(cur.last() == c);
            }
            if c != ch {
                kept.push(c);
            }
            i = i + 1;
        }
        proof {
            assert(rb.colliders@.subrange(0, n as int) =~= rb.colliders@);
            let fin = rb.colliders@.filter(keeps(ch));
            rb.colliders@.filter_lemma(keeps(ch));
            assert(!fin.contains(ch)) by {
                if fin.contains(ch) {
                    let j = choose|j: int| 0 <= j < fin.len() && fin[j] == ch;
                    assert(!(keeps(ch)(fin[j])));
                }
            }
        }
        rb.colliders = kept;
        proof {
            RigidBodySet::lemma_wf_frame(*old(self), *self);
        }
        if wake {
            self.wake_up(handle, true);
        }
    }
}

} // verus!
