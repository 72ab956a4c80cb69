//! The joint collaborator as this core consumes it: an interaction graph over
//! body handles, kept as an edge list keyed by each body's joint-graph node
//! index. Removing a body unlinks every edge touching its node.

use vstd::prelude::*;
use crate::rigid_body_set::RigidBodyHandle;

verus! {

/// One joint: an edge of the interaction graph between two bodies, each named
/// both by its handle and by its joint-graph node index.
#[derive(Clone, Copy, PartialEq, Eq, Structural, Debug)]
pub struct Joint {
    /// Handle of the first joined body.
    pub body1: RigidBodyHandle,
    /// Handle of the second joined body.
    pub body2: RigidBodyHandle,
    /// Joint-graph node index of the first body.
    pub node1: usize,
    /// Joint-graph node index of the second body.
    pub node2: usize,
}

/// Does the joint `j` touch the node index `i`?
pub open spec fn joint_touches(j: Joint, i: usize) -> bool {
    j.node1 == i || j.node2 == i
}

/// Keep every joint not touching node `i`: the predicate a body removal
/// applies to the edge list.
pub open spec fn keeps_joint(i: usize) -> spec_fn(Joint) -> bool {
    |j: Joint| !joint_touches(j, i)
}

/// The interactions touching node `i`, as pairs of body handles, in
/// edge-list order.
pub open spec fn interactions_of(joints: Seq<Joint>, i: usize) -> Seq<
    (RigidBodyHandle, RigidBodyHandle),
>
    decreases joints.len(),
{
    if joints.len() == 0 {
        Seq::empty()
    } else {
        let rest = interactions_of(joints.drop_last(), i);
        if joint_touches(joints.last(), i) {
            rest.push((joints.last().body1, joints.last().body2))
        } else {
            rest
        }
    }
}

/// Every pair listed among the interactions of node `i` comes from a joint of
/// the edge list that touches `i`.
pub proof fn lemma_interactions_sound(joints: Seq<Joint>, i: usize, j: int)
    requires
        0 <= j < interactions_of(joints, i).len(),
    ensures
        exists|k: int|
            0 <= k < joints.len() && joint_touches(#[trigger] joints[k], i) && interactions_of(
                joints,
                i,
            )[j] == (joints[k].body1, joints[k].body2),
    decreases joints.len(),
{
    let r = interactions_of(joints, i);
    if joint_touches(joints.last(), i) && j == r.len() - 1 {
        assert(joint_touches(joints[joints.len() - 1], i));
        assert(r[j] == (joints[joints.len() - 1].body1, joints[joints.len() - 1].body2));
    } else {
        lemma_interactions_sound(joints.drop_last(), i, j);
        let k = choose|k: int|
            0 <= k < joints.drop_last().len() && joint_touches(
                #[trigger] joints.drop_last()[k],
                i,
            ) && interactions_of(joints.drop_last(), i)[j] == (
                joints.drop_last()[k].body1,
                joints.drop_last()[k].body2,
            );
        assert(joints[k] == joints.drop_last()[k]);
        assert(joint_touches(joints[k], i));
    }
}

/// Every joint touching node `i` shows up among the interactions of `i`.
pub proof fn lemma_interactions_complete(joints: Seq<Joint>, i: usize, k: int)
    requires
        0 <= k < joints.len(),
        joint_touches(joints[k], i),
    ensures
        interactions_of(joints, i).contains((joints[k].body1, joints[k].body2)),
    decreases joints.len(),
{
    let r = interactions_of(joints, i);
    if k == joints.len() - 1 {
        assert(r[r.len() - 1] == (joints[k].body1, joints[k].body2));
    } else {
        lemma_interactions_complete(joints.drop_last(), i, k);
        let rest = interactions_of(joints.drop_last(), i);
        let j = choose|j: int|
            0 <= j < rest.len() && rest[j] == (joints.drop_last()[k].body1, joints.drop_last()[
                k
            ].body2);
        assert(r[j] == (joints[k].body1, joints[k].body2));
    }
}

/// The joint interaction graph, as an edge list.
pub struct JointSet {
    /// Every joint of the graph.
    pub joints: Vec<Joint>,
}

impl JointSet {
    /// Is any joint attached to the node index `i`?
    pub open spec fn attached(self, i: usize) -> bool {
        exists|k: int| 0 <= k < self.joints@.len() && joint_touches(#[trigger] self.joints@[k], i)
    }

    /// An empty joint graph.
    pub fn new() -> (s: JointSet)
        ensures
            s.joints@.len() == 0,
    {
        JointSet { joints: Vec::new() }
    }

    /// Link two bodies with a joint.
    pub fn insert(&mut self, joint: Joint)
        ensures
            final(self).joints@ == old(self).joints@.push(joint),
    {
        self.joints.push(joint);
    }

    /// Every interaction touching the node index `i`, as pairs of body
    /// handles, in edge-list order.
    pub fn interactions_with(&self, i: usize) -> (r: Vec<(RigidBodyHandle, RigidBodyHandle)>)
        ensures
            r@ == interactions_of(self.joints@, i),
    {
        let mut r: Vec<(RigidBodyHandle, RigidBodyHandle)> = Vec::new();
        let mut k: usize = 0;
        proof {
            assert(self.joints@.subrange(0, 0) =~= Seq::<Joint>::empty());
            assert(r@ =~= interactions_of(self.joints@.subrange(0, 0), i));
        }
        while k < self.joints.len()
            invariant
                k <= self.joints@.len(),
                r@ == interactions_of(self.joints@.subrange(0, k as int), i),
            decreases self.joints@.len() - k,
        {
            let j = self.joints[k];
            proof {
                let pre = self.joints@.subrange(0, k as int);
                let cur = self.joints@.subrange(0, k as int + 1);
                assert(cur.drop_last() =~= pre);
                assert(cur.last() == j);
            }
            if j.node1 == i || j.node2 == i {
                r.push((j.body1, j.body2));
            }
            k = k + 1;
        }
        proof {
            assert(self.joints@.subrange(0, self.joints@.len() as int) =~= self.joints@);
        }
        r
    }

    /// Unlink the body with joint-graph node index `i`: every joint touching
    /// its node is removed, other joints stay in order.
    pub fn remove_rigid_body(&mut self, i: usize)
        ensures
            final(self).joints@ == old(self).joints@.filter(keeps_joint(i)),
            !final(self).attached(i),
    {
        let mut kept: Vec<Joint> = Vec::new();
        let n = self.joints.len();
        let mut k: usize = 0;
        proof {
            reveal_with_fuel(Seq::<_>::filter, 1);
            assert(self.joints@.subrange(0, 0) =~= Seq::<Joint>::empty());
            assert(kept@ =~= self.joints@.subrange(0, 0).filter(keeps_joint(i)));
        }
        while k < n
            invariant
                n == self.joints@.len(),
                k <= n,
                kept@ == self.joints@.subrange(0, k as int).filter(keeps_joint(i)),
            decreases n - k,
        {
            let j = self.joints[k];
            proof {
                reveal_with_fuel(Seq::<_>::filter, 2);
                let pre = self.joints@.subrange(0, k as int);
                let cur = self.joints@.subrange(0, k as int + 1);
                assert(cur.drop_last() =~= pre);
                assert(cur.last() == j);
            }
            if !(j.node1 == i || j.node2 == i) {
                kept.push(j);
            }
            k = k + 1;
        }
        proof {
            assert(self.joints@.subrange(0, n as int) =~= self.joints@);
            let fin = self.joints@.filter(keeps_joint(i));
            self.joints@.filter_lemma(keeps_joint(i));
            assert(!JointSet { joints: kept }.attached(i)) by {
                assert forall|k2: int|
                    0 <= k2 < fin.len() implies !joint_touches(#[trigger] fin[k2], i) by {
                    assert(keeps_joint(i)(fin[k2]));
                }
                assert(kept@ == fin);
            }
        }
        self.joints = kept;
    }
}

} // verus!
