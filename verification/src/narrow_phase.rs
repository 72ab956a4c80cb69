//! The narrow-phase collaborator as this core consumes it: contact pairs
//! between colliders, each carrying manifolds whose solver-contact lists
//! decide whether the contact is live. Only a live contact propagates
//! wakefulness.

use vstd::prelude::*;
use crate::collider::ColliderHandle;
use crate::collider::ColliderSet;

verus! {

/// One contact manifold; only its solver contacts matter to this core.
pub struct ContactManifold {
    /// Contact points handed to the solver; a manifold without any cannot
    /// wake a body.
    pub solver_contacts: Vec<i64>,
}

/// A contact pair between two colliders.
pub struct ContactPair {
    /// The first collider of the pair.
    pub collider1: ColliderHandle,
    /// The second collider of the pair.
    pub collider2: ColliderHandle,
    /// The manifolds of this pair.
    pub manifolds: Vec<ContactManifold>,
}

/// A pair propagates wakefulness only when one of its manifolds has at least
/// one live solver contact.
pub open spec fn pair_live(p: ContactPair) -> bool {
    exists|m: int| 0 <= m < p.manifolds@.len() && (#[trigger] p.manifolds@[m]).solver_contacts@.len() > 0
}

impl ContactPair {
    /// Does this pair carry at least one live solver contact?
    pub fn has_live_contact(&self) -> (r: bool)
        ensures
            r == pair_live(*self),
    {
        let mut m: usize = 0;
        while m < self.manifolds.len()
            invariant
                m <= self.manifolds@.len(),
                forall|k: int|
                    0 <= k < m ==> (#[trigger] self.manifolds@[k]).solver_contacts@.len() == 0,
            decreases self.manifolds@.len() - m,
        {
            if self.manifolds[m].solver_contacts.len() > 0 {
                return true;
            }
            m = m + 1;
        }
        false
    }

    /// Does this pair involve the collider `ch`?
    pub fn involves(&self, ch: ColliderHandle) -> (r: bool)
        ensures
            r == (self.collider1 == ch || self.collider2 == ch),
    {
        self.collider1 == ch || self.collider2 == ch
    }
}

/// The contact pairs the narrow phase produced for the current step.
pub struct NarrowPhase {
    /// All contact pairs of this step.
    pub pairs: Vec<ContactPair>,
}

/// Every pair of the narrow phase talks about colliders that are live in the
/// collider set.
pub open spec fn pairs_coherent(np: NarrowPhase, colliders: ColliderSet) -> bool {
    forall|k: int|
        0 <= k < np.pairs@.len() ==> colliders.live((#[trigger] np.pairs@[k]).collider1)
            && colliders.live(np.pairs@[k].collider2)
}

impl NarrowPhase {
    /// An empty narrow phase: no contacts at all.
    pub fn new() -> (np: NarrowPhase)
        ensures
            np.pairs@.len() == 0,
    {
        NarrowPhase { pairs: Vec::new() }
    }

    /// Record a contact pair.
    pub fn register_pair(&mut self, pair: ContactPair)
        ensures
            final(self).pairs@ == old(self).pairs@.push(pair),
    {
        self.pairs.push(pair);
    }

    /// The indices of every contact pair involving the collider `ch`.
    pub fn contacts_with(&self, ch: ColliderHandle) -> (r: Vec<usize>)
        ensures
            forall|j: int|
                0 <= j < r@.len() ==> (#[trigger] r@[j]) < self.pairs@.len() && (self.pairs@[
                    r@[j] as int
                ].collider1 == ch || self.pairs@[r@[j] as int].collider2 == ch),
            forall|k: int|
                0 <= k < self.pairs@.len() && ((#[trigger] self.pairs@[k]).collider1 == ch
                    || self.pairs@[k].collider2 == ch) ==> r@.contains(k as usize),
    {
        let mut r: Vec<usize> = Vec::new();
        let mut k: usize = 0;
        while k < self.pairs.len()
            invariant
                k <= self.pairs@.len(),
                forall|j: int|
                    0 <= j < r@.len() ==> (#[trigger] r@[j]) < self.pairs@.len() && (self.pairs@[
                        r@[j] as int
                    ].collider1 == ch || self.pairs@[r@[j] as int].collider2 == ch),
                forall|k2: int|
                    0 <= k2 < k && ((#[trigger] self.pairs@[k2]).collider1 == ch || self.pairs@[
                        k2
                    ].collider2 == ch) ==> r@.contains(k2 as usize),
            decreases self.pairs@.len() - k,
        {
            if self.pairs[k].involves(ch) {
                let ghost r0 = r@;
                r.push(k);
                proof {
                    assert forall|k2: int|
                        0 <= k2 < k + 1 && ((#[trigger] self.pairs@[k2]).collider1 == ch
                            || self.pairs@[k2].collider2 == ch) implies r@.contains(
                        k2 as usize,
                    ) by {
                        if k2 == k {
                            assert(r@[r@.len() - 1] == k2 as usize);
                        } else {
                            assert(r0.contains(k2 as usize));
                            let j = choose|j: int| 0 <= j < r0.len() && r0[j] == k2 as usize;
                            assert(r@[j] == k2 as usize);
                        }
                    }
                }
            }
            k = k + 1;
        }
        r
    }
}

/// Of a contact pair's two colliders, the one that is not `x`.
pub fn select_other_collider(pair: (ColliderHandle, ColliderHandle), x: ColliderHandle) -> (r:
    ColliderHandle)
    ensures
        r == (if pair.0 == x {
            pair.1
        } else {
            pair.0
        }),
{
    if pair.0 == x {
        pair.1
    } else {
        pair.0
    }
}

} // verus!
