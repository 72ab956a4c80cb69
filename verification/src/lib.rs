//! Rigid-body population management for a physics pipeline: a
//! generation-indexed arena of bodies with stable handles, active-set
//! bookkeeping for dynamic and kinematic bodies, a per-step maintenance
//! pass reconciling change flags, and an activation/island traversal that
//! propagates wakefulness through the contact and joint graphs and
//! partitions the awake dynamic bodies into solver islands.

pub mod arena;
pub mod body;
pub mod collider;
pub mod joint;
pub mod narrow_phase;
pub mod rigid_body_set;

pub use crate::body::BodyStatus;
pub use crate::body::RigidBody;
pub use crate::body::RigidBodyActivation;
pub use crate::body::RigidBodyChanges;
pub use crate::collider::Collider;
pub use crate::collider::ColliderHandle;
pub use crate::collider::ColliderSet;
pub use crate::joint::Joint;
pub use crate::joint::JointSet;
pub use crate::narrow_phase::ContactManifold;
pub use crate::narrow_phase::ContactPair;
pub use crate::narrow_phase::NarrowPhase;
pub use crate::rigid_body_set::BodyPair;
pub use crate::rigid_body_set::RigidBodyHandle;
pub use crate::rigid_body_set::RigidBodySet;
