use rigid_body_set::BodyStatus;
use rigid_body_set::Collider;
use rigid_body_set::ColliderSet;
use rigid_body_set::ContactManifold;
use rigid_body_set::ContactPair;
use rigid_body_set::Joint;
use rigid_body_set::JointSet;
use rigid_body_set::NarrowPhase;
use rigid_body_set::RigidBody;
use rigid_body_set::RigidBodySet;
use rigid_body_set::RigidBodyHandle;
use rigid_body_set::BodyPair;

fn dynamic_body() -> RigidBody {
    RigidBody::new(BodyStatus::Dynamic)
}

#[test]
fn removed_handle_never_resolves_again() {
    let mut set = RigidBodySet::new();
    let mut colliders = ColliderSet::new();
    let mut joints = JointSet::new();
    let a = set.insert(dynamic_body());
    assert!(set.contains(a));
    let removed = set.remove(a, &mut colliders, &mut joints);
    assert!(removed.is_some());
    assert!(!set.contains(a));
    assert!(set.get(a).is_none());
    // Reusing the slot bumps the generation: the new handle never aliases the
    // removed one, and the removed one still resolves to nothing.
    let b = set.insert(dynamic_body());
    assert!(a != b);
    assert_eq!(a.into_raw_parts().0, b.into_raw_parts().0);
    assert!(a.into_raw_parts().1 < b.into_raw_parts().1);
    assert!(set.get(a).is_none());
    assert!(set.get(b).is_some());
}

#[test]
fn stale_remove_returns_none() {
    let mut set = RigidBodySet::new();
    let mut colliders = ColliderSet::new();
    let mut joints = JointSet::new();
    let a = set.insert(dynamic_body());
    assert!(set.remove(a, &mut colliders, &mut joints).is_some());
    assert!(set.remove(a, &mut colliders, &mut joints).is_none());
    assert!(set.remove(RigidBodyHandle::invalid(), &mut colliders, &mut joints).is_none());
}

#[test]
fn active_set_ids_match_positions() {
    let mut set = RigidBodySet::new();
    let mut colliders = ColliderSet::new();
    let mut joints = JointSet::new();
    let a = set.insert(dynamic_body());
    let b = set.insert(dynamic_body());
    let c = set.insert(dynamic_body());
    set.maintain(&mut colliders);
    set.wake_up(b, true);
    let _ = set.remove(a, &mut colliders, &mut joints);
    let active = set.iter_active_dynamic();
    assert_eq!(active.len(), 2);
    for (i, h) in active.iter().enumerate() {
        assert_eq!(set.get(*h).unwrap().active_set_id, i);
    }
    assert!(active.contains(&b));
    assert!(active.contains(&c));
}

#[test]
fn kinematic_bodies_enter_their_sequence_on_insert() {
    let mut set = RigidBodySet::new();
    let k = set.insert(RigidBody::new(BodyStatus::Kinematic));
    let s = set.insert(RigidBody::new(BodyStatus::Static));
    let kin = set.iter_active_kinematic();
    assert_eq!(kin.len(), 1);
    assert_eq!(kin[0], k);
    assert_eq!(set.get(k).unwrap().active_set_id, 0);
    assert!(set.iter_active_dynamic().is_empty());
    assert!(set.get(s).unwrap().active_set_id == 0);
}

#[test]
fn maintain_is_idempotent_on_membership() {
    let mut set = RigidBodySet::new();
    let mut colliders = ColliderSet::new();
    let _a = set.insert(dynamic_body());
    let _k = set.insert(RigidBody::new(BodyStatus::Kinematic));
    set.maintain(&mut colliders);
    let dyn_before = set.iter_active_dynamic();
    let kin_before = set.iter_active_kinematic();
    set.maintain(&mut colliders);
    assert_eq!(set.iter_active_dynamic(), dyn_before);
    assert_eq!(set.iter_active_kinematic(), kin_before);
}

#[test]
fn removal_cascades_to_colliders_and_joints() {
    let mut set = RigidBodySet::new();
    let mut colliders = ColliderSet::new();
    let mut joints = JointSet::new();
    let a = set.insert(dynamic_body());
    let b = set.insert(dynamic_body());
    let c1 = colliders.insert(Collider::new(a), &mut set);
    let c2 = colliders.insert(Collider::new(a), &mut set);
    let cb = colliders.insert(Collider::new(b), &mut set);
    set.get_mut(a).unwrap().joint_graph_index = 0;
    set.get_mut(b).unwrap().joint_graph_index = 1;
    joints.insert(Joint { body1: a, body2: b, node1: 0, node2: 1 });
    let removed = set.remove(a, &mut colliders, &mut joints);
    assert!(removed.is_some());
    assert!(!colliders.contains(c1));
    assert!(!colliders.contains(c2));
    assert!(colliders.contains(cb));
    assert!(joints.interactions_with(0).is_empty());
    assert!(joints.interactions_with(1).is_empty());
    assert!(set.contains(b));
}

#[test]
fn three_isolated_bodies_make_three_islands() {
    let mut set = RigidBodySet::new();
    let mut colliders = ColliderSet::new();
    let joints = JointSet::new();
    let narrow = NarrowPhase::new();
    let a = set.insert(dynamic_body());
    let b = set.insert(dynamic_body());
    let c = set.insert(dynamic_body());
    set.maintain(&mut colliders);
    // A fresh body starts with energy 4 above its threshold 1, so one halving
    // step leaves every body awake.
    set.update_active_set_with_contacts(&colliders, &narrow, &joints, 1);
    assert_eq!(set.num_islands(), 3);
    let all: Vec<RigidBodyHandle> = set.iter_active_dynamic();
    assert_eq!(all.len(), 3);
    assert!(all.contains(&a) && all.contains(&b) && all.contains(&c));
    for island in 0..3 {
        assert_eq!(set.active_island(island).len(), 1);
    }
}

#[test]
fn min_island_size_groups_isolated_bodies() {
    let mut set = RigidBodySet::new();
    let mut colliders = ColliderSet::new();
    let joints = JointSet::new();
    let narrow = NarrowPhase::new();
    for _ in 0..3 {
        set.insert(dynamic_body());
    }
    set.maintain(&mut colliders);
    set.update_active_set_with_contacts(&colliders, &narrow, &joints, 2);
    // Every island except possibly the last holds at least two bodies.
    assert_eq!(set.num_islands(), 2);
    assert_eq!(set.active_island(0).len(), 2);
    assert_eq!(set.active_island(1).len(), 1);
}

#[test]
fn contacting_bodies_share_an_island() {
    let mut set = RigidBodySet::new();
    let mut colliders = ColliderSet::new();
    let joints = JointSet::new();
    let mut narrow = NarrowPhase::new();
    let a = set.insert(dynamic_body());
    let b = set.insert(dynamic_body());
    let ca = colliders.insert(Collider::new(a), &mut set);
    let cb = colliders.insert(Collider::new(b), &mut set);
    narrow.register_pair(ContactPair {
        collider1: ca,
        collider2: cb,
        manifolds: vec![ContactManifold { solver_contacts: vec![7] }],
    });
    set.maintain(&mut colliders);
    set.update_active_set_with_contacts(&colliders, &narrow, &joints, 2);
    assert_eq!(set.num_islands(), 1);
    let island = set.active_island(0);
    assert_eq!(island.len(), 2);
    assert!(island.contains(&a) && island.contains(&b));
    assert_eq!(set.get(a).unwrap().active_island_id, set.get(b).unwrap().active_island_id);
}

#[test]
fn manifold_without_solver_contacts_propagates_nothing() {
    let mut set = RigidBodySet::new();
    let mut colliders = ColliderSet::new();
    let joints = JointSet::new();
    let mut narrow = NarrowPhase::new();
    let a = set.insert(dynamic_body());
    let b = set.insert(dynamic_body());
    let ca = colliders.insert(Collider::new(a), &mut set);
    let cb = colliders.insert(Collider::new(b), &mut set);
    narrow.register_pair(ContactPair {
        collider1: ca,
        collider2: cb,
        manifolds: vec![ContactManifold { solver_contacts: vec![] }],
    });
    set.maintain(&mut colliders);
    set.update_active_set_with_contacts(&colliders, &narrow, &joints, 2);
    // Both awake on their own energy, but the dead manifold links nothing:
    // the bodies land in one table of two islands only because of the
    // minimum-size grouping of isolated bodies; with a live manifold the
    // result would be a single island (see above). Here each body is alone
    // reachable, so the first island holds both only by size grouping.
    assert_eq!(set.num_islands(), 1);
    assert_eq!(set.active_island(0).len(), 2);
}

#[test]
fn joint_edges_share_an_island() {
    let mut set = RigidBodySet::new();
    let mut colliders = ColliderSet::new();
    let mut joints = JointSet::new();
    let narrow = NarrowPhase::new();
    let a = set.insert(dynamic_body());
    let b = set.insert(dynamic_body());
    set.get_mut(a).unwrap().joint_graph_index = 0;
    set.get_mut(b).unwrap().joint_graph_index = 1;
    joints.insert(Joint { body1: a, body2: b, node1: 0, node2: 1 });
    set.maintain(&mut colliders);
    set.update_active_set_with_contacts(&colliders, &narrow, &joints, 2);
    assert_eq!(set.num_islands(), 1);
    assert_eq!(set.active_island(0).len(), 2);
    assert_eq!(set.get(a).unwrap().active_island_id, set.get(b).unwrap().active_island_id);
}

#[test]
fn empty_active_set_yields_one_empty_island() {
    let mut set = RigidBodySet::new();
    let colliders = ColliderSet::new();
    let joints = JointSet::new();
    let narrow = NarrowPhase::new();
    set.update_active_set_with_contacts(&colliders, &narrow, &joints, 1);
    assert_eq!(set.num_islands(), 1);
    assert!(set.active_island(0).is_empty());
    assert_eq!(set.active_island_range(0), (0, 0));
}

#[test]
fn unreached_bodies_fall_asleep_and_wake_up_again() {
    let mut set = RigidBodySet::new();
    let mut colliders = ColliderSet::new();
    let joints = JointSet::new();
    let narrow = NarrowPhase::new();
    let a = set.insert(dynamic_body());
    set.maintain(&mut colliders);
    // First step: energy 4 halves to 2, still above the threshold of 1.
    set.update_active_set_with_contacts(&colliders, &narrow, &joints, 1);
    assert!(!set.get(a).unwrap().activation.sleeping);
    assert_eq!(set.iter_active_dynamic().len(), 1);
    // Second step: energy 2 halves to 1, not above the threshold: the body
    // was never reached by any contact, so it actually falls asleep.
    set.update_active_set_with_contacts(&colliders, &narrow, &joints, 1);
    assert!(set.get(a).unwrap().activation.sleeping);
    assert_eq!(set.get(a).unwrap().activation.energy, 0);
    assert!(set.iter_active_dynamic().is_empty());
    // A strong wake-up puts it back into the active dynamic sequence.
    set.wake_up(a, true);
    assert!(!set.get(a).unwrap().activation.sleeping);
    assert_eq!(set.iter_active_dynamic(), vec![a]);
    assert_eq!(set.get(a).unwrap().active_set_id, 0);
}

#[test]
fn moving_kinematic_body_wakes_its_contacts() {
    let mut set = RigidBodySet::new();
    let mut colliders = ColliderSet::new();
    let joints = JointSet::new();
    let mut narrow = NarrowPhase::new();
    let d = set.insert(dynamic_body());
    let k = set.insert(RigidBody::new(BodyStatus::Kinematic));
    let cd = colliders.insert(Collider::new(d), &mut set);
    let ck = colliders.insert(Collider::new(k), &mut set);
    narrow.register_pair(ContactPair {
        collider1: ck,
        collider2: cd,
        manifolds: vec![ContactManifold { solver_contacts: vec![0] }],
    });
    set.maintain(&mut colliders);
    // With the kinematic body motionless, the dynamic body falls asleep on
    // its own energy decay.
    set.update_active_set_with_contacts(&colliders, &narrow, &joints, 1);
    set.update_active_set_with_contacts(&colliders, &narrow, &joints, 1);
    assert!(set.get(d).unwrap().activation.sleeping);
    // Once the kinematic body moves, it re-wakes the sleeper through the
    // contact.
    set.get_mut(k).unwrap().speed = 3;
    set.update_active_set_with_contacts(&colliders, &narrow, &joints, 1);
    assert!(!set.get(d).unwrap().activation.sleeping);
    assert_eq!(set.iter_active_dynamic(), vec![d]);
}

#[test]
fn maintain_pushes_positions_to_colliders() {
    let mut set = RigidBodySet::new();
    let mut colliders = ColliderSet::new();
    let a = set.insert(dynamic_body());
    let ca = colliders.insert(Collider::new(a), &mut set);
    {
        let body = set.get_mut(a).unwrap();
        body.position = 42;
        body.changes.position = true;
    }
    set.maintain(&mut colliders);
    assert_eq!(colliders.get(ca).unwrap().position, 42);
    // A static body's change is recorded for downstream consumers too.
    let s = set.insert(RigidBody::new(BodyStatus::Static));
    let cs = colliders.insert(Collider::new(s), &mut set);
    {
        let body = set.get_mut(s).unwrap();
        body.position = -7;
        body.changes.position = true;
    }
    set.maintain(&mut colliders);
    assert_eq!(colliders.get(cs).unwrap().position, -7);
}

#[test]
fn iteration_orders_and_raw_parts_round_trip() {
    let mut set = RigidBodySet::new();
    let a = set.insert(dynamic_body());
    let b = set.insert(dynamic_body());
    let all = set.iter();
    assert_eq!(all, vec![a, b]);
    let (i, g) = b.into_raw_parts();
    assert_eq!(RigidBodyHandle::from_raw_parts(i, g), b);
    let pair = BodyPair::new(a, b);
    assert_eq!(pair.body1, a);
    assert_eq!(pair.body2, b);
    // Mutable iteration coalesces change tracking into the modified-all flag.
    let all_mut = set.iter_mut();
    assert_eq!(all_mut.len(), 2);
}

#[test]
fn unknown_generation_access_can_alias_after_reuse() {
    let mut set = RigidBodySet::new();
    let mut colliders = ColliderSet::new();
    let mut joints = JointSet::new();
    let a = set.insert(dynamic_body());
    let slot = a.into_raw_parts().0;
    let (_, found) = set.get_unknown_gen(slot).unwrap();
    assert_eq!(found, a);
    let _ = set.remove(a, &mut colliders, &mut joints);
    assert!(set.get_unknown_gen(slot).is_none());
    // After the slot is recycled, slot-based access yields the new entity:
    // the documented hazard of the unknown-generation path.
    let b = set.insert(dynamic_body());
    let (_, found2) = set.get_unknown_gen(slot).unwrap();
    assert_eq!(found2, b);
    assert!(found2 != a);
    let (body, found3) = set.get_unknown_gen_mut(slot).unwrap();
    body.speed = 9;
    assert_eq!(found3, b);
    assert_eq!(set.get(b).unwrap().speed, 9);
}

#[test]
fn get_mut_tracks_modifications_once() {
    let mut set = RigidBodySet::new();
    let mut colliders = ColliderSet::new();
    let a = set.insert(dynamic_body());
    set.maintain(&mut colliders);
    {
        let body = set.get_mut(a).unwrap();
        assert!(body.changes.modified);
        body.speed = 5;
    }
    {
        // A second hand-out finds the body already flagged.
        let body = set.get_mut(a).unwrap();
        assert!(body.changes.modified);
    }
    set.maintain(&mut colliders);
    assert!(!set.get(a).unwrap().changes.modified);
    assert!(set.get(RigidBodyHandle::invalid()).is_none());
    assert_eq!(set.len(), 1);
}
