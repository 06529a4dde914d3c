use sync_arena::sync_arena::{ApplyError, Index, SyncArenaDiff};
use sync_arena::world::{Ownership, SyncWorld, SyncWorldDiff};

/// (position, velocity)
type Body = ((i64, i64), (i64, i64));
/// (body it belongs to, radius)
type Shape = (Index, i64);
/// (the two bodies it joins)
type Constraint = (Index, Index);

/// (gravity along x, along y)
type Gravity = (i64, i64);

type World = SyncWorld<Body, Shape, Constraint, Gravity>;

fn no_ownership() -> Ownership {
    Ownership { bodies: vec![], shapes: vec![], constraints: vec![] }
}

#[test]
fn new_objects_reach_a_fresh_peer_with_their_references() {
    let before: World = SyncWorld::new();
    let mut after: World = SyncWorld::new();
    let body = after.bodies.insert_with_known_sync_id(((1, 2), (0, 0)), 10);
    after.shapes.insert_with_known_sync_id((body, 3), 20);
    let d = before.diff(&after, &no_ownership());
    assert!(!d.is_empty());
    let mut peer: World = SyncWorld::new();
    peer.apply(&d);
    let mut shape_handle = Index::from_sync_id(20);
    let shape = *peer.shapes.get(&mut shape_handle).unwrap();
    assert_eq!(shape.1, 3);
    let mut parent = shape.0;
    assert_eq!(parent.sync_id(), 10);
    assert_eq!(peer.bodies.get(&mut parent), Some(&((1, 2), (0, 0))));
}

#[test]
fn only_owned_objects_send_changes_and_removals() {
    let mut base: World = SyncWorld::new();
    base.bodies.insert_with_known_sync_id(((0, 0), (0, 0)), 7);
    base.bodies.insert_with_known_sync_id(((0, 0), (0, 0)), 8);
    let mut changed = base.clone();
    let mut h7 = Index::from_sync_id(7);
    if let Some(b) = changed.bodies.get_mut(&mut h7) {
        b.0 = (5, 5);
    }
    let mut h8 = Index::from_sync_id(8);
    assert!(changed.bodies.contains(&mut h8));
    changed.bodies.remove(h8);
    // peer B owns neither body: nothing goes out
    let d = base.diff(&changed, &no_ownership());
    assert!(d.is_empty());
    // peer A owns both
    let owned = Ownership { bodies: vec![7, 8], shapes: vec![], constraints: vec![] };
    let d = base.diff(&changed, &owned);
    assert_eq!(d.bodies.altered.len(), 1);
    assert_eq!(d.bodies.altered[0].0, 7);
    assert_eq!(d.bodies.removed, vec![8]);
    let mut mirror = base.clone();
    mirror.apply(&d);
    assert_eq!(mirror.bodies.len(), 1);
    let mut h = Index::from_sync_id(7);
    assert_eq!(mirror.bodies.get(&mut h), Some(&((5, 5), (0, 0))));
}

#[test]
fn removals_come_before_creations() {
    let mut base: World = SyncWorld::new();
    let a = base.bodies.insert_with_known_sync_id(((0, 0), (0, 0)), 1);
    let b = base.bodies.insert_with_known_sync_id(((1, 1), (0, 0)), 2);
    base.constraints.insert_with_known_sync_id((a, b), 3);
    let mut next = base.clone();
    let mut c = Index::from_sync_id(3);
    assert!(next.constraints.contains(&mut c));
    next.constraints.remove(c);
    let mut hb = Index::from_sync_id(2);
    assert!(next.bodies.contains(&mut hb));
    next.bodies.remove(hb);
    let owned = Ownership { bodies: vec![1, 2], shapes: vec![], constraints: vec![3] };
    let d = base.diff(&next, &owned);
    let mut mirror = base.clone();
    mirror.apply(&d);
    assert_eq!(mirror.bodies.len(), 1);
    assert!(mirror.constraints.is_empty());
}

#[test]
fn checked_world_apply_refuses_a_body_altered_twice() {
    let mut w: World = SyncWorld::new();
    let d: SyncWorldDiff<Body, Shape, Constraint, Gravity> = SyncWorldDiff {
        bodies: SyncArenaDiff { altered: vec![(1, ((Some(1), None), (None, None))), (1, ((None, None), (None, None)))], removed: vec![] },
        shapes: SyncArenaDiff { altered: vec![], removed: vec![] },
        constraints: SyncArenaDiff { altered: vec![], removed: vec![] },
        global: None,
    };
    assert_eq!(w.apply_checked(&d), Err(ApplyError::AlteredTwice));
    assert!(w.bodies.is_empty());
}

#[test]
fn global_state_goes_with_the_world_delta() {
    let base: World = SyncWorld::new();
    let mut next = base.clone();
    next.global = (0, -10);
    let d = base.diff(&next, &no_ownership());
    assert_eq!(d.global, Some((None, Some(-10))));
    assert!(!d.is_empty());
    let mut mirror = base.clone();
    mirror.apply(&d);
    assert_eq!(mirror.global, (0, -10));
    assert!(next.diff(&mirror, &no_ownership()).is_empty());
}
