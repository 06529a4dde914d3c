use sync_arena::diffable::Diff;
use sync_arena::sync_arena::{Index, SyncArena};

/// (position, velocity)
type Body = ((i64, i64), (i64, i64));

fn world_with(objects: &[(u64, Body)]) -> SyncArena<Body> {
    let mut w = SyncArena::new();
    for (id, body) in objects {
        w.insert_with_known_sync_id(*body, *id);
    }
    w
}

fn lookup(w: &SyncArena<Body>, id: u64) -> Option<Body> {
    let mut h = Index::from_sync_id(id);
    w.get(&mut h).copied()
}

#[test]
fn scalar_diff_is_some_only_on_change() {
    assert_eq!(3u64.diff(&3), None);
    assert_eq!(3u64.diff(&4), Some(4));
    assert_eq!((-1i64).diff(&5), Some(5));
    assert_eq!(true.diff(&false), Some(false));
    let mut x = 9u32;
    x.apply(&Some(2));
    assert_eq!(x, 2);
    x.apply(&None);
    assert_eq!(x, 2);
}

#[test]
fn pair_diff_goes_field_by_field() {
    let a: Body = ((0, 0), (1, 1));
    let b: Body = ((5, 5), (1, 1));
    let d = a.diff(&b);
    assert_eq!(d, ((Some(5), Some(5)), (None, None)));
    assert_eq!(a.apply_new(&d), b);
    assert!(<Body as Diff>::identity() == ((0, 0), (0, 0)));
}

#[test]
fn index_diff_carries_only_the_sync_id() {
    let a = Index::from_raw_parts(1, 2, 10);
    let b = Index::from_raw_parts(3, 4, 11);
    let d = a.diff(&b);
    assert_eq!(d.sync_id, Some(11));
    let mut c = a;
    c.apply(&d);
    assert_eq!(c.sync_id(), 11);
    assert!(!c.is_synced());
    assert!(c.same(&b));
    assert_eq!(a.diff(&Index::from_raw_parts(7, 7, 10)).sync_id, None);
}

#[test]
fn round_trip_on_arenas() {
    let a = world_with(&[(1, ((0, 0), (0, 0))), (2, ((1, 1), (1, 1))), (3, ((2, 2), (2, 2)))]);
    let b = world_with(&[(2, ((1, 1), (9, 9))), (3, ((2, 2), (2, 2))), (4, ((4, 4), (4, 4)))]);
    let d = a.diff(&b);
    let mut c = a.clone();
    c.apply(&d);
    assert_eq!(c.len(), 3);
    for id in [2u64, 3, 4] {
        assert_eq!(lookup(&c, id), lookup(&b, id));
    }
    assert_eq!(lookup(&c, 1), None);
    assert!(c.diff(&b).is_empty());
}

#[test]
fn diff_of_a_world_with_itself_is_empty() {
    let a = world_with(&[(1, ((0, 0), (0, 0))), (2, ((1, 1), (1, 1)))]);
    let d = a.diff(&a);
    assert!(d.is_empty());
    assert!(d.altered.is_empty());
    assert!(d.removed.is_empty());
    let mut c = a.clone();
    c.apply(&d);
    assert_eq!(c.len(), 2);
    assert_eq!(lookup(&c, 1), lookup(&a, 1));
    assert_eq!(lookup(&c, 2), lookup(&a, 2));
}

#[test]
fn creation_scenario() {
    let w0: SyncArena<Body> = SyncArena::new();
    let mut w1 = w0.clone();
    w1.insert_with_known_sync_id(((0, 0), (0, 0)), 42);
    let d = w0.diff(&w1);
    assert!(d.removed.is_empty());
    assert_eq!(d.altered.len(), 1);
    assert_eq!(d.altered[0].0, 42);
    assert_eq!(d.altered[0].1, <Body as Diff>::identity().diff(&((0, 0), (0, 0))));
    let mut fresh: SyncArena<Body> = SyncArena::new();
    fresh.apply(&d);
    assert_eq!(fresh.len(), 1);
    assert_eq!(lookup(&fresh, 42), Some(((0, 0), (0, 0))));
}

#[test]
fn update_scenario() {
    let w1 = world_with(&[(42, ((0, 0), (3, 4)))]);
    let mut w2 = w1.clone();
    let mut h = Index::from_sync_id(42);
    if let Some(body) = w2.get_mut(&mut h) {
        body.0 = (5, 5);
    }
    let d = w1.diff(&w2);
    assert!(d.removed.is_empty());
    assert_eq!(d.altered.len(), 1);
    assert_eq!(d.altered[0].0, 42);
    assert_eq!(d.altered[0].1, ((Some(5), Some(5)), (None, None)));
    let mut copy = w1.clone();
    copy.apply(&d);
    assert_eq!(lookup(&copy, 42), Some(((5, 5), (3, 4))));
}

#[test]
fn removal_scenario() {
    let w2 = world_with(&[(42, ((5, 5), (0, 0)))]);
    let mut w3 = w2.clone();
    let h = Index::from_sync_id(42);
    let mut resolved = h;
    assert!(w3.contains(&mut resolved));
    assert!(w3.remove(resolved).is_some());
    let d = w2.diff(&w3);
    assert!(d.altered.is_empty());
    assert_eq!(d.removed, vec![42]);
    let mut copy = w2.clone();
    copy.apply(&d);
    assert!(copy.is_empty());
    let mut again = Index::from_sync_id(42);
    assert!(!copy.contains(&mut again));
}

#[test]
fn ownership_filter_scenario() {
    // object 7 is owned by peer A; peer B changes its mirror of it
    let before = world_with(&[(7, ((0, 0), (0, 0)))]);
    let mut after = before.clone();
    let mut h = Index::from_sync_id(7);
    if let Some(body) = after.get_mut(&mut h) {
        body.0 = (1, 1);
    }
    let owned_by_b: Vec<u64> = vec![];
    let d = before.diff_owned(&after, &owned_by_b);
    assert!(d.altered.iter().all(|(id, _)| *id != 7));
    assert!(d.removed.is_empty());
    // peer A owns it and sends the change
    let owned_by_a: Vec<u64> = vec![7];
    let d = before.diff_owned(&after, &owned_by_a);
    assert_eq!(d.altered.len(), 1);
    assert_eq!(d.altered[0].0, 7);
}

#[test]
fn ownership_filter_keeps_new_objects_and_owned_removals() {
    let before = world_with(&[(1, ((0, 0), (0, 0))), (2, ((0, 0), (0, 0)))]);
    let mut after = world_with(&[(3, ((3, 3), (0, 0)))]);
    after.insert_with_known_sync_id(((9, 9), (0, 0)), 4);
    let owned: Vec<u64> = vec![1];
    let d = before.diff_owned(&after, &owned);
    assert_eq!(d.removed, vec![1]);
    let mut ids: Vec<u64> = d.altered.iter().map(|(id, _)| *id).collect();
    ids.sort();
    assert_eq!(ids, vec![3, 4]);
}

#[test]
fn apply_tolerates_removal_of_an_absent_object() {
    let a = world_with(&[(1, ((0, 0), (0, 0)))]);
    let b: SyncArena<Body> = SyncArena::new();
    let d = a.diff(&b);
    let mut c: SyncArena<Body> = SyncArena::new();
    c.apply(&d);
    assert!(c.is_empty());
}

#[test]
fn identity_arena_is_empty() {
    let w: SyncArena<Body> = SyncArena::identity();
    assert!(w.is_empty());
}
