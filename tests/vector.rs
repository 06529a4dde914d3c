use sync_arena::diffable::Diff;
use sync_arena::sync_vector::{SyncIndex, SyncVector};

#[test]
fn push_get_remove_keep_order() {
    let mut v = SyncVector::new();
    let a = v.push(1u64);
    let b = v.push(2u64);
    let c = v.push(3u64);
    assert_eq!(v.len(), 3);
    assert_eq!(v.remove(a), Some(1));
    assert_eq!(v.remove(a), None);
    assert_eq!(v.len(), 2);
    assert_eq!(v.get(b), Some(&2));
    assert_eq!(v.get(c), Some(&3));
    if let Some(x) = v.get_mut(c) {
        *x = 30;
    }
    assert_eq!(v.get(c), Some(&30));
}

#[test]
fn known_sync_id_is_found() {
    let mut v = SyncVector::new();
    v.insert_with_known_sync_id(5u64, SyncIndex::from_id(77));
    assert_eq!(v.get(SyncIndex::from_id(77)), Some(&5));
    assert_eq!(v.get(SyncIndex::from_id(78)), None);
}

#[test]
fn vector_round_trip() {
    let mut a = SyncVector::new();
    a.insert_with_known_sync_id(1u64, SyncIndex::from_id(1));
    a.insert_with_known_sync_id(2u64, SyncIndex::from_id(2));
    let mut b = SyncVector::new();
    b.insert_with_known_sync_id(20u64, SyncIndex::from_id(2));
    b.insert_with_known_sync_id(3u64, SyncIndex::from_id(3));
    let d = a.diff(&b);
    assert_eq!(d.removed, vec![1]);
    assert_eq!(d.altered.len(), 2);
    let mut c = a.clone();
    c.apply(&d);
    assert_eq!(c.get(SyncIndex::from_id(1)), None);
    assert_eq!(c.get(SyncIndex::from_id(2)), Some(&20));
    assert_eq!(c.get(SyncIndex::from_id(3)), Some(&3));
    assert!(c.diff(&b).is_empty());
    assert!(a.diff(&a).is_empty());
}

#[test]
fn sync_index_new_is_random() {
    let a = SyncIndex::new();
    let b = SyncIndex::new();
    assert_ne!(a.id(), b.id());
    assert_eq!(SyncIndex::from_id(4).id(), 4);
    let _ = 0u64.diff(&0);
}
