use sync_arena::diffable::Diff;
use sync_arena::sync_arena::{ApplyError, BuildError, Index, SyncArena, SyncArenaDiff, DEFAULT_CAPACITY};

#[test]
fn new_arena_is_empty() {
    let arena: SyncArena<u64> = SyncArena::new();
    assert_eq!(arena.len(), 0);
    assert!(arena.is_empty());
    assert_eq!(arena.capacity(), DEFAULT_CAPACITY);
    assert_eq!(arena.generation(), 0);
}

#[test]
fn with_capacity_zero_gives_one_slot() {
    let arena: SyncArena<u64> = SyncArena::with_capacity(0);
    assert_eq!(arena.capacity(), 1);
}

#[test]
fn insert_then_get() {
    let mut arena = SyncArena::new();
    let mut h = arena.insert(123u64);
    assert_eq!(arena.len(), 1);
    assert_eq!(arena.get(&mut h), Some(&123));
    assert!(arena.contains(&mut h));
}

#[test]
fn insert_grows_by_doubling_when_full() {
    let mut arena = SyncArena::with_capacity(2);
    let mut a = arena.insert(1u64);
    let mut b = arena.insert(2u64);
    let mut c = arena.insert(3u64);
    assert_eq!(arena.capacity(), 4);
    assert_eq!(arena.len(), 3);
    assert_eq!(arena.get(&mut a), Some(&1));
    assert_eq!(arena.get(&mut b), Some(&2));
    assert_eq!(arena.get(&mut c), Some(&3));
}

#[test]
fn try_insert_without_a_free_slot_gives_the_value_back() {
    let mut arena = SyncArena::with_capacity(1);
    assert!(arena.try_insert(10u64).is_ok());
    match arena.try_insert(11u64) {
        Ok(_) => panic!("no slot was free"),
        Err(v) => assert_eq!(v, 11),
    }
    assert_eq!(arena.len(), 1);
    assert_eq!(arena.capacity(), 1);
}

#[test]
fn try_insert_with_gets_its_own_handle() {
    let mut arena = SyncArena::with_capacity(2);
    let h = match arena.try_insert_with(|i: Index| i.sync_id()) {
        Ok(h) => h,
        Err(_) => panic!("a slot was free"),
    };
    let mut lookup = h;
    assert_eq!(arena.get(&mut lookup), Some(&h.sync_id()));
}

#[test]
fn insert_with_grows() {
    let mut arena = SyncArena::with_capacity(1);
    arena.insert(0u64);
    let mut h = arena.insert_with(|i: Index| i.into_raw_parts().0 as u64);
    assert_eq!(arena.get(&mut h), Some(&1));
    assert_eq!(arena.capacity(), 2);
}

#[test]
fn remove_returns_value_then_none() {
    let mut arena = SyncArena::new();
    let h = arena.insert(5u64);
    assert_eq!(arena.remove(h), Some(5));
    assert_eq!(arena.remove(h), None);
    assert_eq!(arena.len(), 0);
    // the free list is intact: the arena fills up to its capacity again
    let mut handles = Vec::new();
    for v in 0..DEFAULT_CAPACITY as u64 {
        handles.push(arena.insert(v));
    }
    assert_eq!(arena.capacity(), DEFAULT_CAPACITY);
    for (v, h) in handles.iter_mut().enumerate() {
        assert_eq!(arena.get(h), Some(&(v as u64)));
    }
}

#[test]
fn generation_rises_on_each_removal_only() {
    let mut arena = SyncArena::new();
    let a = arena.insert(1u64);
    let b = arena.insert(2u64);
    assert_eq!(arena.generation(), 0);
    arena.remove(a);
    assert_eq!(arena.generation(), 1);
    arena.remove(a);
    assert_eq!(arena.generation(), 1);
    arena.insert(3u64);
    assert_eq!(arena.generation(), 1);
    arena.remove(b);
    assert_eq!(arena.generation(), 2);
}

#[test]
fn stale_handle_does_not_reach_the_new_object_in_its_slot() {
    let mut arena = SyncArena::with_capacity(1);
    let mut old = arena.insert(1u64);
    arena.remove(old);
    let mut new = arena.insert(2u64);
    assert_eq!(old.into_raw_parts().0, new.into_raw_parts().0);
    assert_eq!(arena.get(&mut old), None);
    assert_eq!(arena.get(&mut new), Some(&2));
}

#[test]
fn out_of_range_handle_is_none() {
    let mut arena: SyncArena<u64> = SyncArena::new();
    let mut h = Index::from_raw_parts(100, 0, 1);
    assert_eq!(arena.get(&mut h), None);
    assert_eq!(arena.remove(h), None);
}

#[test]
fn network_handle_resolves_by_sync_id() {
    let mut arena = SyncArena::new();
    arena.insert(1u64);
    arena.insert(2u64);
    let placed = arena.insert_with_known_sync_id(99u64, 42);
    assert_eq!(placed.sync_id(), 42);
    let mut h = Index::from_sync_id(42);
    assert!(!h.is_synced());
    assert_eq!(arena.get(&mut h), Some(&99));
    assert!(h.is_synced());
    assert_eq!(h.into_raw_parts(), placed.into_raw_parts());
}

#[test]
fn network_handle_of_unknown_id_is_none_and_stays_unresolved() {
    let arena: SyncArena<u64> = SyncArena::new();
    let mut h = Index::from_sync_id(7);
    assert_eq!(arena.get(&mut h), None);
    assert!(!h.is_synced());
}

#[test]
fn get_mut_changes_the_value() {
    let mut arena = SyncArena::new();
    let mut h = arena.insert(1u64);
    if let Some(v) = arena.get_mut(&mut h) {
        *v = 8;
    }
    assert_eq!(arena.get(&mut h), Some(&8));
}

#[test]
fn clear_frees_every_slot() {
    let mut arena = SyncArena::with_capacity(3);
    let mut a = arena.insert(1u64);
    arena.insert(2u64);
    arena.clear();
    assert_eq!(arena.len(), 0);
    assert_eq!(arena.capacity(), 3);
    assert_eq!(arena.get(&mut a), None);
    arena.insert(4u64);
    arena.insert(5u64);
    arena.insert(6u64);
    assert_eq!(arena.capacity(), 3);
    assert_eq!(arena.get(&mut a), None);
}

#[test]
fn retain_keeps_what_the_predicate_accepts() {
    let mut arena = SyncArena::new();
    let mut hs = Vec::new();
    for v in 0..6u64 {
        hs.push(arena.insert(v));
    }
    arena.retain(|_i: Index, v: &u64| *v % 2 == 0);
    assert_eq!(arena.len(), 3);
    for (v, h) in hs.iter_mut().enumerate() {
        let v = v as u64;
        if v % 2 == 0 {
            assert_eq!(arena.get(h), Some(&v));
        } else {
            assert_eq!(arena.get(h), None);
        }
    }
}

#[test]
fn get_unknown_gen_finds_the_slot() {
    let mut arena = SyncArena::new();
    let h = arena.insert(7u64);
    let slot = h.into_raw_parts().0;
    match arena.get_unknown_gen(slot) {
        Some((v, i)) => {
            assert_eq!(*v, 7);
            assert_eq!(i, h);
        },
        None => panic!("slot is occupied"),
    }
    if let Some((v, _)) = arena.get_unknown_gen_mut(slot) {
        *v = 70;
    }
    let mut h2 = h;
    assert_eq!(arena.get(&mut h2), Some(&70));
    assert!(arena.get_unknown_gen(slot + 1).is_none());
}

#[test]
fn reserve_adds_free_slots() {
    let mut arena: SyncArena<u64> = SyncArena::with_capacity(1);
    arena.reserve(5);
    assert_eq!(arena.capacity(), 6);
    for v in 0..6u64 {
        assert!(arena.try_insert(v).is_ok());
    }
    assert!(arena.try_insert(6).is_err());
}

#[test]
fn fresh_sync_ids_are_distinct() {
    let mut arena = SyncArena::new();
    let a = arena.insert(1u64);
    let b = arena.insert(2u64);
    assert_ne!(a.sync_id(), b.sync_id());
}

#[test]
fn iter_walks_objects_in_slot_order() {
    let mut arena = SyncArena::new();
    let a = arena.insert(1u64);
    let b = arena.insert(2u64);
    let c = arena.insert(3u64);
    arena.remove(b);
    let mut walk = arena.iter();
    let mut seen = Vec::new();
    while let Some((h, v)) = walk.next() {
        seen.push((h, *v));
    }
    assert_eq!(seen, vec![(a, 1), (c, 3)]);
}

#[test]
fn drain_takes_everything_in_slot_order() {
    let mut arena = SyncArena::new();
    let a = arena.insert(1u64);
    let b = arena.insert(2u64);
    let c = arena.insert(3u64);
    arena.remove(b);
    let generation = arena.generation();
    let mut drained = arena.drain();
    let mut seen = Vec::new();
    while let Some((h, v)) = drained.next() {
        seen.push((h, v));
    }
    assert_eq!(seen, vec![(a, 1), (c, 3)]);
    assert!(arena.is_empty());
    assert_eq!(arena.capacity(), 0);
    assert_eq!(arena.generation(), generation + 1);
    let mut d = arena.insert(4u64);
    assert_eq!(arena.get(&mut d), Some(&4));
    let mut old = a;
    assert_eq!(arena.get(&mut old), None);
}

#[test]
fn into_iter_yields_values() {
    let mut arena = SyncArena::new();
    arena.insert(5u64);
    arena.insert(6u64);
    let mut values = Vec::new();
    let mut it = arena.into_iter();
    while let Some(v) = it.next() {
        values.push(v);
    }
    assert_eq!(values, vec![5, 6]);
}

#[test]
fn from_pairs_builds_or_refuses() {
    let arena = match SyncArena::from_pairs(vec![(1u64, 10u64), (2, 20)]) {
        Ok(a) => a,
        Err(_) => panic!("distinct ids"),
    };
    assert_eq!(arena.len(), 2);
    let mut h = Index::from_sync_id(2);
    assert_eq!(arena.get(&mut h), Some(&20));
    match SyncArena::from_pairs(vec![(1u64, 10u64), (1, 11)]) {
        Ok(_) => panic!("a duplicate id"),
        Err(e) => assert_eq!(e, BuildError::DuplicateId),
    }
}

#[test]
fn apply_checked_refuses_an_object_altered_twice() {
    let mut arena: SyncArena<u64> = SyncArena::new();
    let d: SyncArenaDiff<u64> = SyncArenaDiff { altered: vec![(5, Some(1)), (5, Some(2))], removed: vec![] };
    assert_eq!(arena.apply_checked(&d), Err(ApplyError::AlteredTwice));
    assert!(arena.is_empty());
    let d: SyncArenaDiff<u64> = SyncArenaDiff { altered: vec![(5, Some(1))], removed: vec![] };
    assert_eq!(arena.apply_checked(&d), Ok(()));
    let mut h = Index::from_sync_id(5);
    assert_eq!(arena.get(&mut h), Some(&1));
}

#[test]
fn lookup_caches_the_slot_and_clear_drops_every_handle() {
    let mut arena = SyncArena::new();
    let placed = arena.insert_with_known_sync_id(3u64, 9);
    let mut h = Index::from_sync_id(9);
    assert!(arena.contains(&mut h));
    assert!(h.is_synced());
    assert_eq!(h, placed);
    arena.clear();
    let mut again = placed;
    assert_eq!(arena.get(&mut again), None);
}

#[test]
fn applying_a_changed_handle_unsyncs_it() {
    let a = Index::from_raw_parts(0, 0, 1);
    let b = Index::from_raw_parts(3, 0, 2);
    let mut c = a;
    c.apply(&a.diff(&b));
    assert!(!c.is_synced());
    assert_eq!(c.sync_id(), 2);
    let mut d = a;
    d.apply(&a.diff(&a));
    assert_eq!(d, a);
}
