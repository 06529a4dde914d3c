use sync_arena::arenaiter::SyncArenaIterator;
use sync_arena::swapiter::SwapIter;
use sync_arena::sync_arena::{Index, SyncArena};

#[test]
fn arena_walk_restores_kept_objects_and_frees_the_rest() {
    let mut arena = SyncArena::new();
    let mut hs: Vec<Index> = Vec::new();
    for v in 0..4u64 {
        hs.push(arena.insert(v));
    }
    let mut walk = SyncArenaIterator::new();
    let mut seen = Vec::new();
    let mut kept = 0;
    while let Some(v) = walk.next(&mut arena) {
        seen.push(v);
        // the object is out of the arena while it is held
        assert_eq!(arena.len(), kept + (3 - (seen.len() - 1)));
        if v % 2 == 0 {
            assert!(walk.restore(&mut arena, v * 10).is_ok());
            kept += 1;
        }
    }
    assert_eq!(seen, vec![0, 1, 2, 3]);
    assert_eq!(arena.len(), 2);
    assert_eq!(arena.generation(), 2);
    assert_eq!(arena.get(&mut hs[0]), Some(&0));
    assert_eq!(arena.get(&mut hs[1]), None);
    assert_eq!(arena.get(&mut hs[2]), Some(&20));
    assert_eq!(arena.get(&mut hs[3]), None);
}

#[test]
fn arena_walk_lets_the_caller_insert_meanwhile() {
    let mut arena = SyncArena::with_capacity(1);
    let mut h = arena.insert(1u64);
    let mut walk = SyncArenaIterator::new();
    let v = walk.next(&mut arena).unwrap();
    let mut other = arena.insert(2u64);
    assert!(walk.restore(&mut arena, v + 100).is_ok());
    assert_eq!(arena.get(&mut h), Some(&101));
    assert_eq!(arena.get(&mut other), Some(&2));
    assert_eq!(arena.len(), 2);
}

#[test]
fn restore_twice_gives_the_item_back() {
    let mut arena = SyncArena::new();
    arena.insert(1u64);
    let mut walk = SyncArenaIterator::new();
    let v = walk.next(&mut arena).unwrap();
    assert!(walk.restore(&mut arena, v).is_ok());
    assert_eq!(walk.restore(&mut arena, 5), Err(5));
}

#[test]
fn swap_walk_puts_elements_back_in_place() {
    let mut v = vec![1u64, 2, 3, 4];
    let mut walk = SwapIter::new();
    while walk.not_done(&v) {
        let e = walk.next(&mut v);
        v.push(100);
        v.pop();
        walk.restore(&mut v, e * 2);
    }
    assert_eq!(v, vec![2, 4, 6, 8]);
}

#[test]
fn swap_walk_takes_the_last_element_into_the_gap() {
    let mut v = vec![1u64, 2, 3];
    let mut walk = SwapIter::new();
    let e = walk.next(&mut v);
    assert_eq!(e, 1);
    assert_eq!(v, vec![3, 2]);
    walk.restore(&mut v, 9);
    assert_eq!(v, vec![9, 2, 3]);
}
