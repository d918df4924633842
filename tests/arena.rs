use refcount::arena::{Arena, BlockState};
use refcount::cell::{BorrowCell, BorrowConflict, BorrowState};

#[test]
fn allocate_clone_release_weak_scenario() {
    let mut arena = Arena::new();
    let a = arena.allocate(10);
    let slot = a.slot();
    assert_eq!(arena.strong_count(slot), 1);
    let b = arena.clone_owner(&a);
    let c = arena.clone_owner(&b);
    assert_eq!(arena.strong_count(slot), 3);
    assert_eq!(arena.release(c), None);
    assert_eq!(arena.strong_count(slot), 2);
    assert_eq!(*arena.get(&a), 10);
    let w = arena.downgrade(&a);
    assert_eq!(arena.weak_count(slot), 1);
    assert_eq!(arena.release(b), None);
    assert_eq!(arena.release(a), Some(10));
    assert_eq!(arena.strong_count(slot), 0);
    assert_eq!(arena.block_state(slot), BlockState::ValueDropped);
    assert!(arena.upgrade(&w).is_none());
    assert_eq!(arena.strong_count(slot), 0);
    arena.release_weak(w);
    assert_eq!(arena.block_state(slot), BlockState::Freed);
}

#[test]
fn strong_count_follows_clones_and_releases() {
    let mut arena = Arena::new();
    let first = arena.allocate(String::from("shared"));
    let slot = first.slot();
    let mut owners = Vec::new();
    for _ in 0..5 {
        owners.push(arena.clone_owner(&first));
    }
    assert_eq!(arena.strong_count(slot), 6);
    let mut destroyed = 0;
    for h in owners.drain(..3) {
        if arena.release(h).is_some() {
            destroyed += 1;
        }
    }
    assert_eq!(arena.strong_count(slot), 3);
    assert_eq!(arena.get(&first), "shared");
    owners.push(first);
    for h in owners {
        if let Some(v) = arena.release(h) {
            assert_eq!(v, "shared");
            destroyed += 1;
        }
    }
    assert_eq!(destroyed, 1);
    assert_eq!(arena.strong_count(slot), 0);
    assert_eq!(arena.block_state(slot), BlockState::Freed);
}

#[test]
fn last_release_without_observers_frees_block() {
    let mut arena = Arena::new();
    let h = arena.allocate(7u8);
    assert_eq!(arena.block_state(h.slot()), BlockState::Alive);
    let slot = h.slot();
    assert_eq!(arena.release(h), Some(7));
    assert_eq!(arena.block_state(slot), BlockState::Freed);
    assert_eq!(arena.weak_count(slot), 0);
}

#[test]
fn upgrade_while_owned_adds_an_owner() {
    let mut arena = Arena::new();
    let h = arena.allocate(1u32);
    let w = arena.downgrade(&h);
    let w2 = arena.clone_weak(&w);
    assert_eq!(arena.weak_count(h.slot()), 2);
    let up = arena.upgrade(&w2).unwrap();
    assert_eq!(up.slot(), h.slot());
    assert_eq!(arena.strong_count(h.slot()), 2);
    assert_eq!(*arena.get(&up), 1);
    assert_eq!(arena.weak_count(h.slot()), 2);
    assert_eq!(arena.release(h), None);
    assert_eq!(arena.release(up), Some(1));
    assert!(arena.upgrade(&w).is_none());
    arena.release_weak(w);
    arena.release_weak(w2);
}

#[test]
fn blocks_are_independent() {
    let mut arena = Arena::new();
    let a = arena.allocate('a');
    let b = arena.allocate('b');
    assert_eq!(arena.len(), 2);
    assert_eq!(a.slot(), 0);
    assert_eq!(b.slot(), 1);
    let a2 = arena.clone_owner(&a);
    assert_eq!(arena.strong_count(0), 2);
    assert_eq!(arena.strong_count(1), 1);
    assert_eq!(arena.release(b), Some('b'));
    assert_eq!(*arena.get(&a2), 'a');
    assert_eq!(arena.release(a), None);
    assert_eq!(arena.release(a2), Some('a'));
}

#[test]
fn shared_cell_through_many_owners() {
    let mut arena = Arena::new();
    let s = arena.allocate(BorrowCell::new(String::from("hello")));
    let s1 = arena.clone_owner(&s);
    let s2 = arena.clone_owner(&s);
    let shared = arena.cell(&s1).borrow().unwrap();
    assert_eq!(arena.cell(&s2).borrow_mut().err(), Some(BorrowConflict));
    assert_eq!(arena.cell(&s).read(&shared), "hello");
    arena.cell(&s1).release_shared(shared);
    let guard = arena.cell(&s2).borrow_mut().unwrap();
    arena.cell(&s2).write(&guard).push_str(", oh yeah");
    arena.cell(&s2).release_exclusive(guard);
    assert_eq!(arena.cell(&s).borrow_state(), BorrowState::Unshared);
    let g = arena.cell(&s).borrow().unwrap();
    assert_eq!(arena.cell(&s1).read(&g), "hello, oh yeah");
    arena.cell(&s).release_shared(g);
    assert!(arena.release(s).is_none());
    assert!(arena.release(s1).is_none());
    let last = arena.release(s2).unwrap();
    assert_eq!(last.into_inner(), "hello, oh yeah");
}

#[test]
fn freed_place_is_reused() {
    let mut arena = Arena::new();
    let a = arena.allocate(1u8);
    let b = arena.allocate(2u8);
    let slot_a = a.slot();
    assert_eq!(arena.release(a), Some(1));
    assert_eq!(arena.block_state(slot_a), BlockState::Freed);
    let c = arena.allocate(3u8);
    assert_eq!(c.slot(), slot_a);
    assert_eq!(arena.len(), 2);
    assert_eq!(*arena.get(&c), 3);
    assert_eq!(arena.strong_count(slot_a), 1);
    let w = arena.downgrade(&b);
    assert_eq!(arena.release(b), Some(2));
    assert_eq!(arena.block_state(1), BlockState::ValueDropped);
    let d = arena.allocate(4u8);
    assert_eq!(d.slot(), 2);
    arena.release_weak(w);
    let e = arena.allocate(5u8);
    assert_eq!(e.slot(), 1);
    assert_eq!(*arena.get(&e), 5);
    assert_eq!(arena.len(), 3);
    assert_eq!(arena.release(c), Some(3));
    assert_eq!(arena.release(d), Some(4));
    assert_eq!(arena.release(e), Some(5));
}
