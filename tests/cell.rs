use refcount::cell::{BorrowCell, BorrowConflict, BorrowState};
use refcount::copy_cell::CopyCell;

#[test]
fn shared_guard_blocks_writer_until_released() {
    let mut cell = BorrowCell::new(String::from("x"));
    let shared = cell.borrow().unwrap();
    assert_eq!(cell.borrow_mut().err(), Some(BorrowConflict));
    cell.release_shared(shared);
    let guard = cell.borrow_mut().unwrap();
    *cell.write(&guard) = String::from("y");
    cell.release_exclusive(guard);
    let reader = cell.borrow().unwrap();
    assert_eq!(cell.read(&reader), "y");
    cell.release_shared(reader);
}

#[test]
fn shared_borrows_overlap_then_release_all() {
    let mut cell = BorrowCell::new(5i32);
    let mut guards = Vec::new();
    for _ in 0..100 {
        guards.push(cell.borrow().unwrap());
    }
    assert_eq!(cell.borrow_state(), BorrowState::SharedBy(100));
    assert_eq!(*cell.read(&guards[37]), 5);
    assert!(cell.borrow_mut().is_err());
    assert_eq!(cell.borrow_state(), BorrowState::SharedBy(100));
    for g in guards {
        assert!(cell.borrow_mut().is_err());
        cell.release_shared(g);
    }
    assert_eq!(cell.borrow_state(), BorrowState::Unshared);
    let g = cell.borrow().unwrap();
    cell.release_shared(g);
    let e = cell.borrow_mut().unwrap();
    assert_eq!(cell.borrow_state(), BorrowState::ExclusiveBy);
    cell.release_exclusive(e);
    assert_eq!(cell.borrow_state(), BorrowState::Unshared);
}

#[test]
fn exclusive_guard_refuses_every_borrow() {
    let mut cell = BorrowCell::new(vec![1, 2]);
    let e = cell.borrow_mut().unwrap();
    assert_eq!(cell.borrow().err(), Some(BorrowConflict));
    assert_eq!(cell.borrow_mut().err(), Some(BorrowConflict));
    assert_eq!(cell.replace(vec![]), Err(BorrowConflict));
    assert_eq!(cell.read_exclusive(&e), &vec![1, 2]);
    cell.write(&e).push(3);
    cell.release_exclusive(e);
    assert_eq!(cell.into_inner(), vec![1, 2, 3]);
}

#[test]
fn replace_swaps_when_unshared() {
    let mut cell = BorrowCell::new(1u64);
    assert_eq!(cell.replace(2), Ok(1));
    assert_eq!(cell.borrow_state(), BorrowState::Unshared);
    let g = cell.borrow().unwrap();
    assert_eq!(cell.replace(3), Err(BorrowConflict));
    assert_eq!(*cell.read(&g), 2);
    cell.release_shared(g);
    assert_eq!(cell.into_inner(), 2);
}

#[test]
fn copy_cell_get_and_set() {
    let mut c = CopyCell::new("asdf");
    let one = c.get();
    c.set("qwer");
    let two = c.get();
    assert_eq!(one, "asdf");
    assert_eq!(two, "qwer");
    let mut x = CopyCell::new(1);
    x.set(2);
    x.set(3);
    x.set(4);
    assert_eq!(x.get(), 4);
}

#[test]
fn scoped_access_hands_guards_back() {
    let mut cell = BorrowCell::new(String::from("x"));
    assert_eq!(cell.read_with(|s: &String| s.len()), Ok(1));
    assert_eq!(cell.borrow_state(), BorrowState::Unshared);
    assert_eq!(cell.update_with(|s: &String| format!("{}y", s)), Ok(()));
    assert_eq!(cell.borrow_state(), BorrowState::Unshared);
    let g = cell.borrow().unwrap();
    assert_eq!(cell.read_with(|s: &String| s.clone()), Ok(String::from("xy")));
    assert_eq!(cell.borrow_state(), BorrowState::SharedBy(1));
    assert_eq!(cell.update_with(|_: &String| String::new()), Err(BorrowConflict));
    cell.release_shared(g);
    let e = cell.borrow_mut().unwrap();
    assert_eq!(cell.read_with(|s: &String| s.len()), Err(BorrowConflict));
    cell.release_exclusive(e);
    assert_eq!(cell.into_inner(), "xy");
}
