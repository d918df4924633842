use refcount::messenger::{Messenger1, MsgQueue1};
use refcount::sync::{releases_last_owner, AtomicControlBlock, LockedCell};

#[test]
fn atomic_owner_counts_and_last_release() {
    let (block, first) = AtomicControlBlock::new(String::from("multi-thread test"));
    assert_eq!(block.strong_count(), 1);
    let owners: Vec<_> = (0..10).map(|_| block.clone_owner(&first)).collect();
    assert_eq!(block.strong_count(), 11);
    for h in owners {
        assert_eq!(block.release(h), None);
    }
    assert_eq!(block.strong_count(), 1);
    assert_eq!(block.release(first), Some(String::from("multi-thread test")));
    assert_eq!(block.strong_count(), 0);
}

#[test]
fn interleaved_clone_release_keeps_count() {
    let (block, main) = AtomicControlBlock::new(42u32);
    let mut handles = Vec::new();
    for _ in 0..4 {
        handles.push(block.clone_owner(&main));
    }
    for _ in 0..2 {
        assert_eq!(block.release(handles.pop().unwrap()), None);
        handles.push(block.clone_owner(&main));
    }
    for h in handles {
        assert_eq!(block.release(h), None);
    }
    assert_eq!(block.strong_count(), 1);
    assert_eq!(block.value(&main).get(), Some(42));
    assert_eq!(block.release(main), Some(42));
}

#[test]
fn atomic_value_changes_under_lock() {
    let (block, h) = AtomicControlBlock::new(1i64);
    let h2 = block.clone_owner(&h);
    assert_eq!(block.value(&h2).replace(Some(2)), Some(1));
    assert_eq!(block.value(&h).get(), Some(2));
    assert_eq!(block.release(h2), None);
    assert_eq!(block.release(h), Some(2));
}

#[test]
fn last_owner_decision() {
    assert!(releases_last_owner(1));
    assert!(!releases_last_owner(2));
    assert!(!releases_last_owner(0));
    assert!(!releases_last_owner(u64::MAX));
}

#[test]
fn locked_cell_replace_and_guard() {
    let cell = LockedCell::new(3u8);
    assert_eq!(cell.replace(4), 3);
    assert_eq!(cell.get(), 4);
    assert_eq!(cell.replace(5), 4);
    assert_eq!(cell.get(), 5);
}

#[test]
fn queue_keeps_messages_sent_through_shared_reference() {
    let mq = MsgQueue1::new();
    assert_eq!(mq.len(), 0);
    let r = &mq;
    r.send("asd".to_string());
    mq.send("qwe".to_string());
    assert_eq!(mq.len(), 2);
    assert_eq!(mq.messages(), vec!["asd".to_string(), "qwe".to_string()]);
}

#[test]
fn first_owner_may_let_go_first() {
    let (block, main) = AtomicControlBlock::new(7u16);
    let others: Vec<_> = (0..3).map(|_| block.clone_owner(&main)).collect();
    assert_eq!(block.release(main), None);
    assert_eq!(block.strong_count(), 3);
    let mut destroyed = Vec::new();
    for h in others {
        if let Some(v) = block.release(h) {
            destroyed.push(v);
        }
    }
    assert_eq!(destroyed, vec![7]);
    assert_eq!(block.strong_count(), 0);
}
