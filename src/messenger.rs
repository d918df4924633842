//! Sending through a shared reference: the queue changes behind `&self` because its store
//! is a cell that takes a lock.

use crate::sync::LockedCell;
use vstd::prelude::*;

verus! {

/// Something that takes messages through a shared reference.
pub trait Messenger1 {
    fn send(&self, msg: String);
}

/// Keeps every message sent to it, in order.
pub struct MsgQueue1 {
    msg_cache: LockedCell<Vec<String>>,
}

impl MsgQueue1 {
    /// A queue without messages.
    pub fn new() -> (r: Self) {
        MsgQueue1 { msg_cache: LockedCell::new(Vec::new()) }
    }

    /// A copy of the messages kept, oldest first.
    pub fn messages(&self) -> (r: Vec<String>) {
        let mut guard = self.msg_cache.lock();
        guard.value_mut().clone()
    }

    /// The number of messages kept.
    pub fn len(&self) -> (r: usize) {
        let mut guard = self.msg_cache.lock();
        guard.value_mut().len()
    }
}

impl Messenger1 for MsgQueue1 {
    fn send(&self, msg: String) {
        let mut guard = self.msg_cache.lock();
        guard.value_mut().push(msg);
    }
}

} // verus!
