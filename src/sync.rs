//! The thread-safe control block: an atomic owner count, and a lock around the value.
//!
//! Threads share the block by reference and each holds its own owner tokens. Cloning adds
//! one to the count; releasing takes one off, and the release that takes the last one off
//! destroys the value. Reads and writes of the value go through the lock, which waits
//! rather than refuses.

use std::sync::atomic::{AtomicU64, Ordering};
use std::sync::{Mutex, MutexGuard};
use vstd::prelude::*;

verus! {

/// Declares std's `Mutex`, which holds the value of a [`LockedCell`]; opaque to the proofs.
#[verifier::external_type_specification]
#[verifier::external_body]
#[verifier::reject_recursive_types(T)]
pub struct ExMutex<T: ?Sized>(Mutex<T>);

/// Declares std's `MutexGuard`, held by a [`LockedGuard`]; opaque to the proofs.
#[verifier::external_type_specification]
#[verifier::external_body]
#[verifier::reject_recursive_types(T)]
pub struct ExMutexGuard<'a, T: ?Sized + 'a>(MutexGuard<'a, T>);

/// Relies on `Mutex::new`: an unlocked mutex around `t`. Nothing is claimed of it.
pub assume_specification<T>[ Mutex::<T>::new ](t: T) -> Mutex<T>;

/// Relies on `atomic::fence`: orders memory accesses around it, and computes nothing. It
/// panics on `Relaxed`, which is left out.
pub assume_specification[ std::sync::atomic::fence ](order: Ordering)
    requires
        !(order is Relaxed),
;

/// Relies on `Mutex::lock`: blocks until the calling thread holds the lock.
///
/// `Mutex::lock` may panic, or never return, when the calling thread already holds the lock.
/// No call can reach that here: the guard is private to this crate, and each function that
/// takes it lets it go before it returns, without calling back into a cell.
///
/// A lock is poisoned only when its holder panicked. The holders here are those functions,
/// which copy, swap, push or clone under the lock and never leave the value half changed; so
/// a poisoned lock still holds a whole value, and it is taken over as it stands rather than
/// turned into a failure that the callers could do nothing about.
#[verifier::external_body]
fn lock<'a, T>(m: &'a Mutex<T>) -> MutexGuard<'a, T> {
    match m.lock() {
        Ok(guard) => guard,
        Err(poisoned) => poisoned.into_inner(),
    }
}

/// Relies on `MutexGuard`'s `DerefMut`: the locked value, for as long as the guard is held.
#[verifier::external_body]
fn locked<'a, 'b, T>(guard: &'b mut MutexGuard<'a, T>) -> &'b mut T {
    &mut **guard
}

/// Whether a release that read `previous` owners took the last one off.
pub open spec fn last_owner_left(previous: nat) -> bool {
    previous == 1
}

/// Decides, from the owner count that a release read, whether that release destroys the
/// value.
pub fn releases_last_owner(previous: u64) -> (r: bool)
    ensures
        r == last_owner_left(previous as nat),
{
    previous == 1
}

/// A token of ownership of an [`AtomicControlBlock`]'s value. It does not record its block:
/// each token must go back to the block that gave it.
pub struct AtomicOwnerHandle {
    token: (),
}

/// A value that threads change in turn: each access waits for the lock.
#[verifier::reject_recursive_types(T)]
pub struct LockedCell<T> {
    inner: Mutex<T>,
}

/// Exclusive access to a [`LockedCell`]'s value; the lock is let go when it is dropped.
#[verifier::reject_recursive_types(T)]
pub(crate) struct LockedGuard<'a, T> {
    guard: MutexGuard<'a, T>,
}

impl<T> LockedCell<T> {
    /// A cell holding `value`.
    pub fn new(value: T) -> (r: Self) {
        LockedCell { inner: Mutex::new(value) }
    }

    /// Waits for the lock and holds it until the guard is dropped. The caller must drop the
    /// guard before it touches this cell again.
    pub(crate) fn lock(&self) -> (r: LockedGuard<'_, T>) {
        LockedGuard { guard: lock(&self.inner) }
    }

    /// Puts `value` in the cell under the lock and returns the value it replaced.
    pub fn replace(&self, value: T) -> (r: T) {
        let mut guard = self.lock();
        let mut previous = value;
        std::mem::swap(guard.value_mut(), &mut previous);
        previous
    }
}

impl<T: Copy> LockedCell<T> {
    /// A copy of the value, read under the lock.
    pub fn get(&self) -> (r: T) {
        let mut guard = self.lock();
        *guard.value_mut()
    }
}

impl<'a, T> LockedGuard<'a, T> {
    /// The locked value.
    pub(crate) fn value_mut(&mut self) -> (r: &mut T) {
        locked(&mut self.guard)
    }
}

/// A value shared by owners on many threads.
#[verifier::reject_recursive_types(T)]
pub struct AtomicControlBlock<T> {
    strong: AtomicU64,
    value: LockedCell<Option<T>>,
}

impl<T> AtomicControlBlock<T> {
    /// A block holding `value`, with its first owner.
    pub fn new(value: T) -> (r: (Self, AtomicOwnerHandle)) {
        let block = AtomicControlBlock {
            strong: AtomicU64::new(1),
            value: LockedCell::new(Some(value)),
        };
        (block, AtomicOwnerHandle { token: () })
    }

    /// One more owner. The increment needs no ordering: the new owner comes from an
    /// existing one, which keeps the value alive meanwhile.
    pub fn clone_owner(&self, h: &AtomicOwnerHandle) -> (r: AtomicOwnerHandle) {
        self.strong.fetch_add(1, Ordering::Relaxed);
        AtomicOwnerHandle { token: () }
    }

    /// Gives up the owner `h`. The release that takes the last owner off waits until every
    /// earlier release is visible, then destroys the value and hands it back.
    pub fn release(&self, h: AtomicOwnerHandle) -> (r: Option<T>) {
        let previous = self.strong.fetch_sub(1, Ordering::Release);
        if releases_last_owner(previous) {
            std::sync::atomic::fence(Ordering::Acquire);
            self.value.replace(None)
        } else {
            None
        }
    }

    /// The number of owners at the moment of the call.
    pub fn strong_count(&self) -> (r: u64) {
        self.strong.load(Ordering::Acquire)
    }

    /// The value's cell, to read or change under its lock.
    pub fn value(&self, h: &AtomicOwnerHandle) -> (r: &LockedCell<Option<T>>) {
        &self.value
    }
}

/// How often thread `t` appears in `schedule`.
pub open spec fn appearances(schedule: Seq<nat>, t: nat) -> nat
    decreases schedule.len(),
{
    if schedule.len() == 0 {
        0
    } else {
        appearances(schedule.drop_last(), t) + if schedule.last() == t {
            1nat
        } else {
            0nat
        }
    }
}

/// Whether the counter operation at position `k` of `schedule` is a release: the thread's
/// second operation. Its first is a clone.
pub open spec fn is_release_at(schedule: Seq<nat>, k: int) -> bool {
    appearances(schedule.take(k), schedule[k]) > 0
}

/// The owner count after the counter operations of `schedule`, one after the other, from
/// `start`: a thread's first operation adds one, any later one takes one off.
pub open spec fn count_after(start: int, schedule: Seq<nat>) -> int
    decreases schedule.len(),
{
    if schedule.len() == 0 {
        start
    } else {
        count_after(start, schedule.drop_last()) + if appearances(
            schedule.drop_last(),
            schedule.last(),
        ) == 0 {
            1int
        } else {
            -1int
        }
    }
}

/// How many of the threads below `n` have cloned and not yet released in `schedule`.
spec fn pending(schedule: Seq<nat>, n: nat) -> int
    decreases n,
{
    if n == 0 {
        0
    } else {
        pending(schedule, (n - 1) as nat) + if appearances(schedule, (n - 1) as nat) == 1 {
            1int
        } else {
            0int
        }
    }
}

proof fn lemma_appearances_push(schedule: Seq<nat>, x: nat, t: nat)
    ensures
        appearances(schedule.push(x), t) == appearances(schedule, t) + if x == t {
            1nat
        } else {
            0nat
        },
{
    assert(schedule.push(x).drop_last() =~= schedule);
}

proof fn lemma_pending_push(schedule: Seq<nat>, x: nat, n: nat)
    ensures
        pending(schedule.push(x), n) == pending(schedule, n) + if x >= n {
            0int
        } else if appearances(schedule, x) == 0 {
            1int
        } else if appearances(schedule, x) == 1 {
            -1int
        } else {
            0int
        },
    decreases n,
{
    if n > 0 {
        lemma_pending_push(schedule, x, (n - 1) as nat);
        lemma_appearances_push(schedule, x, (n - 1) as nat);
    }
}

proof fn lemma_pending_bounds(schedule: Seq<nat>, n: nat, t: nat)
    ensures
        0 <= pending(schedule, n) <= n,
        t < n && appearances(schedule, t) == 1 ==> pending(schedule, n) >= 1,
        (forall|u: nat| u < n ==> appearances(schedule, u) != 1) ==> pending(schedule, n) == 0,
    decreases n,
{
    if n > 0 {
        lemma_pending_bounds(schedule, (n - 1) as nat, t);
    }
}

proof fn lemma_prefix_appearances(schedule: Seq<nat>, k: int, t: nat)
    requires
        0 <= k <= schedule.len(),
    ensures
        appearances(schedule.take(k), t) <= appearances(schedule, t),
    decreases schedule.len() - k,
{
    if k < schedule.len() {
        assert(schedule.take(k + 1).drop_last() =~= schedule.take(k));
        lemma_prefix_appearances(schedule, k + 1, t);
    } else {
        assert(schedule.take(k) =~= schedule);
    }
}

/// Before position `k`, the count is the start plus the threads that have cloned and not yet
/// released.
proof fn lemma_count_is_pending(start: int, n: nat, schedule: Seq<nat>, k: int)
    requires
        0 <= k <= schedule.len(),
        forall|j: int| 0 <= j < schedule.len() ==> #[trigger] schedule[j] < n,
        forall|t: nat| t < n ==> #[trigger] appearances(schedule, t) == 2,
    ensures
        count_after(start, schedule.take(k)) == start + pending(schedule.take(k), n),
    decreases k,
{
    if k == 0 {
        assert(schedule.take(0) =~= Seq::<nat>::empty());
        lemma_pending_bounds(schedule.take(0), n, 0);
    } else {
        let p = schedule.take(k - 1);
        let x = schedule[k - 1];
        lemma_count_is_pending(start, n, schedule, k - 1);
        assert(schedule.take(k) =~= p.push(x));
        assert(p.push(x).drop_last() =~= p);
        lemma_pending_push(p, x, n);
        lemma_prefix_appearances(schedule, k, x);
        lemma_appearances_push(p, x, x);
    }
}

/// Each of `n` threads clones an atomic owner once and then releases it once, and
/// `schedule` lists, in the order the atomic operations took effect, the thread of each.
/// From `start` owners, at least one of them held elsewhere throughout, the count stays
/// between `start` and `start + n`, no release reads a count of one, so none destroys the
/// value, and the count ends where it started.
pub proof fn lemma_balanced_threads(start: nat, n: nat, schedule: Seq<nat>)
    requires
        start >= 1,
        forall|j: int| 0 <= j < schedule.len() ==> #[trigger] schedule[j] < n,
        forall|t: nat| t < n ==> #[trigger] appearances(schedule, t) == 2,
    ensures
        forall|k: int|
            0 <= k < schedule.len() && #[trigger] is_release_at(schedule, k) ==> count_after(
                start as int,
                schedule.take(k),
            ) >= 2 && !last_owner_left(count_after(start as int, schedule.take(k)) as nat),
        forall|k: int|
            0 <= k <= schedule.len() ==> start <= #[trigger] count_after(start as int, schedule.take(k))
                <= start + n,
        count_after(start as int, schedule) == start,
{
    assert forall|k: int| 0 <= k <= schedule.len() implies start <= #[trigger] count_after(
        start as int,
        schedule.take(k),
    ) <= start + n by {
        lemma_count_is_pending(start as int, n, schedule, k);
        lemma_pending_bounds(schedule.take(k), n, 0);
    }
    assert forall|k: int|
        0 <= k < schedule.len() && #[trigger] is_release_at(schedule, k) implies count_after(
        start as int,
        schedule.take(k),
    ) >= 2 && !last_owner_left(count_after(start as int, schedule.take(k)) as nat) by {
        let x = schedule[k];
        lemma_count_is_pending(start as int, n, schedule, k);
        assert(schedule.take(k + 1) =~= schedule.take(k).push(x));
        lemma_prefix_appearances(schedule, k + 1, x);
        lemma_appearances_push(schedule.take(k), x, x);
        lemma_pending_bounds(schedule.take(k), n, x);
    }
    lemma_count_is_pending(start as int, n, schedule, schedule.len() as int);
    assert(schedule.take(schedule.len() as int) =~= schedule);
    lemma_pending_bounds(schedule, n, 0);
}

/// The owner count after the clones (`true`) and releases (`false`) of `ops`, one after
/// the other, from `start`.
pub open spec fn owner_count(start: int, ops: Seq<bool>) -> int
    decreases ops.len(),
{
    if ops.len() == 0 {
        start
    } else {
        owner_count(start, ops.drop_last()) + if ops.last() {
            1int
        } else {
            -1int
        }
    }
}

/// Clones and releases of an atomic block in the order they took effect, from `start`
/// owners, each made through an owner that exists at that point, in whatever order the
/// owners, the first one included, let go: the count never goes below zero, at most one
/// release reads a count of one and so destroys the value, that release is the last
/// operation of all, and the count ends at zero exactly when it happened.
pub proof fn lemma_single_destruction(start: nat, ops: Seq<bool>)
    requires
        start >= 1,
        forall|k: int| 0 <= k < ops.len() ==> #[trigger] owner_count(start as int, ops.take(k)) >= 1,
    ensures
        forall|k: int| 0 <= k <= ops.len() ==> #[trigger] owner_count(start as int, ops.take(k)) >= 0,
        forall|k: int|
            0 <= k < ops.len() && !ops[k] && last_owner_left(
                #[trigger] owner_count(start as int, ops.take(k)) as nat,
            ) ==> k == ops.len() - 1,
        owner_count(start as int, ops) == 0 <==> ops.len() > 0 && !ops.last() && owner_count(
            start as int,
            ops.drop_last(),
        ) == 1,
{
    assert forall|k: int| 0 <= k <= ops.len() implies #[trigger] owner_count(
        start as int,
        ops.take(k),
    ) >= 0 by {
        if k == 0 {
            assert(ops.take(0) =~= Seq::<bool>::empty());
        } else {
            assert(ops.take(k).drop_last() =~= ops.take(k - 1));
            assert(owner_count(start as int, ops.take(k - 1)) >= 1);
        }
    }
    assert forall|k: int|
        0 <= k < ops.len() && !ops[k] && last_owner_left(
            #[trigger] owner_count(start as int, ops.take(k)) as nat,
        ) implies k == ops.len() - 1 by {
        if k < ops.len() - 1 {
            assert(ops.take(k + 1).drop_last() =~= ops.take(k));
            assert(ops.take(k + 1).last() == ops[k]);
            assert(owner_count(start as int, ops.take(k + 1)) >= 1);
        }
    }
    if ops.len() > 0 {
        assert(ops.take(ops.len() - 1) =~= ops.drop_last());
        assert(owner_count(start as int, ops.take(ops.len() - 1)) >= 1);
    }
}

} // verus!
