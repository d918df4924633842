//! A cell whose aliasing rule, many readers or one writer, is checked at run time.
//!
//! Each borrow hands out a guard token; the cell's register counts the guards that are out,
//! and a borrow that would break the rule is refused with [`BorrowConflict`].
//! [`BorrowCell::read_with`], [`BorrowCell::update_with`] and [`BorrowCell::replace`] take a
//! guard and hand it back themselves, on every path; prefer them.
//!
//! A guard is a bare token. Dropping it does not hand it back: the register then stays as
//! the borrow left it, and the cell refuses writers from then on. A guard does not name its
//! cell either: the proofs keep the register right only when each guard goes back to the cell
//! that gave it, which is the caller's charge. Tying a guard to one cell would take an
//! identity that no two cells share, and nothing here can mint one.

use vstd::prelude::*;

verus! {

/// Which guards of a cell are out.
#[derive(PartialEq, Eq, Structural, Clone, Copy, Debug)]
pub enum BorrowState {
    /// No guard.
    Unshared,
    /// This many shared guards, at least one.
    SharedBy(u64),
    /// One exclusive guard.
    ExclusiveBy,
}

/// A borrow that would let a writer and another guard coexist.
#[derive(PartialEq, Eq, Structural, Clone, Copy, Debug)]
pub struct BorrowConflict;

/// The acquisitions and releases that drive a cell's register.
#[derive(PartialEq, Eq, Structural, Clone, Copy, Debug)]
pub enum BorrowOp {
    Borrow,
    BorrowMut,
    ReleaseShared,
    ReleaseExclusive,
}

/// A register that can be reached: a shared count is never zero.
pub open spec fn state_wf(s: BorrowState) -> bool {
    s matches BorrowState::SharedBy(n) ==> n >= 1
}

/// Whether the register grants `op` in state `s`.
pub open spec fn permits(s: BorrowState, op: BorrowOp) -> bool {
    match op {
        BorrowOp::Borrow => !(s is ExclusiveBy),
        BorrowOp::BorrowMut => s is Unshared,
        BorrowOp::ReleaseShared => s is SharedBy,
        BorrowOp::ReleaseExclusive => s is ExclusiveBy,
    }
}

/// The register after `op` in state `s`; a refused operation leaves it as it was.
pub open spec fn step(s: BorrowState, op: BorrowOp) -> BorrowState {
    if !permits(s, op) {
        s
    } else {
        match op {
            BorrowOp::Borrow => match s {
                BorrowState::SharedBy(n) => BorrowState::SharedBy((n + 1) as u64),
                _ => BorrowState::SharedBy(1),
            },
            BorrowOp::BorrowMut => BorrowState::ExclusiveBy,
            BorrowOp::ReleaseShared => match s {
                BorrowState::SharedBy(n) => if n <= 1 {
                    BorrowState::Unshared
                } else {
                    BorrowState::SharedBy((n - 1) as u64)
                },
                _ => s,
            },
            BorrowOp::ReleaseExclusive => BorrowState::Unshared,
        }
    }
}

/// The register after each of `ops` in turn, from `s`.
pub open spec fn run(s: BorrowState, ops: Seq<BorrowOp>) -> BorrowState
    decreases ops.len(),
{
    if ops.len() == 0 {
        s
    } else {
        step(run(s, ops.drop_last()), ops.last())
    }
}

/// Proof of a shared borrow. Hand it back with [`BorrowCell::release_shared`].
pub struct SharedGuard {
    token: (),
}

/// Proof of the exclusive borrow. Hand it back with [`BorrowCell::release_exclusive`].
pub struct ExclusiveGuard {
    token: (),
}

/// A value together with the register that rules access to it.
pub struct BorrowCell<T> {
    value: T,
    state: BorrowState,
}

impl<T> BorrowCell<T> {
    pub closed spec fn value(&self) -> T {
        self.value
    }

    pub closed spec fn state(&self) -> BorrowState {
        self.state
    }

    pub open spec fn wf(&self) -> bool {
        state_wf(self.state())
    }

    /// A cell holding `value`, with no guard out.
    pub fn new(value: T) -> (r: Self)
        ensures
            r.wf(),
            r.value() == value,
            r.state() == BorrowState::Unshared,
    {
        BorrowCell { value, state: BorrowState::Unshared }
    }

    /// The register as it stands.
    pub fn borrow_state(&self) -> (r: BorrowState)
        ensures
            r == self.state(),
    {
        self.state
    }

    /// A shared guard, unless the exclusive one is out. The guard must be handed back with
    /// [`BorrowCell::release_shared`] on every path; dropping it leaves the borrow in place.
    pub fn borrow(&mut self) -> (r: Result<SharedGuard, BorrowConflict>)
        requires
            old(self).wf(),
            old(self).state() matches BorrowState::SharedBy(n) ==> n < u64::MAX,
        ensures
            final(self).wf(),
            final(self).value() == old(self).value(),
            final(self).state() == step(old(self).state(), BorrowOp::Borrow),
            r is Ok <==> permits(old(self).state(), BorrowOp::Borrow),
    {
        match self.state {
            BorrowState::Unshared => {
                self.state = BorrowState::SharedBy(1);
                Ok(SharedGuard { token: () })
            },
            BorrowState::SharedBy(n) => {
                self.state = BorrowState::SharedBy(n + 1);
                Ok(SharedGuard { token: () })
            },
            BorrowState::ExclusiveBy => Err(BorrowConflict),
        }
    }

    /// The exclusive guard, if no guard at all is out. The guard must be handed back with
    /// [`BorrowCell::release_exclusive`] on every path; dropping it leaves the borrow in place.
    pub fn borrow_mut(&mut self) -> (r: Result<ExclusiveGuard, BorrowConflict>)
        requires
            old(self).wf(),
        ensures
            final(self).wf(),
            final(self).value() == old(self).value(),
            final(self).state() == step(old(self).state(), BorrowOp::BorrowMut),
            r is Ok <==> permits(old(self).state(), BorrowOp::BorrowMut),
    {
        match self.state {
            BorrowState::Unshared => {
                self.state = BorrowState::ExclusiveBy;
                Ok(ExclusiveGuard { token: () })
            },
            _ => Err(BorrowConflict),
        }
    }

    /// The value, read under a shared guard.
    pub fn read(&self, guard: &SharedGuard) -> (r: &T)
        requires
            self.state() is SharedBy,
        ensures
            *r == self.value(),
    {
        &self.value
    }

    /// The value, read under the exclusive guard.
    pub fn read_exclusive(&self, guard: &ExclusiveGuard) -> (r: &T)
        requires
            self.state() is ExclusiveBy,
        ensures
            *r == self.value(),
    {
        &self.value
    }

    /// The value, to change under the exclusive guard.
    pub fn write(&mut self, guard: &ExclusiveGuard) -> (r: &mut T)
        requires
            old(self).state() is ExclusiveBy,
        ensures
            *r == old(self).value(),
            final(self).value() == *final(r),
            final(self).state() == old(self).state(),
    {
        &mut self.value
    }

    /// Hands back a shared guard.
    pub fn release_shared(&mut self, guard: SharedGuard)
        requires
            old(self).wf(),
            old(self).state() is SharedBy,
        ensures
            final(self).wf(),
            final(self).value() == old(self).value(),
            final(self).state() == step(old(self).state(), BorrowOp::ReleaseShared),
    {
        if let BorrowState::SharedBy(n) = self.state {
            if n <= 1 {
                self.state = BorrowState::Unshared;
            } else {
                self.state = BorrowState::SharedBy(n - 1);
            }
        }
    }

    /// Hands back the exclusive guard.
    pub fn release_exclusive(&mut self, guard: ExclusiveGuard)
        requires
            old(self).wf(),
            old(self).state() is ExclusiveBy,
        ensures
            final(self).wf(),
            final(self).value() == old(self).value(),
            final(self).state() == step(old(self).state(), BorrowOp::ReleaseExclusive),
    {
        self.state = BorrowState::Unshared;
    }

    /// Puts `value` in the cell under an exclusive guard that it takes and gives back itself,
    /// and returns the value it replaced; refused while any guard is out.
    pub fn replace(&mut self, value: T) -> (r: Result<T, BorrowConflict>)
        requires
            old(self).wf(),
        ensures
            final(self).wf(),
            final(self).state() == old(self).state(),
            old(self).state() is Unshared ==> r == Ok::<T, BorrowConflict>(old(self).value())
                && final(self).value() == value,
            !(old(self).state() is Unshared) ==> r == Err::<T, BorrowConflict>(BorrowConflict)
                && final(self).value() == old(self).value(),
    {
        match self.borrow_mut() {
            Ok(guard) => {
                let mut previous = value;
                std::mem::swap(self.write(&guard), &mut previous);
                self.release_exclusive(guard);
                Ok(previous)
            },
            Err(e) => Err(e),
        }
    }

    /// Runs `f` on the value under a shared guard that it takes and always hands back, and
    /// returns what `f` returns; refused while the exclusive guard is out.
    pub fn read_with<R, F: FnOnce(&T) -> R>(&mut self, f: F) -> (r: Result<R, BorrowConflict>)
        requires
            old(self).wf(),
            old(self).state() matches BorrowState::SharedBy(n) ==> n < u64::MAX,
            f.requires((&old(self).value(),)),
        ensures
            final(self).wf(),
            final(self).value() == old(self).value(),
            final(self).state() == old(self).state(),
            r is Ok <==> permits(old(self).state(), BorrowOp::Borrow),
            r matches Ok(x) ==> f.ensures((&old(self).value(),), x),
            r matches Err(e) ==> e == BorrowConflict,
    {
        match self.borrow() {
            Ok(guard) => {
                let x = f(self.read(&guard));
                self.release_shared(guard);
                Ok(x)
            },
            Err(e) => Err(e),
        }
    }

    /// Puts in the cell what `f` makes of its value, under an exclusive guard that it takes
    /// and always hands back; refused while any guard is out.
    pub fn update_with<F: FnOnce(&T) -> T>(&mut self, f: F) -> (r: Result<(), BorrowConflict>)
        requires
            old(self).wf(),
            f.requires((&old(self).value(),)),
        ensures
            final(self).wf(),
            final(self).state() == old(self).state(),
            r is Ok <==> permits(old(self).state(), BorrowOp::BorrowMut),
            r is Ok ==> f.ensures((&old(self).value(),), final(self).value()),
            r is Err ==> final(self).value() == old(self).value() && r == Err::<(), BorrowConflict>(BorrowConflict),
    {
        match self.borrow_mut() {
            Ok(guard) => {
                let next = f(self.read_exclusive(&guard));
                *self.write(&guard) = next;
                self.release_exclusive(guard);
                Ok(())
            },
            Err(e) => Err(e),
        }
    }

    /// The value, once no guard is out.
    pub fn into_inner(self) -> (r: T)
        requires
            self.state() is Unshared,
        ensures
            r == self.value(),
    {
        self.value
    }
}

/// `n` copies of `op`.
pub open spec fn repeat(op: BorrowOp, n: nat) -> Seq<BorrowOp> {
    Seq::new(n, |i: int| op)
}

proof fn lemma_repeat_drop_last(op: BorrowOp, n: nat)
    requires
        n > 0,
    ensures
        repeat(op, n).drop_last() == repeat(op, (n - 1) as nat),
        repeat(op, n).last() == op,
{
    assert(repeat(op, n).drop_last() =~= repeat(op, (n - 1) as nat));
}

proof fn lemma_run_append(s: BorrowState, a: Seq<BorrowOp>, b: Seq<BorrowOp>)
    ensures
        run(s, a + b) == run(run(s, a), b),
    decreases b.len(),
{
    if b.len() > 0 {
        assert((a + b).drop_last() =~= a + b.drop_last());
        lemma_run_append(s, a, b.drop_last());
    }
}

/// Shared borrows overlap freely: from an unshared cell, each of `k` borrows in a row is
/// granted, and `k` guards are then out.
pub proof fn lemma_shared_borrows_overlap(k: nat)
    requires
        1 <= k < u64::MAX,
    ensures
        forall|i: nat| i < k ==> permits(#[trigger] run(BorrowState::Unshared, repeat(BorrowOp::Borrow, i)), BorrowOp::Borrow),
        run(BorrowState::Unshared, repeat(BorrowOp::Borrow, k)) == BorrowState::SharedBy(k as u64),
    decreases k,
{
    lemma_repeat_drop_last(BorrowOp::Borrow, k);
    if k > 1 {
        lemma_shared_borrows_overlap((k - 1) as nat);
    } else {
        assert(repeat(BorrowOp::Borrow, 0) =~= Seq::<BorrowOp>::empty());
    }
    assert forall|i: nat| i < k implies permits(#[trigger] run(BorrowState::Unshared, repeat(BorrowOp::Borrow, i)), BorrowOp::Borrow) by {
        if i == 0 {
            assert(repeat(BorrowOp::Borrow, 0) =~= Seq::<BorrowOp>::empty());
        }
    }
}

/// The exclusive borrow is refused while any guard is out, shared or exclusive, and the
/// refusal leaves the register as it was.
pub proof fn lemma_borrow_mut_refused(s: BorrowState)
    requires
        state_wf(s),
        s != BorrowState::Unshared,
    ensures
        !permits(s, BorrowOp::BorrowMut),
        step(s, BorrowOp::BorrowMut) == s,
{
}

/// After every guard is handed back the cell is unshared again, and both kinds of borrow are
/// granted: whether `k` shared guards were out, or the exclusive one.
pub proof fn lemma_released_cell_grants_again(k: nat)
    requires
        1 <= k < u64::MAX,
    ensures
        run(BorrowState::Unshared, repeat(BorrowOp::Borrow, k) + repeat(BorrowOp::ReleaseShared, k))
            == BorrowState::Unshared,
        run(BorrowState::Unshared, seq![BorrowOp::BorrowMut, BorrowOp::ReleaseExclusive])
            == BorrowState::Unshared,
        permits(BorrowState::Unshared, BorrowOp::Borrow),
        permits(BorrowState::Unshared, BorrowOp::BorrowMut),
{
    lemma_shared_borrows_overlap(k);
    lemma_run_append(BorrowState::Unshared, repeat(BorrowOp::Borrow, k), repeat(BorrowOp::ReleaseShared, k));
    lemma_release_shared_all(k, k);
    let one = seq![BorrowOp::BorrowMut];
    let two = seq![BorrowOp::BorrowMut, BorrowOp::ReleaseExclusive];
    assert(one.drop_last() =~= Seq::<BorrowOp>::empty());
    assert(one.last() == BorrowOp::BorrowMut);
    assert(run(BorrowState::Unshared, one.drop_last()) == BorrowState::Unshared);
    assert(run(BorrowState::Unshared, one) == BorrowState::ExclusiveBy);
    assert(two.drop_last() =~= one);
    assert(two.last() == BorrowOp::ReleaseExclusive);
}

/// Handing back `j` of `n` shared guards leaves `n - j` out.
proof fn lemma_release_shared_all(n: nat, j: nat)
    requires
        1 <= n < u64::MAX,
        j <= n,
    ensures
        run(BorrowState::SharedBy(n as u64), repeat(BorrowOp::ReleaseShared, j)) == if j == n {
            BorrowState::Unshared
        } else {
            BorrowState::SharedBy((n - j) as u64)
        },
    decreases j,
{
    if j == 0 {
        assert(repeat(BorrowOp::ReleaseShared, 0) =~= Seq::<BorrowOp>::empty());
    } else {
        lemma_repeat_drop_last(BorrowOp::ReleaseShared, j);
        lemma_release_shared_all(n, (j - 1) as nat);
    }
}

} // verus!
