//! Reference-counted control blocks, kept side by side in one arena.
//!
//! An [`OwnerHandle`] keeps the value of its block alive; a [`WeakHandle`] keeps only the
//! block's metadata. Handles are tokens: they cannot be copied, and every operation on them
//! goes through the arena that made them.
//!
//! The counters are plain integers, reached only through `&mut Arena`, and the handles
//! cannot leave the thread that made them; the thread-safe form lives in [`crate::sync`].
//!
//! A handle records the place of its block, not which arena holds it: the proofs keep the
//! counts right only when each handle goes back to its own arena, which is the caller's
//! charge. A freed block's place is reused, which is sound because no handle of a freed
//! block is left.

use crate::cell::BorrowCell;
use std::marker::PhantomData;
use std::rc::Rc;
use vstd::prelude::*;

verus! {

/// How the proofs see a control block.
pub struct BlockModel<T> {
    pub value: Option<T>,
    pub strong: nat,
    pub weak: nat,
}

/// The life stage of a control block.
#[derive(PartialEq, Eq, Structural, Clone, Copy, Debug)]
pub enum BlockState {
    /// At least one owner: the value is alive.
    Alive,
    /// No owner, some observers: the value is gone, the block remains as metadata.
    ValueDropped,
    /// Neither owners nor observers: the block is released.
    Freed,
}

impl<T> BlockModel<T> {
    /// A block as allocation leaves it: one owner, no observer.
    pub open spec fn fresh(value: T) -> Self {
        BlockModel { value: Some(value), strong: 1, weak: 0 }
    }

    /// The value is alive exactly while some owner holds the block.
    pub open spec fn wf(self) -> bool {
        self.strong > 0 <==> self.value is Some
    }

    pub open spec fn state(self) -> BlockState {
        if self.strong > 0 {
            BlockState::Alive
        } else if self.weak > 0 {
            BlockState::ValueDropped
        } else {
            BlockState::Freed
        }
    }

    /// The block after one more owner.
    pub open spec fn cloned(self) -> Self {
        BlockModel { value: self.value, strong: self.strong + 1, weak: self.weak }
    }

    /// The block after one owner let go: the last one takes the value with it.
    pub open spec fn released(self) -> Self {
        if self.strong <= 1 {
            BlockModel { value: None, strong: 0, weak: self.weak }
        } else {
            BlockModel { value: self.value, strong: (self.strong - 1) as nat, weak: self.weak }
        }
    }

    /// The value that a release destroys, if it destroys one.
    pub open spec fn destroyed_by_release(self) -> Option<T> {
        if self.strong == 1 {
            self.value
        } else {
            None
        }
    }

    /// The block after an upgrade, which succeeds only while an owner is left.
    pub open spec fn upgraded(self) -> Option<Self> {
        if self.strong > 0 {
            Some(self.cloned())
        } else {
            None
        }
    }

    /// The block after one more observer.
    pub open spec fn downgraded(self) -> Self {
        BlockModel { value: self.value, strong: self.strong, weak: self.weak + 1 }
    }

    /// The block after one observer let go.
    pub open spec fn weak_released(self) -> Self {
        BlockModel { value: self.value, strong: self.strong, weak: (self.weak - 1) as nat }
    }
}

struct ControlBlock<T> {
    value: Option<T>,
    strong: u64,
    weak: u64,
}

impl<T> ControlBlock<T> {
    closed spec fn model(&self) -> BlockModel<T> {
        BlockModel { value: self.value, strong: self.strong as nat, weak: self.weak as nat }
    }
}

/// A handle that owns the value of one control block. It stays on the thread that made it.
pub struct OwnerHandle {
    slot: usize,
    local: PhantomData<Rc<()>>,
}

/// A handle that observes one control block without keeping its value alive. It stays on
/// the thread that made it.
pub struct WeakHandle {
    slot: usize,
    local: PhantomData<Rc<()>>,
}

impl OwnerHandle {
    pub closed spec fn index(&self) -> nat {
        self.slot as nat
    }

    fn at(slot: usize) -> (r: Self)
        ensures
            r.index() == slot,
    {
        OwnerHandle { slot, local: PhantomData }
    }

    /// The position of the handle's block in its arena.
    pub fn slot(&self) -> (r: usize)
        ensures
            r as nat == self.index(),
    {
        self.slot
    }
}

impl WeakHandle {
    pub closed spec fn index(&self) -> nat {
        self.slot as nat
    }

    fn at(slot: usize) -> (r: Self)
        ensures
            r.index() == slot,
    {
        WeakHandle { slot, local: PhantomData }
    }

    /// The position of the handle's block in its arena.
    pub fn slot(&self) -> (r: usize)
        ensures
            r as nat == self.index(),
    {
        self.slot
    }
}

/// Every block keeps its value exactly while it has an owner, and `free` lists every freed
/// block once and nothing else.
spec fn layout_wf<T>(blocks: Seq<BlockModel<T>>, free: Seq<usize>) -> bool {
    &&& forall|i: int| 0 <= i < blocks.len() ==> #[trigger] blocks[i].wf()
    &&& forall|k: int|
        0 <= k < free.len() ==> (#[trigger] free[k] as int) < blocks.len() && blocks[free[k] as int].state()
            == BlockState::Freed
    &&& forall|k: int, l: int| 0 <= k < l < free.len() ==> #[trigger] free[k] != #[trigger] free[l]
    &&& forall|i: int|
        0 <= i < blocks.len() && (#[trigger] blocks[i]).state() == BlockState::Freed ==> free.contains(
            i as usize,
        )
}

/// Changing one block that is not freed keeps the layout well formed, once the block is
/// listed as free if the change freed it.
proof fn lemma_update_keeps_layout<T>(
    blocks: Seq<BlockModel<T>>,
    free: Seq<usize>,
    i: int,
    b: BlockModel<T>,
    new_free: Seq<usize>,
)
    requires
        layout_wf(blocks, free),
        0 <= i < blocks.len(),
        i <= usize::MAX,
        blocks[i].state() != BlockState::Freed,
        b.wf(),
        new_free == if b.state() == BlockState::Freed {
            free.push(i as usize)
        } else {
            free
        },
    ensures
        layout_wf(blocks.update(i, b), new_free),
{
    let nb = blocks.update(i, b);
    assert forall|k: int| 0 <= k < free.len() implies free[k] as int != i by {
        assert(blocks[free[k] as int].state() == BlockState::Freed);
    }
    assert forall|k: int| 0 <= k < new_free.len() implies (#[trigger] new_free[k] as int) < nb.len()
        && nb[new_free[k] as int].state() == BlockState::Freed by {
        if k < free.len() {
            assert(new_free[k] == free[k]);
        }
    }
    assert forall|j: int|
        0 <= j < nb.len() && (#[trigger] nb[j]).state() == BlockState::Freed implies new_free.contains(
        j as usize,
    ) by {
        if j == i {
            assert(new_free[new_free.len() - 1] == i as usize);
        } else {
            assert(blocks[j].state() == BlockState::Freed);
            assert(free.contains(j as usize));
            let k = choose|k: int| 0 <= k < free.len() && free[k] == j as usize;
            assert(new_free[k] == free[k]);
        }
    }
    assert forall|k: int, l: int| 0 <= k < l < new_free.len() implies #[trigger] new_free[k]
        != #[trigger] new_free[l] by {
        if l >= free.len() {
            assert(new_free[l] == i as usize);
            assert(new_free[k] == free[k]);
        } else {
            assert(new_free[k] == free[k] && new_free[l] == free[l]);
        }
    }
    assert forall|j: int| 0 <= j < nb.len() implies #[trigger] nb[j].wf() by {
        if j != i {
            assert(blocks[j].wf());
        }
    }
}

/// The control blocks of many shared values. A freed block's place is taken by the next
/// allocation.
pub struct Arena<T> {
    blocks: Vec<ControlBlock<T>>,
    free: Vec<usize>,
}

impl<T> View for Arena<T> {
    type V = Seq<BlockModel<T>>;

    closed spec fn view(&self) -> Seq<BlockModel<T>> {
        self.blocks@.map_values(|b: ControlBlock<T>| b.model())
    }
}

impl<T> Arena<T> {
    /// Every block keeps its value exactly while it has an owner, and every freed block is
    /// ready for reuse.
    pub closed spec fn wf(&self) -> bool {
        layout_wf(self@, self.free@)
    }

    /// The handle's block is in this arena and has its value.
    pub open spec fn owns(&self, h: &OwnerHandle) -> bool {
        h.index() < self@.len() && self@[h.index() as int].strong > 0
    }

    /// The handle's block is in this arena and counts at least one observer.
    pub open spec fn observes(&self, w: &WeakHandle) -> bool {
        w.index() < self@.len() && self@[w.index() as int].weak > 0
    }

    /// Changes block `i` in place, which must not be freed, and lists it as free if the
    /// change frees it.
    proof fn lemma_set_block(&self, i: int, b: BlockModel<T>) -> (free: Seq<usize>)
        requires
            self.wf(),
            0 <= i < self@.len(),
            i <= usize::MAX,
            self@[i].state() != BlockState::Freed,
            b.wf(),
        ensures
            free == if b.state() == BlockState::Freed {
                self.free@.push(i as usize)
            } else {
                self.free@
            },
            layout_wf(self@.update(i, b), free),
    {
        let free = if b.state() == BlockState::Freed {
            self.free@.push(i as usize)
        } else {
            self.free@
        };
        lemma_update_keeps_layout(self@, self.free@, i, b, free);
        free
    }

    /// An arena without blocks.
    pub fn new() -> (r: Self)
        ensures
            r.wf(),
            r@ == Seq::<BlockModel<T>>::empty(),
    {
        let r = Arena { blocks: Vec::new(), free: Vec::new() };
        assert(r@ =~= Seq::<BlockModel<T>>::empty());
        r
    }

    /// The number of places for blocks, freed ones included.
    pub fn len(&self) -> (r: usize)
        ensures
            r as nat == self@.len(),
    {
        self.blocks.len()
    }

    /// Places `value` in a block with one owner and returns that owner. The block takes the
    /// place of a freed one when there is any, and comes at the end otherwise.
    pub fn allocate(&mut self, value: T) -> (h: OwnerHandle)
        requires
            old(self).wf(),
        ensures
            final(self).wf(),
            h.index() <= old(self)@.len(),
            h.index() == old(self)@.len() ==> final(self)@ == old(self)@.push(BlockModel::fresh(value)),
            h.index() < old(self)@.len() ==> old(self)@[h.index() as int].state() == BlockState::Freed
                && final(self)@ == old(self)@.update(h.index() as int, BlockModel::fresh(value)),
            (exists|j: int| 0 <= j < old(self)@.len() && #[trigger] old(self)@[j].state() == BlockState::Freed)
                ==> h.index() < old(self)@.len(),
    {
        proof {
            if exists|j: int| 0 <= j < old(self)@.len() && #[trigger] old(self)@[j].state() == BlockState::Freed {
                let j = choose|j: int| 0 <= j < old(self)@.len() && #[trigger] old(self)@[j].state() == BlockState::Freed;
                assert(old(self).free@.contains(j as usize));
            }
        }
        let end = self.blocks.len();
        let block = ControlBlock { value: Some(value), strong: 1, weak: 0 };
        match self.free.pop() {
            Some(slot) => {
                proof {
                    let k = old(self).free@.len() - 1;
                    assert(old(self).free@[k] == slot);
                    assert forall|m: int| 0 <= m < self.free@.len() implies self.free@[m] != slot by {
                        assert(self.free@[m] == old(self).free@[m]);
                    }
                }
                self.blocks.set(slot, block);
                let ghost fresh = BlockModel::fresh(value);
                assert(self@ =~= old(self)@.update(slot as int, fresh));
                proof {
                    let bs = old(self)@;
                    let fs = self.free@;
                    let nb = bs.update(slot as int, fresh);
                    assert forall|k: int| 0 <= k < fs.len() implies (#[trigger] fs[k] as int) < nb.len()
                        && nb[fs[k] as int].state() == BlockState::Freed by {
                        assert(fs[k] == old(self).free@[k]);
                    }
                    assert forall|k: int, l: int| 0 <= k < l < fs.len() implies #[trigger] fs[k]
                        != #[trigger] fs[l] by {
                        assert(fs[k] == old(self).free@[k] && fs[l] == old(self).free@[l]);
                    }
                    assert forall|j: int|
                        0 <= j < nb.len() && (#[trigger] nb[j]).state() == BlockState::Freed implies fs.contains(
                        j as usize,
                    ) by {
                        assert(nb[slot as int].state() == BlockState::Alive);
                        assert(j != slot);
                        assert(j < end);
                        assert(bs[j].state() == BlockState::Freed);
                        assert(old(self).free@.contains(j as usize));
                        let k = choose|k: int| 0 <= k < old(self).free@.len() && old(self).free@[k] == j as usize;
                        assert(k != old(self).free@.len() - 1);
                        assert(fs[k] == old(self).free@[k]);
                    }
                    assert forall|j: int| 0 <= j < nb.len() implies #[trigger] nb[j].wf() by {
                        if j != slot {
                            assert(bs[j].wf());
                        }
                    }
                }
                OwnerHandle::at(slot)
            },
            None => {
                let slot = end;
                self.blocks.push(block);
                assert(self@ =~= old(self)@.push(BlockModel::fresh(value)));
                proof {
                    let nb = self@;
                    let bs = old(self)@;
                    assert forall|k: int| 0 <= k < self.free@.len() implies (#[trigger] self.free@[k] as int) < nb.len()
                        && nb[self.free@[k] as int].state() == BlockState::Freed by {
                    }
                    assert forall|j: int|
                        0 <= j < nb.len() && (#[trigger] nb[j]).state() == BlockState::Freed implies self.free@.contains(
                        j as usize,
                    ) by {
                        assert(bs[j] == nb[j]);
                    }
                    assert forall|j: int| 0 <= j < nb.len() implies #[trigger] nb[j].wf() by {
                        if j < bs.len() {
                            assert(bs[j] == nb[j]);
                        }
                    }
                }
                OwnerHandle::at(slot)
            },
        }
    }

    /// A new owner of the same block as `h`. The value is shared, never duplicated.
    pub fn clone_owner(&mut self, h: &OwnerHandle) -> (r: OwnerHandle)
        requires
            old(self).wf(),
            old(self).owns(h),
            old(self)@[h.index() as int].strong < u64::MAX,
        ensures
            final(self).wf(),
            final(self)@ == old(self)@.update(h.index() as int, old(self)@[h.index() as int].cloned()),
            r.index() == h.index(),
    {
        let i = h.slot;
        proof {
            assert(self@[i as int].wf());
            self.lemma_set_block(i as int, self@[i as int].cloned());
        }
        let b = &mut self.blocks[i];
        b.strong = b.strong + 1;
        assert(self@ =~= old(self)@.update(i as int, old(self)@[i as int].cloned()));
        OwnerHandle::at(i)
    }

    /// Gives up the owner `h`. The last owner destroys the value, which is handed back;
    /// otherwise nothing is. A block left with neither owners nor observers is freed.
    pub fn release(&mut self, h: OwnerHandle) -> (r: Option<T>)
        requires
            old(self).wf(),
            old(self).owns(&h),
        ensures
            final(self).wf(),
            final(self)@ == old(self)@.update(h.index() as int, old(self)@[h.index() as int].released()),
            r == old(self)@[h.index() as int].destroyed_by_release(),
    {
        let i = h.slot;
        proof {
            assert(self@[i as int].wf());
            self.lemma_set_block(i as int, self@[i as int].released());
        }
        let b = &mut self.blocks[i];
        let r = if b.strong == 1 {
            b.strong = 0;
            b.value.take()
        } else {
            b.strong = b.strong - 1;
            None
        };
        let freed = b.strong == 0 && b.weak == 0;
        assert(self@ =~= old(self)@.update(i as int, old(self)@[i as int].released()));
        if freed {
            self.free.push(i);
        }
        r
    }

    /// A new observer of the block of `h`.
    pub fn downgrade(&mut self, h: &OwnerHandle) -> (w: WeakHandle)
        requires
            old(self).wf(),
            old(self).owns(h),
            old(self)@[h.index() as int].weak < u64::MAX,
        ensures
            final(self).wf(),
            final(self)@ == old(self)@.update(h.index() as int, old(self)@[h.index() as int].downgraded()),
            w.index() == h.index(),
    {
        let i = h.slot;
        proof {
            assert(self@[i as int].wf());
            self.lemma_set_block(i as int, self@[i as int].downgraded());
        }
        let b = &mut self.blocks[i];
        b.weak = b.weak + 1;
        assert(self@ =~= old(self)@.update(i as int, old(self)@[i as int].downgraded()));
        WeakHandle::at(i)
    }

    /// A new observer of the same block as `w`.
    pub fn clone_weak(&mut self, w: &WeakHandle) -> (r: WeakHandle)
        requires
            old(self).wf(),
            old(self).observes(w),
            old(self)@[w.index() as int].weak < u64::MAX,
        ensures
            final(self).wf(),
            final(self)@ == old(self)@.update(w.index() as int, old(self)@[w.index() as int].downgraded()),
            r.index() == w.index(),
    {
        let i = w.slot;
        proof {
            assert(self@[i as int].wf());
            self.lemma_set_block(i as int, self@[i as int].downgraded());
        }
        let b = &mut self.blocks[i];
        b.weak = b.weak + 1;
        assert(self@ =~= old(self)@.update(i as int, old(self)@[i as int].downgraded()));
        WeakHandle::at(i)
    }

    /// Gives up the observer `w`. Once neither owners nor observers are left, the block is
    /// freed.
    pub fn release_weak(&mut self, w: WeakHandle)
        requires
            old(self).wf(),
            old(self).observes(&w),
        ensures
            final(self).wf(),
            final(self)@ == old(self)@.update(w.index() as int, old(self)@[w.index() as int].weak_released()),
    {
        let i = w.slot;
        proof {
            assert(self@[i as int].wf());
            self.lemma_set_block(i as int, self@[i as int].weak_released());
        }
        let b = &mut self.blocks[i];
        b.weak = b.weak - 1;
        let freed = b.strong == 0 && b.weak == 0;
        assert(self@ =~= old(self)@.update(i as int, old(self)@[i as int].weak_released()));
        if freed {
            self.free.push(i);
        }
    }

    /// A new owner of the block that `w` observes, if its value is still alive; no owner and
    /// no change otherwise.
    pub fn upgrade(&mut self, w: &WeakHandle) -> (r: Option<OwnerHandle>)
        requires
            old(self).wf(),
            old(self).observes(w),
            old(self)@[w.index() as int].strong < u64::MAX,
        ensures
            final(self).wf(),
            r is Some <==> old(self)@[w.index() as int].upgraded() is Some,
            r is Some ==> r->0.index() == w.index(),
            final(self)@ == match old(self)@[w.index() as int].upgraded() {
                Some(b) => old(self)@.update(w.index() as int, b),
                None => old(self)@,
            },
    {
        let i = w.slot;
        if self.blocks[i].strong == 0 {
            None
        } else {
            let h = OwnerHandle::at(i);
            Some(self.clone_owner(&h))
        }
    }

    /// The number of owners of the block at `slot`.
    pub fn strong_count(&self, slot: usize) -> (r: u64)
        requires
            slot < self@.len(),
        ensures
            r as nat == self@[slot as int].strong,
    {
        self.blocks[slot].strong
    }

    /// The number of observers of the block at `slot`.
    pub fn weak_count(&self, slot: usize) -> (r: u64)
        requires
            slot < self@.len(),
        ensures
            r as nat == self@[slot as int].weak,
    {
        self.blocks[slot].weak
    }

    /// The life stage of the block at `slot`.
    pub fn block_state(&self, slot: usize) -> (r: BlockState)
        requires
            slot < self@.len(),
        ensures
            r == self@[slot as int].state(),
    {
        let b = &self.blocks[slot];
        if b.strong > 0 {
            BlockState::Alive
        } else if b.weak > 0 {
            BlockState::ValueDropped
        } else {
            BlockState::Freed
        }
    }

    /// The value that `h` owns.
    pub fn get(&self, h: &OwnerHandle) -> (r: &T)
        requires
            self.wf(),
            self.owns(h),
        ensures
            self@[h.index() as int].value == Some(*r),
    {
        assert(self@[h.slot as int].wf());
        self.blocks[h.slot].value.as_ref().unwrap()
    }
}

impl<U> Arena<BorrowCell<U>> {
    /// The cell that `h` owns, to borrow from. Through the cell's own methods its value
    /// changes only under its guards; putting a whole new cell in its place also resets the
    /// register, and is for when no guard is out.
    pub fn cell(&mut self, h: &OwnerHandle) -> (r: &mut BorrowCell<U>)
        requires
            old(self).wf(),
            old(self).owns(h),
        ensures
            old(self)@[h.index() as int].value == Some(*r),
            final(self)@ == old(self)@.update(
                h.index() as int,
                BlockModel {
                    value: Some(*final(r)),
                    strong: old(self)@[h.index() as int].strong,
                    weak: old(self)@[h.index() as int].weak,
                },
            ),
            final(self).wf(),
    {
        let i = h.slot;
        proof {
            assert(old(self)@[i as int].wf());
            assert forall|v: BorrowCell<U>| #![auto] layout_wf(
                old(self)@.update(i as int, BlockModel { value: Some(v), strong: old(self)@[i as int].strong, weak: old(self)@[i as int].weak }),
                old(self).free@,
            ) by {
                old(self).lemma_set_block(i as int, BlockModel { value: Some(v), strong: old(self)@[i as int].strong, weak: old(self)@[i as int].weak });
            }
        }
        let b = &mut self.blocks[i];
        b.value.as_mut().unwrap()
    }
}

/// The operations that handles perform on their control block.
#[derive(PartialEq, Eq, Structural, Clone, Copy, Debug)]
pub enum HandleOp {
    Clone,
    Release,
    Downgrade,
    CloneWeak,
    ReleaseWeak,
    Upgrade,
}

/// Whether a handle that can perform `op` on `b` may exist: owner operations need an owner,
/// observer operations an observer.
pub open spec fn allowed<T>(b: BlockModel<T>, op: HandleOp) -> bool {
    match op {
        HandleOp::Clone | HandleOp::Release | HandleOp::Downgrade => b.strong > 0,
        _ => b.weak > 0,
    }
}

/// The block after `op`, as the arena's operations leave it.
pub open spec fn apply<T>(b: BlockModel<T>, op: HandleOp) -> BlockModel<T> {
    match op {
        HandleOp::Clone => b.cloned(),
        HandleOp::Release => b.released(),
        HandleOp::Downgrade | HandleOp::CloneWeak => b.downgraded(),
        HandleOp::ReleaseWeak => b.weak_released(),
        HandleOp::Upgrade => match b.upgraded() {
            Some(u) => u,
            None => b,
        },
    }
}

/// The block after each of `ops` in turn.
pub open spec fn apply_all<T>(b: BlockModel<T>, ops: Seq<HandleOp>) -> BlockModel<T>
    decreases ops.len(),
{
    if ops.len() == 0 {
        b
    } else {
        apply(apply_all(b, ops.drop_last()), ops.last())
    }
}

/// Every operation of `ops` is performed by a handle that exists at that point.
pub open spec fn all_allowed<T>(b: BlockModel<T>, ops: Seq<HandleOp>) -> bool
    decreases ops.len(),
{
    if ops.len() == 0 {
        true
    } else {
        all_allowed(b, ops.drop_last()) && allowed(apply_all(b, ops.drop_last()), ops.last())
    }
}

/// How many of `ops` are `op`.
pub open spec fn occurrences(ops: Seq<HandleOp>, op: HandleOp) -> nat
    decreases ops.len(),
{
    if ops.len() == 0 {
        0
    } else {
        occurrences(ops.drop_last(), op) + if ops.last() == op {
            1nat
        } else {
            0nat
        }
    }
}

/// How many of `ops` destroy the value of the block, starting from `b`.
pub open spec fn destructions<T>(b: BlockModel<T>, ops: Seq<HandleOp>) -> nat
    decreases ops.len(),
{
    if ops.len() == 0 {
        0
    } else {
        destructions(b, ops.drop_last()) + if ops.last() == HandleOp::Release
            && apply_all(b, ops.drop_last()).destroyed_by_release() is Some {
            1nat
        } else {
            0nat
        }
    }
}

/// Clones and releases on a freshly allocated block: the owner count is always one plus the
/// clones less the releases, it is zero exactly when every handle is released, and the value
/// is destroyed once then and never before.
pub proof fn lemma_owner_count<T>(value: T, ops: Seq<HandleOp>)
    requires
        forall|k: int| 0 <= k < ops.len() ==> #[trigger] ops[k] == HandleOp::Clone || ops[k]
            == HandleOp::Release,
        all_allowed(BlockModel::fresh(value), ops),
    ensures
        apply_all(BlockModel::fresh(value), ops).strong == 1 + occurrences(ops, HandleOp::Clone)
            - occurrences(ops, HandleOp::Release),
        apply_all(BlockModel::fresh(value), ops).strong == 0 <==> occurrences(ops, HandleOp::Release)
            == 1 + occurrences(ops, HandleOp::Clone),
        apply_all(BlockModel::fresh(value), ops).wf(),
        apply_all(BlockModel::fresh(value), ops).weak == 0,
        destructions(BlockModel::fresh(value), ops) == if apply_all(BlockModel::fresh(value), ops).strong == 0 {
            1nat
        } else {
            0nat
        },
    decreases ops.len(),
{
    let b = BlockModel::fresh(value);
    if ops.len() > 0 {
        let prefix = ops.drop_last();
        assert forall|k: int| 0 <= k < prefix.len() implies #[trigger] prefix[k] == HandleOp::Clone
            || prefix[k] == HandleOp::Release by {
            assert(prefix[k] == ops[k]);
        }
        lemma_owner_count(value, prefix);
        assert(ops[ops.len() - 1] == HandleOp::Clone || ops[ops.len() - 1] == HandleOp::Release);
    }
}

/// Once the last owner is gone it stays gone: whatever the remaining observers do, every
/// upgrade finds no owner and the value is never back.
pub proof fn lemma_no_upgrade_after_last_release<T>(b: BlockModel<T>, ops: Seq<HandleOp>)
    requires
        b.wf(),
        b.strong == 0,
        all_allowed(b, ops),
    ensures
        apply_all(b, ops).strong == 0,
        apply_all(b, ops).value is None,
        apply_all(b, ops).upgraded() is None,
    decreases ops.len(),
{
    if ops.len() > 0 {
        lemma_no_upgrade_after_last_release(b, ops.drop_last());
    }
}

/// While an owner is left, an upgrade always succeeds and adds exactly one owner.
pub proof fn lemma_upgrade_while_owned<T>(b: BlockModel<T>)
    requires
        b.wf(),
        b.strong > 0,
    ensures
        b.upgraded() == Some(b.cloned()),
        apply(b, HandleOp::Upgrade).strong == b.strong + 1,
        apply(b, HandleOp::Upgrade).value == b.value,
{
}

} // verus!
