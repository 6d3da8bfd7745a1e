//! The allocator as its users see it: requests of a thread, served by the thread's
//! allocator and, where that has to be made or has run out, by the process-wide one.
//!
//! A request that the thread's allocator serves alone needs no lock. One that it cannot
//! serve stops with `Stop::Upstream`; it is then made again with the process-wide
//! allocator, which the caller has locked. A request stops as well where the world outside
//! has to act: where the heap has to grow (`Stop::Extend`), and where the thread's new
//! allocator needs its hook at the thread's exit (`Stop::Attach`). Whatever it stopped
//! for, a request that is made again goes on where it stopped.

use vstd::prelude::*;
use crate::block::Block;
use crate::brk::{Brk, Heap, Stop};
use crate::global::{
    global_init, GlobalAllocator, GlobalView, global_started, ARENA_ALIGN, ARENA_SIZE,
};
use crate::lazy_init::{LazyInit, MoveCell};
use crate::local::{
    lemma_fresh_keeps, lemma_local_allocated, lemma_local_fresh, lemma_local_freed,
    lemma_local_freed_keeps, lemma_reallocated, local_init, local_started, separate, LocalAllocator, LocalView,
};
use crate::pool::{
    lemma_remaining_clear, lemma_remaining_disjoint, lemma_resized, lemma_resized_clear,
    lemma_taken, remaining, taken,
};

verus! {

/// The process-wide allocator, made from the heap when a thread first needs it. It belongs
/// behind the one lock of the process.
pub type GlobalCell = LazyInit<Brk, GlobalAllocator>;

/// The allocator of one thread, made at the thread's first request.
pub type ThreadSlot = MoveCell<LazyInit<(), LocalAllocator>>;

/// What a thread's slot holds.
pub type SlotView = LazyInit<(), LocalView>;

/// What the process-wide cell holds.
pub type CellView = LazyInit<Heap, GlobalView>;

/// What is known of the heap.
pub open spec fn heap_of(c: CellView) -> Heap {
    match c {
        LazyInit::Uninitialized(heap) => heap,
        LazyInit::Initialized(g) => g.heap,
        LazyInit::Disarmed => Heap::Unasked,
    }
}

/// The cell with a heap of which nothing is known.
pub open spec fn unasked(c: CellView) -> CellView {
    match c {
        LazyInit::Uninitialized(heap) => LazyInit::Uninitialized(Heap::Unasked),
        LazyInit::Initialized(g) => LazyInit::Initialized(
            GlobalView { free: g.free, arena: g.arena, heap: Heap::Unasked },
        ),
        LazyInit::Disarmed => LazyInit::Disarmed,
    }
}

/// The slot holds its own content, not a stand-in, and an allocator in it is well formed.
pub open spec fn slot_wf(s: SlotView) -> bool {
    match s {
        LazyInit::Uninitialized(_) => true,
        LazyInit::Initialized(l) => l.wf(),
        LazyInit::Disarmed => false,
    }
}

/// The heap or the allocator in the cell is well formed.
pub open spec fn cell_wf(c: CellView) -> bool {
    match c {
        LazyInit::Uninitialized(heap) => heap.wf(),
        LazyInit::Initialized(g) => g.wf(),
        LazyInit::Disarmed => false,
    }
}

/// Slot and cell are well formed, and a thread's allocator has a process-wide one, made
/// before it, with which it has no byte in common.
pub open spec fn sound(s: SlotView, c: CellView) -> bool {
    &&& slot_wf(s)
    &&& cell_wf(c)
    &&& s matches LazyInit::Initialized(l) ==> c matches LazyInit::Initialized(g) && separate(l, g)
}

/// The block of `size` bytes at `addr` can be given to the allocator in the slot, if there
/// is one.
pub open spec fn takes(s: SlotView, addr: usize, size: usize) -> bool {
    &&& addr + size <= usize::MAX
    &&& s matches LazyInit::Initialized(l) ==> l.accepts(Block { addr, size })
}

/// What a thread's allocator says where it is asked before it is attached.
pub open spec fn ready(l: LocalView) -> Result<(), Stop> {
    if l.attached {
        Ok(())
    } else {
        Err(Stop::Attach)
    }
}

/// Slot and cell after the thread's allocator was made from the process-wide allocator
/// `g`, if it was not made before; and whether the thread's allocator can be used.
pub open spec fn woken_local(s: SlotView, g: GlobalView) -> (SlotView, CellView, Result<(), Stop>) {
    match s {
        LazyInit::Initialized(l) => (s, LazyInit::Initialized(g), ready(l)),
        _ => {
            let (g, got) = local_started(g);
            match got {
                Ok(l) => (LazyInit::Initialized(l), LazyInit::Initialized(g), ready(l)),
                Err(stop) => (s, LazyInit::Initialized(g), Err(stop)),
            }
        },
    }
}

/// Slot and cell after both allocators were made, as far as they had not been made
/// before: the process-wide one first, from the heap, then the thread's from it. And
/// whether the thread's allocator can be used, or why not yet.
pub open spec fn woken(s: SlotView, c: CellView) -> (SlotView, CellView, Result<(), Stop>) {
    match c {
        LazyInit::Initialized(g) => woken_local(s, g),
        _ => {
            let (heap, got) = global_started(heap_of(c));
            match got {
                Ok(g) => woken_local(s, g),
                Err(stop) => (s, LazyInit::Uninitialized(heap), Err(stop)),
            }
        },
    }
}

/// The slot after a request for `size` bytes at a multiple of `align` that the thread's
/// allocator serves alone, and the address of the block that it got, or why it stopped.
pub open spec fn allocated_locally(s: SlotView, size: usize, align: usize) -> (
    SlotView,
    Result<usize, Stop>,
) {
    match s {
        LazyInit::Initialized(l) => match ready(l) {
            Ok(()) => match taken(l.free, size, align) {
                Some(b) => (
                    LazyInit::Initialized(l.with_free(remaining(l.free, size, align))),
                    Ok(b.addr),
                ),
                None => (s, Err(Stop::Upstream)),
            },
            Err(stop) => (s, Err(stop)),
        },
        _ => (s, Err(Stop::Upstream)),
    }
}

/// Slot and cell after a request for `size` bytes at a multiple of `align` that may go
/// upstream, and the address of the block that it got, or why it stopped.
pub open spec fn allocated(s: SlotView, c: CellView, size: usize, align: usize) -> (
    SlotView,
    CellView,
    Result<usize, Stop>,
) {
    let (s, c, up) = woken(s, c);
    match up {
        Ok(()) => {
            let l = s->Initialized_0;
            let g = c->Initialized_0;
            match taken(l.free, size, align) {
                Some(b) => (
                    LazyInit::Initialized(l.with_free(remaining(l.free, size, align))),
                    c,
                    Ok(b.addr),
                ),
                None => {
                    let (l, g, got) = l.fresh(g, size, align);
                    (
                        LazyInit::Initialized(l),
                        LazyInit::Initialized(g),
                        match got {
                            Ok(b) => Ok(b.addr),
                            Err(stop) => Err(stop),
                        },
                    )
                },
            }
        },
        Err(stop) => (s, c, Err(stop)),
    }
}

/// The slot after the thread's allocator took back the block of `size` bytes at `addr`.
pub open spec fn freed(s: SlotView, addr: usize, size: usize) -> (SlotView, Result<(), Stop>) {
    match s {
        LazyInit::Initialized(l) => match ready(l) {
            Ok(()) => (LazyInit::Initialized(l.freed(Block { addr, size })), Ok(())),
            Err(stop) => (s, Err(stop)),
        },
        _ => (s, Err(Stop::Upstream)),
    }
}

/// The slot after the block of `old_size` bytes at `addr` was brought to `size` bytes
/// where it lies, and whether it could be.
pub open spec fn resized_inplace(s: SlotView, addr: usize, old_size: usize, size: usize) -> (
    SlotView,
    Result<Result<(), ()>, Stop>,
) {
    match s {
        LazyInit::Initialized(l) => match ready(l) {
            Ok(()) => {
                let (l, got) = l.resized(Block { addr, size: old_size }, size);
                (
                    LazyInit::Initialized(l),
                    Ok(
                        match got {
                            Ok(_) => Ok(()),
                            Err(_) => Err(()),
                        },
                    ),
                )
            },
            Err(stop) => (s, Err(stop)),
        },
        _ => (s, Err(Stop::Upstream)),
    }
}

/// The slot after the block of `old_size` bytes at `addr` was brought to `size` bytes at
/// a multiple of `align` by the thread's allocator alone, and the address of the block
/// that came of it, or why the request stopped.
pub open spec fn reallocated_locally(
    s: SlotView,
    addr: usize,
    old_size: usize,
    size: usize,
    align: usize,
) -> (SlotView, Result<usize, Stop>) {
    match s {
        LazyInit::Initialized(l) => match ready(l) {
            Ok(()) => {
                let (l, got) = l.reallocated(Block { addr, size: old_size }, size, align);
                match got {
                    Ok(b) => (LazyInit::Initialized(l), Ok(b.addr)),
                    Err(_) => (s, Err(Stop::Upstream)),
                }
            },
            Err(stop) => (s, Err(stop)),
        },
        _ => (s, Err(Stop::Upstream)),
    }
}

/// Slot and cell after the block of `old_size` bytes at `addr` was brought to `size`
/// bytes at a multiple of `align` by a request that may go upstream, and the address of
/// the block that came of it, or why the request stopped: where the thread's free list
/// has no room, the new block comes from upstream, and the old one is given back to the
/// thread's allocator.
pub open spec fn reallocated(
    s: SlotView,
    c: CellView,
    addr: usize,
    old_size: usize,
    size: usize,
    align: usize,
) -> (SlotView, CellView, Result<usize, Stop>) {
    let (s, c, up) = woken(s, c);
    match up {
        Ok(()) => {
            let l = s->Initialized_0;
            let g = c->Initialized_0;
            let block = Block { addr, size: old_size };
            let (l1, got) = l.reallocated(block, size, align);
            match got {
                Ok(b) => (LazyInit::Initialized(l1), c, Ok(b.addr)),
                Err(_) => {
                    let (l, g, got) = l.fresh(g, size, align);
                    match got {
                        Ok(b) => (
                            LazyInit::Initialized(l.freed(block)),
                            LazyInit::Initialized(g),
                            Ok(b.addr),
                        ),
                        Err(stop) => (
                            LazyInit::Initialized(l),
                            LazyInit::Initialized(g),
                            Err(stop),
                        ),
                    }
                },
            }
        },
        Err(stop) => (s, c, Err(stop)),
    }
}

/// The block of `size` bytes at `addr` can be given to the process-wide allocator, if
/// there is one.
pub open spec fn upstream_takes(c: CellView, addr: usize, size: usize) -> bool {
    c matches LazyInit::Initialized(g) ==> g.accepts(Block { addr, size })
}

/// All that the allocators hold ends at or below `addr`.
pub open spec fn below(s: SlotView, c: CellView, addr: int) -> bool {
    &&& s matches LazyInit::Initialized(l) ==> l.below(addr)
    &&& c matches LazyInit::Initialized(g) ==> g.below(addr)
}

/// The cell with `heap` for what is known of the heap.
pub open spec fn with_heap(c: CellView, heap: Heap) -> CellView {
    match c {
        LazyInit::Initialized(g) => LazyInit::Initialized(
            GlobalView { free: g.free, arena: g.arena, heap },
        ),
        _ => LazyInit::Uninitialized(heap),
    }
}

/// Takes the content of the slot to work on it, and leaves a stand-in from which nothing
/// can be made: should the work come back to the slot, it finds no allocator half made.
fn get_allocator(slot: &mut ThreadSlot) -> (cell: LazyInit<(), LocalAllocator>)
    ensures
        cell@ == old(slot)@,
        final(slot)@ is Disarmed,
{
    slot.replace(LazyInit::disarmed())
}

/// Puts the content of the slot back after the work on it.
fn put_allocator(slot: &mut ThreadSlot, cell: LazyInit<(), LocalAllocator>)
    ensures
        final(slot)@ == cell@,
{
    let _ = slot.replace(cell);
}

/// An empty cell for the process-wide allocator, with a heap that was not asked yet.
pub fn new_global() -> (r: GlobalCell)
    ensures
        r@ == LazyInit::<Heap, GlobalView>::Uninitialized(Heap::Unasked),
{
    LazyInit::new(Brk::new())
}

/// An empty slot for a thread.
pub fn new_slot() -> (r: ThreadSlot)
    ensures
        r@ == LazyInit::<(), LocalView>::Uninitialized(()),
{
    MoveCell::new(LazyInit::new(()))
}

/// Asks for `size` bytes at a multiple of `align`, of the thread's allocator alone: the
/// address of the block, from its free list. Stops where the allocator is not made or not
/// attached yet, and where its free list holds no such block; nothing has changed then.
pub fn allocate(slot: &mut ThreadSlot, size: usize, align: usize) -> (r: Result<usize, Stop>)
    requires
        slot_wf(old(slot)@),
        align > 0,
    ensures
        slot_wf(final(slot)@),
        (final(slot)@, r) == allocated_locally(old(slot)@, size, align),
        r matches Ok(addr) ==> addr as int % align as int == 0 && takes(final(slot)@, addr, size),
{
    let cell = get_allocator(slot);
    let (cell, r) = match cell {
        LazyInit::Initialized(mut local) => {
            proof {
                lemma_taken(local@.free, size, align);
                lemma_remaining_clear(local@.free, size, align, local@.arena);
            }
            let r = if !local.is_attached() {
                Err(Stop::Attach)
            } else {
                match local.allocate(size, align) {
                    Some(block) => Ok(block.addr),
                    None => Err(Stop::Upstream),
                }
            };
            (LazyInit::Initialized(local), r)
        },
        other => (other, Err(Stop::Upstream)),
    };
    put_allocator(slot, cell);
    r
}

/// Takes the content of the cell to work on it.
fn get_global(global: &mut GlobalCell) -> (cell: GlobalCell)
    ensures
        cell@ == old(global)@,
{
    let mut cell = LazyInit::disarmed();
    core::mem::swap(global, &mut cell);
    cell
}

/// New memory, if the heap holds any, is what the next allocator to be made asks for.
pub open spec fn wakes(s: SlotView, c: CellView) -> bool {
    match c {
        LazyInit::Initialized(g) => !(s is Initialized) ==> g.expects(ARENA_SIZE, ARENA_ALIGN),
        _ => heap_of(c).answers(ARENA_SIZE, ARENA_ALIGN),
    }
}

/// Makes the allocators that are not made yet: the process-wide one from the heap, then
/// the thread's from the process-wide one.
fn wake(cell: LazyInit<(), LocalAllocator>, global: GlobalCell) -> (r: (
    LazyInit<(), LocalAllocator>,
    GlobalCell,
    Result<(), Stop>,
))
    requires
        sound(cell@, global@),
        wakes(cell@, global@),
    ensures
        sound(r.0@, r.1@),
        (r.0@, r.1@, r.2) == woken(cell@, global@),
        r.2 is Ok ==> r.0@ is Initialized && r.1@ is Initialized,
{
    let mut g = match global {
        LazyInit::Initialized(g) => g,
        LazyInit::Uninitialized(brk) => match global_init(brk) {
            Ok(g) => g,
            Err((brk, stop)) => {
                return (cell, LazyInit::Uninitialized(brk), Err(stop));
            },
        },
        LazyInit::Disarmed => vstd::pervasive::unreached(),
    };
    let (cell, r) = match cell {
        LazyInit::Initialized(local) => {
            let r = if local.is_attached() {
                Ok(())
            } else {
                Err(Stop::Attach)
            };
            (LazyInit::Initialized(local), r)
        },
        other => match local_init(&mut g) {
            Ok(local) => (LazyInit::Initialized(local), Err(Stop::Attach)),
            Err(stop) => (other, Err(stop)),
        },
    };
    (cell, LazyInit::Initialized(g), r)
}

/// Makes the allocators that are not made yet: the process-wide one from the heap, then
/// the thread's from the process-wide one. Stops where the heap has to grow, and where the
/// thread's allocator is to be attached.
///
/// New memory is supplied only in answer: the heap holds some only where the same call
/// would without it stop to have the heap grow by as many bytes.
pub fn init(slot: &mut ThreadSlot, global: &mut GlobalCell) -> (r: Result<(), Stop>)
    requires
        sound(old(slot)@, old(global)@),
        heap_of(old(global)@) matches Heap::Extended { addr, size: n } ==> woken(
            old(slot)@,
            unasked(old(global)@),
        ).2 == Err::<(), Stop>(Stop::Extend(n)),
    ensures
        sound(final(slot)@, final(global)@),
        (final(slot)@, final(global)@, r) == woken(old(slot)@, old(global)@),
{
    let cell = get_allocator(slot);
    let (cell, woke, r) = wake(cell, get_global(global));
    *global = woke;
    put_allocator(slot, cell);
    r
}

/// Asks for `size` bytes at a multiple of `align`: the address of the block, from the
/// free list of the thread's allocator where it holds one, else from upstream. Makes the
/// allocators that are not made yet. Stops where the heap has to grow, or cannot, and
/// where the thread's allocator is to be attached.
///
/// New memory is supplied only in answer: the heap holds some only where the same call
/// would without it stop to have the heap grow by as many bytes.
#[verifier::rlimit(40)]
pub fn allocate_upstream(
    slot: &mut ThreadSlot,
    global: &mut GlobalCell,
    size: usize,
    align: usize,
) -> (r: Result<usize, Stop>)
    requires
        sound(old(slot)@, old(global)@),
        align > 0,
        heap_of(old(global)@) matches Heap::Extended { addr, size: n } ==> allocated(
            old(slot)@,
            unasked(old(global)@),
            size,
            align,
        ).2 == Err::<usize, Stop>(Stop::Extend(n)),
    ensures
        sound(final(slot)@, final(global)@),
        (final(slot)@, final(global)@, r) == allocated(old(slot)@, old(global)@, size, align),
        r matches Ok(addr) ==> addr as int % align as int == 0 && takes(final(slot)@, addr, size)
            && upstream_takes(final(global)@, addr, size),
{
    let cell = get_allocator(slot);
    let (cell, woke, up) = wake(cell, get_global(global));
    let (cell, woke, r) = match up {
        Ok(()) => {
            let mut local = cell.into_inner();
            let mut g = woke.into_inner();
            proof {
                lemma_remaining_disjoint(g@.free, local@.free, size, align);
                lemma_remaining_clear(local@.free, size, align, g@.arena);
                if taken(local@.free, size, align) is Some {
                    lemma_local_allocated(local@, g@, size, align);
                } else {
                    lemma_local_fresh(local@, g@, size, align);
                }
            }
            let r = match local.allocate(size, align) {
                Some(block) => Ok(block.addr),
                None => match local.alloc_fresh(&mut g, size, align) {
                    Ok(block) => Ok(block.addr),
                    Err(stop) => Err(stop),
                },
            };
            (LazyInit::Initialized(local), LazyInit::Initialized(g), r)
        },
        Err(stop) => (cell, woke, Err(stop)),
    };
    *global = woke;
    put_allocator(slot, cell);
    r
}

/// Gives back the block of `size` bytes at `addr` to the thread's allocator. Stops where
/// that allocator is not made or not attached yet; nothing has changed then.
///
/// The block is one that was handed out with this size, or resized to it, and is in use
/// no longer.
pub fn free(slot: &mut ThreadSlot, addr: usize, size: usize) -> (r: Result<(), Stop>)
    requires
        slot_wf(old(slot)@),
        takes(old(slot)@, addr, size),
    ensures
        slot_wf(final(slot)@),
        (final(slot)@, r) == freed(old(slot)@, addr, size),
{
    let cell = get_allocator(slot);
    let (cell, r) = match cell {
        LazyInit::Initialized(mut local) => {
            let r = if !local.is_attached() {
                Err(Stop::Attach)
            } else {
                local.free(Block::from_raw_parts(addr, size));
                Ok(())
            };
            (LazyInit::Initialized(local), r)
        },
        other => (other, Err(Stop::Upstream)),
    };
    put_allocator(slot, cell);
    r
}

/// Brings the block of `old_size` bytes at `addr` to `size` bytes at a multiple of
/// `align`, by the thread's allocator alone: the address of the block that came of it,
/// which is `addr` where the block could stay. Stops where the allocator is not made or
/// not attached yet, and where its free list has no room; nothing has changed then.
///
/// The block is one that was handed out with the size `old_size`, or resized to it.
pub fn realloc(slot: &mut ThreadSlot, addr: usize, old_size: usize, size: usize, align: usize) -> (r:
    Result<usize, Stop>)
    requires
        slot_wf(old(slot)@),
        takes(old(slot)@, addr, old_size),
        align > 0,
    ensures
        slot_wf(final(slot)@),
        (final(slot)@, r) == reallocated_locally(old(slot)@, addr, old_size, size, align),
        r matches Ok(to) ==> to as int % align as int == 0 && takes(final(slot)@, to, size),
{
    let cell = get_allocator(slot);
    let (cell, r) = match cell {
        LazyInit::Initialized(mut local) => {
            proof {
                lemma_reallocated(local@, arbitrary(), Block { addr, size: old_size }, size, align);
            }
            let r = if !local.is_attached() {
                Err(Stop::Attach)
            } else {
                match local.realloc(Block::from_raw_parts(addr, old_size), size, align) {
                    Ok(block) => Ok(block.addr),
                    Err(_) => Err(Stop::Upstream),
                }
            };
            (LazyInit::Initialized(local), r)
        },
        other => (other, Err(Stop::Upstream)),
    };
    put_allocator(slot, cell);
    r
}

/// Brings the block of `old_size` bytes at `addr` to `size` bytes at a multiple of
/// `align`: where the thread's free list has no room for it, the new block comes from
/// upstream, and the old one is given back to the thread's allocator. Makes the allocators
/// that are not made yet. Stops where the heap has to grow, or cannot, and where the
/// thread's allocator is to be attached; the block is then as it was.
///
/// The block is one that was handed out with the size `old_size`, or resized to it. New
/// memory is supplied only in answer: the heap holds some only where the same call would
/// without it stop to have the heap grow by as many bytes.
#[verifier::rlimit(40)]
pub fn realloc_upstream(
    slot: &mut ThreadSlot,
    global: &mut GlobalCell,
    addr: usize,
    old_size: usize,
    size: usize,
    align: usize,
) -> (r: Result<usize, Stop>)
    requires
        sound(old(slot)@, old(global)@),
        takes(old(slot)@, addr, old_size),
        upstream_takes(old(global)@, addr, old_size),
        align > 0,
        heap_of(old(global)@) matches Heap::Extended { addr: at, size: n } ==> reallocated(
            old(slot)@,
            unasked(old(global)@),
            addr,
            old_size,
            size,
            align,
        ).2 == Err::<usize, Stop>(Stop::Extend(n)),
    ensures
        sound(final(slot)@, final(global)@),
        (final(slot)@, final(global)@, r) == reallocated(
            old(slot)@,
            old(global)@,
            addr,
            old_size,
            size,
            align,
        ),
        r matches Ok(to) ==> to as int % align as int == 0 && takes(final(slot)@, to, size),
{
    let cell = get_allocator(slot);
    let (cell, woke, up) = wake(cell, get_global(global));
    let (cell, woke, r) = match up {
        Ok(()) => {
            let mut local = cell.into_inner();
            let mut g = woke.into_inner();
            let ghost l = local@;
            let ghost block = Block { addr, size: old_size };
            proof {
                lemma_reallocated(l, g@, block, size, align);
            }
            let r = match local.realloc(Block::from_raw_parts(addr, old_size), size, align) {
                Ok(block) => Ok(block.addr),
                Err(block) => {
                    proof {
                        lemma_local_fresh(l, g@, size, align);
                        lemma_fresh_keeps(l, g@, size, align, block);
                    }
                    match local.alloc_fresh(&mut g, size, align) {
                        Ok(fresh) => {
                            proof {
                                lemma_local_freed(local@, block, g@);
                                lemma_local_freed_keeps(local@, block, fresh);
                            }
                            local.free(block);
                            Ok(fresh.addr)
                        },
                        Err(stop) => Err(stop),
                    }
                },
            };
            (LazyInit::Initialized(local), LazyInit::Initialized(g), r)
        },
        Err(stop) => (cell, woke, Err(stop)),
    };
    *global = woke;
    put_allocator(slot, cell);
    r
}

/// Brings the block of `old_size` bytes at `addr` to `size` bytes where it lies: `Ok(())`
/// inside where it could be, `Err(())` inside where the bytes behind it are not free, and
/// nothing has changed. Stops where the thread's allocator is not made or not attached
/// yet.
///
/// The block is one that was handed out with the size `old_size`, or resized to it.
pub fn realloc_inplace(slot: &mut ThreadSlot, addr: usize, old_size: usize, size: usize) -> (r:
    Result<Result<(), ()>, Stop>)
    requires
        slot_wf(old(slot)@),
        takes(old(slot)@, addr, old_size),
    ensures
        slot_wf(final(slot)@),
        (final(slot)@, r) == resized_inplace(old(slot)@, addr, old_size, size),
        r matches Ok(Ok(_)) ==> takes(final(slot)@, addr, size),
        !(r matches Ok(Ok(_))) ==> final(slot)@ == old(slot)@,
{
    let cell = get_allocator(slot);
    let (cell, r) = match cell {
        LazyInit::Initialized(mut local) => {
            proof {
                lemma_resized(local@.free, Block { addr, size: old_size }, size);
                lemma_resized_clear(
                    local@.free,
                    Block { addr, size: old_size },
                    size,
                    local@.arena,
                );
            }
            let r = if !local.is_attached() {
                Err(Stop::Attach)
            } else {
                if local.realloc_inplace(Block::from_raw_parts(addr, old_size), size).is_ok() {
                    Ok(Ok(()))
                } else {
                    Ok(Err(()))
                }
            };
            (LazyInit::Initialized(local), r)
        },
        other => (other, Err(Stop::Upstream)),
    };
    put_allocator(slot, cell);
    r
}

/// Attaches the thread's new allocator to the exit of its thread, where `supported` says
/// that the platform runs hooks at a thread's exit: the hook to register is `detach`.
/// `Err` where it runs none; the allocator then stays unattached and serves no request.
pub fn attach(slot: &mut ThreadSlot, supported: bool) -> (r: Result<(), ()>)
    requires
        slot_wf(old(slot)@),
        old(slot)@ matches LazyInit::Initialized(l) && !l.attached,
    ensures
        slot_wf(final(slot)@),
        r is Ok <==> supported,
        final(slot)@ == LazyInit::<(), LocalView>::Initialized(
            LocalView {
                free: old(slot)@->Initialized_0.free,
                arena: old(slot)@->Initialized_0.arena,
                attached: supported,
            },
        ),
{
    let cell = get_allocator(slot);
    let mut local = cell.into_inner();
    let r = local.attach(supported);
    put_allocator(slot, LazyInit::Initialized(local));
    r
}

/// Ends the thread's allocator with its thread: all that it holds goes to the
/// process-wide allocator, and the slot is empty again. Nothing happens where the thread
/// has no allocator.
pub fn detach(slot: &mut ThreadSlot, global: &mut GlobalCell)
    requires
        sound(old(slot)@, old(global)@),
    ensures
        sound(final(slot)@, final(global)@),
        final(slot)@ == LazyInit::<(), LocalView>::Uninitialized(()),
        final(global)@ == (match old(slot)@ {
            LazyInit::Initialized(l) => LazyInit::Initialized(
                old(global)@->Initialized_0.reclaimed(l),
            ),
            _ => old(global)@,
        }),
{
    let cell = get_allocator(slot);
    match cell {
        LazyInit::Initialized(local) => {
            let mut g = get_global(global).into_inner();
            local.detach(&mut g);
            *global = LazyInit::Initialized(g);
        },
        _ => {},
    }
    put_allocator(slot, LazyInit::new(()));
}

/// Takes the platform's answer to a request for `n` more bytes of heap: `reported` is
/// what its program-break call handed back.
///
/// The heap was asked, and it grows upwards: memory that it newly hands out lies in the
/// address space, above all that the allocators hold.
pub fn supply(slot: &ThreadSlot, global: &mut GlobalCell, n: usize, reported: usize)
    requires
        sound(slot@, old(global)@),
        heap_of(old(global)@) is Unasked,
        reported != crate::sys::BRK_FAILED ==> reported + n <= usize::MAX && below(
            slot@,
            old(global)@,
            reported as int,
        ),
    ensures
        sound(slot@, final(global)@),
        reported == crate::sys::BRK_FAILED ==> final(global)@ == with_heap(
            old(global)@,
            Heap::Refused,
        ),
        reported != crate::sys::BRK_FAILED ==> final(global)@ == with_heap(
            old(global)@,
            Heap::Extended { addr: reported, size: n },
        ),
{
    match get_global(global) {
        LazyInit::Initialized(mut g) => {
            g.supply(n, reported);
            *global = LazyInit::Initialized(g);
        },
        LazyInit::Uninitialized(mut brk) => {
            brk.supply(n, reported);
            *global = LazyInit::Uninitialized(brk);
        },
        LazyInit::Disarmed => {},
    }
}

/// What is known of the heap.
pub fn heap(global: &GlobalCell) -> (r: Heap)
    ensures
        r == heap_of(global@),
{
    match global {
        LazyInit::Initialized(g) => g.heap(),
        LazyInit::Uninitialized(brk) => brk.answer(),
        LazyInit::Disarmed => Heap::Unasked,
    }
}

/// Whether a thread's allocator has a process-wide one with which it has no byte in
/// common.
pub fn is_sound(slot: &ThreadSlot, global: &GlobalCell) -> (r: bool)
    requires
        slot_wf(slot@),
        cell_wf(global@),
    ensures
        r == sound(slot@, global@),
{
    match slot.borrow() {
        LazyInit::Initialized(local) => match global {
            LazyInit::Initialized(g) => local.is_separate_from(g),
            _ => false,
        },
        _ => true,
    }
}

/// Whether all that the allocators hold ends at or below `addr`, as it does where `addr`
/// is the start of memory that the heap newly hands out.
pub fn ends_below(slot: &ThreadSlot, global: &GlobalCell, addr: usize) -> (r: bool)
    requires
        slot_wf(slot@),
        cell_wf(global@),
    ensures
        r == below(slot@, global@, addr as int),
{
    let mine = match slot.borrow() {
        LazyInit::Initialized(local) => local.ends_below(addr),
        _ => true,
    };
    let theirs = match global {
        LazyInit::Initialized(g) => g.ends_below(addr),
        _ => true,
    };
    mine && theirs
}

/// Whether the block of `size` bytes at `addr` can be given to the thread's allocator, if
/// there is one.
pub fn can_take(slot: &ThreadSlot, addr: usize, size: usize) -> (r: bool)
    requires
        slot_wf(slot@),
    ensures
        r == takes(slot@, addr, size),
{
    if size > usize::MAX - addr {
        return false;
    }
    match slot.borrow() {
        LazyInit::Initialized(local) => local.can_take(&Block::from_raw_parts(addr, size)),
        _ => true,
    }
}

/// Whether the block of `size` bytes at `addr` can be given to the process-wide
/// allocator, if there is one.
pub fn upstream_can_take(global: &GlobalCell, addr: usize, size: usize) -> (r: bool)
    requires
        cell_wf(global@),
        addr + size <= usize::MAX,
    ensures
        r == upstream_takes(global@, addr, size),
{
    match global {
        LazyInit::Initialized(g) => g.can_take(&Block::from_raw_parts(addr, size)),
        _ => true,
    }
}

} // verus!
