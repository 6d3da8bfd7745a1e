//! Whose a byte is: a block is held by one allocator, or in use, never both and never
//! twice. What a request hands out was held by an allocator and is nobody else's; what is
//! in use stays out of every free list until it is given back.

use vstd::prelude::*;
use crate::allocator::{
    allocated, allocated_locally, freed, heap_of, reallocated, reallocated_locally,
    resized_inplace, sound, unasked, wakes, with_heap, woken, CellView, SlotView,
};
use crate::block::Block;
use crate::brk::Heap;
use crate::global::{lemma_global_started, lemma_global_started_keeps, global_started, GlobalView};
use crate::laws::{answered, lemma_answered_fresh, lemma_answered_wakes};
use crate::lazy_init::LazyInit;
use crate::local::{
    lemma_fresh_keeps, lemma_local_allocated, lemma_local_allocated_keeps, lemma_local_fresh,
    lemma_local_freed, lemma_local_freed_keeps, lemma_local_reallocated_keeps,
    lemma_local_resized_keeps, lemma_local_started_keeps, lemma_reallocated, lemma_reclaimed,
    lemma_reclaimed_keeps, LocalView,
};
use crate::pool::{lemma_resized, lemma_resized_under, taken};

verus! {

/// `x` is neither the thread's nor the process's: a real block of which neither allocator
/// holds a byte, and which lies below new memory of the heap. Such is a block in use, and
/// such is every block of another thread's allocator.
pub open spec fn foreign(x: Block, s: SlotView, c: CellView) -> bool {
    &&& x.valid()
    &&& s matches LazyInit::Initialized(l) ==> l.accepts(x)
    &&& c matches LazyInit::Initialized(g) ==> g.accepts(x)
    &&& heap_of(c) matches Heap::Extended { addr, size } ==> x.end() <= addr
}

/// Making the allocators takes nothing that is not theirs: a block that was neither's is
/// neither's afterwards.
pub proof fn law_init_custody(s: SlotView, c: CellView, x: Block)
    requires
        sound(s, c),
        wakes(s, c),
        foreign(x, s, c),
    ensures
        foreign(x, woken(s, c).0, woken(s, c).1),
{
    match c {
        LazyInit::Initialized(g) => {
            if !(s is Initialized) {
                lemma_local_started_keeps(g, x);
            }
        },
        _ => {
            lemma_global_started(heap_of(c));
            lemma_global_started_keeps(heap_of(c), x);
            if let Ok(g) = global_started(heap_of(c)).1 {
                lemma_local_started_keeps(g, x);
            }
        },
    }
}

/// A request for memory hands out what was the allocators' and is nobody's now: the block
/// shares no byte with a block that was neither allocator's, which is still neither's; and
/// the block itself can be given back to either.
pub proof fn law_allocate_custody(s: SlotView, c: CellView, size: usize, align: usize, x: Block)
    requires
        sound(s, c),
        align > 0,
        answered(c, allocated(s, unasked(c), size, align).2),
        foreign(x, s, c),
    ensures
        ({
            let (s1, c1, got) = allocated(s, c, size, align);
            &&& foreign(x, s1, c1)
            &&& got matches Ok(addr) ==> (Block { addr, size }).apart(x) && foreign(
                Block { addr, size },
                s1,
                c1,
            )
        }),
{
    let stop = allocated(s, unasked(c), size, align).2;
    lemma_answered_wakes(s, c, stop);
    law_init_custody(s, c, x);
    if woken(s, c).2 is Ok {
        let l = s->Initialized_0;
        let g = c->Initialized_0;
        if taken(l.free, size, align) is Some {
            lemma_local_allocated(l, g, size, align);
            lemma_local_allocated_keeps(l, size, align, x);
        } else {
            lemma_answered_fresh(l, g, size, align, stop);
            lemma_local_fresh(l, g, size, align);
            lemma_fresh_keeps(l, g, size, align, x);
        }
    }
}

/// A request for memory that the thread's allocator serves alone hands out what was the
/// thread's and is nobody's now.
pub proof fn law_allocate_locally_custody(
    s: SlotView,
    c: CellView,
    size: usize,
    align: usize,
    x: Block,
)
    requires
        sound(s, c),
        align > 0,
        foreign(x, s, c),
    ensures
        ({
            let (s1, got) = allocated_locally(s, size, align);
            &&& foreign(x, s1, c)
            &&& got matches Ok(addr) ==> (Block { addr, size }).apart(x) && foreign(
                Block { addr, size },
                s1,
                c,
            )
        }),
{
    if let LazyInit::Initialized(l) = s {
        if l.attached && taken(l.free, size, align) is Some {
            lemma_local_allocated(l, c->Initialized_0, size, align);
            lemma_local_allocated_keeps(l, size, align, x);
        }
    }
}

/// A block that is given back becomes the thread's and nobody else's: a block that shares
/// no byte with it, and was neither allocator's, is still neither's.
pub proof fn law_free_custody(s: SlotView, c: CellView, addr: usize, size: usize, x: Block)
    requires
        sound(s, c),
        foreign(Block { addr, size }, s, c),
        foreign(x, s, c),
        x.apart(Block { addr, size }),
    ensures
        sound(freed(s, addr, size).0, c),
        foreign(x, freed(s, addr, size).0, c),
{
    if let LazyInit::Initialized(l) = s {
        lemma_local_freed(l, Block { addr, size }, c->Initialized_0);
        lemma_local_freed_keeps(l, Block { addr, size }, x);
    }
}

/// A block that is resized where it lies takes from the thread's allocator, or gives to
/// it, and touches nothing else: the resized block is nobody's, and a block that shared
/// no byte with it, and was neither allocator's, shares none with it now and is still
/// neither's.
pub proof fn law_realloc_inplace_custody(
    s: SlotView,
    c: CellView,
    addr: usize,
    old_size: usize,
    size: usize,
    x: Block,
)
    requires
        sound(s, c),
        foreign(Block { addr, size: old_size }, s, c),
        foreign(x, s, c),
        x.apart(Block { addr, size: old_size }),
    ensures
        ({
            let (s1, got) = resized_inplace(s, addr, old_size, size);
            &&& sound(s1, c)
            &&& foreign(x, s1, c)
            &&& got matches Ok(Ok(_)) ==> (Block { addr, size }).apart(x) && foreign(
                Block { addr, size },
                s1,
                c,
            )
            &&& !(got matches Ok(Ok(_))) ==> foreign(Block { addr, size: old_size }, s1, c)
        }),
{
    if let LazyInit::Initialized(l) = s {
        let g = c->Initialized_0;
        let block = Block { addr, size: old_size };
        if l.attached {
            lemma_resized(l.free, block, size);
            lemma_local_resized_keeps(l, block, size, x);
            crate::pool::lemma_resized_clear(l.free, block, size, l.arena);
            lemma_resized_separate(l, g, block, size);
        }
    }
}

/// Resizing a block where it lies leaves the thread's allocator apart from the
/// process-wide one, which could take the resized block.
proof fn lemma_resized_separate(l: LocalView, g: GlobalView, block: Block, size: usize)
    requires
        l.wf(),
        g.wf(),
        crate::local::separate(l, g),
        l.accepts(block),
        g.accepts(block),
    ensures
        crate::local::separate(l.resized(block, size).0, g),
        l.resized(block, size).1 matches Ok(res) ==> g.accepts(res),
{
    crate::pool::lemma_resized_clear(l.free, block, size, g.arena);
    crate::pool::lemma_disjoint_sym(g.free, l.free);
    let out = crate::pool::resized(l.free, block, size);
    assert forall|j: int| 0 <= j < g.free.len() implies crate::pool::clear_of(
        out,
        #[trigger] g.free[j],
    ) && (size <= block.size || crate::pool::grows(l.free, block, size) ==> (Block {
        addr: block.addr,
        size,
    }).apart(g.free[j])) by {
        assert(crate::pool::clear_of(l.free, g.free[j]));
        assert(g.free[j].apart(block));
        crate::pool::lemma_resized_clear(l.free, block, size, g.free[j]);
    }
    assert(crate::pool::disjoint(out, g.free));
    crate::pool::lemma_disjoint_sym(out, g.free);
    lemma_resized(l.free, block, size);
    if let Heap::Extended { addr, size: n } = g.heap {
        lemma_resized_under(l.free, block, size, addr as int);
    }
}

/// A block that is resized and may move: the block that comes of it is nobody's, and a
/// block that shared no byte with the old one, and was neither allocator's, shares none
/// with the new one and is still neither's. Where the request stops, the old block is as
/// it was.
#[verifier::rlimit(40)]
pub proof fn law_realloc_custody(
    s: SlotView,
    c: CellView,
    addr: usize,
    old_size: usize,
    size: usize,
    align: usize,
    x: Block,
)
    requires
        sound(s, c),
        align > 0,
        answered(c, reallocated(s, unasked(c), addr, old_size, size, align).2),
        foreign(Block { addr, size: old_size }, s, c),
        foreign(x, s, c),
        x.apart(Block { addr, size: old_size }),
    ensures
        ({
            let (s1, c1, got) = reallocated(s, c, addr, old_size, size, align);
            &&& foreign(x, s1, c1)
            &&& match got {
                Ok(to) => (Block { addr: to, size }).apart(x) && foreign(
                    Block { addr: to, size },
                    s1,
                    c1,
                ),
                Err(_) => foreign(Block { addr, size: old_size }, s1, c1),
            }
        }),
{
    let stop = reallocated(s, unasked(c), addr, old_size, size, align).2;
    let block = Block { addr, size: old_size };
    lemma_answered_wakes(s, c, stop);
    law_init_custody(s, c, x);
    law_init_custody(s, c, block);
    if woken(s, c).2 is Ok {
        let l = s->Initialized_0;
        let g = c->Initialized_0;
        lemma_reallocated(l, g, block, size, align);
        lemma_local_reallocated_keeps(l, block, size, align, x);
        if l.reallocated(block, size, align).1 is Ok {
            lemma_reallocated_upstream(l, g, block, size, align);
        } else {
            lemma_answered_fresh(l, g, size, align, stop);
            lemma_local_fresh(l, g, size, align);
            lemma_fresh_keeps(l, g, size, align, x);
            lemma_fresh_keeps(l, g, size, align, block);
            let (l1, g1, got) = l.fresh(g, size, align);
            if let Ok(res) = got {
                lemma_local_freed(l1, block, g1);
                lemma_local_freed_keeps(l1, block, x);
                lemma_local_freed_keeps(l1, block, res);
            }
        }
    }
}

/// The block that comes of resizing with what the thread's free list holds could be
/// given to the process-wide allocator.
proof fn lemma_reallocated_upstream(l: LocalView, g: GlobalView, block: Block, size: usize, align: usize)
    requires
        l.wf(),
        g.wf(),
        crate::local::separate(l, g),
        l.accepts(block),
        g.accepts(block),
        align > 0,
    ensures
        l.reallocated(block, size, align).1 matches Ok(res) ==> g.accepts(res),
{
    if crate::pool::stays(l.free, block, size, align) {
        lemma_resized_separate(l, g, block, size);
    } else if taken(l.free, size, align) is Some {
        lemma_local_allocated(l, g, size, align);
    }
}

/// A block that is resized by the thread's allocator alone: the block that comes of it is
/// nobody's, and a block that shared no byte with the old one, and was neither
/// allocator's, shares none with the new one and is still neither's.
pub proof fn law_realloc_locally_custody(
    s: SlotView,
    c: CellView,
    addr: usize,
    old_size: usize,
    size: usize,
    align: usize,
    x: Block,
)
    requires
        sound(s, c),
        align > 0,
        foreign(Block { addr, size: old_size }, s, c),
        foreign(x, s, c),
        x.apart(Block { addr, size: old_size }),
    ensures
        ({
            let (s1, got) = reallocated_locally(s, addr, old_size, size, align);
            &&& sound(s1, c)
            &&& foreign(x, s1, c)
            &&& match got {
                Ok(to) => (Block { addr: to, size }).apart(x) && foreign(
                    Block { addr: to, size },
                    s1,
                    c,
                ),
                Err(_) => foreign(Block { addr, size: old_size }, s1, c),
            }
        }),
{
    if let LazyInit::Initialized(l) = s {
        let g = c->Initialized_0;
        let block = Block { addr, size: old_size };
        if l.attached {
            lemma_reallocated(l, g, block, size, align);
            lemma_local_reallocated_keeps(l, block, size, align, x);
            lemma_reallocated_upstream(l, g, block, size, align);
        }
    }
}

/// The end of a thread gives to the process what was the thread's, and nothing else: a
/// block that was neither allocator's is still not the process's.
pub proof fn law_detach_custody(l: LocalView, g: GlobalView, x: Block)
    requires
        sound(LazyInit::Initialized(l), LazyInit::Initialized(g)),
        foreign(x, LazyInit::Initialized(l), LazyInit::Initialized(g)),
    ensures
        foreign(
            x,
            LazyInit::Uninitialized(()),
            LazyInit::<Heap, GlobalView>::Initialized(g.reclaimed(l)),
        ),
{
    lemma_reclaimed(g, l);
    lemma_reclaimed_keeps(g, l, x);
}

/// Memory that the heap newly hands out is nobody's yet: a block that was neither
/// allocator's and lies below the new memory is still neither's.
pub proof fn law_supply_custody(s: SlotView, c: CellView, addr: usize, n: usize, x: Block)
    requires
        heap_of(c) is Unasked,
        foreign(x, s, c),
        x.end() <= addr,
    ensures
        foreign(x, s, with_heap(c, Heap::Extended { addr, size: n })),
        foreign(x, s, with_heap(c, Heap::Refused)),
{
}

} // verus!
