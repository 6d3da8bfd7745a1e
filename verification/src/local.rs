//! A thread's allocator: a free list that only its thread touches, fed in bulk by the
//! process-wide allocator and emptied into it when the thread ends.

use vstd::prelude::*;
use crate::block::Block;
use crate::bookkeeper::Bookkeeper;
use crate::brk::{Heap, Stop};
use crate::global::{
    lemma_allocated, lemma_fresh, lemma_freed, GlobalAllocator, GlobalView, ARENA_ALIGN,
    ARENA_SIZE,
};
use crate::pool::{
    absorbed, clear_of, disjoint, lemma_clear_within, lemma_disjoint_sym, lemma_released_clear,
    lemma_released_disjoint, lemma_released_ordered, lemma_released_total,
    lemma_released_under, lemma_remaining_clear, lemma_remaining_disjoint, lemma_resized,
    lemma_resized_clear, lemma_resized_under, lemma_taken, lemma_under, ordered, released,
    remaining, resized, grows, stays, taken, total, under,
};
use crate::sys::register_thread_destructor;

verus! {

/// The largest request that is made four times as large on its way upstream.
pub const AMPLIFIED_MAX: usize = 8192;

/// The factor by which such a request is made larger.
pub const AMPLIFIER: usize = 4;

/// The number of bytes that a thread's allocator asks the process-wide one for when it
/// needs `min`: four times as many, so that the requests that are likely to follow need no
/// lock; but no more than `min` where that is large already. There is no least amount, so
/// a thread that asks for little holds little.
pub open spec fn canonical(min: usize) -> usize {
    if min > AMPLIFIED_MAX {
        min
    } else {
        (min * AMPLIFIER) as usize
    }
}

/// Computes `canonical`.
pub fn canonicalize_space(min: usize) -> (r: usize)
    ensures
        r == canonical(min),
        r >= min,
        min <= 8192 ==> r == 4 * min,
        min > 8192 ==> r == min,
{
    if min > AMPLIFIED_MAX {
        min
    } else {
        min * AMPLIFIER
    }
}

/// What a thread's allocator holds: its free blocks by rising address, the block that its
/// records occupy, and whether it is attached to its thread's exit.
pub struct LocalView {
    pub free: Seq<Block>,
    pub arena: Block,
    pub attached: bool,
}

impl LocalView {
    /// The free list is ordered, and the arena is a real block of which no byte is free.
    pub open spec fn wf(self) -> bool {
        &&& ordered(self.free)
        &&& self.arena.valid()
        &&& clear_of(self.free, self.arena)
    }

    /// All that the allocator holds ends at or below `addr`.
    pub open spec fn below(self, addr: int) -> bool {
        under(self.free, addr) && self.arena.end() <= addr
    }

    /// `block` can be given to the allocator: it is a real block, and no byte of it is
    /// free already or lies in the arena.
    pub open spec fn accepts(self, block: Block) -> bool {
        block.valid() && clear_of(self.free, block) && block.apart(self.arena)
    }

    /// The bytes that the allocator holds, free or in its arena.
    pub open spec fn held(self) -> int {
        total(self.free) + self.arena.size
    }

    /// The allocator with `free` for its free list.
    pub open spec fn with_free(self, free: Seq<Block>) -> LocalView {
        LocalView { free, arena: self.arena, attached: self.attached }
    }

    /// The allocator after it took back `block`.
    pub open spec fn freed(self, block: Block) -> LocalView {
        self.with_free(released(self.free, block))
    }

    /// The allocator after `block` was brought to `size` bytes where it lies, and whether
    /// it could be: a block that shrinks gives back its tail, one that grows takes the
    /// bytes behind it if they are free.
    pub open spec fn resized(self, block: Block, size: usize) -> (LocalView, Result<Block, Block>) {
        (
            self.with_free(resized(self.free, block, size)),
            if size <= block.size || grows(self.free, block, size) {
                Ok(Block { addr: block.addr, size })
            } else {
                Err(block)
            },
        )
    }

    /// The allocator after `block` was brought to `size` bytes at a multiple of `align`
    /// with what the free list holds, and the block that came of it: `block` where it
    /// lies, if it lies at such an address and can be resized there; else a block from the
    /// free list, after which `block` was given back. `Err` with `block` where the free
    /// list has no room for either.
    pub open spec fn reallocated(self, block: Block, size: usize, align: usize) -> (
        LocalView,
        Result<Block, Block>,
    ) {
        if stays(self.free, block, size, align) {
            (self.with_free(resized(self.free, block, size)), Ok(Block { addr: block.addr, size }))
        } else {
            match taken(self.free, size, align) {
                Some(b) => (
                    self.with_free(released(remaining(self.free, size, align), block)),
                    Ok(b),
                ),
                None => (self, Err(block)),
            }
        }
    }

    /// The allocator and the process-wide one after a request for `size` bytes at a
    /// multiple of `align` went upstream, and what the request got: the front of a block
    /// of `canonical(size)` bytes from the process-wide allocator, the rest of which went
    /// to the thread's free list; or the reason why the process-wide allocator stopped.
    pub open spec fn fresh(self, global: GlobalView, size: usize, align: usize) -> (
        LocalView,
        GlobalView,
        Result<Block, Stop>,
    ) {
        let (global, got) = global.allocated(canonical(size), align);
        match got {
            Ok(block) => (
                self.freed(
                    Block {
                        addr: (block.addr + size) as usize,
                        size: (block.size - size) as usize,
                    },
                ),
                global,
                Ok(Block { addr: block.addr, size }),
            ),
            Err(stop) => (self, global, Err(stop)),
        }
    }
}

impl GlobalView {
    /// The process-wide allocator after it took all that a thread's allocator held: its
    /// free blocks, the highest first, and then its arena.
    pub open spec fn reclaimed(self, local: LocalView) -> GlobalView {
        GlobalView {
            free: released(absorbed(self.free, local.free), local.arena),
            arena: self.arena,
            heap: self.heap,
        }
    }
}

/// The thread's allocator and the process-wide one hold no byte in common, and new memory
/// of the heap lies above all that the thread's allocator holds.
pub open spec fn separate(local: LocalView, global: GlobalView) -> bool {
    &&& disjoint(global.free, local.free)
    &&& clear_of(global.free, local.arena)
    &&& clear_of(local.free, global.arena)
    &&& local.arena.apart(global.arena)
    &&& global.heap matches Heap::Extended { addr, size } ==> local.below(addr as int)
}

/// The allocator that a thread starts with, and the process-wide allocator after it gave
/// the arena: the new allocator has no free block and is not attached.
pub open spec fn local_started(global: GlobalView) -> (GlobalView, Result<LocalView, Stop>) {
    let (global, got) = global.allocated(ARENA_SIZE, ARENA_ALIGN);
    match got {
        Ok(arena) => (
            global,
            Ok(LocalView { free: Seq::<Block>::empty(), arena, attached: false }),
        ),
        Err(stop) => (global, Err(stop)),
    }
}

/// Taking back a block leaves a thread's allocator well formed and adds the block's bytes
/// to those that it holds. It stays apart from a process-wide allocator that could have
/// taken the block as well.
pub proof fn lemma_local_freed(l: LocalView, block: Block, g: GlobalView)
    requires
        l.wf(),
        l.accepts(block),
    ensures
        l.freed(block).wf(),
        l.freed(block).held() == l.held() + block.size,
        g.wf() && separate(l, g) && g.accepts(block) ==> separate(l.freed(block), g),
{
    lemma_released_ordered(l.free, block);
    lemma_released_clear(l.free, block, l.arena);
    lemma_released_total(l.free, block);
    if g.wf() && separate(l, g) && g.accepts(block) {
        lemma_released_disjoint(g.free, l.free, block);
        lemma_released_clear(l.free, block, g.arena);
        if let Heap::Extended { addr, size } = g.heap {
            lemma_released_under(l.free, block, addr as int);
        }
    }
}

/// A request that a thread's allocator serves from its free list leaves the allocator
/// well formed and apart from the process-wide one; the block that it hands out is real,
/// has the size and alignment asked for, can be given back, and holds bytes that the
/// allocator held before and holds no longer.
pub proof fn lemma_local_allocated(l: LocalView, g: GlobalView, size: usize, align: usize)
    requires
        l.wf(),
        align > 0,
        taken(l.free, size, align) is Some,
    ensures
        ({
            let left = l.with_free(remaining(l.free, size, align));
            let res = taken(l.free, size, align)->Some_0;
            &&& left.wf()
            &&& res.valid()
            &&& res.size == size
            &&& res.aligned(align as int)
            &&& left.accepts(res)
            &&& left.held() + size == l.held()
            &&& g.wf() && separate(l, g) ==> separate(left, g) && g.accepts(res)
        }),
{
    lemma_taken(l.free, size, align);
    lemma_remaining_clear(l.free, size, align, l.arena);
    if g.wf() && separate(l, g) {
        lemma_remaining_clear(l.free, size, align, g.arena);
        lemma_remaining_disjoint(g.free, l.free, size, align);
        if let Heap::Extended { addr, size: n } = g.heap {
            crate::pool::lemma_remaining_under(l.free, size, align, addr as int);
        }
    }
}

/// A block that the process-wide allocator hands out can be given to a thread's allocator
/// that is apart from it, whole or in part.
pub proof fn lemma_handed_out(l: LocalView, g: GlobalView, size: usize, align: usize, part: Block)
    requires
        l.wf(),
        g.wf(),
        separate(l, g),
        align > 0,
        g.expects(size, align),
        g.allocated(size, align).1 is Ok,
        part.valid(),
        part.within(g.allocated(size, align).1->Ok_0),
    ensures
        l.accepts(part),
        g.allocated(size, align).0.accepts(part),
        separate(l, g.allocated(size, align).0),
{
    let (g2, got) = g.allocated(size, align);
    let block = got->Ok_0;
    lemma_allocated(g, size, align);
    lemma_taken(g.free, size, align);
    lemma_clear_within(g2.free, block, part);
    match taken(g.free, size, align) {
        Some(b) => {
            lemma_remaining_disjoint(l.free, g.free, size, align);
            lemma_disjoint_sym(g.free, l.free);
            lemma_remaining_disjoint(l.free, g.free, size, align);
            lemma_clear_within(l.free, block, part);
            lemma_remaining_clear(g.free, size, align, l.arena);
            lemma_disjoint_sym(l.free, g2.free);
        },
        None => {
            lemma_fresh(g, size, align);
            let addr = g.heap->Extended_addr;
            let n = g.heap->Extended_size;
            let seg = Block { addr, size: n };
            crate::brk::lemma_carved(seg, size, align);
            let (aligner, res, excessive) = crate::brk::carved(seg, size, align);
            lemma_under(l.free, addr as int, part);
            let first = released(g.free, aligner);
            lemma_under(g.free, addr as int, aligner);
            lemma_released_ordered(g.free, aligner);
            lemma_released_under(g.free, aligner, excessive.addr as int);
            lemma_under(first, excessive.addr as int, excessive);
            lemma_under(l.free, addr as int, aligner);
            lemma_under(l.free, addr as int, excessive);
            lemma_released_disjoint(l.free, g.free, aligner);
            lemma_released_disjoint(l.free, first, excessive);
            lemma_released_clear(g.free, aligner, l.arena);
            lemma_released_clear(first, excessive, l.arena);
        },
    }
}

/// A request that goes upstream leaves both allocators well formed and apart, and moves
/// bytes but makes none: what the two hold afterwards, and the block handed out, is what
/// they held before.
pub proof fn lemma_local_fresh(l: LocalView, g: GlobalView, size: usize, align: usize)
    requires
        l.wf(),
        g.wf(),
        separate(l, g),
        align > 0,
        g.expects(canonical(size), align),
    ensures
        l.fresh(g, size, align).0.wf(),
        l.fresh(g, size, align).1.wf(),
        separate(l.fresh(g, size, align).0, l.fresh(g, size, align).1),
        l.fresh(g, size, align).2 matches Ok(res) ==> {
            &&& res.valid()
            &&& res.size == size
            &&& res.aligned(align as int)
            &&& l.fresh(g, size, align).0.accepts(res)
            &&& l.fresh(g, size, align).1.accepts(res)
        },
        l.fresh(g, size, align).0.held() + l.fresh(g, size, align).1.held() + (if l.fresh(
            g,
            size,
            align,
        ).2 is Ok {
            size as int
        } else {
            0
        }) == l.held() + g.held(),
{
    let (l2, g2, got) = l.fresh(g, size, align);
    let (g1, served) = g.allocated(canonical(size), align);
    lemma_allocated(g, canonical(size), align);
    if let Ok(block) = served {
        let res = Block { addr: block.addr, size };
        let excessive = Block { addr: (block.addr + size) as usize, size: (block.size - size) as usize };
        lemma_handed_out(l, g, canonical(size), align, excessive);
        lemma_handed_out(l, g, canonical(size), align, res);
        lemma_local_freed(l, excessive, g1);
        lemma_released_clear(l.free, excessive, res);
    }
}

/// A block that both allocators could take can still be given to the thread's allocator
/// after a request went upstream, and its bytes are none of the block that the request
/// got.
pub proof fn lemma_fresh_keeps(l: LocalView, g: GlobalView, size: usize, align: usize, block: Block)
    requires
        l.wf(),
        g.wf(),
        separate(l, g),
        align > 0,
        g.expects(canonical(size), align),
        l.accepts(block),
        g.accepts(block),
    ensures
        l.fresh(g, size, align).0.accepts(block),
        l.fresh(g, size, align).1.accepts(block),
        l.fresh(g, size, align).2 matches Ok(res) ==> res.apart(block),
{
    let (g1, served) = g.allocated(canonical(size), align);
    lemma_allocated(g, canonical(size), align);
    lemma_taken(g.free, canonical(size), align);
    lemma_remaining_clear(g.free, canonical(size), align, block);
    if let Ok(got) = served {
        let res = Block { addr: got.addr, size };
        let excessive = Block { addr: (got.addr + size) as usize, size: (got.size - size) as usize };
        lemma_handed_out(l, g, canonical(size), align, excessive);
        if taken(g.free, canonical(size), align) is None {
            lemma_fresh(g, canonical(size), align);
            let addr = g.heap->Extended_addr;
            let n = g.heap->Extended_size;
            let seg = Block { addr, size: n };
            crate::brk::lemma_carved(seg, canonical(size), align);
            let (aligner, mid, rest) = crate::brk::carved(seg, canonical(size), align);
            let first = released(g.free, aligner);
            lemma_under(g.free, addr as int, aligner);
            lemma_released_ordered(g.free, aligner);
            lemma_released_under(g.free, aligner, rest.addr as int);
            lemma_under(first, rest.addr as int, rest);
            lemma_released_clear(g.free, aligner, block);
            lemma_released_clear(first, rest, block);
        }
        lemma_released_clear(l.free, excessive, block);
    }
}

/// Resizing a block with what the free list holds leaves a thread's allocator well
/// formed and apart from the process-wide one; the block that comes of it is real and can
/// be given back.
pub proof fn lemma_reallocated(l: LocalView, g: GlobalView, block: Block, size: usize, align: usize)
    requires
        l.wf(),
        l.accepts(block),
        align > 0,
    ensures
        l.reallocated(block, size, align).0.wf(),
        l.reallocated(block, size, align).1 matches Ok(res) ==> {
            &&& res.valid()
            &&& res.size == size
            &&& res.aligned(align as int)
            &&& l.reallocated(block, size, align).0.accepts(res)
        },
        g.wf() && separate(l, g) && g.accepts(block) ==> separate(
            l.reallocated(block, size, align).0,
            g,
        ),
{
    let linked = g.wf() && separate(l, g) && g.accepts(block);
    if stays(l.free, block, size, align) {
        lemma_resized(l.free, block, size);
        lemma_resized_clear(l.free, block, size, l.arena);
        if linked {
            lemma_resized_clear(l.free, block, size, g.arena);
            lemma_disjoint_sym(g.free, l.free);
            let out = resized(l.free, block, size);
            assert forall|j: int| 0 <= j < g.free.len() implies clear_of(out, #[trigger] g.free[j]) by {
                assert(clear_of(l.free, g.free[j]));
                assert(g.free[j].apart(block));
                lemma_resized_clear(l.free, block, size, g.free[j]);
            }
            assert(disjoint(out, g.free));
            lemma_disjoint_sym(out, g.free);
            if let Heap::Extended { addr, size: n } = g.heap {
                lemma_resized_under(l.free, block, size, addr as int);
            }
        }
    } else {
        lemma_taken(l.free, size, align);
        lemma_remaining_clear(l.free, size, align, l.arena);
        lemma_remaining_clear(l.free, size, align, block);
        let left = l.with_free(remaining(l.free, size, align));
        if let Some(res) = taken(l.free, size, align) {
            assert(left.accepts(block));
            lemma_local_freed(left, block, g);
            lemma_released_clear(left.free, block, res);
            if linked {
                lemma_remaining_disjoint(g.free, l.free, size, align);
                lemma_remaining_clear(l.free, size, align, g.arena);
                if let Heap::Extended { addr, size: n } = g.heap {
                    crate::pool::lemma_remaining_under(l.free, size, align, addr as int);
                }
                assert(separate(left, g));
            }
        }
    }
}

/// A block that a thread's allocator could take can still be given to it after a request
/// was served from the free list, and shares no byte with the block that the request got.
pub proof fn lemma_local_allocated_keeps(l: LocalView, size: usize, align: usize, x: Block)
    requires
        l.wf(),
        align > 0,
        l.accepts(x),
    ensures
        l.with_free(remaining(l.free, size, align)).accepts(x),
        taken(l.free, size, align) matches Some(res) ==> res.apart(x),
{
    lemma_remaining_clear(l.free, size, align, x);
}

/// A block that a thread's allocator could take, and that shares no byte with a block
/// that the allocator takes back, can still be given to it.
pub proof fn lemma_local_freed_keeps(l: LocalView, block: Block, x: Block)
    requires
        l.wf(),
        l.accepts(block),
        l.accepts(x),
        x.apart(block),
    ensures
        l.freed(block).accepts(x),
{
    lemma_released_clear(l.free, block, x);
}

/// A block that a thread's allocator could take, and that shares no byte with a block
/// that is resized where it lies, can still be given to the allocator, and shares no byte
/// with the resized block.
pub proof fn lemma_local_resized_keeps(l: LocalView, block: Block, size: usize, x: Block)
    requires
        l.wf(),
        l.accepts(block),
        l.accepts(x),
        x.apart(block),
    ensures
        l.resized(block, size).0.accepts(x),
        l.resized(block, size).1 matches Ok(res) ==> res.apart(x),
{
    lemma_resized_clear(l.free, block, size, x);
}

/// A block that a thread's allocator could take, and that shares no byte with a block
/// that is resized with what the free list holds, can still be given to the allocator,
/// and shares no byte with the block that comes of it.
pub proof fn lemma_local_reallocated_keeps(
    l: LocalView,
    block: Block,
    size: usize,
    align: usize,
    x: Block,
)
    requires
        l.wf(),
        l.accepts(block),
        align > 0,
        l.accepts(x),
        x.apart(block),
    ensures
        l.reallocated(block, size, align).0.accepts(x),
        l.reallocated(block, size, align).1 matches Ok(res) ==> res.apart(x),
{
    if stays(l.free, block, size, align) {
        lemma_resized_clear(l.free, block, size, x);
    } else {
        lemma_taken(l.free, size, align);
        lemma_remaining_clear(l.free, size, align, x);
        lemma_remaining_clear(l.free, size, align, block);
        if taken(l.free, size, align) is Some {
            lemma_released_clear(remaining(l.free, size, align), block, x);
        }
    }
}

/// A block that the process-wide allocator could take can be given to it, and to the new
/// allocator, after a thread's allocator was started.
pub proof fn lemma_local_started_keeps(g: GlobalView, x: Block)
    requires
        g.wf(),
        g.expects(ARENA_SIZE, ARENA_ALIGN),
        g.accepts(x),
    ensures
        local_started(g).0.accepts(x),
        local_started(g).1 matches Ok(l) ==> l.accepts(x),
{
    crate::global::lemma_allocated_keeps(g, ARENA_SIZE, ARENA_ALIGN, x);
}

/// A block that both allocators could take can be given to the process-wide one after it
/// took all that the thread's allocator held.
pub proof fn lemma_reclaimed_keeps(g: GlobalView, l: LocalView, x: Block)
    requires
        g.wf(),
        l.wf(),
        separate(l, g),
        g.accepts(x),
        l.accepts(x),
    ensures
        g.reclaimed(l).accepts(x),
{
    lemma_disjoint_sym(g.free, l.free);
    lemma_disjoint_sym(l.free, g.free);
    lemma_absorbed(g, l.free, x);
    lemma_absorbed(g, l.free, l.arena);
    lemma_released_clear(absorbed(g.free, l.free), l.arena, x);
}

/// Starting a thread's allocator leaves the process-wide one well formed and apart from
/// the new one.
pub proof fn lemma_local_started(g: GlobalView)
    requires
        g.wf(),
        g.expects(ARENA_SIZE, ARENA_ALIGN),
    ensures
        local_started(g).0.wf(),
        match local_started(g).1 {
            Ok(l) => l.wf() && separate(l, local_started(g).0) && l.held() + local_started(
                g,
            ).0.held() == g.held(),
            Err(_) => local_started(g).0.held() == g.held(),
        },
{
    let (g1, got) = g.allocated(ARENA_SIZE, ARENA_ALIGN);
    lemma_allocated(g, ARENA_SIZE, ARENA_ALIGN);
    lemma_taken(g.free, ARENA_SIZE, ARENA_ALIGN);
    if let Ok(arena) = got {
        let l = LocalView { free: Seq::<Block>::empty(), arena, attached: false };
        if taken(g.free, ARENA_SIZE, ARENA_ALIGN) is None {
            lemma_fresh(g, ARENA_SIZE, ARENA_ALIGN);
        }
        crate::pool::lemma_total_one(arena);
    }
}

/// What a process-wide allocator holds after it took a list of blocks, the last first:
/// the bytes it held and theirs. It stays well formed and clear of every block that was
/// clear of it and of the list.
pub proof fn lemma_absorbed(g: GlobalView, blocks: Seq<Block>, x: Block)
    requires
        g.wf(),
        ordered(blocks),
        disjoint(g.free, blocks),
        clear_of(blocks, g.arena),
        g.heap matches Heap::Extended { addr, size } ==> under(blocks, addr as int),
    ensures
        (GlobalView { free: absorbed(g.free, blocks), arena: g.arena, heap: g.heap }).wf(),
        total(absorbed(g.free, blocks)) == total(g.free) + total(blocks),
        clear_of(g.free, x) && clear_of(blocks, x) ==> clear_of(absorbed(g.free, blocks), x),
    decreases blocks.len(),
{
    if blocks.len() > 0 {
        let b = blocks.last();
        let rest = blocks.drop_last();
        assert(b.valid() && clear_of(g.free, b));
        assert(b.apart(g.arena));
        assert(g.accepts(b));
        lemma_freed(g, b);
        let g1 = g.freed(b);
        assert(ordered(rest)) by {
            assert forall|i: int, j: int| 0 <= i < j < rest.len() implies (#[trigger] rest[i]).end()
                < (#[trigger] rest[j]).addr by {
                assert(blocks[i].end() < blocks[j].addr);
            }
        }
        assert(disjoint(g1.free, rest)) by {
            assert forall|i: int| 0 <= i < rest.len() implies clear_of(g1.free, #[trigger] rest[i]) by {
                assert(rest[i] == blocks[i]);
                assert(clear_of(g.free, blocks[i]));
                assert(blocks[i].end() < b.addr);
                lemma_released_clear(g.free, b, rest[i]);
            }
        }
        assert(clear_of(rest, g.arena)) by {
            assert forall|i: int| 0 <= i < rest.len() implies (#[trigger] rest[i]).apart(g.arena) by {
                assert(blocks[i].apart(g.arena));
            }
        }
        if let Heap::Extended { addr, size } = g.heap {
            assert(under(rest, addr as int)) by {
                assert forall|i: int| 0 <= i < rest.len() implies (#[trigger] rest[i]).end()
                    <= addr by {
                    assert(blocks[i].end() <= addr);
                }
            }
        }
        lemma_absorbed(g1, rest, x);
        if clear_of(g.free, x) && clear_of(blocks, x) {
            assert(blocks[blocks.len() - 1].apart(x));
            lemma_released_clear(g.free, b, x);
            assert(clear_of(rest, x)) by {
                assert forall|i: int| 0 <= i < rest.len() implies (#[trigger] rest[i]).apart(x) by {
                    assert(blocks[i].apart(x));
                }
            }
        }
    }
}

/// The end of a thread gives all that its allocator held to the process-wide allocator,
/// which stays well formed and holds the bytes of both.
pub proof fn lemma_reclaimed(g: GlobalView, l: LocalView)
    requires
        g.wf(),
        l.wf(),
        separate(l, g),
    ensures
        g.reclaimed(l).wf(),
        g.reclaimed(l).held() == g.held() + l.held(),
{
    lemma_disjoint_sym(g.free, l.free);
    lemma_disjoint_sym(l.free, g.free);
    lemma_absorbed(g, l.free, l.arena);
    let g1 = GlobalView { free: absorbed(g.free, l.free), arena: g.arena, heap: g.heap };
    assert(g1.accepts(l.arena));
    lemma_freed(g1, l.arena);
}

/// A thread's allocator.
///
/// Only its thread touches it, so it needs no lock. It gets its memory from the
/// process-wide allocator, more at a time than it is asked for, and gives back what it
/// holds when its thread ends.
pub struct LocalAllocator {
    inner: Bookkeeper,
    attached: bool,
}

impl View for LocalAllocator {
    type V = LocalView;

    closed spec fn view(&self) -> LocalView {
        LocalView { free: self.inner@, arena: self.inner.arena(), attached: self.attached }
    }
}

/// Makes the allocator of a thread: asks the process-wide allocator for the arena. The
/// new allocator has no free block, and is yet to be attached to the thread's exit.
/// Stops where the process-wide allocator does.
pub fn local_init(global: &mut GlobalAllocator) -> (r: Result<LocalAllocator, Stop>)
    requires
        old(global)@.wf(),
        old(global)@.expects(ARENA_SIZE, ARENA_ALIGN),
    ensures
        final(global)@.wf(),
        match r {
            Ok(l) => l@.wf() && separate(l@, final(global)@) && local_started(old(global)@) == (
                final(global)@,
                Ok::<LocalView, Stop>(l@),
            ),
            Err(stop) => local_started(old(global)@) == (
                final(global)@,
                Err::<LocalView, Stop>(stop),
            ),
        },
{
    proof {
        lemma_local_started(global@);
    }
    match global.allocate(ARENA_SIZE, ARENA_ALIGN) {
        Ok(arena) => Ok(LocalAllocator { inner: Bookkeeper::new(arena), attached: false }),
        Err(stop) => Err(stop),
    }
}

impl LocalAllocator {
    /// Attaches the allocator to the exit of its thread, where `supported` says that the
    /// platform runs hooks at a thread's exit: the hook to register is `detach`. `Err`
    /// where it runs none: the allocator stays unattached, and what it holds would be
    /// lost with its thread.
    pub fn attach(&mut self, supported: bool) -> (r: Result<(), ()>)
        requires
            !old(self)@.attached,
        ensures
            r is Ok <==> supported,
            final(self)@ == (LocalView {
                free: old(self)@.free,
                arena: old(self)@.arena,
                attached: supported,
            }),
    {
        match register_thread_destructor(supported) {
            Ok(()) => {
                self.attached = true;
                Ok(())
            },
            Err(()) => Err(()),
        }
    }

    /// Whether the allocator is attached to the exit of its thread.
    pub fn is_attached(&self) -> (r: bool)
        ensures
            r == self@.attached,
    {
        self.attached
    }

    /// Serves a request for `size` bytes at a multiple of `align` from the free list.
    /// `None` where it holds no such block; the request then has to go upstream.
    pub fn allocate(&mut self, size: usize, align: usize) -> (r: Option<Block>)
        requires
            old(self)@.wf(),
            align > 0,
        ensures
            final(self)@.wf(),
            r == taken(old(self)@.free, size, align),
            final(self)@ == old(self)@.with_free(remaining(old(self)@.free, size, align)),
    {
        self.inner.allocate(size, align)
    }

    /// Serves a request for `size` bytes at a multiple of `align` from upstream: asks the
    /// process-wide allocator for `canonical(size)` bytes, hands out the first `size` of
    /// them and puts the others on the free list.
    pub fn alloc_fresh(&mut self, global: &mut GlobalAllocator, size: usize, align: usize) -> (r:
        Result<Block, Stop>)
        requires
            old(self)@.wf(),
            old(global)@.wf(),
            separate(old(self)@, old(global)@),
            align > 0,
            old(global)@.expects(canonical(size), align),
        ensures
            final(self)@.wf(),
            final(global)@.wf(),
            separate(final(self)@, final(global)@),
            (final(self)@, final(global)@, r) == old(self)@.fresh(old(global)@, size, align),
    {
        proof {
            lemma_local_fresh(self@, global@, size, align);
            lemma_allocated(global@, canonical(size), align);
        }
        let ghost l = self@;
        let ghost g = global@;
        match global.allocate(canonicalize_space(size), align) {
            Ok(block) => {
                let (res, excessive) = block.split(size);
                proof {
                    lemma_handed_out(l, g, canonical(size), align, excessive);
                }
                // The block may lie anywhere among the free ones, so it is not appended.
                self.inner.free(excessive);
                Ok(res)
            },
            Err(stop) => Err(stop),
        }
    }

    /// Takes `block` back.
    pub fn free(&mut self, block: Block)
        requires
            old(self)@.wf(),
            old(self)@.accepts(block),
        ensures
            final(self)@.wf(),
            final(self)@ == old(self)@.freed(block),
    {
        self.inner.free(block);
    }

    /// Brings `block` to `size` bytes at a multiple of `align` with what the free list
    /// holds: where it lies, if it lies at such an address and the bytes behind it are
    /// free; else in another free block, after which `block` is given back. `Err` hands
    /// `block` back where the free list holds no room for either; the request then has to
    /// go upstream.
    pub fn realloc(&mut self, block: Block, size: usize, align: usize) -> (r: Result<Block, Block>)
        requires
            old(self)@.wf(),
            old(self)@.accepts(block),
            align > 0,
        ensures
            final(self)@.wf(),
            (final(self)@, r) == old(self)@.reallocated(block, size, align),
    {
        self.inner.realloc(block, size, align)
    }

    /// Brings `block` to `size` bytes where it lies: a block that shrinks gives back its
    /// tail, one that grows takes the bytes behind it if they are free. `Err` hands
    /// `block` back where they are not; nothing has changed then.
    pub fn realloc_inplace(&mut self, block: Block, size: usize) -> (r: Result<Block, Block>)
        requires
            old(self)@.wf(),
            old(self)@.accepts(block),
        ensures
            final(self)@.wf(),
            (final(self)@, r) == old(self)@.resized(block, size),
            r is Err ==> final(self)@ == old(self)@,
    {
        self.inner.realloc_inplace(block, size)
    }

    /// Ends the allocator with its thread: all that it holds goes to the process-wide
    /// allocator, each free block once, the highest first, and then the arena.
    pub fn detach(self, global: &mut GlobalAllocator)
        requires
            self@.wf(),
            old(global)@.wf(),
            separate(self@, old(global)@),
        ensures
            final(global)@.wf(),
            final(global)@ == old(global)@.reclaimed(self@),
    {
        let ghost l = self@;
        let ghost g = global@;
        let mut inner = self.inner;
        proof {
            lemma_disjoint_sym(g.free, l.free);
            lemma_disjoint_sym(l.free, g.free);
        }
        loop
            invariant
                inner.wf(),
                inner.arena() == l.arena,
                global@.wf(),
                global@.arena == g.arena,
                global@.heap == g.heap,
                disjoint(global@.free, inner@),
                clear_of(global@.free, l.arena),
                clear_of(inner@, g.arena),
                l.arena.apart(g.arena),
                g.heap matches Heap::Extended { addr, size } ==> under(inner@, addr as int)
                    && l.arena.end() <= addr,
                absorbed(global@.free, inner@) == absorbed(g.free, l.free),
            ensures
                inner@.len() == 0,
            decreases inner@.len(),
        {
            let ghost blocks = inner@;
            let ghost before = global@;
            match inner.pop() {
                Some(block) => {
                    proof {
                        assert(block == blocks[blocks.len() - 1]);
                        assert(block.valid() && clear_of(before.free, block));
                        assert(block.apart(g.arena));
                        assert forall|i: int| 0 <= i < inner@.len() implies clear_of(
                            released(before.free, block),
                            #[trigger] inner@[i],
                        ) by {
                            assert(inner@[i] == blocks[i]);
                            assert(clear_of(before.free, blocks[i]));
                            assert(blocks[i].end() < block.addr);
                            lemma_released_clear(before.free, block, blocks[i]);
                        }
                        assert(blocks[blocks.len() - 1].apart(l.arena));
                        lemma_released_clear(before.free, block, l.arena);
                        assert forall|i: int| 0 <= i < inner@.len() implies (
                        #[trigger] inner@[i]).apart(g.arena) by {
                            assert(blocks[i].apart(g.arena));
                        }
                        if let Heap::Extended { addr, size } = g.heap {
                            assert(blocks[blocks.len() - 1].end() <= addr);
                            assert forall|i: int| 0 <= i < inner@.len() implies (
                            #[trigger] inner@[i]).end() <= addr by {
                                assert(blocks[i].end() <= addr);
                            }
                        }
                    }
                    global.free(block);
                },
                None => {
                    break ;
                },
            }
        }
        assert(inner@ =~= Seq::<Block>::empty());
        global.free(inner.into_arena());
    }

    /// The free list and the arena.
    pub fn book(&self) -> (r: &Bookkeeper)
        ensures
            r@ == self@.free,
            r.arena() == self@.arena,
    {
        &self.inner
    }

    /// Whether all that the allocator holds ends at or below `addr`.
    pub fn ends_below(&self, addr: usize) -> (r: bool)
        requires
            self@.wf(),
        ensures
            r == self@.below(addr as int),
    {
        proof {
            crate::pool::lemma_rank_exists(self@.free, addr as int);
            if under(self@.free, addr as int) {
                lemma_under(self@.free, addr as int, self@.arena);
            }
        }
        let (arena_addr, arena_size) = self.inner.arena_parts();
        self.inner.ends_below(addr) && arena_addr + arena_size <= addr
    }

    /// Whether the allocator and the process-wide one hold no byte in common, and new
    /// memory of the heap lies above all that the allocator holds.
    pub fn is_separate_from(&self, global: &GlobalAllocator) -> (r: bool)
        requires
            self@.wf(),
            global@.wf(),
        ensures
            r == separate(self@, global@),
    {
        let theirs = global.book();
        let (mine_addr, mine_size) = self.inner.arena_parts();
        let (theirs_addr, theirs_size) = theirs.arena_parts();
        let under_heap = match global.heap() {
            Heap::Extended { addr, size } => self.ends_below(addr),
            _ => true,
        };
        under_heap && self.inner.is_disjoint_from(theirs) && theirs.is_clear_of(
            &Block::from_raw_parts(mine_addr, mine_size),
        ) && self.inner.is_clear_of(&Block::from_raw_parts(theirs_addr, theirs_size)) && (
        mine_size == 0 || theirs_size == 0 || mine_addr + mine_size <= theirs_addr || theirs_addr
            + theirs_size <= mine_addr)
    }

    /// The number of free bytes.
    pub fn free_bytes(&self) -> (r: usize)
        requires
            self@.wf(),
        ensures
            r == total(self@.free),
    {
        self.inner.free_bytes()
    }

    /// Whether `block` can be given to the allocator.
    pub fn can_take(&self, block: &Block) -> (r: bool)
        requires
            self@.wf(),
            block.valid(),
        ensures
            r == self@.accepts(*block),
    {
        let (arena_addr, arena_size) = self.inner.arena_parts();
        self.inner.is_clear_of(block) && (block.size == 0 || arena_size == 0 || block.addr
            + block.size <= arena_addr || arena_addr + arena_size <= block.addr)
    }
}

} // verus!
