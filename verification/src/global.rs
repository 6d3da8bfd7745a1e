//! The process-wide allocator: one free list for all threads, fed by the heap.

use vstd::prelude::*;
use crate::block::Block;
use crate::bookkeeper::{Bookkeeper, EXTRA_ELEMENTS};
use crate::brk::{lemma_carved, Brk, Heap, Stop};
use crate::pool::{
    clear_of, lemma_released_clear, lemma_released_ordered, lemma_released_under, lemma_taken,
    lemma_remaining_clear, lemma_under, ordered, released, remaining, taken, total, under,
};

verus! {

/// The number of bytes that a new allocator asks for to keep its records in.
pub const ARENA_SIZE: usize = EXTRA_ELEMENTS * 4;

/// The alignment of a block record, and so of the memory that holds records.
pub const ARENA_ALIGN: usize = 8;

/// What the process-wide allocator holds: its free blocks by rising address, the block
/// that its records occupy, and what it knows of the heap.
pub struct GlobalView {
    pub free: Seq<Block>,
    pub arena: Block,
    pub heap: Heap,
}

impl GlobalView {
    /// The free list is ordered, the arena is a real block of which no byte is free, and
    /// new memory of the heap lies in the address space, above all that the allocator holds.
    pub open spec fn wf(self) -> bool {
        &&& ordered(self.free)
        &&& self.arena.valid()
        &&& clear_of(self.free, self.arena)
        &&& self.heap.wf()
        &&& self.heap matches Heap::Extended { addr, size } ==> self.below(addr as int)
    }

    /// All that the allocator holds ends at or below `addr`.
    pub open spec fn below(self, addr: int) -> bool {
        under(self.free, addr) && self.arena.end() <= addr
    }

    /// `block` can be given to the allocator: it is a real block, no byte of it is free
    /// already or lies in the arena, and it ends where new memory of the heap starts, or
    /// below.
    pub open spec fn accepts(self, block: Block) -> bool {
        &&& block.valid()
        &&& clear_of(self.free, block)
        &&& block.apart(self.arena)
        &&& self.heap matches Heap::Extended { addr, size } ==> block.end() <= addr
    }

    /// The bytes that the allocator holds: free, in its arena, or new from the heap.
    pub open spec fn held(self) -> int {
        total(self.free) + self.arena.size + self.heap.bytes()
    }

    /// New memory, if the heap holds any, is what a request for `size` bytes at a multiple
    /// of `align` makes the heap grow by.
    pub open spec fn expects_fresh(self, size: usize, align: usize) -> bool {
        self.heap.answers(size, align)
    }

    /// New memory, if the heap holds any, is what a request for `size` bytes at a multiple
    /// of `align` needs where the free list cannot serve it.
    pub open spec fn expects(self, size: usize, align: usize) -> bool {
        taken(self.free, size, align) is None ==> self.expects_fresh(size, align)
    }

    /// The allocator after it took back `block`.
    pub open spec fn freed(self, block: Block) -> GlobalView {
        GlobalView { free: released(self.free, block), arena: self.arena, heap: self.heap }
    }

    /// The allocator after a request for `size` bytes at a multiple of `align` went to the
    /// heap, and what the request got: a block from the middle of the new memory, whose
    /// ends went to the free list; or the reason why it stopped.
    pub open spec fn fresh(self, size: usize, align: usize) -> (GlobalView, Result<Block, Stop>) {
        let (heap, got) = self.heap.got(size, align);
        match got {
            Ok((aligner, res, excessive)) => (
                GlobalView {
                    free: released(released(self.free, aligner), excessive),
                    arena: self.arena,
                    heap,
                },
                Ok(res),
            ),
            Err(stop) => (GlobalView { free: self.free, arena: self.arena, heap }, Err(stop)),
        }
    }

    /// The allocator after a request for `size` bytes at a multiple of `align`, and what
    /// the request got: from the free list where it holds such a block, else from the heap.
    pub open spec fn allocated(self, size: usize, align: usize) -> (GlobalView, Result<Block, Stop>) {
        match taken(self.free, size, align) {
            Some(block) => (
                GlobalView {
                    free: remaining(self.free, size, align),
                    arena: self.arena,
                    heap: self.heap,
                },
                Ok(block),
            ),
            None => self.fresh(size, align),
        }
    }
}

/// The allocator that is made from the heap, and what is known of the heap after it: the
/// arena is a block from the middle of new memory, whose ends are the first free blocks.
pub open spec fn global_started(heap: Heap) -> (Heap, Result<GlobalView, Stop>) {
    let (heap, got) = heap.got(ARENA_SIZE, ARENA_ALIGN);
    match got {
        Ok((aligner, arena, excessive)) => (
            heap,
            Ok(
                GlobalView {
                    free: released(released(Seq::<Block>::empty(), aligner), excessive),
                    arena,
                    heap,
                },
            ),
        ),
        Err(stop) => (heap, Err(stop)),
    }
}

/// Taking back a block leaves the allocator well formed and adds the block's bytes to
/// those that it holds.
pub proof fn lemma_freed(g: GlobalView, block: Block)
    requires
        g.wf(),
        g.accepts(block),
    ensures
        g.freed(block).wf(),
        g.freed(block).held() == g.held() + block.size,
{
    lemma_released_ordered(g.free, block);
    lemma_released_clear(g.free, block, g.arena);
    crate::pool::lemma_released_total(g.free, block);
    if let Heap::Extended { addr, size } = g.heap {
        lemma_released_under(g.free, block, addr as int);
    }
}

/// The allocator that is made from new memory of the heap is well formed and holds that
/// memory. Where none is made, the heap holds what it held.
pub proof fn lemma_global_started(heap: Heap)
    requires
        heap.wf(),
        heap.answers(ARENA_SIZE, ARENA_ALIGN),
    ensures
        match global_started(heap).1 {
            Ok(g) => g.wf() && g.held() == heap.bytes() && global_started(heap).0 is Unasked,
            Err(stop) => global_started(heap).0.wf() && global_started(heap).0.bytes()
                == heap.bytes(),
        },
{
    if let Heap::Extended { addr, size: n } = heap {
        let seg = Block { addr, size: n };
        lemma_carved(seg, ARENA_SIZE, ARENA_ALIGN);
        let (aligner, arena, excessive) = crate::brk::carved(seg, ARENA_SIZE, ARENA_ALIGN);
        let none = Seq::<Block>::empty();
        let first = released(none, aligner);
        lemma_under(none, aligner.addr as int, aligner);
        lemma_released_ordered(none, aligner);
        lemma_released_under(none, aligner, excessive.addr as int);
        lemma_released_clear(none, aligner, arena);
        crate::pool::lemma_released_total(none, aligner);
        lemma_under(first, excessive.addr as int, excessive);
        lemma_released_ordered(first, excessive);
        lemma_released_clear(first, excessive, arena);
        crate::pool::lemma_released_total(first, excessive);
    }
}

/// A request that goes to the heap leaves the allocator well formed, and the block that
/// it gets is real, has the size and alignment asked for, and can be given back. The
/// allocator then holds the bytes that it held but for those of the block.
pub proof fn lemma_fresh(g: GlobalView, size: usize, align: usize)
    requires
        g.wf(),
        align > 0,
        g.expects_fresh(size, align),
    ensures
        g.fresh(size, align).0.wf(),
        g.fresh(size, align).0.arena == g.arena,
        g.fresh(size, align).1 matches Ok(res) ==> {
            &&& g.heap matches Heap::Extended { addr, size: n }
            &&& res.valid()
            &&& res.size == size
            &&& res.aligned(align as int)
            &&& res.within(Block { addr, size: n })
            &&& g.fresh(size, align).0.accepts(res)
            &&& g.fresh(size, align).0.below(addr + n)
        },
        g.fresh(size, align).0.held() + (if g.fresh(size, align).1 is Ok {
            size as int
        } else {
            0
        }) == g.held(),
{
    if let Heap::Extended { addr, size: n } = g.heap {
        let seg = Block { addr, size: n };
        lemma_carved(seg, size, align);
        let (aligner, res, excessive) = crate::brk::carved(seg, size, align);
        let first = released(g.free, aligner);
        let out = released(first, excessive);
        lemma_under(g.free, addr as int, aligner);
        lemma_released_ordered(g.free, aligner);
        lemma_released_under(g.free, aligner, excessive.addr as int);
        lemma_released_clear(g.free, aligner, g.arena);
        crate::pool::lemma_released_total(g.free, aligner);
        lemma_under(first, excessive.addr as int, excessive);
        lemma_released_ordered(first, excessive);
        lemma_released_clear(first, excessive, g.arena);
        crate::pool::lemma_released_total(first, excessive);
        lemma_under(g.free, addr as int, res);
        lemma_released_clear(g.free, aligner, res);
        lemma_released_clear(first, excessive, res);
        lemma_released_under(g.free, aligner, addr + n);
        lemma_released_under(first, excessive, addr + n);
    }
}

/// A request leaves the allocator well formed, and the block that it gets is real, has the
/// size and alignment asked for, and can be given back.
pub proof fn lemma_allocated(g: GlobalView, size: usize, align: usize)
    requires
        g.wf(),
        align > 0,
        g.expects(size, align),
    ensures
        g.allocated(size, align).0.wf(),
        g.allocated(size, align).0.arena == g.arena,
        g.allocated(size, align).1 matches Ok(res) ==> {
            &&& res.valid()
            &&& res.size == size
            &&& res.aligned(align as int)
            &&& g.allocated(size, align).0.accepts(res)
        },
        g.allocated(size, align).0.held() + (if g.allocated(size, align).1 is Ok {
            size as int
        } else {
            0
        }) == g.held(),
{
    lemma_taken(g.free, size, align);
    lemma_remaining_clear(g.free, size, align, g.arena);
    if taken(g.free, size, align) is None {
        lemma_fresh(g, size, align);
    }
}

/// A block that the allocator could take can still be given to it after a request, and
/// shares no byte with the block that the request got.
pub proof fn lemma_allocated_keeps(g: GlobalView, size: usize, align: usize, x: Block)
    requires
        g.wf(),
        align > 0,
        g.expects(size, align),
        g.accepts(x),
    ensures
        g.allocated(size, align).0.accepts(x),
        g.allocated(size, align).1 matches Ok(res) ==> res.apart(x),
{
    lemma_remaining_clear(g.free, size, align, x);
    if taken(g.free, size, align) is None {
        if let Heap::Extended { addr, size: n } = g.heap {
            let seg = Block { addr, size: n };
            lemma_carved(seg, size, align);
            let (aligner, res, excessive) = crate::brk::carved(seg, size, align);
            let first = released(g.free, aligner);
            lemma_under(g.free, addr as int, aligner);
            lemma_released_ordered(g.free, aligner);
            lemma_released_under(g.free, aligner, excessive.addr as int);
            lemma_under(first, excessive.addr as int, excessive);
            lemma_released_clear(g.free, aligner, x);
            lemma_released_clear(first, excessive, x);
        }
    }
}

/// A block that lies below new memory of the heap can be given to the allocator that is
/// made from that memory.
pub proof fn lemma_global_started_keeps(heap: Heap, x: Block)
    requires
        heap.wf(),
        heap.answers(ARENA_SIZE, ARENA_ALIGN),
        x.valid(),
        heap matches Heap::Extended { addr, size } ==> x.end() <= addr,
    ensures
        global_started(heap).1 matches Ok(g) ==> g.accepts(x),
        global_started(heap).0 matches Heap::Extended { addr, size } ==> x.end() <= addr,
{
    if let Heap::Extended { addr, size: n } = heap {
        let seg = Block { addr, size: n };
        lemma_carved(seg, ARENA_SIZE, ARENA_ALIGN);
        let (aligner, arena, excessive) = crate::brk::carved(seg, ARENA_SIZE, ARENA_ALIGN);
        let none = Seq::<Block>::empty();
        let first = released(none, aligner);
        lemma_under(none, aligner.addr as int, aligner);
        lemma_released_ordered(none, aligner);
        lemma_released_under(none, aligner, excessive.addr as int);
        lemma_under(first, excessive.addr as int, excessive);
        lemma_released_clear(none, aligner, x);
        lemma_released_clear(first, excessive, x);
    }
}

/// The process-wide allocator.
///
/// It gets new memory from the heap, which only grows: new memory lies above all that the
/// allocator holds, so its ends are appended to the free list without a search.
pub struct GlobalAllocator {
    inner: Bookkeeper,
    brk: Brk,
}

impl View for GlobalAllocator {
    type V = GlobalView;

    closed spec fn view(&self) -> GlobalView {
        GlobalView { free: self.inner@, arena: self.inner.arena(), heap: self.brk@ }
    }
}

/// Makes the process-wide allocator from the heap `brk`, which becomes its own: asks the
/// heap for the arena and puts what is left of the new memory on the free list. Stops
/// where the heap has to grow first, or cannot.
pub fn global_init(brk: Brk) -> (r: Result<GlobalAllocator, (Brk, Stop)>)
    requires
        brk@.wf(),
        brk@.answers(ARENA_SIZE, ARENA_ALIGN),
    ensures
        match r {
            Ok(g) => g@.wf() && global_started(brk@) == (Heap::Unasked, Ok::<GlobalView, Stop>(g@)),
            Err((heap, stop)) => global_started(brk@) == (heap@, Err::<GlobalView, Stop>(stop))
                && heap@.wf(),
        },
{
    let mut brk = brk;
    let ghost heap = brk@;
    match brk.get(ARENA_SIZE, ARENA_ALIGN) {
        Ok((aligner, arena, excessive)) => {
            proof {
                if let Heap::Extended { addr, size: n } = heap {
                    lemma_carved(Block { addr, size: n }, ARENA_SIZE, ARENA_ALIGN);
                }
                let none = Seq::<Block>::empty();
                lemma_under(none, aligner.addr as int, aligner);
                lemma_released_ordered(none, aligner);
                lemma_released_under(none, aligner, excessive.addr as int);
                lemma_released_clear(none, aligner, arena);
                lemma_under(released(none, aligner), excessive.addr as int, excessive);
                lemma_released_ordered(released(none, aligner), excessive);
                lemma_released_clear(released(none, aligner), excessive, arena);
            }
            let mut res = GlobalAllocator { inner: Bookkeeper::new(arena), brk };
            res.inner.push(aligner);
            res.inner.push(excessive);
            Ok(res)
        },
        Err(stop) => Err((brk, stop)),
    }
}

impl GlobalAllocator {
    /// Takes the platform's answer to a request for `n` more bytes of heap: `reported` is
    /// what its program-break call handed back.
    pub fn supply(&mut self, n: usize, reported: usize)
        requires
            old(self)@.wf(),
            old(self)@.heap is Unasked,
            reported != crate::sys::BRK_FAILED ==> reported + n <= usize::MAX && old(self)@.below(
                reported as int,
            ),
        ensures
            final(self)@.wf(),
            final(self)@.free == old(self)@.free,
            final(self)@.arena == old(self)@.arena,
            final(self)@.heap.wf(),
            reported == crate::sys::BRK_FAILED ==> final(self)@.heap == Heap::Refused,
            reported != crate::sys::BRK_FAILED ==> final(self)@.heap == (Heap::Extended {
                addr: reported,
                size: n,
            }),
    {
        self.brk.supply(n, reported);
    }

    /// Gets `size` bytes at a multiple of `align` from the heap: the block comes from the
    /// middle of new memory, what lies before and behind it is appended to the free list.
    /// Stops where the heap has to grow first, or cannot.
    pub fn alloc_fresh(&mut self, size: usize, align: usize) -> (r: Result<Block, Stop>)
        requires
            old(self)@.wf(),
            align > 0,
            old(self)@.expects_fresh(size, align),
        ensures
            final(self)@.wf(),
            (final(self)@, r) == old(self)@.fresh(size, align),
    {
        proof {
            lemma_fresh(self@, size, align);
        }
        let ghost g = self@;
        match self.brk.get(size, align) {
            Ok((aligner, res, excessive)) => {
                proof {
                    if let Heap::Extended { addr, size: n } = g.heap {
                        lemma_carved(Block { addr, size: n }, size, align);
                        lemma_under(g.free, addr as int, aligner);
                        lemma_released_ordered(g.free, aligner);
                        lemma_released_under(g.free, aligner, excessive.addr as int);
                        lemma_released_clear(g.free, aligner, g.arena);
                        lemma_under(released(g.free, aligner), excessive.addr as int, excessive);
                    }
                }
                self.inner.push(aligner);
                self.inner.push(excessive);
                Ok(res)
            },
            Err(stop) => Err(stop),
        }
    }

    /// Serves a request for `size` bytes at a multiple of `align`: from the free list where
    /// it holds such a block, else from the heap.
    pub fn allocate(&mut self, size: usize, align: usize) -> (r: Result<Block, Stop>)
        requires
            old(self)@.wf(),
            align > 0,
            old(self)@.expects(size, align),
        ensures
            final(self)@.wf(),
            (final(self)@, r) == old(self)@.allocated(size, align),
    {
        proof {
            lemma_allocated(self@, size, align);
        }
        match self.inner.allocate(size, align) {
            Some(block) => Ok(block),
            None => self.alloc_fresh(size, align),
        }
    }

    /// Takes `block` back.
    pub fn free(&mut self, block: Block)
        requires
            old(self)@.wf(),
            old(self)@.accepts(block),
        ensures
            final(self)@.wf(),
            final(self)@ == old(self)@.freed(block),
    {
        proof {
            lemma_freed(self@, block);
        }
        self.inner.free(block);
    }

    /// The free list and the arena.
    pub fn book(&self) -> (r: &Bookkeeper)
        ensures
            r@ == self@.free,
            r.arena() == self@.arena,
    {
        &self.inner
    }

    /// What the allocator knows of the heap.
    pub fn heap(&self) -> (r: Heap)
        ensures
            r == self@.heap,
    {
        self.brk.answer()
    }

    /// The number of free bytes.
    pub fn free_bytes(&self) -> (r: usize)
        requires
            self@.wf(),
        ensures
            r == total(self@.free),
    {
        self.inner.free_bytes()
    }

    /// Whether all that the allocator holds ends at or below `addr`, as it does where
    /// `addr` is the start of new memory.
    pub fn ends_below(&self, addr: usize) -> (r: bool)
        requires
            self@.wf(),
        ensures
            r == self@.below(addr as int),
    {
        proof {
            crate::pool::lemma_rank_exists(self@.free, addr as int);
            if under(self@.free, addr as int) {
                lemma_under(self@.free, addr as int, self@.arena);
            }
        }
        let (arena_addr, arena_size) = self.inner.arena_parts();
        self.inner.ends_below(addr) && arena_addr + arena_size <= addr
    }

    /// Whether `block` can be given to the allocator.
    pub fn can_take(&self, block: &Block) -> (r: bool)
        requires
            self@.wf(),
            block.valid(),
        ensures
            r == self@.accepts(*block),
    {
        let (arena_addr, arena_size) = self.inner.arena_parts();
        let under_heap = match self.brk.answer() {
            Heap::Extended { addr, size } => block.addr + block.size <= addr,
            _ => true,
        };
        under_heap && self.inner.is_clear_of(block) && (block.size == 0 || arena_size == 0
            || block.addr + block.size <= arena_addr || arena_addr + arena_size <= block.addr)
    }
}

} // verus!
