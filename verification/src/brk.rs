//! The heap as the allocator sees it: the one source of new memory, which grows upwards by
//! as many bytes as it is asked for, or refuses to.
//!
//! The allocator does not move the program break itself. Where a request needs new memory
//! it stops and says by how many bytes the heap has to grow; its caller moves the break,
//! hands in what the platform answered, and repeats the request.

use vstd::prelude::*;
use crate::block::{padding, lemma_padding, Block};
use crate::sys::{sbrk, BRK_FAILED};

verus! {

/// Why a request stopped short of its result, and what has to happen before it is made
/// again.
#[derive(Clone, Copy, Debug, PartialEq, Eq, Structural)]
pub enum Stop {
    /// The process-wide allocator is needed: lock it and make the request with it.
    Upstream,
    /// The thread's allocator has no hook for the thread's exit yet: register one and
    /// attach the allocator.
    Attach,
    /// The heap has to grow by this many bytes: move the program break and supply the
    /// answer.
    Extend(usize),
    /// Out of memory: the heap refused to grow, or the request is larger than any heap.
    Oom,
}

/// What is known of the heap's growth.
#[derive(Clone, Copy, Debug, PartialEq, Eq, Structural)]
pub enum Heap {
    /// Nothing: the heap was not asked since its last answer was used.
    Unasked,
    /// The heap refused to grow.
    Refused,
    /// The heap grew by `size` bytes, which start at `addr` and are not yet in use.
    Extended { addr: usize, size: usize },
}

/// The number of bytes by which the heap has to grow so that the new memory holds `size`
/// bytes at a multiple of `align` wherever it starts. `None` where the platform's call
/// cannot be asked for that many.
pub open spec fn extension(size: usize, align: usize) -> Option<usize> {
    if size + align <= isize::MAX {
        Some((size + align) as usize)
    } else {
        None
    }
}

/// The three parts of the new memory `seg` for a request of `size` bytes at a multiple of
/// `align`: the bytes before the first such address, the `size` bytes from there, the rest.
pub open spec fn carved(seg: Block, size: usize, align: usize) -> (Block, Block, Block) {
    let pad = padding(seg.addr as int, align as int);
    (
        Block { addr: seg.addr, size: pad as usize },
        Block { addr: (seg.addr + pad) as usize, size },
        Block { addr: (seg.addr + pad + size) as usize, size: (seg.size - pad - size) as usize },
    )
}

impl Heap {
    /// New memory, if the heap holds any, lies in the address space.
    pub open spec fn wf(self) -> bool {
        self matches Heap::Extended { addr, size } ==> addr + size <= usize::MAX
    }

    /// The bytes of new memory that the heap holds.
    pub open spec fn bytes(self) -> int {
        match self {
            Heap::Extended { addr, size } => size as int,
            _ => 0,
        }
    }

    /// New memory, if the heap holds any, is what a request for `size` bytes at a multiple
    /// of `align` asks for.
    pub open spec fn answers(self, size: usize, align: usize) -> bool {
        self matches Heap::Extended { addr, size: got } ==> extension(size, align) == Some(got)
    }

    /// What a request for `size` bytes at a multiple of `align` gets from the heap, and
    /// what is known of the heap after it.
    pub open spec fn got(self, size: usize, align: usize) -> (Heap, Result<(Block, Block, Block), Stop>) {
        match extension(size, align) {
            None => (self, Err(Stop::Oom)),
            Some(n) => match self {
                Heap::Unasked => (Heap::Unasked, Err(Stop::Extend(n))),
                Heap::Refused => (Heap::Unasked, Err(Stop::Oom)),
                Heap::Extended { addr, size: got } => (
                    Heap::Unasked,
                    Ok(carved(Block { addr, size: got }, size, align)),
                ),
            },
        }
    }
}

/// The parts of new memory are real blocks that lie end to end in it; the middle one has
/// the size and the alignment asked for, and the last is not empty.
pub proof fn lemma_carved(seg: Block, size: usize, align: usize)
    requires
        seg.valid(),
        align > 0,
        seg.size == size + align,
    ensures
        ({
            let (aligner, res, excessive) = carved(seg, size, align);
            &&& aligner.valid() && res.valid() && excessive.valid()
            &&& aligner.addr == seg.addr
            &&& aligner.end() == res.addr
            &&& res.end() == excessive.addr
            &&& excessive.end() == seg.end()
            &&& res.size == size
            &&& res.aligned(align as int)
            &&& excessive.size > 0
        }),
{
    lemma_padding(seg.addr as int, align as int);
}

/// The heap: what the platform last answered, until a request uses it.
pub struct Brk {
    answer: Heap,
}

impl View for Brk {
    type V = Heap;

    closed spec fn view(&self) -> Heap {
        self.answer
    }
}

impl Brk {
    /// A heap that was not asked yet.
    pub fn new() -> (r: Brk)
        ensures
            r@ == Heap::Unasked,
    {
        Brk { answer: Heap::Unasked }
    }

    /// What is known of the heap.
    pub fn answer(&self) -> (r: Heap)
        ensures
            r == self@,
    {
        self.answer
    }

    /// Takes the platform's answer to a request for `n` more bytes: `reported` is what its
    /// program-break call handed back.
    pub fn supply(&mut self, n: usize, reported: usize)
        requires
            old(self)@ is Unasked,
            reported != BRK_FAILED ==> reported + n <= usize::MAX,
        ensures
            final(self)@.wf(),
            reported == BRK_FAILED ==> final(self)@ == Heap::Refused,
            reported != BRK_FAILED ==> final(self)@ == (Heap::Extended { addr: reported, size: n }),
    {
        self.answer = match sbrk(reported) {
            Ok(addr) => Heap::Extended { addr, size: n },
            Err(_) => Heap::Refused,
        };
    }

    /// Gets `size` bytes at a multiple of `align` from new memory of the heap: the bytes
    /// before the block, the block, and the bytes behind it. Where the heap was not asked
    /// yet, stops to have it grow; where it refused, or where no heap can grow by that
    /// much, reports that memory ran out.
    pub fn get(&mut self, size: usize, align: usize) -> (r: Result<(Block, Block, Block), Stop>)
        requires
            align > 0,
            old(self)@.wf(),
            old(self)@.answers(size, align),
        ensures
            (final(self)@, r) == old(self)@.got(size, align),
    {
        let n: usize = match size.checked_add(align) {
            Some(n) => n,
            None => {
                return Err(Stop::Oom);
            },
        };
        if n > isize::MAX as usize {
            return Err(Stop::Oom);
        }
        match self.answer {
            Heap::Unasked => Err(Stop::Extend(n)),
            Heap::Refused => {
                self.answer = Heap::Unasked;
                Err(Stop::Oom)
            },
            Heap::Extended { addr, size: got } => {
                self.answer = Heap::Unasked;
                proof {
                    lemma_carved(Block { addr, size: got }, size, align);
                }
                let seg = Block::from_raw_parts(addr, got);
                match seg.align(align) {
                    Some((aligner, rest)) => {
                        let (res, excessive) = rest.split(size);
                        Ok((aligner, res, excessive))
                    },
                    None => Err(Stop::Oom),
                }
            },
        }
    }
}

} // verus!
