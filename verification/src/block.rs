//! Memory blocks: an address and a size.

use vstd::prelude::*;
use vstd::arithmetic::div_mod::{lemma_fundamental_div_mod, lemma_mod_multiples_basic, lemma_mod_bound};

verus! {

/// The number of bytes from `addr` up to the next multiple of `align`.
pub open spec fn padding(addr: int, align: int) -> int {
    (align - addr % align) % align
}

/// `padding` leads to a multiple of `align` and is the shortest way there.
pub proof fn lemma_padding(addr: int, align: int)
    requires
        0 <= addr,
        0 < align,
    ensures
        0 <= padding(addr, align) < align,
        (addr + padding(addr, align)) % align == 0,
        addr % align == 0 <==> padding(addr, align) == 0,
{
    let r = addr % align;
    lemma_mod_bound(addr, align);
    lemma_fundamental_div_mod(addr, align);
    if r == 0 {
        assert(align % align == 0) by {
            lemma_mod_multiples_basic(1, align);
        }
    } else {
        assert((align - r) % align == align - r) by {
            vstd::arithmetic::div_mod::lemma_small_mod((align - r) as nat, align as nat);
        }
        let q = addr / align;
        assert(addr + (align - r) == (q + 1) * align) by (nonlinear_arith)
            requires
                addr == align * q + r,
        ;
        lemma_mod_multiples_basic(q + 1, align);
    }
}

/// A contiguous range of bytes, `size` bytes from `addr` on.
///
/// A block is a handle and no more: whoever holds it holds the right to use or to free the
/// range. It is therefore moved and never copied.
#[derive(Debug, PartialEq, Eq, Structural)]
pub struct Block {
    pub addr: usize,
    pub size: usize,
}

impl Block {
    /// The first address past the block.
    pub open spec fn end(self) -> int {
        self.addr + self.size
    }

    /// The block lies in the address space.
    pub open spec fn valid(self) -> bool {
        self.end() <= usize::MAX
    }

    /// The block starts at a multiple of `align`.
    pub open spec fn aligned(self, align: int) -> bool {
        self.addr as int % align == 0
    }

    /// The two blocks share no byte.
    pub open spec fn apart(self, other: Block) -> bool {
        self.size == 0 || other.size == 0 || self.end() <= other.addr || other.end() <= self.addr
    }

    /// The block lies between the start and the end of `other`.
    pub open spec fn within(self, other: Block) -> bool {
        other.addr <= self.addr && self.end() <= other.end()
    }

    /// The block holds `size` bytes that start at a multiple of `align`.
    pub open spec fn fits(self, size: int, align: int) -> bool {
        padding(self.addr as int, align) + size <= self.size
    }

    /// The block of `size` bytes at `addr`.
    pub fn from_raw_parts(addr: usize, size: usize) -> (r: Block)
        ensures
            r == (Block { addr, size }),
    {
        Block { addr, size }
    }

    /// The block without a byte, at `addr`.
    pub fn empty(addr: usize) -> (r: Block)
        ensures
            r == (Block { addr, size: 0 }),
    {
        Block { addr, size: 0 }
    }

    /// Whether the block holds no byte.
    pub fn is_empty(&self) -> (r: bool)
        ensures
            r == (self.size == 0),
    {
        self.size == 0
    }

    /// Whether the block starts at a multiple of `align`.
    pub fn aligned_to(&self, align: usize) -> (r: bool)
        requires
            align > 0,
        ensures
            r == self.aligned(align as int),
    {
        self.addr % align == 0
    }

    /// Cuts the block in two at `pos` bytes from its start.
    pub fn split(self, pos: usize) -> (r: (Block, Block))
        requires
            self.valid(),
            pos <= self.size,
        ensures
            r.0 == (Block { addr: self.addr, size: pos }),
            r.1 == (Block { addr: (self.addr + pos) as usize, size: (self.size - pos) as usize }),
            r.0.valid(),
            r.1.valid(),
    {
        (
            Block { addr: self.addr, size: pos },
            Block { addr: self.addr + pos, size: self.size - pos },
        )
    }

    /// Cuts off the front of the block so that the rest starts at a multiple of `align`:
    /// the bytes cut off come first, the aligned rest second. `None` where the block ends
    /// before the next such address.
    pub fn align(self, align: usize) -> (r: Option<(Block, Block)>)
        requires
            self.valid(),
            align > 0,
        ensures
            r is Some <==> self.fits(0, align as int),
            r matches Some((front, rest)) ==> {
                &&& front == (Block { addr: self.addr, size: padding(self.addr as int, align as int) as usize })
                &&& rest == (Block {
                    addr: (self.addr + front.size) as usize,
                    size: (self.size - front.size) as usize,
                })
                &&& rest.aligned(align as int)
                &&& front.valid()
                &&& rest.valid()
            },
    {
        let pad: usize = (align - self.addr % align) % align;
        proof {
            lemma_padding(self.addr as int, align as int);
        }
        if pad <= self.size {
            Some(self.split(pad))
        } else {
            None
        }
    }
}

} // verus!
