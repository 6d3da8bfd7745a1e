//! The bookkeeper: one free list, kept by rising address, that serves requests for memory
//! from the blocks it holds and takes blocks back.

use vstd::prelude::*;
use crate::block::{lemma_padding, Block};
use crate::pool::{
    clear_of, first_fit, is_first_fit, is_rank, kept, lemma_first_fit, lemma_no_fit,
    lemma_rank, lemma_rank_exists, lemma_rank_sides, lemma_released_clear,
    lemma_released_ordered, lemma_remaining_clear, lemma_resized, lemma_resized_clear,
    lemma_taken, disjoint, ordered, rank, released, remaining, remnants, replaced, resized,
    grows, stays, taken, total,
};

verus! {

/// The number of block records that a bookkeeper needs room for beyond those in use.
pub const EXTRA_ELEMENTS: usize = 4;

/// A free list and the block of memory that its records occupy.
pub struct Bookkeeper {
    pool: Vec<Block>,
    arena: Block,
}

impl View for Bookkeeper {
    type V = Seq<Block>;

    /// The free blocks, by rising address.
    closed spec fn view(&self) -> Seq<Block> {
        self.pool@
    }
}

impl Bookkeeper {
    /// The block that the records occupy.
    pub closed spec fn arena(&self) -> Block {
        self.arena
    }

    /// The free list is ordered, and the arena is a real block of which no byte is free.
    pub open spec fn wf(&self) -> bool {
        ordered(self@) && self.arena().valid() && clear_of(self@, self.arena())
    }

    /// `block` can be given to the bookkeeper: it is a real block, and no byte of it is
    /// free already or lies in the arena.
    pub open spec fn accepts(&self, block: Block) -> bool {
        block.valid() && clear_of(self@, block) && block.apart(self.arena())
    }

    /// A bookkeeper without a free block, its records in `arena`.
    pub fn new(arena: Block) -> (r: Bookkeeper)
        requires
            arena.valid(),
        ensures
            r.wf(),
            r@ == Seq::<Block>::empty(),
            r.arena() == arena,
    {
        Bookkeeper { pool: Vec::new(), arena }
    }

    /// Address and size of the arena.
    pub fn arena_parts(&self) -> (r: (usize, usize))
        ensures
            r.0 == self.arena().addr,
            r.1 == self.arena().size,
    {
        (self.arena.addr, self.arena.size)
    }

    /// The number of free blocks.
    pub fn len(&self) -> (r: usize)
        ensures
            r == self@.len(),
    {
        self.pool.len()
    }

    /// Address and size of the free block at place `i`.
    pub fn get(&self, i: usize) -> (r: (usize, usize))
        requires
            i < self@.len(),
        ensures
            r.0 == self@[i as int].addr,
            r.1 == self@[i as int].size,
    {
        (self.pool[i].addr, self.pool[i].size)
    }

    /// The place of the first free block that holds `size` bytes at a multiple of `align`;
    /// the number of free blocks where none does.
    fn find_fit(&self, size: usize, align: usize) -> (i: usize)
        requires
            self.wf(),
            align > 0,
        ensures
            i <= self@.len(),
            i < self@.len() ==> first_fit(self@, size as int, align as int) == Some(i as int),
            i == self@.len() ==> first_fit(self@, size as int, align as int) is None,
    {
        let n: usize = self.pool.len();
        let mut i: usize = 0;
        while i < n
            invariant
                n == self.pool@.len(),
                i <= n,
                align > 0,
                forall|j: int| 0 <= j < i ==> !(#[trigger] self.pool@[j]).fits(size as int, align as int),
            decreases n - i,
        {
            let pad: usize = (align - self.pool[i].addr % align) % align;
            if pad <= self.pool[i].size && size <= self.pool[i].size - pad {
                proof {
                    assert(is_first_fit(self@, size as int, align as int, i as int));
                    lemma_first_fit(self@, size as int, align as int, i as int);
                }
                return i;
            }
            i += 1;
        }
        proof {
            lemma_no_fit(self@, size as int, align as int);
        }
        n
    }

    /// The number of free blocks that end at or below `addr`.
    fn find_rank(&self, addr: usize) -> (i: usize)
        requires
            self.wf(),
        ensures
            is_rank(self@, addr as int, i as int),
            rank(self@, addr as int) == i,
    {
        let n: usize = self.pool.len();
        let mut i: usize = 0;
        while i < n
            invariant
                n == self.pool@.len(),
                i <= n,
                self.wf(),
                forall|j: int| 0 <= j < i ==> (#[trigger] self.pool@[j]).end() <= addr,
            decreases n - i,
        {
            assert(self.pool@[i as int].valid());
            if self.pool[i].addr + self.pool[i].size > addr {
                proof {
                    assert forall|j: int| i <= j < n implies (#[trigger] self.pool@[j]).end()
                        > addr by {
                        if j > i {
                            assert(self.pool@[i as int].end() < self.pool@[j].addr);
                        }
                    }
                    lemma_rank(self@, addr as int, i as int);
                }
                return i;
            }
            i += 1;
        }
        proof {
            lemma_rank(self@, addr as int, n as int);
        }
        n
    }

    /// Whether `block` shares no byte with a free block.
    pub fn is_clear_of(&self, block: &Block) -> (r: bool)
        requires
            self.wf(),
            block.valid(),
        ensures
            r == clear_of(self@, *block),
    {
        let n: usize = self.pool.len();
        let mut i: usize = 0;
        while i < n
            invariant
                n == self.pool@.len(),
                i <= n,
                self.wf(),
                block.valid(),
                forall|j: int| 0 <= j < i ==> (#[trigger] self.pool@[j]).apart(*block),
            decreases n - i,
        {
            assert(self.pool@[i as int].valid());
            let apart = block.size == 0 || self.pool[i].addr + self.pool[i].size <= block.addr
                || block.addr + block.size <= self.pool[i].addr;
            if !apart {
                assert(!self.pool@[i as int].apart(*block));
                return false;
            }
            i += 1;
        }
        true
    }

    /// Whether no free block shares a byte with a free block of `other`.
    pub fn is_disjoint_from(&self, other: &Bookkeeper) -> (r: bool)
        requires
            self.wf(),
            other.wf(),
        ensures
            r == disjoint(other@, self@),
    {
        let n: usize = self.pool.len();
        let mut i: usize = 0;
        while i < n
            invariant
                n == self.pool@.len(),
                i <= n,
                self.wf(),
                other.wf(),
                forall|j: int| 0 <= j < i ==> clear_of(other@, #[trigger] self.pool@[j]),
            decreases n - i,
        {
            assert(self.pool@[i as int].valid());
            if !other.is_clear_of(&self.pool[i]) {
                return false;
            }
            i += 1;
        }
        true
    }

    /// Whether every free block ends at or below `addr`, so that `push` takes a block
    /// that starts there.
    pub fn ends_below(&self, addr: usize) -> (r: bool)
        requires
            self.wf(),
        ensures
            r == (rank(self@, addr as int) == self@.len()),
    {
        self.find_rank(addr) == self.pool.len()
    }

    /// The number of free bytes.
    pub fn free_bytes(&self) -> (r: usize)
        requires
            self.wf(),
        ensures
            r == total(self@),
    {
        let n: usize = self.pool.len();
        let mut i: usize = 0;
        let mut sum: usize = 0;
        assert(self.pool@.subrange(0, 0) =~= Seq::<Block>::empty());
        while i < n
            invariant
                n == self.pool@.len(),
                i <= n,
                self.wf(),
                sum == total(self.pool@.subrange(0, i as int)),
                i > 0 ==> sum <= self.pool@[i - 1].end(),
            decreases n - i,
        {
            proof {
                let next = self.pool@.subrange(0, i + 1);
                assert(next.drop_last() =~= self.pool@.subrange(0, i as int));
                assert(next.last() == self.pool@[i as int]);
                assert(self.pool@[i as int].valid());
                if i > 0 {
                    assert(self.pool@[i - 1].end() < self.pool@[i as int].addr);
                }
            }
            sum = sum + self.pool[i].size;
            i += 1;
        }
        assert(self.pool@.subrange(0, n as int) =~= self.pool@);
        sum
    }

    /// Serves a request for `size` bytes at a multiple of `align` from the free list: from
    /// the lowest such range of the first block that holds one. `None` where no block
    /// does, and the list is then as it was.
    pub fn allocate(&mut self, size: usize, align: usize) -> (r: Option<Block>)
        requires
            old(self).wf(),
            align > 0,
        ensures
            final(self).wf(),
            final(self).arena() == old(self).arena(),
            r == taken(old(self)@, size, align),
            final(self)@ == remaining(old(self)@, size, align),
    {
        let i = self.find_fit(size, align);
        if i == self.pool.len() {
            return None;
        }
        proof {
            lemma_taken(self@, size, align);
            lemma_remaining_clear(self@, size, align, self.arena);
            assert(self@[i as int].valid());
            lemma_padding(self@[i as int].addr as int, align as int);
        }
        let addr: usize = self.pool[i].addr;
        let room: usize = self.pool[i].size;
        let pad: usize = (align - addr % align) % align;
        if size > 0 {
            let ghost before = Block { addr, size: pad };
            let ghost after = Block { addr: (addr + pad + size) as usize, size: (room - pad - size) as usize };
            let ghost pool = self.pool@;
            self.pool.remove(i);
            if room - pad - size > 0 {
                self.pool.insert(i, Block { addr: addr + pad + size, size: room - pad - size });
            }
            if pad > 0 {
                self.pool.insert(i, Block { addr, size: pad });
            }
            proof {
                assert(remnants(pool[i as int], size, align) == kept(before) + kept(after));
                assert(self.pool@ =~= replaced(pool, i as int, kept(before) + kept(after)));
            }
        }
        Some(Block { addr: addr + pad, size })
    }

    /// Takes `block` back: it goes to its place by address, as one block with the free
    /// neighbours that it touches.
    pub fn free(&mut self, block: Block)
        requires
            old(self).wf(),
            old(self).accepts(block),
        ensures
            final(self).wf(),
            final(self).arena() == old(self).arena(),
            final(self)@ == released(old(self)@, block),
    {
        if block.size == 0 {
            return ;
        }
        proof {
            lemma_released_ordered(self@, block);
            lemma_released_clear(self@, block, self.arena);
        }
        let ghost pool = self.pool@;
        let i = self.find_rank(block.addr);
        let n: usize = self.pool.len();
        let mut addr: usize = block.addr;
        let mut size: usize = block.size;
        proof {
            lemma_rank_sides(pool, block);
        }
        if i < n {
            assert(pool[i as int].valid());
            if block.addr + block.size == self.pool[i].addr {
                size = size + self.pool[i].size;
                self.pool.remove(i);
            }
        }
        if i > 0 {
            assert(pool[i - 1].valid());
            if self.pool[i - 1].addr + self.pool[i - 1].size == block.addr {
                addr = self.pool[i - 1].addr;
                size = size + self.pool[i - 1].size;
                self.pool.remove(i - 1);
                self.pool.insert(i - 1, Block { addr, size });
                assert(self.pool@ =~= released(pool, block));
                return ;
            }
        }
        self.pool.insert(i, Block { addr, size });
        assert(self.pool@ =~= released(pool, block));
    }

    /// Takes `block` back where it lies above every free block: `free` without the search.
    pub fn push(&mut self, block: Block)
        requires
            old(self).wf(),
            block.valid(),
            block.apart(old(self).arena()),
            block.size > 0 ==> rank(old(self)@, block.addr as int) == old(self)@.len(),
        ensures
            final(self).wf(),
            final(self).arena() == old(self).arena(),
            final(self)@ == released(old(self)@, block),
    {
        if block.size == 0 {
            return ;
        }
        let ghost pool = self.pool@;
        let n: usize = self.pool.len();
        proof {
            lemma_rank_exists(pool, block.addr as int);
            assert(clear_of(pool, block)) by {
                assert forall|j: int| 0 <= j < pool.len() implies (#[trigger] pool[j]).apart(
                    block,
                ) by {
                    assert(pool[j].end() <= block.addr);
                }
            }
            lemma_released_ordered(pool, block);
            lemma_released_clear(pool, block, self.arena);
        }
        if n > 0 {
            assert(pool[n - 1].valid());
            if self.pool[n - 1].addr + self.pool[n - 1].size == block.addr {
                let addr: usize = self.pool[n - 1].addr;
                let size: usize = self.pool[n - 1].size + block.size;
                self.pool.remove(n - 1);
                self.pool.push(Block { addr, size });
                assert(self.pool@ =~= released(pool, block));
                return ;
            }
        }
        self.pool.push(block);
        assert(self.pool@ =~= released(pool, block));
    }

    /// Brings `block` to `size` bytes where it lies. A block that shrinks gives back its
    /// tail; one that grows takes from the front of the free block right behind it.
    /// `Err` hands `block` back where no such free block holds the bytes it lacks, and
    /// the list is then as it was.
    pub fn realloc_inplace(&mut self, block: Block, size: usize) -> (r: Result<Block, Block>)
        requires
            old(self).wf(),
            old(self).accepts(block),
        ensures
            final(self).wf(),
            final(self).arena() == old(self).arena(),
            final(self)@ == resized(old(self)@, block, size),
            r is Ok <==> size <= block.size || grows(old(self)@, block, size),
            r matches Ok(b) ==> b == (Block { addr: block.addr, size }),
            r matches Err(b) ==> b == block,
    {
        proof {
            lemma_resized(self@, block, size);
            lemma_resized_clear(self@, block, size, self.arena);
        }
        if size <= block.size {
            let (head, tail) = block.split(size);
            proof {
                assert(clear_of(self@, tail)) by {
                    assert forall|j: int| 0 <= j < self@.len() implies (#[trigger] self@[j]).apart(
                        tail,
                    ) by {
                        assert(self@[j].apart(block));
                    }
                }
            }
            self.free(tail);
            return Ok(head);
        }
        let ghost pool = self.pool@;
        let i = self.find_rank(block.addr);
        if i < self.pool.len() {
            assert(pool[i as int].valid());
            let next: usize = self.pool[i].addr;
            let room: usize = self.pool[i].size;
            if next == block.addr + block.size && room >= size - block.size {
                let rest: usize = room - (size - block.size);
                self.pool.remove(i);
                if rest > 0 {
                    self.pool.insert(i, Block { addr: block.addr + size, size: rest });
                }
                assert(self.pool@ =~= resized(pool, block, size));
                return Ok(Block { addr: block.addr, size });
            }
        }
        Err(block)
    }

    /// Brings `block` to `size` bytes at a multiple of `align`: where it lies, if it lies
    /// at such an address and `realloc_inplace` succeeds; else in a block that `allocate`
    /// finds, after which `block` is given back. `Err` hands `block` back where the list
    /// holds no room for either, and the list is then as it was.
    pub fn realloc(&mut self, block: Block, size: usize, align: usize) -> (r: Result<Block, Block>)
        requires
            old(self).wf(),
            old(self).accepts(block),
            align > 0,
        ensures
            final(self).wf(),
            final(self).arena() == old(self).arena(),
            stays(old(self)@, block, size, align) ==> {
                &&& r == Ok::<Block, Block>(Block { addr: block.addr, size })
                &&& final(self)@ == resized(old(self)@, block, size)
            },
            !stays(old(self)@, block, size, align) ==> match taken(old(self)@, size, align) {
                Some(b) => {
                    &&& r == Ok::<Block, Block>(b)
                    &&& final(self)@ == released(remaining(old(self)@, size, align), block)
                },
                None => r == Err::<Block, Block>(block) && final(self)@ == old(self)@,
            },
    {
        let block = if block.aligned_to(align) {
            match self.realloc_inplace(block, size) {
                Ok(b) => {
                    return Ok(b);
                },
                Err(b) => b,
            }
        } else {
            block
        };
        proof {
            lemma_remaining_clear(self@, size, align, block);
        }
        match self.allocate(size, align) {
            Some(b) => {
                self.free(block);
                Ok(b)
            },
            None => Err(block),
        }
    }

    /// Takes the highest free block from the list.
    pub fn pop(&mut self) -> (r: Option<Block>)
        requires
            old(self).wf(),
        ensures
            final(self).wf(),
            final(self).arena() == old(self).arena(),
            old(self)@.len() == 0 ==> r is None && final(self)@ == old(self)@,
            old(self)@.len() > 0 ==> r == Some(old(self)@.last()) && final(self)@ == old(self)@.drop_last(),
    {
        let ghost pool = self.pool@;
        let r = self.pool.pop();
        proof {
            if pool.len() > 0 {
                assert(self.pool@ =~= pool.drop_last());
                assert forall|i: int, j: int| 0 <= i < j < self.pool@.len() implies (
                #[trigger] self.pool@[i]).end() < (#[trigger] self.pool@[j]).addr by {
                    assert(pool[i].end() < pool[j].addr);
                }
            }
        }
        r
    }

    /// Ends the bookkeeper and hands out the block that its records occupied.
    pub fn into_arena(self) -> (r: Block)
        requires
            self.wf(),
        ensures
            r == self.arena(),
    {
        self.arena
    }
}

} // verus!
