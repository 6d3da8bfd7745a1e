//! Free lists as sequences of blocks: what a list holds, what taking a block from it and
//! giving one back do to it, and the facts about both that the allocators rest on.

use vstd::prelude::*;
use crate::block::{padding, lemma_padding, Block};

verus! {

/// The blocks are real, none is empty, and each ends below the start of the next: they come
/// by rising address, share no byte and do not touch.
pub open spec fn ordered(pool: Seq<Block>) -> bool {
    &&& forall|i: int| 0 <= i < pool.len() ==> (#[trigger] pool[i]).valid() && pool[i].size > 0
    &&& forall|i: int, j: int|
        0 <= i < j < pool.len() ==> (#[trigger] pool[i]).end() < (#[trigger] pool[j]).addr
}

/// The number of bytes in the blocks of `pool`.
pub open spec fn total(pool: Seq<Block>) -> int
    decreases pool.len(),
{
    if pool.len() == 0 {
        0
    } else {
        total(pool.drop_last()) + pool.last().size
    }
}

/// `b` shares no byte with a block of `pool`.
pub open spec fn clear_of(pool: Seq<Block>, b: Block) -> bool {
    forall|i: int| 0 <= i < pool.len() ==> (#[trigger] pool[i]).apart(b)
}

/// No block of `a` shares a byte with a block of `b`.
pub open spec fn disjoint(a: Seq<Block>, b: Seq<Block>) -> bool {
    forall|i: int| 0 <= i < b.len() ==> clear_of(a, #[trigger] b[i])
}

/// Every block of `pool` ends at or below `addr`.
pub open spec fn under(pool: Seq<Block>, addr: int) -> bool {
    forall|i: int| 0 <= i < pool.len() ==> (#[trigger] pool[i]).end() <= addr
}

/// `i` blocks of `pool` end at or below `addr`, and they are its first `i`.
pub open spec fn is_rank(pool: Seq<Block>, addr: int, i: int) -> bool {
    &&& 0 <= i <= pool.len()
    &&& forall|j: int| 0 <= j < i ==> (#[trigger] pool[j]).end() <= addr
    &&& forall|j: int| i <= j < pool.len() ==> (#[trigger] pool[j]).end() > addr
}

/// The number of blocks of an ordered `pool` that end at or below `addr`: the place in
/// `pool` of a block that starts at `addr`.
pub open spec fn rank(pool: Seq<Block>, addr: int) -> int {
    choose|i: int| is_rank(pool, addr, i)
}

/// The free list after `b` was given back to `pool`: `b` stands at its place by address,
/// as one block with the neighbours that it touches. An empty `b` changes nothing.
pub open spec fn released(pool: Seq<Block>, b: Block) -> Seq<Block> {
    if b.size == 0 {
        pool
    } else {
        let i = rank(pool, b.addr as int);
        let left = i > 0 && pool[i - 1].end() == b.addr;
        let right = i < pool.len() && b.end() == pool[i].addr;
        let lo = if left { i - 1 } else { i };
        let hi = if right { i + 1 } else { i };
        let addr = if left { pool[i - 1].addr } else { b.addr };
        let size = b.size + (if left { pool[i - 1].size as int } else { 0 })
            + (if right { pool[i].size as int } else { 0 });
        pool.subrange(0, lo).push(Block { addr, size: size as usize })
            + pool.subrange(hi, pool.len() as int)
    }
}

/// The free list after each block of `blocks` was given back to `pool`, the last one first.
pub open spec fn absorbed(pool: Seq<Block>, blocks: Seq<Block>) -> Seq<Block>
    decreases blocks.len(),
{
    if blocks.len() == 0 {
        pool
    } else {
        absorbed(released(pool, blocks.last()), blocks.drop_last())
    }
}

/// `pool[i]` is the first block of `pool` that holds `size` bytes at a multiple of `align`.
pub open spec fn is_first_fit(pool: Seq<Block>, size: int, align: int, i: int) -> bool {
    &&& 0 <= i < pool.len()
    &&& pool[i].fits(size, align)
    &&& forall|j: int| 0 <= j < i ==> !(#[trigger] pool[j]).fits(size, align)
}

/// The place of the first block of `pool` that holds `size` bytes at a multiple of `align`.
pub open spec fn first_fit(pool: Seq<Block>, size: int, align: int) -> Option<int> {
    if exists|i: int| is_first_fit(pool, size, align, i) {
        Some(choose|i: int| is_first_fit(pool, size, align, i))
    } else {
        None
    }
}

/// The block that a request for `size` bytes at a multiple of `align` takes from `pool`:
/// the lowest such range of the first block that holds one.
pub open spec fn taken(pool: Seq<Block>, size: usize, align: usize) -> Option<Block> {
    match first_fit(pool, size as int, align as int) {
        Some(i) => Some(
            Block {
                addr: (pool[i].addr + padding(pool[i].addr as int, align as int)) as usize,
                size,
            },
        ),
        None => None,
    }
}

/// `b` as a list: nothing where it is empty.
pub open spec fn kept(b: Block) -> Seq<Block> {
    if b.size == 0 {
        Seq::empty()
    } else {
        seq![b]
    }
}

/// What is left of the block `p` before the range of `size` bytes at its first multiple of
/// `align`, and what is left behind that range.
pub open spec fn remnants(p: Block, size: usize, align: usize) -> Seq<Block> {
    let pad = padding(p.addr as int, align as int);
    kept(Block { addr: p.addr, size: pad as usize }) + kept(
        Block { addr: (p.addr + pad + size) as usize, size: (p.size - pad - size) as usize },
    )
}

/// `pool` with the blocks of `mid` in the place of `pool[i]`.
pub open spec fn replaced(pool: Seq<Block>, i: int, mid: Seq<Block>) -> Seq<Block> {
    pool.subrange(0, i) + mid + pool.subrange(i + 1, pool.len() as int)
}

/// The free list after a request for `size` bytes at a multiple of `align` was served from
/// `pool`: the block that served it gives way to what is left of it.
pub open spec fn remaining(pool: Seq<Block>, size: usize, align: usize) -> Seq<Block> {
    match first_fit(pool, size as int, align as int) {
        Some(i) => if size == 0 {
            pool
        } else {
            replaced(pool, i, remnants(pool[i], size, align))
        },
        None => pool,
    }
}

/// The free block right behind `b` holds the bytes that `b` lacks to be of `size` bytes.
pub open spec fn grows(pool: Seq<Block>, b: Block, size: usize) -> bool {
    let i = rank(pool, b.addr as int);
    i < pool.len() && pool[i].addr == b.end() && b.size + pool[i].size >= size
}

/// The free list after `b` was brought to `size` bytes where it lies: what `b` gives up
/// is given back; what it gains comes off the front of the free block behind it; where
/// that block cannot give it, the list is as it was.
pub open spec fn resized(pool: Seq<Block>, b: Block, size: usize) -> Seq<Block> {
    if size <= b.size {
        released(pool, Block { addr: (b.addr + size) as usize, size: (b.size - size) as usize })
    } else if grows(pool, b, size) {
        let i = rank(pool, b.addr as int);
        replaced(
            pool,
            i,
            kept(
                Block {
                    addr: (b.addr + size) as usize,
                    size: (pool[i].size - (size - b.size)) as usize,
                },
            ),
        )
    } else {
        pool
    }
}

/// `b` can be brought to `size` bytes where it lies, and lies at a multiple of `align`.
pub open spec fn stays(pool: Seq<Block>, b: Block, size: usize, align: usize) -> bool {
    b.aligned(align as int) && (size <= b.size || grows(pool, b, size))
}

/// An ordered list has one rank for each address.
pub proof fn lemma_rank(pool: Seq<Block>, addr: int, i: int)
    requires
        is_rank(pool, addr, i),
    ensures
        rank(pool, addr) == i,
{
    let k = rank(pool, addr);
    assert(is_rank(pool, addr, k));
    if k < i {
        assert(pool[k].end() <= addr);
    } else if i < k {
        assert(pool[i].end() <= addr);
    }
}

/// The first fit is the only one.
pub proof fn lemma_first_fit(pool: Seq<Block>, size: int, align: int, i: int)
    requires
        is_first_fit(pool, size, align, i),
    ensures
        first_fit(pool, size, align) == Some(i),
{
    let k = choose|k: int| is_first_fit(pool, size, align, k);
    if k < i {
        assert(!pool[k].fits(size, align));
    } else if i < k {
        assert(!pool[i].fits(size, align));
    }
}

/// Where no block fits, there is no first fit.
pub proof fn lemma_no_fit(pool: Seq<Block>, size: int, align: int)
    requires
        forall|j: int| 0 <= j < pool.len() ==> !(#[trigger] pool[j]).fits(size, align),
    ensures
        first_fit(pool, size, align) is None,
{
}

/// The bytes of two lists put end to end are the bytes of both.
pub proof fn lemma_total_concat(a: Seq<Block>, b: Seq<Block>)
    ensures
        total(a + b) == total(a) + total(b),
    decreases b.len(),
{
    if b.len() == 0 {
        assert(a + b =~= a);
    } else {
        assert((a + b).drop_last() =~= a + b.drop_last());
        lemma_total_concat(a, b.drop_last());
    }
}

/// The bytes of a list of one block are that block's.
pub proof fn lemma_total_one(b: Block)
    ensures
        total(seq![b]) == b.size,
        total(kept(b)) == b.size,
        total(Seq::<Block>::empty()) == 0,
{
    let one = seq![b];
    assert(one.len() == 1 && one.last() == b);
    assert(one.drop_last() =~= Seq::<Block>::empty());
    assert(total(one.drop_last()) == 0);
    assert(total(one) == total(one.drop_last()) + one.last().size);
}

/// The bytes of a list are those of a part of it and of the rest.
pub proof fn lemma_total_split(pool: Seq<Block>, lo: int, hi: int)
    requires
        0 <= lo <= hi <= pool.len(),
    ensures
        total(pool) == total(pool.subrange(0, lo)) + total(pool.subrange(lo, hi)) + total(
            pool.subrange(hi, pool.len() as int),
        ),
{
    let a = pool.subrange(0, lo);
    let b = pool.subrange(lo, hi);
    let c = pool.subrange(hi, pool.len() as int);
    assert(pool =~= a + b + c);
    lemma_total_concat(a + b, c);
    lemma_total_concat(a, b);
}

/// Every address has a rank in an ordered list.
pub proof fn lemma_rank_exists(pool: Seq<Block>, addr: int)
    requires
        ordered(pool),
    ensures
        is_rank(pool, addr, rank(pool, addr)),
    decreases pool.len(),
{
    if pool.len() == 0 {
        assert(is_rank(pool, addr, 0));
    } else {
        let front = pool.drop_last();
        assert(ordered(front)) by {
            assert forall|i: int, j: int| 0 <= i < j < front.len() implies (#[trigger] front[i]).end()
                < (#[trigger] front[j]).addr by {
                assert(pool[i].end() < pool[j].addr);
            }
        }
        lemma_rank_exists(front, addr);
        let k = rank(front, addr);
        let n = pool.len() as int;
        if pool[n - 1].end() <= addr {
            assert forall|j: int| 0 <= j < n implies (#[trigger] pool[j]).end() <= addr by {
                if j < n - 1 {
                    assert(pool[j].end() < pool[n - 1].addr);
                }
            }
            assert(is_rank(pool, addr, n));
        } else {
            assert forall|j: int| 0 <= j < k implies (#[trigger] pool[j]).end() <= addr by {
                assert(front[j].end() <= addr);
            }
            assert forall|j: int| k <= j < n implies (#[trigger] pool[j]).end() > addr by {
                if j < n - 1 {
                    assert(front[j].end() > addr);
                }
            }
            assert(is_rank(pool, addr, k));
        }
    }
}

/// Around the rank of a block that is clear of the list: what comes before it ends at or
/// below the block, what comes behind starts at or above its end.
pub proof fn lemma_rank_sides(pool: Seq<Block>, b: Block)
    requires
        ordered(pool),
        clear_of(pool, b),
        b.size > 0,
    ensures
        is_rank(pool, b.addr as int, rank(pool, b.addr as int)),
        forall|j: int|
            rank(pool, b.addr as int) <= j < pool.len() ==> b.end() <= (#[trigger] pool[j]).addr,
{
    lemma_rank_exists(pool, b.addr as int);
    let i = rank(pool, b.addr as int);
    assert forall|j: int| i <= j < pool.len() implies b.end() <= (#[trigger] pool[j]).addr by {
        assert(pool[j].apart(b));
        assert(pool[j].end() > b.addr);
    }
}

/// Giving back a block that is clear of an ordered list leaves the list ordered.
pub proof fn lemma_released_ordered(pool: Seq<Block>, b: Block)
    requires
        ordered(pool),
        clear_of(pool, b),
        b.valid(),
    ensures
        ordered(released(pool, b)),
{
    if b.size > 0 {
        lemma_rank_sides(pool, b);
        let i = rank(pool, b.addr as int);
        let left = i > 0 && pool[i - 1].end() == b.addr;
        let right = i < pool.len() && b.end() == pool[i].addr;
        let lo = if left { i - 1 } else { i };
        let hi = if right { i + 1 } else { i };
        let out = released(pool, b);
        let m = out[lo];
        assert(out.len() == lo + 1 + pool.len() - hi);
        assert forall|k: int| 0 <= k < out.len() implies (#[trigger] out[k]).valid() && out[k].size
            > 0 by {
            if k < lo {
                assert(out[k] == pool[k]);
            } else if k > lo {
                assert(out[k] == pool[hi + (k - lo - 1)]);
            } else {
                if right {
                    assert(pool[i].valid());
                }
                if left {
                    assert(pool[i - 1].valid());
                }
            }
        }
        assert forall|x: int, y: int| 0 <= x < y < out.len() implies (#[trigger] out[x]).end() < (
        #[trigger] out[y]).addr by {
            if x < lo {
                assert(out[x] == pool[x]);
            }
            if y > lo {
                assert(out[y] == pool[hi + (y - lo - 1)]);
            }
            if x < lo && y > lo {
                assert(pool[x].end() < pool[hi + (y - lo - 1)].addr);
            } else if x < lo {
                // y == lo
                assert(pool[x].end() <= b.addr);
                if left {
                    assert(pool[x].end() < pool[i - 1].addr);
                } else if i > 0 {
                    assert(pool[i - 1].end() <= b.addr);
                    assert(x < i - 1 ==> pool[x].end() < pool[i - 1].addr);
                }
            } else {
                // x == lo
                let z = hi + (y - lo - 1);
                assert(b.end() <= pool[z].addr);
                if right {
                    assert(pool[i].end() < pool[z].addr);
                } else if i < pool.len() {
                    assert(b.end() <= pool[i].addr);
                    assert(i < z ==> pool[i].end() < pool[z].addr);
                }
            }
        }
    }
}

/// Giving back a block adds its bytes to the list's.
pub proof fn lemma_released_total(pool: Seq<Block>, b: Block)
    requires
        ordered(pool),
        clear_of(pool, b),
        b.valid(),
    ensures
        total(released(pool, b)) == total(pool) + b.size,
{
    if b.size > 0 {
        lemma_rank_sides(pool, b);
        let i = rank(pool, b.addr as int);
        let left = i > 0 && pool[i - 1].end() == b.addr;
        let right = i < pool.len() && b.end() == pool[i].addr;
        let lo = if left { i - 1 } else { i };
        let hi = if right { i + 1 } else { i };
        let pre = pool.subrange(0, lo);
        let mid = pool.subrange(lo, hi);
        let post = pool.subrange(hi, pool.len() as int);
        let out = released(pool, b);
        let m = out[lo];
        if right {
            assert(pool[i].valid());
        }
        if left {
            assert(pool[i - 1].valid());
        }
        assert(out =~= pre + seq![m] + post);
        lemma_total_split(pool, lo, hi);
        lemma_total_concat(pre + seq![m], post);
        lemma_total_concat(pre, seq![m]);
        lemma_total_one(m);
        // the bytes of the neighbours that went into the new block
        if left && right {
            assert(mid =~= seq![pool[i - 1]] + seq![pool[i]]);
            lemma_total_concat(seq![pool[i - 1]], seq![pool[i]]);
            lemma_total_one(pool[i - 1]);
            lemma_total_one(pool[i]);
        } else if left {
            assert(mid =~= seq![pool[i - 1]]);
            lemma_total_one(pool[i - 1]);
        } else if right {
            assert(mid =~= seq![pool[i]]);
            lemma_total_one(pool[i]);
        } else {
            assert(mid =~= Seq::<Block>::empty());
        }
    }
}

/// A block that is clear of a list and of the block given back to it is clear of the list
/// that comes of it.
pub proof fn lemma_released_clear(pool: Seq<Block>, b: Block, x: Block)
    requires
        ordered(pool),
        clear_of(pool, b),
        b.valid(),
        clear_of(pool, x),
        x.apart(b),
    ensures
        clear_of(released(pool, b), x),
{
    if b.size > 0 {
        lemma_rank_sides(pool, b);
        let i = rank(pool, b.addr as int);
        let left = i > 0 && pool[i - 1].end() == b.addr;
        let right = i < pool.len() && b.end() == pool[i].addr;
        let lo = if left { i - 1 } else { i };
        let hi = if right { i + 1 } else { i };
        let out = released(pool, b);
        assert forall|k: int| 0 <= k < out.len() implies (#[trigger] out[k]).apart(x) by {
            if k < lo {
                assert(out[k] == pool[k]);
            } else if k > lo {
                assert(out[k] == pool[hi + (k - lo - 1)]);
            } else {
                if right {
                    assert(pool[i].valid() && pool[i].apart(x));
                }
                if left {
                    assert(pool[i - 1].valid() && pool[i - 1].apart(x));
                }
            }
        }
    }
}

/// Blocks cut from one block of an ordered list may stand in its place.
pub proof fn lemma_replaced_ordered(pool: Seq<Block>, i: int, mid: Seq<Block>)
    requires
        ordered(pool),
        0 <= i < pool.len(),
        ordered(mid),
        forall|k: int| 0 <= k < mid.len() ==> (#[trigger] mid[k]).within(pool[i]),
    ensures
        ordered(replaced(pool, i, mid)),
{
    let out = replaced(pool, i, mid);
    let m = mid.len() as int;
    assert(out.len() == pool.len() - 1 + m);
    assert forall|k: int| 0 <= k < out.len() implies (#[trigger] out[k]).valid() && out[k].size
        > 0 by {
        if k < i {
            assert(out[k] == pool[k]);
        } else if k < i + m {
            assert(out[k] == mid[k - i]);
        } else {
            assert(out[k] == pool[k - m + 1]);
        }
    }
    assert forall|x: int, y: int| 0 <= x < y < out.len() implies (#[trigger] out[x]).end() < (
    #[trigger] out[y]).addr by {
        if x < i {
            assert(out[x] == pool[x]);
            if y < i {
                assert(out[y] == pool[y]);
            } else if y < i + m {
                assert(out[y] == mid[y - i]);
                assert(mid[y - i].within(pool[i]));
                assert(pool[x].end() < pool[i].addr);
            } else {
                assert(out[y] == pool[y - m + 1]);
            }
        } else if x < i + m {
            assert(out[x] == mid[x - i]);
            assert(mid[x - i].within(pool[i]));
            if y < i + m {
                assert(out[y] == mid[y - i]);
            } else {
                assert(out[y] == pool[y - m + 1]);
                assert(pool[i].end() < pool[y - m + 1].addr);
            }
        } else {
            assert(out[x] == pool[x - m + 1]);
            assert(out[y] == pool[y - m + 1]);
        }
    }
}

/// The bytes of a list in which blocks took the place of one.
pub proof fn lemma_replaced_total(pool: Seq<Block>, i: int, mid: Seq<Block>)
    requires
        0 <= i < pool.len(),
    ensures
        total(replaced(pool, i, mid)) == total(pool) - pool[i].size + total(mid),
{
    let pre = pool.subrange(0, i);
    let post = pool.subrange(i + 1, pool.len() as int);
    lemma_total_split(pool, i, i + 1);
    assert(pool.subrange(i, i + 1) =~= seq![pool[i]]);
    lemma_total_one(pool[i]);
    lemma_total_concat(pre + mid, post);
    lemma_total_concat(pre, mid);
}

/// A block that is clear of a list is clear of it after blocks cut from one of its blocks
/// took that block's place.
pub proof fn lemma_replaced_clear(pool: Seq<Block>, i: int, mid: Seq<Block>, x: Block)
    requires
        0 <= i < pool.len(),
        forall|k: int| 0 <= k < mid.len() ==> (#[trigger] mid[k]).within(pool[i]),
        clear_of(pool, x),
    ensures
        clear_of(replaced(pool, i, mid), x),
{
    let out = replaced(pool, i, mid);
    let m = mid.len() as int;
    assert forall|k: int| 0 <= k < out.len() implies (#[trigger] out[k]).apart(x) by {
        if k < i {
            assert(out[k] == pool[k]);
        } else if k < i + m {
            assert(out[k] == mid[k - i]);
            assert(mid[k - i].within(pool[i]));
            assert(pool[i].apart(x));
        } else {
            assert(out[k] == pool[k - m + 1]);
        }
    }
}

/// What is left of a block around the range that a request takes from it: two blocks at
/// most, ordered, within the block, clear of the range, and with it the block's bytes.
pub proof fn lemma_remnants(p: Block, size: usize, align: usize)
    requires
        p.valid(),
        align > 0,
        size > 0,
        p.fits(size as int, align as int),
    ensures
        ordered(remnants(p, size, align)),
        forall|k: int|
            0 <= k < remnants(p, size, align).len() ==> {
                &&& (#[trigger] remnants(p, size, align)[k]).within(p)
                &&& remnants(p, size, align)[k].apart(
                    Block { addr: (p.addr + padding(p.addr as int, align as int)) as usize, size },
                )
            },
        total(remnants(p, size, align)) + size == p.size,
{
    lemma_padding(p.addr as int, align as int);
    let pad = padding(p.addr as int, align as int);
    let before = Block { addr: p.addr, size: pad as usize };
    let after = Block { addr: (p.addr + pad + size) as usize, size: (p.size - pad - size) as usize };
    lemma_total_concat(kept(before), kept(after));
    lemma_total_one(before);
    lemma_total_one(after);
    let out = remnants(p, size, align);
    if before.size > 0 && after.size > 0 {
        assert(out =~= seq![before, after]);
    } else if before.size > 0 {
        assert(out =~= seq![before]);
    } else if after.size > 0 {
        assert(out =~= seq![after]);
    } else {
        assert(out =~= Seq::<Block>::empty());
    }
}

/// What a request takes from an ordered list and what it leaves: the block taken is real,
/// has the size and the alignment asked for and was free; the list left is ordered, clear
/// of the block taken, and holds the bytes that the block does not.
pub proof fn lemma_taken(pool: Seq<Block>, size: usize, align: usize)
    requires
        ordered(pool),
        align > 0,
    ensures
        ordered(remaining(pool, size, align)),
        match taken(pool, size, align) {
            Some(r) => {
                &&& r.valid()
                &&& r.size == size
                &&& r.aligned(align as int)
                &&& exists|i: int| 0 <= i < pool.len() && r.within(#[trigger] pool[i])
                &&& clear_of(remaining(pool, size, align), r)
                &&& total(remaining(pool, size, align)) + size == total(pool)
            },
            None => remaining(pool, size, align) == pool,
        },
{
    match first_fit(pool, size as int, align as int) {
        Some(i) => {
            assert(is_first_fit(pool, size as int, align as int, i));
            let p = pool[i];
            let r = taken(pool, size, align).unwrap();
            assert(p.valid());
            lemma_padding(p.addr as int, align as int);
            assert(r.within(pool[i]));
            if size > 0 {
                let mid = remnants(p, size, align);
                lemma_remnants(p, size, align);
                lemma_replaced_ordered(pool, i, mid);
                lemma_replaced_total(pool, i, mid);
                let out = replaced(pool, i, mid);
                let m = mid.len() as int;
                assert forall|k: int| 0 <= k < out.len() implies (#[trigger] out[k]).apart(r) by {
                    if k < i {
                        assert(out[k] == pool[k]);
                        assert(pool[k].end() < pool[i].addr);
                    } else if k < i + m {
                        assert(out[k] == mid[k - i]);
                    } else {
                        assert(out[k] == pool[k - m + 1]);
                        assert(pool[i].end() < pool[k - m + 1].addr);
                    }
                }
            }
        },
        None => {},
    }
}

/// A block that is clear of a list is clear of what a request leaves of the list.
pub proof fn lemma_remaining_clear(pool: Seq<Block>, size: usize, align: usize, x: Block)
    requires
        ordered(pool),
        align > 0,
        clear_of(pool, x),
    ensures
        clear_of(remaining(pool, size, align), x),
        taken(pool, size, align) matches Some(r) ==> r.apart(x),
{
    match first_fit(pool, size as int, align as int) {
        Some(i) => {
            assert(is_first_fit(pool, size as int, align as int, i));
            let p = pool[i];
            assert(p.valid() && p.apart(x));
            lemma_padding(p.addr as int, align as int);
            if size > 0 {
                lemma_remnants(p, size, align);
                lemma_replaced_clear(pool, i, remnants(p, size, align), x);
            }
        },
        None => {},
    }
}

/// Resizing a block where it lies keeps the free list ordered and moves between the block
/// and the list the bytes by which the block's size changes.
pub proof fn lemma_resized(pool: Seq<Block>, b: Block, size: usize)
    requires
        ordered(pool),
        b.valid(),
        clear_of(pool, b),
    ensures
        ordered(resized(pool, b, size)),
        size <= b.size || grows(pool, b, size) ==> {
            &&& total(resized(pool, b, size)) + size == total(pool) + b.size
            &&& (Block { addr: b.addr, size }).valid()
            &&& clear_of(resized(pool, b, size), Block { addr: b.addr, size })
        },
{
    let out = resized(pool, b, size);
    let r = Block { addr: b.addr, size };
    if size <= b.size {
        let tail = Block { addr: (b.addr + size) as usize, size: (b.size - size) as usize };
        assert(clear_of(pool, tail)) by {
            assert forall|j: int| 0 <= j < pool.len() implies (#[trigger] pool[j]).apart(tail) by {
                assert(pool[j].apart(b));
            }
        }
        lemma_released_ordered(pool, tail);
        lemma_released_total(pool, tail);
        assert(clear_of(pool, r)) by {
            assert forall|j: int| 0 <= j < pool.len() implies (#[trigger] pool[j]).apart(r) by {
                assert(pool[j].apart(b));
            }
        }
        lemma_released_clear(pool, tail, r);
    } else if grows(pool, b, size) {
        lemma_rank_exists(pool, b.addr as int);
        let i = rank(pool, b.addr as int);
        let p = pool[i];
        assert(p.valid());
        let rest = Block { addr: (b.addr + size) as usize, size: (p.size - (size - b.size)) as usize };
        let mid = kept(rest);
        lemma_total_one(rest);
        lemma_replaced_ordered(pool, i, mid);
        lemma_replaced_total(pool, i, mid);
        let m = mid.len() as int;
        assert forall|k: int| 0 <= k < out.len() implies (#[trigger] out[k]).apart(r) by {
            if k < i {
                assert(out[k] == pool[k]);
                assert(pool[k].end() <= b.addr);
            } else if k < i + m {
                assert(out[k] == mid[k - i]);
            } else {
                assert(out[k] == pool[k - m + 1]);
                assert(pool[i].end() < pool[k - m + 1].addr);
            }
        }
    }
}

/// A block that is clear of a list and of a block outside the list is clear of the list
/// after that block was resized where it lies.
pub proof fn lemma_resized_clear(pool: Seq<Block>, b: Block, size: usize, x: Block)
    requires
        ordered(pool),
        b.valid(),
        clear_of(pool, b),
        clear_of(pool, x),
        x.apart(b),
    ensures
        clear_of(resized(pool, b, size), x),
        size <= b.size || grows(pool, b, size) ==> (Block { addr: b.addr, size }).apart(x),
{
    if size <= b.size {
        let tail = Block { addr: (b.addr + size) as usize, size: (b.size - size) as usize };
        assert(clear_of(pool, tail)) by {
            assert forall|j: int| 0 <= j < pool.len() implies (#[trigger] pool[j]).apart(tail) by {
                assert(pool[j].apart(b));
            }
        }
        lemma_released_clear(pool, tail, x);
    } else if grows(pool, b, size) {
        lemma_rank_exists(pool, b.addr as int);
        let i = rank(pool, b.addr as int);
        let p = pool[i];
        assert(p.valid() && p.apart(x));
        let rest = Block { addr: (b.addr + size) as usize, size: (p.size - (size - b.size)) as usize };
        lemma_replaced_clear(pool, i, kept(rest), x);
    }
}

/// A list that lies under an address has all its blocks before that address, and is clear
/// of every block that starts at or above it.
pub proof fn lemma_under(pool: Seq<Block>, addr: int, x: Block)
    requires
        under(pool, addr),
    ensures
        rank(pool, addr) == pool.len(),
        addr <= x.addr ==> clear_of(pool, x),
{
    lemma_rank(pool, addr, pool.len() as int);
    if addr <= x.addr {
        assert forall|i: int| 0 <= i < pool.len() implies (#[trigger] pool[i]).apart(x) by {
            assert(pool[i].end() <= addr);
        }
    }
}

/// A list that lies under an address still does after it took back a block that ends at
/// or below that address.
pub proof fn lemma_released_under(pool: Seq<Block>, b: Block, addr: int)
    requires
        ordered(pool),
        clear_of(pool, b),
        b.valid(),
        under(pool, addr),
        b.end() <= addr,
    ensures
        under(released(pool, b), addr),
{
    if b.size > 0 {
        lemma_rank_sides(pool, b);
        let i = rank(pool, b.addr as int);
        let left = i > 0 && pool[i - 1].end() == b.addr;
        let right = i < pool.len() && b.end() == pool[i].addr;
        let lo = if left { i - 1 } else { i };
        let hi = if right { i + 1 } else { i };
        let out = released(pool, b);
        assert forall|k: int| 0 <= k < out.len() implies (#[trigger] out[k]).end() <= addr by {
            if k < lo {
                assert(out[k] == pool[k]);
            } else if k > lo {
                assert(out[k] == pool[hi + (k - lo - 1)]);
            } else {
                if right {
                    assert(pool[i].valid() && pool[i].end() <= addr);
                }
                if left {
                    assert(pool[i - 1].valid());
                }
            }
        }
    }
}

/// A block that lies within one that is clear of a list is clear of the list.
pub proof fn lemma_clear_within(pool: Seq<Block>, b: Block, x: Block)
    requires
        clear_of(pool, b),
        x.within(b),
    ensures
        clear_of(pool, x),
{
    assert forall|i: int| 0 <= i < pool.len() implies (#[trigger] pool[i]).apart(x) by {
        assert(pool[i].apart(b));
    }
}

/// Two lists share no byte whichever of them is named first.
pub proof fn lemma_disjoint_sym(a: Seq<Block>, b: Seq<Block>)
    requires
        disjoint(a, b),
    ensures
        disjoint(b, a),
{
    assert forall|i: int| 0 <= i < a.len() implies clear_of(b, #[trigger] a[i]) by {
        assert forall|j: int| 0 <= j < b.len() implies (#[trigger] b[j]).apart(a[i]) by {
            assert(clear_of(a, b[j]));
            assert(a[i].apart(b[j]));
        }
    }
}

/// A list that shares no byte with another list, nor with a block that the other takes
/// back, shares no byte with what comes of it.
pub proof fn lemma_released_disjoint(other: Seq<Block>, pool: Seq<Block>, b: Block)
    requires
        ordered(pool),
        clear_of(pool, b),
        b.valid(),
        disjoint(other, pool),
        clear_of(other, b),
    ensures
        disjoint(other, released(pool, b)),
        disjoint(released(pool, b), other),
{
    lemma_disjoint_sym(other, pool);
    let out = released(pool, b);
    assert forall|j: int| 0 <= j < other.len() implies clear_of(out, #[trigger] other[j]) by {
        assert(clear_of(pool, other[j]));
        assert(other[j].apart(b));
        lemma_released_clear(pool, b, other[j]);
    }
    assert(disjoint(out, other));
    lemma_disjoint_sym(out, other);
}

/// A list that shares no byte with another list shares none with what a request leaves of
/// the other, nor with the block that the request takes.
pub proof fn lemma_remaining_disjoint(other: Seq<Block>, pool: Seq<Block>, size: usize, align: usize)
    requires
        ordered(pool),
        align > 0,
        disjoint(other, pool),
    ensures
        disjoint(other, remaining(pool, size, align)),
        disjoint(remaining(pool, size, align), other),
        taken(pool, size, align) matches Some(r) ==> clear_of(other, r),
{
    lemma_disjoint_sym(other, pool);
    let out = remaining(pool, size, align);
    assert forall|j: int| 0 <= j < other.len() implies clear_of(out, #[trigger] other[j]) by {
        assert(clear_of(pool, other[j]));
        lemma_remaining_clear(pool, size, align, other[j]);
    }
    assert(disjoint(out, other));
    lemma_disjoint_sym(out, other);
    if let Some(r) = taken(pool, size, align) {
        assert forall|j: int| 0 <= j < other.len() implies (#[trigger] other[j]).apart(r) by {
            assert(clear_of(pool, other[j]));
            lemma_remaining_clear(pool, size, align, other[j]);
        }
    }
}

/// A list that lies under an address still does after a request was served from it.
pub proof fn lemma_remaining_under(pool: Seq<Block>, size: usize, align: usize, addr: int)
    requires
        ordered(pool),
        align > 0,
        under(pool, addr),
    ensures
        under(remaining(pool, size, align), addr),
        taken(pool, size, align) matches Some(r) ==> r.end() <= addr,
{
    match first_fit(pool, size as int, align as int) {
        Some(i) => {
            assert(is_first_fit(pool, size as int, align as int, i));
            let p = pool[i];
            assert(p.valid() && p.end() <= addr);
            lemma_padding(p.addr as int, align as int);
            if size > 0 {
                lemma_remnants(p, size, align);
                let mid = remnants(p, size, align);
                let out = replaced(pool, i, mid);
                let m = mid.len() as int;
                assert forall|k: int| 0 <= k < out.len() implies (#[trigger] out[k]).end() <= addr by {
                    if k < i {
                        assert(out[k] == pool[k]);
                    } else if k < i + m {
                        assert(out[k] == mid[k - i]);
                        assert(mid[k - i].within(p));
                    } else {
                        assert(out[k] == pool[k - m + 1]);
                    }
                }
            }
        },
        None => {},
    }
}

/// A list that lies under an address still does after a block that ends at or below that
/// address was resized where it lies.
pub proof fn lemma_resized_under(pool: Seq<Block>, b: Block, size: usize, addr: int)
    requires
        ordered(pool),
        b.valid(),
        clear_of(pool, b),
        under(pool, addr),
        b.end() <= addr,
    ensures
        under(resized(pool, b, size), addr),
        size <= b.size || grows(pool, b, size) ==> b.addr + size <= addr,
{
    if size <= b.size {
        let tail = Block { addr: (b.addr + size) as usize, size: (b.size - size) as usize };
        lemma_clear_within(pool, b, tail);
        lemma_released_under(pool, tail, addr);
    } else if grows(pool, b, size) {
        lemma_rank_exists(pool, b.addr as int);
        let i = rank(pool, b.addr as int);
        let p = pool[i];
        assert(p.valid() && p.end() <= addr);
        let rest = Block { addr: (b.addr + size) as usize, size: (p.size - (size - b.size)) as usize };
        let mid = kept(rest);
        let out = replaced(pool, i, mid);
        let m = mid.len() as int;
        assert forall|k: int| 0 <= k < out.len() implies (#[trigger] out[k]).end() <= addr by {
            if k < i {
                assert(out[k] == pool[k]);
            } else if k < i + m {
                assert(out[k] == mid[k - i]);
            } else {
                assert(out[k] == pool[k - m + 1]);
            }
        }
    }
}

} // verus!
