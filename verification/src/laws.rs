//! What holds of the allocator whatever is asked of it: no request makes or loses a byte,
//! no byte is free in two places, and memory that is given back can be had again.

use vstd::prelude::*;
use crate::allocator::{
    allocated, allocated_locally, freed, heap_of, reallocated, reallocated_locally,
    resized_inplace, sound, takes, unasked, upstream_takes, with_heap, woken, wakes, CellView,
    SlotView,
};
use crate::block::{lemma_padding, padding, Block};
use crate::brk::{extension, lemma_carved, Heap, Stop};
use crate::global::{lemma_allocated, lemma_global_started, global_started, GlobalView};
use crate::lazy_init::LazyInit;
use crate::local::{
    canonical, lemma_absorbed, lemma_fresh_keeps, lemma_handed_out, lemma_local_fresh,
    lemma_local_allocated, lemma_local_freed, lemma_local_started, lemma_reallocated,
    lemma_reclaimed, separate, LocalView,
};
use crate::pool::{
    absorbed, clear_of, disjoint, first_fit, is_first_fit, lemma_disjoint_sym, lemma_rank,
    lemma_released_clear, lemma_released_disjoint, lemma_released_total, lemma_remaining_clear,
    lemma_remnants, lemma_resized, lemma_taken, ordered, released, remaining, remnants,
    resized, taken, total, under,
};

verus! {

/// The bytes that a thread's slot holds: those of its allocator, if it has one.
pub open spec fn held_by_thread(s: SlotView) -> int {
    match s {
        LazyInit::Initialized(l) => l.held(),
        _ => 0,
    }
}

/// The bytes that the process-wide cell holds: those of its allocator, or the new memory
/// of the heap from which the allocator is yet to be made.
pub open spec fn held_upstream(c: CellView) -> int {
    match c {
        LazyInit::Initialized(g) => g.held(),
        _ => heap_of(c).bytes(),
    }
}

/// The free bytes of a thread's allocator and of the process-wide one.
pub open spec fn capacity(s: SlotView, c: CellView) -> int {
    (match s {
        LazyInit::Initialized(l) => total(l.free),
        _ => 0,
    }) + (match c {
        LazyInit::Initialized(g) => total(g.free),
        _ => 0,
    })
}

/// Two threads' allocators hold no byte in common.
pub open spec fn strangers(a: LocalView, b: LocalView) -> bool {
    &&& disjoint(a.free, b.free)
    &&& clear_of(a.free, b.arena)
    &&& clear_of(b.free, a.arena)
    &&& a.arena.apart(b.arena)
}

/// New memory is supplied only in answer: the heap holds some only where `stop`, which is
/// why the same request stops without it, is to have the heap grow by as many bytes.
pub open spec fn answered<T>(c: CellView, stop: Result<T, Stop>) -> bool {
    heap_of(c) matches Heap::Extended { addr, size: n } ==> stop == Err::<T, Stop>(Stop::Extend(n))
}

/// New memory that answers a request answers the making of the allocators, where that is
/// what the request stops for.
pub proof fn lemma_answered_wakes<T>(s: SlotView, c: CellView, stop: Result<T, Stop>)
    requires
        answered(c, stop),
        woken(s, unasked(c)).2 matches Err(e) ==> stop == Err::<T, Stop>(e),
    ensures
        wakes(s, c),
{
}

/// New memory that answers a request of a thread's allocator is what the process-wide
/// allocator expects where the request goes upstream.
pub proof fn lemma_answered_fresh<T>(l: LocalView, g: GlobalView, size: usize, align: usize, stop: Result<T, Stop>)
    requires
        answered(LazyInit::Initialized(g), stop),
        l.fresh(
            GlobalView { free: g.free, arena: g.arena, heap: Heap::Unasked },
            size,
            align,
        ).2 matches Err(e) ==> stop == Err::<T, Stop>(e),
    ensures
        g.expects(canonical(size), align),
{
}

/// Made once: an allocator that was made is never made again. Whatever a thread asks
/// for, the process-wide allocator stays made, and so does the thread's, which is the
/// same allocator after a call that only makes what is missing.
pub proof fn law_made_once(
    s: SlotView,
    c: CellView,
    addr: usize,
    old_size: usize,
    size: usize,
    align: usize,
)
    ensures
        c is Initialized ==> woken(s, c).1 is Initialized && allocated(
            s,
            c,
            size,
            align,
        ).1 is Initialized && reallocated(s, c, addr, old_size, size, align).1 is Initialized,
        s is Initialized ==> woken(s, c).0 == s && allocated(s, c, size, align).0 is Initialized
            && reallocated(s, c, addr, old_size, size, align).0 is Initialized,
        s is Initialized ==> allocated_locally(s, size, align).0 is Initialized && freed(
            s,
            addr,
            size,
        ).0 is Initialized && resized_inplace(s, addr, old_size, size).0 is Initialized
            && reallocated_locally(s, addr, old_size, size, align).0 is Initialized,
{
}

/// The request goes on where it stopped: a request for memory that stops to have the heap
/// grow changes nothing; and once the heap has grown by as many bytes as it stopped for,
/// the new memory answers the same request.
pub proof fn law_allocate_resumes(
    s: SlotView,
    c: CellView,
    size: usize,
    align: usize,
    n: usize,
    addr: usize,
)
    requires
        sound(s, c),
        heap_of(c) is Unasked,
        allocated(s, c, size, align).2 == Err::<usize, Stop>(Stop::Extend(n)),
    ensures
        allocated(s, c, size, align).0 == s,
        allocated(s, c, size, align).1 == c,
        answered(
            with_heap(c, Heap::Extended { addr, size: n }),
            allocated(s, unasked(with_heap(c, Heap::Extended { addr, size: n })), size, align).2,
        ),
{
    assert(unasked(with_heap(c, Heap::Extended { addr, size: n })) == c);
}

/// The making of the allocators goes on where it stopped: where it stops to have the heap
/// grow it changes nothing; and once the heap has grown by as many bytes as it stopped
/// for, the new memory answers it.
pub proof fn law_init_resumes(s: SlotView, c: CellView, n: usize, addr: usize)
    requires
        sound(s, c),
        heap_of(c) is Unasked,
        woken(s, c).2 == Err::<(), Stop>(Stop::Extend(n)),
    ensures
        woken(s, c).0 == s,
        woken(s, c).1 == c,
        answered(
            with_heap(c, Heap::Extended { addr, size: n }),
            woken(s, unasked(with_heap(c, Heap::Extended { addr, size: n }))).2,
        ),
{
    assert(unasked(with_heap(c, Heap::Extended { addr, size: n })) == c);
}

/// The request goes on where it stopped: a request to resize a block that stops to have
/// the heap grow changes nothing; and once the heap has grown by as many bytes as it
/// stopped for, the new memory answers the same request.
pub proof fn law_realloc_resumes(
    s: SlotView,
    c: CellView,
    at: usize,
    old_size: usize,
    size: usize,
    align: usize,
    n: usize,
    addr: usize,
)
    requires
        sound(s, c),
        heap_of(c) is Unasked,
        reallocated(s, c, at, old_size, size, align).2 == Err::<usize, Stop>(Stop::Extend(n)),
    ensures
        reallocated(s, c, at, old_size, size, align).0 == s,
        reallocated(s, c, at, old_size, size, align).1 == c,
        answered(
            with_heap(c, Heap::Extended { addr, size: n }),
            reallocated(
                s,
                unasked(with_heap(c, Heap::Extended { addr, size: n })),
                at,
                old_size,
                size,
                align,
            ).2,
        ),
{
    assert(unasked(with_heap(c, Heap::Extended { addr, size: n })) == c);
}

/// A block that is given back right after it was taken leaves the free list as it was
/// before: the same request then gets the same block again.
pub proof fn law_round_trip_restores(pool: Seq<Block>, size: usize, align: usize)
    requires
        ordered(pool),
        align > 0,
        size > 0,
        taken(pool, size, align) is Some,
    ensures
        released(remaining(pool, size, align), taken(pool, size, align)->Some_0) == pool,
{
    let i = first_fit(pool, size as int, align as int)->Some_0;
    assert(is_first_fit(pool, size as int, align as int, i));
    let p = pool[i];
    let r = taken(pool, size, align)->Some_0;
    let left = remaining(pool, size, align);
    assert(p.valid());
    lemma_padding(p.addr as int, align as int);
    lemma_remnants(p, size, align);
    let pad = padding(p.addr as int, align as int);
    let before = Block { addr: p.addr, size: pad as usize };
    let after = Block { addr: (p.addr + pad + size) as usize, size: (p.size - pad - size) as usize };
    let mid = remnants(p, size, align);
    let m = mid.len() as int;
    let k = if pad > 0 { i + 1 } else { i };
    assert(left.len() == pool.len() - 1 + m);
    assert forall|j: int| 0 <= j < k implies (#[trigger] left[j]).end() <= r.addr by {
        if j < i {
            assert(left[j] == pool[j]);
            assert(pool[j].end() < pool[i].addr);
        } else {
            assert(left[j] == mid[0]);
        }
    }
    assert forall|j: int| k <= j < left.len() implies (#[trigger] left[j]).end() > r.addr by {
        if j < i + m {
            assert(left[j] == mid[j - i]);
        } else {
            assert(left[j] == pool[j - m + 1]);
            assert(pool[i].end() < pool[j - m + 1].addr);
        }
    }
    lemma_rank(left, r.addr as int, k);
    if k > 0 && pad == 0 {
        assert(left[k - 1] == pool[i - 1]);
        assert(pool[i - 1].end() < pool[i].addr);
    }
    if k > 0 && pad > 0 {
        assert(left[k - 1] == before);
    }
    if k < left.len() {
        if after.size > 0 {
            assert(left[k] == after);
        } else {
            assert(left[k] == pool[i + 1]);
            assert(pool[i].end() < pool[i + 1].addr);
        }
    }
    assert(released(left, r) =~= pool);
}

/// Round trip: a block that a thread asked for and gave back loses no memory. Thread and
/// process together have at least the free bytes that they had before the request; and
/// where the thread's own free list served the request, the list is as it was before.
pub proof fn law_round_trip(s: SlotView, c: CellView, size: usize, align: usize)
    requires
        sound(s, c),
        align > 0,
        answered(c, allocated(s, unasked(c), size, align).2),
        allocated(s, c, size, align).2 is Ok,
    ensures
        ({
            let (s1, c1, got) = allocated(s, c, size, align);
            let addr = got->Ok_0;
            &&& takes(s1, addr, size)
            &&& freed(s1, addr, size).1 is Ok
            &&& capacity(freed(s1, addr, size).0, c1) >= capacity(s, c)
            &&& size > 0 && allocated_locally(s, size, align).1 is Ok ==> freed(s1, addr, size).0
                == s
        }),
{
    let l = s->Initialized_0;
    let g = c->Initialized_0;
    let stop = allocated(s, unasked(c), size, align).2;
    lemma_taken(l.free, size, align);
    lemma_remaining_clear(l.free, size, align, l.arena);
    match taken(l.free, size, align) {
        Some(b) => {
            let l1 = l.with_free(remaining(l.free, size, align));
            lemma_local_freed(l1, b, g);
            if size > 0 {
                law_round_trip_restores(l.free, size, align);
            }
        },
        None => {
            lemma_answered_fresh(l, g, size, align, stop);
            lemma_local_fresh(l, g, size, align);
            let (l1, g1, got) = l.fresh(g, size, align);
            lemma_local_freed(l1, got->Ok_0, g1);
        },
    }
}

/// No double-counting, of memory that the heap hands out: the process holds the bytes
/// that it held and those by which the heap grew.
pub proof fn law_supply_counts(c: CellView, addr: usize, n: usize)
    requires
        heap_of(c) is Unasked,
    ensures
        held_upstream(with_heap(c, Heap::Extended { addr, size: n })) == held_upstream(c) + n,
        held_upstream(with_heap(c, Heap::Refused)) == held_upstream(c),
{
}

/// No double-counting, of making the allocators: thread and process together hold the
/// bytes that they held.
pub proof fn law_init_conserves(s: SlotView, c: CellView)
    requires
        sound(s, c),
        wakes(s, c),
    ensures
        sound(woken(s, c).0, woken(s, c).1),
        held_by_thread(woken(s, c).0) + held_upstream(woken(s, c).1) == held_by_thread(s)
            + held_upstream(c),
{
    match c {
        LazyInit::Initialized(g) => {
            if !(s is Initialized) {
                lemma_local_started(g);
            }
        },
        _ => {
            lemma_global_started(heap_of(c));
            if let Ok(g) = global_started(heap_of(c)).1 {
                lemma_local_started(g);
            }
        },
    }
}

/// No double-counting, of a request for memory that the thread's allocator serves alone:
/// the block that is handed out is `size` bytes that the thread held before and holds no
/// longer. A request that stops leaves it the bytes that it held.
pub proof fn law_allocate_locally_conserves(s: SlotView, c: CellView, size: usize, align: usize)
    requires
        sound(s, c),
        align > 0,
    ensures
        ({
            let (s1, got) = allocated_locally(s, size, align);
            &&& sound(s1, c)
            &&& held_by_thread(s1) + (if got is Ok {
                size as int
            } else {
                0
            }) == held_by_thread(s)
        }),
{
    if let LazyInit::Initialized(l) = s {
        if l.attached && taken(l.free, size, align) is Some {
            lemma_local_allocated(l, c->Initialized_0, size, align);
        }
    }
}

/// No double-counting, of a request for memory: the block that is handed out is `size`
/// bytes that thread and process held before and hold no longer. A request that stops
/// leaves them the bytes that they held.
pub proof fn law_allocate_conserves(s: SlotView, c: CellView, size: usize, align: usize)
    requires
        sound(s, c),
        align > 0,
        answered(c, allocated(s, unasked(c), size, align).2),
    ensures
        ({
            let (s1, c1, got) = allocated(s, c, size, align);
            &&& sound(s1, c1)
            &&& held_by_thread(s1) + held_upstream(c1) + (if got is Ok {
                size as int
            } else {
                0
            }) == held_by_thread(s) + held_upstream(c)
        }),
{
    let (s0, c0, up) = woken(s, c);
    let stop = allocated(s, unasked(c), size, align).2;
    lemma_answered_wakes(s, c, stop);
    law_init_conserves(s, c);
    if up is Ok {
        let l = s->Initialized_0;
        let g = c->Initialized_0;
        assert(s0 == s && c0 == c);
        if taken(l.free, size, align) is Some {
            lemma_local_allocated(l, g, size, align);
        } else {
            lemma_answered_fresh(l, g, size, align, stop);
            lemma_local_fresh(l, g, size, align);
        }
    }
}

/// No double-counting, of memory that is given back: the thread holds the bytes that it
/// held and those of the block. It keeps apart from the process-wide allocator where that
/// could have taken the block as well.
pub proof fn law_free_conserves(s: SlotView, c: CellView, addr: usize, size: usize)
    requires
        sound(s, c),
        takes(s, addr, size),
    ensures
        held_by_thread(freed(s, addr, size).0) == held_by_thread(s) + (if freed(
            s,
            addr,
            size,
        ).1 is Ok {
            size as int
        } else {
            0
        }),
        upstream_takes(c, addr, size) ==> sound(freed(s, addr, size).0, c),
{
    if let LazyInit::Initialized(l) = s {
        lemma_local_freed(l, Block { addr, size }, c->Initialized_0);
    }
}

/// No double-counting, of a block that is resized where it lies: thread and block
/// together hold the bytes that they held.
pub proof fn law_realloc_inplace_conserves(
    s: SlotView,
    c: CellView,
    addr: usize,
    old_size: usize,
    size: usize,
)
    requires
        sound(s, c),
        takes(s, addr, old_size),
    ensures
        ({
            let (s1, got) = resized_inplace(s, addr, old_size, size);
            &&& held_by_thread(s1) + (if got matches Ok(Ok(_)) {
                size as int
            } else {
                old_size as int
            }) == held_by_thread(s) + old_size
            &&& got matches Ok(Ok(_)) ==> takes(s1, addr, size)
            &&& upstream_takes(c, addr, old_size) ==> sound(s1, c)
        }),
{
    if let LazyInit::Initialized(l) = s {
        let g = c->Initialized_0;
        let block = Block { addr, size: old_size };
        lemma_resized(l.free, block, size);
        crate::pool::lemma_resized_clear(l.free, block, size, l.arena);
        if l.attached && upstream_takes(c, addr, old_size) {
            crate::pool::lemma_resized_clear(l.free, block, size, g.arena);
            lemma_disjoint_sym(g.free, l.free);
            let out = resized(l.free, block, size);
            assert forall|j: int| 0 <= j < g.free.len() implies clear_of(out, #[trigger] g.free[j]) by {
                assert(clear_of(l.free, g.free[j]));
                assert(g.free[j].apart(block));
                crate::pool::lemma_resized_clear(l.free, block, size, g.free[j]);
            }
            assert(disjoint(out, g.free));
            lemma_disjoint_sym(out, g.free);
            if let Heap::Extended { addr: at, size: n } = g.heap {
                crate::pool::lemma_resized_under(l.free, block, size, at as int);
            }
        }
    }
}

/// No double-counting, of a block that is resized and may move: thread, process and
/// block together hold the bytes that they held.
#[verifier::rlimit(40)]
pub proof fn law_realloc_conserves(
    s: SlotView,
    c: CellView,
    addr: usize,
    old_size: usize,
    size: usize,
    align: usize,
)
    requires
        sound(s, c),
        takes(s, addr, old_size),
        upstream_takes(c, addr, old_size),
        align > 0,
        answered(c, reallocated(s, unasked(c), addr, old_size, size, align).2),
    ensures
        ({
            let (s1, c1, got) = reallocated(s, c, addr, old_size, size, align);
            &&& sound(s1, c1)
            &&& held_by_thread(s1) + held_upstream(c1) + (if got is Ok {
                size as int
            } else {
                old_size as int
            }) == held_by_thread(s) + held_upstream(c) + old_size
        }),
{
    let (s0, c0, up) = woken(s, c);
    let stop = reallocated(s, unasked(c), addr, old_size, size, align).2;
    lemma_answered_wakes(s, c, stop);
    law_init_conserves(s, c);
    if up is Ok {
        let l = s->Initialized_0;
        let g = c->Initialized_0;
        assert(s0 == s && c0 == c);
        let block = Block { addr, size: old_size };
        lemma_reallocated(l, g, block, size, align);
        lemma_reallocated_total(l, block, size, align);
        if l.reallocated(block, size, align).1 is Err {
            lemma_answered_fresh(l, g, size, align, stop);
            lemma_local_fresh(l, g, size, align);
            lemma_fresh_keeps(l, g, size, align, block);
            let (l1, g1, got) = l.fresh(g, size, align);
            if got is Ok {
                lemma_local_freed(l1, block, g1);
            }
        }
    }
}

/// No double-counting, of a block that the thread's allocator resizes alone: thread and
/// block together hold the bytes that they held.
pub proof fn law_realloc_locally_conserves(
    s: SlotView,
    c: CellView,
    addr: usize,
    old_size: usize,
    size: usize,
    align: usize,
)
    requires
        sound(s, c),
        takes(s, addr, old_size),
        align > 0,
    ensures
        ({
            let (s1, got) = reallocated_locally(s, addr, old_size, size, align);
            &&& held_by_thread(s1) + (if got is Ok {
                size as int
            } else {
                old_size as int
            }) == held_by_thread(s) + old_size
            &&& upstream_takes(c, addr, old_size) ==> sound(s1, c)
        }),
{
    if let LazyInit::Initialized(l) = s {
        let block = Block { addr, size: old_size };
        lemma_reallocated(l, c->Initialized_0, block, size, align);
        lemma_reallocated_total(l, block, size, align);
    }
}

/// The bytes of a thread's allocator after a block was resized with what its free list
/// holds.
proof fn lemma_reallocated_total(l: LocalView, block: Block, size: usize, align: usize)
    requires
        l.wf(),
        l.accepts(block),
        align > 0,
    ensures
        l.reallocated(block, size, align).0.held() + (if l.reallocated(block, size, align).1 is Ok {
            size as int
        } else {
            block.size as int
        }) == l.held() + block.size,
{
    if crate::pool::stays(l.free, block, size, align) {
        lemma_resized(l.free, block, size);
    } else {
        lemma_taken(l.free, size, align);
        lemma_remaining_clear(l.free, size, align, block);
        if taken(l.free, size, align) is Some {
            lemma_released_total(remaining(l.free, size, align), block);
        }
    }
}

/// Thread teardown reclaims fully: when a thread ends, the free bytes of the process-wide
/// allocator grow by exactly the bytes that the thread's allocator held, free or in its
/// arena; nothing else changes, and no byte is lost.
pub proof fn law_detach_reclaims(l: LocalView, g: GlobalView)
    requires
        l.wf(),
        g.wf(),
        separate(l, g),
    ensures
        g.reclaimed(l).wf(),
        total(g.reclaimed(l).free) == total(g.free) + total(l.free) + l.arena.size,
        g.reclaimed(l).held() == g.held() + l.held(),
        g.reclaimed(l).arena == g.arena,
        g.reclaimed(l).heap == g.heap,
{
    lemma_reclaimed(g, l);
}

/// No block is free in two places, of a thread that looks on: while another thread's
/// request goes upstream, a thread's allocator keeps apart from that thread's allocator
/// and from the process-wide one.
pub proof fn law_fresh_spares_strangers(
    l: LocalView,
    g: GlobalView,
    other: LocalView,
    size: usize,
    align: usize,
)
    requires
        l.wf(),
        g.wf(),
        other.wf(),
        separate(l, g),
        separate(other, g),
        strangers(other, l),
        align > 0,
        g.expects(canonical(size), align),
    ensures
        separate(other, l.fresh(g, size, align).1),
        strangers(other, l.fresh(g, size, align).0),
        l.fresh(g, size, align).2 matches Ok(res) ==> other.accepts(res),
{
    let (g1, served) = g.allocated(canonical(size), align);
    lemma_allocated(g, canonical(size), align);
    if let Ok(block) = served {
        let res = Block { addr: block.addr, size };
        let excessive = Block { addr: (block.addr + size) as usize, size: (block.size - size) as usize };
        lemma_handed_out(other, g, canonical(size), align, excessive);
        lemma_handed_out(other, g, canonical(size), align, res);
        lemma_handed_out(l, g, canonical(size), align, excessive);
        lemma_disjoint_sym(other.free, l.free);
        lemma_released_disjoint(other.free, l.free, excessive);
        lemma_released_clear(l.free, excessive, other.arena);
    } else {
        lemma_taken(g.free, canonical(size), align);
    }
}

/// No block is free in two places, of a thread that looks on: when another thread ends,
/// a thread's allocator keeps apart from the process-wide one, which now holds what the
/// other held.
pub proof fn law_detach_spares_strangers(l: LocalView, g: GlobalView, other: LocalView)
    requires
        l.wf(),
        g.wf(),
        other.wf(),
        separate(l, g),
        separate(other, g),
        strangers(other, l),
        g.heap matches Heap::Extended { addr, size } ==> l.below(addr as int),
    ensures
        separate(other, g.reclaimed(l)),
{
    lemma_disjoint_sym(g.free, l.free);
    lemma_disjoint_sym(l.free, g.free);
    lemma_disjoint_sym(other.free, l.free);
    lemma_disjoint_sym(g.free, other.free);
    let mid = absorbed(g.free, l.free);
    assert forall|j: int| 0 <= j < other.free.len() implies clear_of(mid, #[trigger] other.free[j]) by {
        assert(clear_of(g.free, other.free[j]));
        assert(clear_of(l.free, other.free[j]));
        lemma_absorbed(g, l.free, other.free[j]);
    }
    assert(disjoint(mid, other.free));
    lemma_absorbed(g, l.free, other.arena);
    lemma_absorbed(g, l.free, l.arena);
    let g1 = GlobalView { free: mid, arena: g.arena, heap: g.heap };
    assert forall|j: int| 0 <= j < other.free.len() implies clear_of(
        released(mid, l.arena),
        #[trigger] other.free[j],
    ) by {
        assert(clear_of(mid, other.free[j]));
        assert(other.free[j].apart(l.arena));
        lemma_released_clear(mid, l.arena, other.free[j]);
    }
    lemma_released_clear(mid, l.arena, other.arena);
}

/// Amortization threshold: a request of the thread's allocator that goes upstream asks
/// the process-wide allocator for exactly four times its size where that is 8192 bytes or
/// fewer, and for exactly its size where it is more; and stops where, and for what, the
/// process-wide allocator does. With both free lists empty-handed, the heap is asked for
/// that many bytes and the room to align them.
pub proof fn law_amortization(l: LocalView, g: GlobalView, size: usize, align: usize)
    ensures
        size <= 8192 ==> canonical(size) == 4 * size,
        size > 8192 ==> canonical(size) == size,
        l.fresh(g, size, align).1 == g.allocated(canonical(size), align).0,
        match g.allocated(canonical(size), align).1 {
            Ok(block) => l.fresh(g, size, align).2 == Ok::<Block, Stop>(
                Block { addr: block.addr, size },
            ),
            Err(stop) => l.fresh(g, size, align).2 == Err::<Block, Stop>(stop) && l.fresh(
                g,
                size,
                align,
            ).0 == l,
        },
        taken(g.free, canonical(size), align) is None && g.heap is Unasked ==> l.fresh(
            g,
            size,
            align,
        ).2 == (match extension(canonical(size), align) {
            Some(n) => Err::<Block, Stop>(Stop::Extend(n)),
            None => Err::<Block, Stop>(Stop::Oom),
        }),
        extension(canonical(size), align) matches Some(n) ==> n == canonical(size) + align,
{
}

/// Amortization threshold, in bytes: a request that goes upstream and is served moves
/// exactly `canonical(size)` bytes from the process-wide allocator to the thread, which
/// hands out `size` of them and keeps the others.
pub proof fn law_amortized_bytes(l: LocalView, g: GlobalView, size: usize, align: usize)
    requires
        l.wf(),
        g.wf(),
        separate(l, g),
        align > 0,
        g.expects(canonical(size), align),
        l.fresh(g, size, align).2 is Ok,
    ensures
        l.fresh(g, size, align).1.held() + canonical(size) == g.held(),
        l.fresh(g, size, align).0.held() + size == l.held() + canonical(size),
{
    lemma_allocated(g, canonical(size), align);
    lemma_local_fresh(l, g, size, align);
}

/// Fresh-block append ordering: a block that the process-wide allocator gets from the
/// heap starts above every block that the allocator held before, free or arena.
pub proof fn law_fresh_above(g: GlobalView, size: usize, align: usize)
    requires
        g.wf(),
        align > 0,
        g.expects_fresh(size, align),
        g.fresh(size, align).1 is Ok,
    ensures
        forall|i: int|
            0 <= i < g.free.len() ==> (#[trigger] g.free[i]).addr < g.fresh(size, align).1->Ok_0.addr,
        g.arena.size > 0 ==> g.arena.addr < g.fresh(size, align).1->Ok_0.addr,
        under(g.free, g.fresh(size, align).1->Ok_0.addr as int),
{
    let addr = g.heap->Extended_addr;
    let n = g.heap->Extended_size;
    lemma_carved(Block { addr, size: n }, size, align);
    let res = g.fresh(size, align).1->Ok_0;
    assert forall|i: int| 0 <= i < g.free.len() implies (#[trigger] g.free[i]).addr < res.addr by {
        assert(g.free[i].end() <= addr);
    }
}

} // verus!
