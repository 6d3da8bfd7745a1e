//! The whole: a process with its heap, its threads and the blocks that are in use, and
//! what holds of it whatever its threads ask for, in whatever order.

use vstd::prelude::*;
use crate::allocator::{
    allocated, allocated_locally, below, cell_wf, freed, heap_of, reallocated,
    reallocated_locally, resized_inplace, slot_wf, sound, unasked, with_heap, woken, CellView,
    SlotView,
};
use crate::block::Block;
use crate::brk::Heap;
use crate::custody::foreign;
use crate::global::GlobalView;
use crate::laws::{answered, held_by_thread, held_upstream, strangers};
use crate::lazy_init::LazyInit;
use crate::local::LocalView;
use crate::pool::{clear_of, disjoint, total};
use crate::sys::BRK_FAILED;

verus! {

/// A process: the cell of its process-wide allocator, the slots of its threads, the
/// blocks that are in use, and the number of bytes that the heap has handed out.
pub struct World {
    pub global: CellView,
    pub threads: Seq<SlotView>,
    pub used: Seq<Block>,
    pub obtained: int,
}

/// What can happen in a process, one thing at a time.
pub enum Step {
    /// A thread starts, with an empty slot.
    Spawn,
    /// The platform answers a request for `n` more bytes of heap with `reported`.
    Supply { n: usize, reported: usize },
    /// A thread has its allocators made.
    Init { thread: int },
    /// A thread's new allocator is attached to the thread's exit, or cannot be.
    Attach { thread: int, supported: bool },
    /// A thread asks its own allocator for memory.
    Allocate { thread: int, size: usize, align: usize },
    /// A thread asks for memory, with the process-wide allocator at hand.
    AllocateUpstream { thread: int, size: usize, align: usize },
    /// A thread gives back a block that is in use.
    Free { thread: int, block: int },
    /// A thread has its own allocator resize a block that is in use.
    Realloc { thread: int, block: int, size: usize, align: usize },
    /// A thread has a block that is in use resized, with the process-wide allocator at
    /// hand.
    ReallocUpstream { thread: int, block: int, size: usize, align: usize },
    /// A thread has a block that is in use resized where it lies.
    ReallocInplace { thread: int, block: int, size: usize },
    /// A thread ends.
    Detach { thread: int },
}

/// The bytes that the threads' allocators hold.
pub open spec fn held_by_threads(threads: Seq<SlotView>) -> int
    decreases threads.len(),
{
    if threads.len() == 0 {
        0
    } else {
        held_by_threads(threads.drop_last()) + held_by_thread(threads.last())
    }
}

/// Two threads' allocators, where both are made, hold no byte in common.
pub open spec fn apart(a: SlotView, b: SlotView) -> bool {
    a matches LazyInit::Initialized(la) ==> (b matches LazyInit::Initialized(lb) ==> strangers(
        la,
        lb,
    ))
}

/// Every byte has one place.
///
/// The allocators are well formed. No two of them hold a byte in common, and none holds a
/// byte of a block in use; no two blocks in use share a byte. And the books balance: the
/// bytes that the allocators hold, free or in their arenas, and the bytes in use are the
/// bytes that the heap has handed out.
pub open spec fn inv(w: World) -> bool {
    &&& cell_wf(w.global)
    &&& forall|t: int| 0 <= t < w.threads.len() ==> sound(#[trigger] w.threads[t], w.global)
    &&& forall|t: int, u: int|
        0 <= t < w.threads.len() && 0 <= u < w.threads.len() && t != u ==> apart(
            #[trigger] w.threads[t],
            #[trigger] w.threads[u],
        )
    &&& forall|i: int|
        0 <= i < w.used.len() ==> foreign(
            #[trigger] w.used[i],
            LazyInit::Uninitialized(()),
            w.global,
        )
    &&& forall|i: int, t: int|
        0 <= i < w.used.len() && 0 <= t < w.threads.len() ==> foreign(
            #[trigger] w.used[i],
            #[trigger] w.threads[t],
            w.global,
        )
    &&& forall|i: int, j: int|
        0 <= i < j < w.used.len() ==> (#[trigger] w.used[i]).apart(#[trigger] w.used[j])
    &&& held_upstream(w.global) + held_by_threads(w.threads) + total(w.used) == w.obtained
}

/// The process before anything happened in it.
pub open spec fn start() -> World {
    World {
        global: LazyInit::Uninitialized(Heap::Unasked),
        threads: Seq::empty(),
        used: Seq::empty(),
        obtained: 0,
    }
}

/// `step` can happen in `w`: it speaks of a thread and a block that there are; memory that
/// the heap hands out was asked for, lies in the address space and above all that is held
/// or in use; and new memory is at hand only in answer to the request that is made.
pub open spec fn enabled(w: World, step: Step) -> bool {
    match step {
        Step::Spawn => true,
        Step::Supply { n, reported } => {
            &&& heap_of(w.global) is Unasked
            &&& reported != BRK_FAILED ==> {
                &&& reported + n <= usize::MAX
                &&& below(LazyInit::Uninitialized(()), w.global, reported as int)
                &&& forall|t: int|
                    0 <= t < w.threads.len() ==> below(
                        #[trigger] w.threads[t],
                        w.global,
                        reported as int,
                    )
                &&& forall|i: int| 0 <= i < w.used.len() ==> (#[trigger] w.used[i]).end() <= reported
            }
        },
        Step::Init { thread } => {
            &&& 0 <= thread < w.threads.len()
            &&& answered(w.global, woken(w.threads[thread], unasked(w.global)).2)
        },
        Step::Attach { thread, supported } => {
            &&& 0 <= thread < w.threads.len()
            &&& w.threads[thread] matches LazyInit::Initialized(l) && !l.attached
        },
        Step::Allocate { thread, size, align } => 0 <= thread < w.threads.len() && align > 0,
        Step::AllocateUpstream { thread, size, align } => {
            &&& 0 <= thread < w.threads.len()
            &&& align > 0
            &&& answered(w.global, allocated(w.threads[thread], unasked(w.global), size, align).2)
        },
        Step::Free { thread, block } => 0 <= thread < w.threads.len() && 0 <= block < w.used.len(),
        Step::Realloc { thread, block, size, align } => {
            &&& 0 <= thread < w.threads.len()
            &&& 0 <= block < w.used.len()
            &&& align > 0
        },
        Step::ReallocUpstream { thread, block, size, align } => {
            &&& 0 <= thread < w.threads.len()
            &&& 0 <= block < w.used.len()
            &&& align > 0
            &&& answered(
                w.global,
                reallocated(
                    w.threads[thread],
                    unasked(w.global),
                    w.used[block].addr,
                    w.used[block].size,
                    size,
                    align,
                ).2,
            )
        },
        Step::ReallocInplace { thread, block, size } => {
            &&& 0 <= thread < w.threads.len()
            &&& 0 <= block < w.used.len()
        },
        Step::Detach { thread } => 0 <= thread < w.threads.len(),
    }
}

/// The process after `step` happened in `w`.
pub open spec fn next(w: World, step: Step) -> World {
    match step {
        Step::Spawn => World {
            global: w.global,
            threads: w.threads.push(LazyInit::Uninitialized(())),
            used: w.used,
            obtained: w.obtained,
        },
        Step::Supply { n, reported } => if reported == BRK_FAILED {
            World {
                global: with_heap(w.global, Heap::Refused),
                threads: w.threads,
                used: w.used,
                obtained: w.obtained,
            }
        } else {
            World {
                global: with_heap(w.global, Heap::Extended { addr: reported, size: n }),
                threads: w.threads,
                used: w.used,
                obtained: w.obtained + n,
            }
        },
        Step::Init { thread } => {
            let (s, c, got) = woken(w.threads[thread], w.global);
            World { global: c, threads: w.threads.update(thread, s), used: w.used, obtained: w.obtained }
        },
        Step::Attach { thread, supported } => {
            let l = w.threads[thread]->Initialized_0;
            World {
                global: w.global,
                threads: w.threads.update(
                    thread,
                    LazyInit::Initialized(
                        LocalView { free: l.free, arena: l.arena, attached: supported },
                    ),
                ),
                used: w.used,
                obtained: w.obtained,
            }
        },
        Step::Allocate { thread, size, align } => {
            let (s, got) = allocated_locally(w.threads[thread], size, align);
            World {
                global: w.global,
                threads: w.threads.update(thread, s),
                used: match got {
                    Ok(addr) => w.used.push(Block { addr, size }),
                    Err(_) => w.used,
                },
                obtained: w.obtained,
            }
        },
        Step::AllocateUpstream { thread, size, align } => {
            let (s, c, got) = allocated(w.threads[thread], w.global, size, align);
            World {
                global: c,
                threads: w.threads.update(thread, s),
                used: match got {
                    Ok(addr) => w.used.push(Block { addr, size }),
                    Err(_) => w.used,
                },
                obtained: w.obtained,
            }
        },
        Step::Free { thread, block } => {
            let (s, got) = freed(w.threads[thread], w.used[block].addr, w.used[block].size);
            World {
                global: w.global,
                threads: w.threads.update(thread, s),
                used: match got {
                    Ok(_) => w.used.remove(block),
                    Err(_) => w.used,
                },
                obtained: w.obtained,
            }
        },
        Step::Realloc { thread, block, size, align } => {
            let (s, got) = reallocated_locally(
                w.threads[thread],
                w.used[block].addr,
                w.used[block].size,
                size,
                align,
            );
            World {
                global: w.global,
                threads: w.threads.update(thread, s),
                used: match got {
                    Ok(addr) => w.used.update(block, Block { addr, size }),
                    Err(_) => w.used,
                },
                obtained: w.obtained,
            }
        },
        Step::ReallocUpstream { thread, block, size, align } => {
            let (s, c, got) = reallocated(
                w.threads[thread],
                w.global,
                w.used[block].addr,
                w.used[block].size,
                size,
                align,
            );
            World {
                global: c,
                threads: w.threads.update(thread, s),
                used: match got {
                    Ok(addr) => w.used.update(block, Block { addr, size }),
                    Err(_) => w.used,
                },
                obtained: w.obtained,
            }
        },
        Step::ReallocInplace { thread, block, size } => {
            let (s, got) = resized_inplace(
                w.threads[thread],
                w.used[block].addr,
                w.used[block].size,
                size,
            );
            World {
                global: w.global,
                threads: w.threads.update(thread, s),
                used: match got {
                    Ok(Ok(_)) => w.used.update(block, Block { addr: w.used[block].addr, size }),
                    _ => w.used,
                },
                obtained: w.obtained,
            }
        },
        Step::Detach { thread } => match w.threads[thread] {
            LazyInit::Initialized(l) => World {
                global: LazyInit::Initialized(w.global->Initialized_0.reclaimed(l)),
                threads: w.threads.update(thread, LazyInit::Uninitialized(())),
                used: w.used,
                obtained: w.obtained,
            },
            _ => w,
        },
    }
}

/// All that the slot `o` holds is neither the slot `s`'s nor the cell's.
pub open spec fn aloof(o: SlotView, s: SlotView, c: CellView) -> bool {
    o matches LazyInit::Initialized(lo) ==> {
        &&& forall|i: int| 0 <= i < lo.free.len() ==> foreign(#[trigger] lo.free[i], s, c)
        &&& foreign(lo.arena, s, c)
    }
}

/// What a thread's allocator holds is neither another thread's nor the process's, where
/// the allocators are apart.
pub proof fn lemma_aloof(o: SlotView, s: SlotView, c: CellView)
    requires
        sound(o, c),
        slot_wf(s),
        apart(o, s),
    ensures
        aloof(o, s, c),
{
    if let LazyInit::Initialized(lo) = o {
        let g = c->Initialized_0;
        crate::pool::lemma_disjoint_sym(g.free, lo.free);
        assert forall|i: int| 0 <= i < lo.free.len() implies foreign(
            #[trigger] lo.free[i],
            s,
            c,
        ) by {
            let x = lo.free[i];
            assert(x.valid());
            assert(clear_of(g.free, x));
            assert(x.apart(g.arena));
            if let LazyInit::Initialized(l) = s {
                crate::pool::lemma_disjoint_sym(lo.free, l.free);
                assert(clear_of(l.free, x)) by {
                    assert forall|j: int| 0 <= j < l.free.len() implies (#[trigger] l.free[j]).apart(
                        x,
                    ) by {
                        assert(clear_of(lo.free, l.free[j]));
                    }
                }
                assert(x.apart(l.arena));
            }
        }
    }
}

/// Allocators are apart where what the one holds is neither the other's nor the
/// process's.
pub proof fn lemma_apart(o: SlotView, s: SlotView, c: CellView)
    requires
        slot_wf(o),
        slot_wf(s),
        cell_wf(c),
        o is Initialized ==> c is Initialized,
        aloof(o, s, c),
    ensures
        sound(o, c),
        apart(o, s),
        apart(s, o),
{
    if let LazyInit::Initialized(lo) = o {
        let g = c->Initialized_0;
        assert(disjoint(g.free, lo.free)) by {
            assert forall|i: int| 0 <= i < lo.free.len() implies clear_of(
                g.free,
                #[trigger] lo.free[i],
            ) by {
                assert(foreign(lo.free[i], s, c));
            }
        }
        assert(clear_of(lo.free, g.arena)) by {
            assert forall|i: int| 0 <= i < lo.free.len() implies (#[trigger] lo.free[i]).apart(
                g.arena,
            ) by {
                assert(foreign(lo.free[i], s, c));
            }
        }
        if let Heap::Extended { addr, size } = g.heap {
            assert forall|i: int| 0 <= i < lo.free.len() implies (#[trigger] lo.free[i]).end()
                <= addr by {
                assert(foreign(lo.free[i], s, c));
            }
        }
        if let LazyInit::Initialized(l) = s {
            assert(disjoint(l.free, lo.free)) by {
                assert forall|i: int| 0 <= i < lo.free.len() implies clear_of(
                    l.free,
                    #[trigger] lo.free[i],
                ) by {
                    assert(foreign(lo.free[i], s, c));
                }
            }
            crate::pool::lemma_disjoint_sym(l.free, lo.free);
            assert(clear_of(lo.free, l.arena)) by {
                assert forall|i: int| 0 <= i < lo.free.len() implies (
                #[trigger] lo.free[i]).apart(l.arena) by {
                    assert(foreign(lo.free[i], s, c));
                }
            }
        }
    }
}

/// The bytes that the threads hold after one of them changed.
pub proof fn lemma_held_update(threads: Seq<SlotView>, t: int, s: SlotView)
    requires
        0 <= t < threads.len(),
    ensures
        held_by_threads(threads.update(t, s)) == held_by_threads(threads) - held_by_thread(
            threads[t],
        ) + held_by_thread(s),
    decreases threads.len(),
{
    let after = threads.update(t, s);
    if t == threads.len() - 1 {
        assert(after.drop_last() =~= threads.drop_last());
    } else {
        assert(after.drop_last() =~= threads.drop_last().update(t, s));
        lemma_held_update(threads.drop_last(), t, s);
    }
}

/// The bytes in use after a block was resized, and after one was given back.
pub proof fn lemma_used_update(used: Seq<Block>, i: int, b: Block)
    requires
        0 <= i < used.len(),
    ensures
        total(used.update(i, b)) == total(used) - used[i].size + b.size,
        total(used.remove(i)) == total(used) - used[i].size,
        total(used.push(b)) == total(used) + b.size,
{
    crate::pool::lemma_total_split(used, i, i + 1);
    assert(used.subrange(i, i + 1) =~= seq![used[i]]);
    crate::pool::lemma_total_one(used[i]);
    crate::pool::lemma_total_one(b);
    let pre = used.subrange(0, i);
    let post = used.subrange(i + 1, used.len() as int);
    assert(used.update(i, b) =~= pre + seq![b] + post);
    crate::pool::lemma_total_concat(pre + seq![b], post);
    crate::pool::lemma_total_concat(pre, seq![b]);
    assert(used.remove(i) =~= pre + post);
    crate::pool::lemma_total_concat(pre, post);
    assert(used.push(b).drop_last() =~= used);
}

/// Every byte has its place before anything happened.
pub proof fn law_world_starts()
    ensures
        inv(start()),
{
    assert(start().threads.len() == 0);
    assert(start().used.len() == 0);
}

/// The blocks in use `after` are those `before` but for the block at place `gone`, if
/// there is one, and with the block `came`, if there is one: `from` says for each place
/// `after` the place `before` that its block had, and -1 for the block that came.
pub open spec fn follows(
    after: Seq<Block>,
    before: Seq<Block>,
    gone: int,
    came: Option<Block>,
    from: spec_fn(int) -> int,
) -> bool {
    &&& forall|k: int|
        0 <= k < after.len() ==> if #[trigger] from(k) == -1 {
            came == Some(after[k])
        } else {
            0 <= from(k) < before.len() && from(k) != gone && after[k] == before[from(k)]
        }
    &&& forall|k: int, m: int| 0 <= k < m < after.len() ==> #[trigger] from(k) != #[trigger] from(m)
}

/// Every byte keeps its place when one thread acts, where the act keeps to the rules of
/// custody: it leaves the thread's allocator apart from the process-wide one; what was
/// neither's, and shares no byte with the block `arg` that the thread gave, is neither's
/// afterwards and shares no byte with the block that the thread got; the block that it
/// got is neither's; and the allocators and the blocks in use hold the bytes that they
/// held.
#[verifier::rlimit(40)]
proof fn lemma_acted(
    w: World,
    t: int,
    s1: SlotView,
    c1: CellView,
    used1: Seq<Block>,
    arg: Block,
    gone: int,
    came: Option<Block>,
    from: spec_fn(int) -> int,
)
    requires
        inv(w),
        0 <= t < w.threads.len(),
        sound(s1, c1),
        w.global is Initialized ==> c1 is Initialized,
        forall|x: Block|
            foreign(x, w.threads[t], w.global) && x.apart(arg) ==> #[trigger] foreign(x, s1, c1),
        came matches Some(res) ==> foreign(res, s1, c1),
        came matches Some(res) ==> forall|x: Block|
            foreign(x, w.threads[t], w.global) && x.apart(arg) ==> #[trigger] res.apart(x),
        follows(used1, w.used, gone, came, from),
        0 <= gone < w.used.len() ==> arg == w.used[gone],
        !(0 <= gone < w.used.len()) ==> arg.size == 0,
        held_by_thread(s1) + held_upstream(c1) + total(used1) == held_by_thread(w.threads[t])
            + held_upstream(w.global) + total(w.used),
    ensures
        inv(World { global: c1, threads: w.threads.update(t, s1), used: used1, obtained: w.obtained }),
{
    let w1 = World {
        global: c1,
        threads: w.threads.update(t, s1),
        used: used1,
        obtained: w.obtained,
    };
    let s = w.threads[t];
    let c = w.global;
    assert(sound(s, c));
    // the other threads
    assert forall|u: int| 0 <= u < w.threads.len() && u != t implies sound(
        #[trigger] w.threads[u],
        c1,
    ) && apart(w.threads[u], s1) && apart(s1, w.threads[u]) by {
        let o = w.threads[u];
        assert(sound(o, c));
        assert(apart(o, s));
        lemma_aloof(o, s, c);
        if let LazyInit::Initialized(lo) = o {
            assert(lo.arena.apart(arg)) by {
                if 0 <= gone < w.used.len() {
                    assert(foreign(w.used[gone], w.threads[u], c));
                }
            }
            assert(foreign(lo.arena, s1, c1));
            assert forall|i: int| 0 <= i < lo.free.len() implies foreign(
                #[trigger] lo.free[i],
                s1,
                c1,
            ) by {
                assert(foreign(lo.free[i], s, c));
                if 0 <= gone < w.used.len() {
                    assert(foreign(w.used[gone], w.threads[u], c));
                    assert(lo.free[i].apart(arg));
                }
            }
        }
        lemma_apart(o, s1, c1);
    }
    assert forall|a: int| 0 <= a < w1.threads.len() implies sound(
        #[trigger] w1.threads[a],
        w1.global,
    ) by {
        if a != t {
            assert(w1.threads[a] == w.threads[a]);
        }
    }
    assert forall|a: int, b: int|
        0 <= a < w1.threads.len() && 0 <= b < w1.threads.len() && a != b implies apart(
        #[trigger] w1.threads[a],
        #[trigger] w1.threads[b],
    ) by {
        if a != t && b != t {
            assert(apart(w.threads[a], w.threads[b]));
        } else if a == t {
            assert(w1.threads[b] == w.threads[b]);
        } else {
            assert(w1.threads[a] == w.threads[a]);
        }
    }
    // the blocks in use
    assert forall|k: int| 0 <= k < used1.len() implies foreign(#[trigger] used1[k], s1, c1) by {
        if from(k) != -1 {
            let x = w.used[from(k)];
            assert(foreign(x, s, c));
            if 0 <= gone < w.used.len() {
                if from(k) < gone {
                    assert(w.used[from(k)].apart(w.used[gone]));
                } else {
                    assert(w.used[gone].apart(w.used[from(k)]));
                }
            }
        }
    }
    assert forall|k: int| 0 <= k < used1.len() implies foreign(
        #[trigger] used1[k],
        LazyInit::Uninitialized(()),
        c1,
    ) by {
        assert(foreign(used1[k], s1, c1));
    }
    assert forall|k: int, a: int| 0 <= k < used1.len() && 0 <= a < w1.threads.len() implies foreign(
        #[trigger] used1[k],
        #[trigger] w1.threads[a],
        c1,
    ) by {
        assert(foreign(used1[k], s1, c1));
        if a != t {
            let o = w.threads[a];
            assert(w1.threads[a] == o);
            if from(k) != -1 {
                assert(foreign(w.used[from(k)], w.threads[a], c));
            } else if let LazyInit::Initialized(lo) = o {
                let res = used1[k];
                assert(sound(o, c));
                assert(apart(o, s));
                lemma_aloof(o, s, c);
                if 0 <= gone < w.used.len() {
                    assert(foreign(w.used[gone], w.threads[a], c));
                }
                assert(res.apart(lo.arena));
                assert forall|i: int| 0 <= i < lo.free.len() implies (#[trigger] lo.free[i]).apart(
                    res,
                ) by {
                    assert(foreign(lo.free[i], s, c));
                    assert(res.apart(lo.free[i]));
                }
            }
        }
    }
    assert forall|k: int, m: int| 0 <= k < m < used1.len() implies (#[trigger] used1[k]).apart(
        #[trigger] used1[m],
    ) by {
        assert(from(k) != from(m));
        if from(k) != -1 && from(m) != -1 {
            if from(k) < from(m) {
                assert(w.used[from(k)].apart(w.used[from(m)]));
            } else {
                assert(w.used[from(m)].apart(w.used[from(k)]));
            }
        } else {
            let n = if from(k) == -1 { m } else { k };
            let res = if from(k) == -1 { used1[k] } else { used1[m] };
            let x = w.used[from(n)];
            assert(foreign(x, s, c));
            if 0 <= gone < w.used.len() {
                if from(n) < gone {
                    assert(w.used[from(n)].apart(w.used[gone]));
                } else {
                    assert(w.used[gone].apart(w.used[from(n)]));
                }
            }
            assert(res.apart(x));
        }
    }
    lemma_held_update(w.threads, t, s1);
}

/// A block without a byte, which shares none with any block.
pub open spec fn nothing() -> Block {
    Block { addr: 0, size: 0 }
}

/// Every byte keeps its place when a thread starts.
proof fn lemma_spawn(w: World)
    requires
        inv(w),
    ensures
        inv(next(w, Step::Spawn)),
{
    let w1 = next(w, Step::Spawn);
    let n = w.threads.len() as int;
    assert(w1.threads.drop_last() =~= w.threads);
    assert forall|t: int| 0 <= t < w1.threads.len() implies sound(
        #[trigger] w1.threads[t],
        w1.global,
    ) by {
        if t < n {
            assert(w1.threads[t] == w.threads[t]);
        }
    }
    assert forall|t: int, u: int|
        0 <= t < w1.threads.len() && 0 <= u < w1.threads.len() && t != u implies apart(
        #[trigger] w1.threads[t],
        #[trigger] w1.threads[u],
    ) by {
        if t < n && u < n {
            assert(apart(w.threads[t], w.threads[u]));
        }
    }
    assert forall|i: int, t: int| 0 <= i < w1.used.len() && 0 <= t < w1.threads.len() implies foreign(
        #[trigger] w1.used[i],
        #[trigger] w1.threads[t],
        w1.global,
    ) by {
        if t < n {
            assert(foreign(w.used[i], w.threads[t], w.global));
        } else {
            assert(foreign(w.used[i], LazyInit::Uninitialized(()), w.global));
        }
    }
}

/// Every byte keeps its place when the heap answers.
proof fn lemma_supply(w: World, n: usize, reported: usize)
    requires
        inv(w),
        enabled(w, Step::Supply { n, reported }),
    ensures
        inv(next(w, Step::Supply { n, reported })),
{
    let step = Step::Supply { n, reported };
    let w1 = next(w, step);
    assert forall|t: int| 0 <= t < w1.threads.len() implies sound(
        #[trigger] w1.threads[t],
        w1.global,
    ) by {
        assert(sound(w.threads[t], w.global));
        if reported != BRK_FAILED {
            assert(below(w.threads[t], w.global, reported as int));
        }
    }
    assert forall|t: int, u: int|
        0 <= t < w1.threads.len() && 0 <= u < w1.threads.len() && t != u implies apart(
        #[trigger] w1.threads[t],
        #[trigger] w1.threads[u],
    ) by {
        assert(apart(w.threads[t], w.threads[u]));
    }
    assert forall|i: int| 0 <= i < w1.used.len() implies foreign(
        #[trigger] w1.used[i],
        LazyInit::Uninitialized(()),
        w1.global,
    ) by {
        assert(foreign(w.used[i], LazyInit::Uninitialized(()), w.global));
        if reported != BRK_FAILED {
            assert(w.used[i].end() <= reported);
        }
    }
    assert forall|i: int, t: int| 0 <= i < w1.used.len() && 0 <= t < w1.threads.len() implies foreign(
        #[trigger] w1.used[i],
        #[trigger] w1.threads[t],
        w1.global,
    ) by {
        assert(foreign(w.used[i], w.threads[t], w.global));
        assert(foreign(w1.used[i], LazyInit::Uninitialized(()), w1.global));
    }
}

/// The blocks in use follow themselves where none went and none came.
proof fn lemma_follows_same(used: Seq<Block>)
    ensures
        follows(used, used, -1, None, |k: int| k),
{
}

/// The blocks in use after one came.
proof fn lemma_follows_push(used: Seq<Block>, res: Block)
    ensures
        follows(
            used.push(res),
            used,
            -1,
            Some(res),
            |k: int|
                if k < used.len() {
                    k
                } else {
                    -1
                },
        ),
{
}

/// The blocks in use after one went.
proof fn lemma_follows_remove(used: Seq<Block>, i: int)
    requires
        0 <= i < used.len(),
    ensures
        follows(
            used.remove(i),
            used,
            i,
            None,
            |k: int|
                if k < i {
                    k
                } else {
                    k + 1
                },
        ),
{
}

/// The blocks in use after one was turned into another.
proof fn lemma_follows_update(used: Seq<Block>, i: int, res: Block)
    requires
        0 <= i < used.len(),
    ensures
        follows(
            used.update(i, res),
            used,
            i,
            Some(res),
            |k: int|
                if k == i {
                    -1
                } else {
                    k
                },
        ),
{
}

/// Every byte keeps its place when a thread has its allocators made.
proof fn lemma_init(w: World, t: int)
    requires
        inv(w),
        enabled(w, Step::Init { thread: t }),
    ensures
        inv(next(w, Step::Init { thread: t })),
{
    let s = w.threads[t];
    let c = w.global;
    let (s1, c1, got) = woken(s, c);
    assert(sound(s, c));
    crate::laws::lemma_answered_wakes(s, c, woken(s, unasked(c)).2);
    crate::laws::law_init_conserves(s, c);
    assert forall|x: Block| foreign(x, s, c) && x.apart(nothing()) implies #[trigger] foreign(
        x,
        s1,
        c1,
    ) by {
        crate::custody::law_init_custody(s, c, x);
    }
    lemma_follows_same(w.used);
    lemma_acted(w, t, s1, c1, w.used, nothing(), -1, None, |k: int| k);
}

/// Every byte keeps its place when a thread's allocator is attached.
proof fn lemma_attach(w: World, t: int, supported: bool)
    requires
        inv(w),
        enabled(w, Step::Attach { thread: t, supported }),
    ensures
        inv(next(w, Step::Attach { thread: t, supported })),
{
    let s = w.threads[t];
    let l = s->Initialized_0;
    let s1 = LazyInit::<(), LocalView>::Initialized(
        LocalView { free: l.free, arena: l.arena, attached: supported },
    );
    assert(sound(s, w.global));
    lemma_follows_same(w.used);
    lemma_acted(w, t, s1, w.global, w.used, nothing(), -1, None, |k: int| k);
}

/// Every byte keeps its place when a thread asks its own allocator for memory.
proof fn lemma_allocate(w: World, t: int, size: usize, align: usize)
    requires
        inv(w),
        enabled(w, Step::Allocate { thread: t, size, align }),
    ensures
        inv(next(w, Step::Allocate { thread: t, size, align })),
{
    let s = w.threads[t];
    let c = w.global;
    let (s1, got) = allocated_locally(s, size, align);
    assert(sound(s, c));
    crate::laws::law_allocate_locally_conserves(s, c, size, align);
    assert forall|x: Block| foreign(x, s, c) && x.apart(nothing()) implies #[trigger] foreign(
        x,
        s1,
        c,
    ) by {
        crate::custody::law_allocate_locally_custody(s, c, size, align, x);
    }
    match got {
        Ok(addr) => {
            let res = Block { addr, size };
            assert forall|x: Block| foreign(x, s, c) && x.apart(nothing()) implies #[trigger] res.apart(
                x,
            ) by {
                crate::custody::law_allocate_locally_custody(s, c, size, align, x);
            }
            assert(foreign(res, s1, c)) by {
                crate::custody::law_allocate_locally_custody(s, c, size, align, nothing());
            }
            lemma_follows_push(w.used, res);
            lemma_used_push(w.used, res);
            lemma_acted(
                w,
                t,
                s1,
                c,
                w.used.push(res),
                nothing(),
                -1,
                Some(res),
                |k: int|
                    if k < w.used.len() {
                        k
                    } else {
                        -1
                    },
            );
        },
        Err(_) => {
            lemma_follows_same(w.used);
            lemma_acted(w, t, s1, c, w.used, nothing(), -1, None, |k: int| k);
        },
    }
}

/// The bytes in use after a block came.
proof fn lemma_used_push(used: Seq<Block>, b: Block)
    ensures
        total(used.push(b)) == total(used) + b.size,
{
    assert(used.push(b).drop_last() =~= used);
}

/// Every byte keeps its place when a thread asks for memory with the process-wide
/// allocator at hand.
proof fn lemma_allocate_upstream(w: World, t: int, size: usize, align: usize)
    requires
        inv(w),
        enabled(w, Step::AllocateUpstream { thread: t, size, align }),
    ensures
        inv(next(w, Step::AllocateUpstream { thread: t, size, align })),
{
    let s = w.threads[t];
    let c = w.global;
    let (s1, c1, got) = allocated(s, c, size, align);
    assert(sound(s, c));
    crate::laws::law_allocate_conserves(s, c, size, align);
    assert forall|x: Block| foreign(x, s, c) && x.apart(nothing()) implies #[trigger] foreign(
        x,
        s1,
        c1,
    ) by {
        crate::custody::law_allocate_custody(s, c, size, align, x);
    }
    match got {
        Ok(addr) => {
            let res = Block { addr, size };
            assert forall|x: Block| foreign(x, s, c) && x.apart(nothing()) implies #[trigger] res.apart(
                x,
            ) by {
                crate::custody::law_allocate_custody(s, c, size, align, x);
            }
            assert(foreign(res, s1, c1)) by {
                crate::custody::law_allocate_custody(s, c, size, align, nothing());
            }
            lemma_follows_push(w.used, res);
            lemma_used_push(w.used, res);
            lemma_acted(
                w,
                t,
                s1,
                c1,
                w.used.push(res),
                nothing(),
                -1,
                Some(res),
                |k: int|
                    if k < w.used.len() {
                        k
                    } else {
                        -1
                    },
            );
        },
        Err(_) => {
            lemma_follows_same(w.used);
            lemma_acted(w, t, s1, c1, w.used, nothing(), -1, None, |k: int| k);
        },
    }
}

/// Every byte keeps its place when a thread gives back a block.
proof fn lemma_free(w: World, t: int, i: int)
    requires
        inv(w),
        enabled(w, Step::Free { thread: t, block: i }),
    ensures
        inv(next(w, Step::Free { thread: t, block: i })),
{
    let s = w.threads[t];
    let c = w.global;
    let b = w.used[i];
    let (s1, got) = freed(s, b.addr, b.size);
    assert(sound(s, c));
    assert(foreign(b, s, c));
    crate::laws::law_free_conserves(s, c, b.addr, b.size);
    crate::custody::law_free_custody(s, c, b.addr, b.size, nothing());
    match got {
        Ok(_) => {
            assert forall|x: Block| foreign(x, s, c) && x.apart(b) implies #[trigger] foreign(
                x,
                s1,
                c,
            ) by {
                crate::custody::law_free_custody(s, c, b.addr, b.size, x);
            }
            lemma_follows_remove(w.used, i);
            lemma_used_update(w.used, i, b);
            lemma_acted(
                w,
                t,
                s1,
                c,
                w.used.remove(i),
                b,
                i,
                None,
                |k: int|
                    if k < i {
                        k
                    } else {
                        k + 1
                    },
            );
        },
        Err(_) => {
            lemma_follows_same(w.used);
            lemma_acted(w, t, s1, c, w.used, nothing(), -1, None, |k: int| k);
        },
    }
}

/// Every byte keeps its place when a thread has a block resized where it lies.
proof fn lemma_realloc_inplace(w: World, t: int, i: int, size: usize)
    requires
        inv(w),
        enabled(w, Step::ReallocInplace { thread: t, block: i, size }),
    ensures
        inv(next(w, Step::ReallocInplace { thread: t, block: i, size })),
{
    let s = w.threads[t];
    let c = w.global;
    let b = w.used[i];
    let (s1, got) = resized_inplace(s, b.addr, b.size, size);
    assert(sound(s, c));
    assert(foreign(b, s, c));
    crate::laws::law_realloc_inplace_conserves(s, c, b.addr, b.size, size);
    crate::custody::law_realloc_inplace_custody(s, c, b.addr, b.size, size, nothing());
    match got {
        Ok(Ok(_)) => {
            let res = Block { addr: b.addr, size };
            assert forall|x: Block| foreign(x, s, c) && x.apart(b) implies #[trigger] foreign(
                x,
                s1,
                c,
            ) by {
                crate::custody::law_realloc_inplace_custody(s, c, b.addr, b.size, size, x);
            }
            assert forall|x: Block| foreign(x, s, c) && x.apart(b) implies #[trigger] res.apart(
                x,
            ) by {
                crate::custody::law_realloc_inplace_custody(s, c, b.addr, b.size, size, x);
            }
            lemma_follows_update(w.used, i, res);
            lemma_used_update(w.used, i, res);
            lemma_acted(
                w,
                t,
                s1,
                c,
                w.used.update(i, res),
                b,
                i,
                Some(res),
                |k: int|
                    if k == i {
                        -1
                    } else {
                        k
                    },
            );
        },
        _ => {
            assert(s1 == s);
            lemma_follows_same(w.used);
            lemma_acted(w, t, s1, c, w.used, nothing(), -1, None, |k: int| k);
        },
    }
}

/// Every byte keeps its place when a thread has its own allocator resize a block.
proof fn lemma_realloc(w: World, t: int, i: int, size: usize, align: usize)
    requires
        inv(w),
        enabled(w, Step::Realloc { thread: t, block: i, size, align }),
    ensures
        inv(next(w, Step::Realloc { thread: t, block: i, size, align })),
{
    let s = w.threads[t];
    let c = w.global;
    let b = w.used[i];
    let (s1, got) = reallocated_locally(s, b.addr, b.size, size, align);
    assert(sound(s, c));
    assert(foreign(b, s, c));
    crate::laws::law_realloc_locally_conserves(s, c, b.addr, b.size, size, align);
    crate::custody::law_realloc_locally_custody(s, c, b.addr, b.size, size, align, nothing());
    match got {
        Ok(to) => {
            let res = Block { addr: to, size };
            assert forall|x: Block| foreign(x, s, c) && x.apart(b) implies #[trigger] foreign(
                x,
                s1,
                c,
            ) by {
                crate::custody::law_realloc_locally_custody(s, c, b.addr, b.size, size, align, x);
            }
            assert forall|x: Block| foreign(x, s, c) && x.apart(b) implies #[trigger] res.apart(
                x,
            ) by {
                crate::custody::law_realloc_locally_custody(s, c, b.addr, b.size, size, align, x);
            }
            lemma_follows_update(w.used, i, res);
            lemma_used_update(w.used, i, res);
            lemma_acted(
                w,
                t,
                s1,
                c,
                w.used.update(i, res),
                b,
                i,
                Some(res),
                |k: int|
                    if k == i {
                        -1
                    } else {
                        k
                    },
            );
        },
        Err(_) => {
            assert(s1 == s);
            lemma_follows_same(w.used);
            lemma_acted(w, t, s1, c, w.used, nothing(), -1, None, |k: int| k);
        },
    }
}

/// Every byte keeps its place when a thread has a block resized with the process-wide
/// allocator at hand.
proof fn lemma_realloc_upstream(w: World, t: int, i: int, size: usize, align: usize)
    requires
        inv(w),
        enabled(w, Step::ReallocUpstream { thread: t, block: i, size, align }),
    ensures
        inv(next(w, Step::ReallocUpstream { thread: t, block: i, size, align })),
{
    let s = w.threads[t];
    let c = w.global;
    let b = w.used[i];
    let (s1, c1, got) = reallocated(s, c, b.addr, b.size, size, align);
    assert(sound(s, c));
    assert(foreign(b, s, c));
    crate::laws::law_realloc_conserves(s, c, b.addr, b.size, size, align);
    crate::custody::law_realloc_custody(s, c, b.addr, b.size, size, align, nothing());
    match got {
        Ok(to) => {
            let res = Block { addr: to, size };
            assert forall|x: Block| foreign(x, s, c) && x.apart(b) implies #[trigger] foreign(
                x,
                s1,
                c1,
            ) by {
                crate::custody::law_realloc_custody(s, c, b.addr, b.size, size, align, x);
            }
            assert forall|x: Block| foreign(x, s, c) && x.apart(b) implies #[trigger] res.apart(
                x,
            ) by {
                crate::custody::law_realloc_custody(s, c, b.addr, b.size, size, align, x);
            }
            lemma_follows_update(w.used, i, res);
            lemma_used_update(w.used, i, res);
            lemma_acted(
                w,
                t,
                s1,
                c1,
                w.used.update(i, res),
                b,
                i,
                Some(res),
                |k: int|
                    if k == i {
                        -1
                    } else {
                        k
                    },
            );
        },
        Err(_) => {
            // the block is as it was, and so is every other
            assert forall|x: Block| foreign(x, s, c) && x.apart(nothing()) implies #[trigger] foreign(
                x,
                s1,
                c1,
            ) by {
                lemma_realloc_stopped(s, c, b, size, align, x);
            }
            lemma_follows_same(w.used);
            lemma_acted(w, t, s1, c1, w.used, nothing(), -1, None, |k: int| k);
        },
    }
}

/// A request to resize a block that stops leaves what was neither allocator's neither's.
proof fn lemma_realloc_stopped(
    s: SlotView,
    c: CellView,
    b: Block,
    size: usize,
    align: usize,
    x: Block,
)
    requires
        sound(s, c),
        align > 0,
        answered(c, reallocated(s, unasked(c), b.addr, b.size, size, align).2),
        foreign(b, s, c),
        foreign(x, s, c),
        reallocated(s, c, b.addr, b.size, size, align).2 is Err,
    ensures
        foreign(
            x,
            reallocated(s, c, b.addr, b.size, size, align).0,
            reallocated(s, c, b.addr, b.size, size, align).1,
        ),
{
    let stop = reallocated(s, unasked(c), b.addr, b.size, size, align).2;
    crate::laws::lemma_answered_wakes(s, c, stop);
    crate::custody::law_init_custody(s, c, x);
    if woken(s, c).2 is Ok {
        let l = s->Initialized_0;
        let g = c->Initialized_0;
        crate::laws::lemma_answered_fresh(l, g, size, align, stop);
        crate::local::lemma_fresh_keeps(l, g, size, align, x);
    }
}

/// Every byte keeps its place when a thread ends.
proof fn lemma_detach(w: World, t: int)
    requires
        inv(w),
        enabled(w, Step::Detach { thread: t }),
    ensures
        inv(next(w, Step::Detach { thread: t })),
{
    let s = w.threads[t];
    let c = w.global;
    assert(sound(s, c));
    if let LazyInit::Initialized(l) = s {
        let g = c->Initialized_0;
        let s1 = LazyInit::<(), LocalView>::Uninitialized(());
        let c1 = LazyInit::<Heap, GlobalView>::Initialized(g.reclaimed(l));
        crate::local::lemma_reclaimed(g, l);
        assert forall|x: Block| foreign(x, s, c) && x.apart(nothing()) implies #[trigger] foreign(
            x,
            s1,
            c1,
        ) by {
            crate::custody::law_detach_custody(l, g, x);
        }
        lemma_follows_same(w.used);
        lemma_acted(w, t, s1, c1, w.used, nothing(), -1, None, |k: int| k);
    }
}

/// Every byte keeps its place, whatever happens: in a process in which the allocators
/// hold no byte in common nor a byte that is in use, and in which the bytes held and the
/// bytes in use are the bytes that the heap has handed out, the same is so after any step
/// that can happen. Since it is so at the start, it is so always: the free bytes of the
/// process-wide allocator and of every thread's allocator, the bytes of their arenas and
/// the bytes in use are the bytes that the heap has handed out, and no byte is free in
/// two places or free and in use.
pub proof fn law_world_invariant(w: World, step: Step)
    requires
        inv(w),
        enabled(w, step),
    ensures
        inv(next(w, step)),
{
    match step {
        Step::Spawn => lemma_spawn(w),
        Step::Supply { n, reported } => lemma_supply(w, n, reported),
        Step::Init { thread } => lemma_init(w, thread),
        Step::Attach { thread, supported } => lemma_attach(w, thread, supported),
        Step::Allocate { thread, size, align } => lemma_allocate(w, thread, size, align),
        Step::AllocateUpstream { thread, size, align } => lemma_allocate_upstream(
            w,
            thread,
            size,
            align,
        ),
        Step::Free { thread, block } => lemma_free(w, thread, block),
        Step::Realloc { thread, block, size, align } => lemma_realloc(w, thread, block, size, align),
        Step::ReallocUpstream { thread, block, size, align } => lemma_realloc_upstream(
            w,
            thread,
            block,
            size,
            align,
        ),
        Step::ReallocInplace { thread, block, size } => lemma_realloc_inplace(w, thread, block, size),
        Step::Detach { thread } => lemma_detach(w, thread),
    }
}

} // verus!
