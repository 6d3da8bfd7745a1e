use ralloc::allocator::{
    allocate, allocate_upstream, attach, can_take, detach, ends_below, free, heap, init, is_sound,
    new_global, new_slot, realloc, realloc_inplace, realloc_upstream, supply, upstream_can_take,
    GlobalCell, ThreadSlot,
};
use ralloc::bookkeeper::EXTRA_ELEMENTS;
use ralloc::brk::{Heap, Stop};
use ralloc::lazy_init::LazyInit;
use ralloc::sys::{sbrk, BRK_FAILED};

/// A platform: a program break that moves up to a limit, and a record of what it was asked.
struct Platform {
    start: usize,
    end: usize,
    limit: usize,
    asked: Vec<usize>,
    hooks: bool,
}

impl Platform {
    fn new(start: usize, limit: usize) -> Platform {
        Platform { start, end: start, limit, asked: Vec::new(), hooks: true }
    }

    /// Moves the break up by `n` bytes and hands back where it was, or the failure value.
    fn brk(&mut self, n: usize) -> usize {
        self.asked.push(n);
        match self.end.checked_add(n) {
            Some(end) if end <= self.limit => {
                let was = self.end;
                self.end = end;
                was
            },
            _ => BRK_FAILED,
        }
    }

    fn obtained(&self) -> usize {
        self.end - self.start
    }
}

/// Does what a stopped request asks for. `false` where memory ran out.
fn serve(os: &mut Platform, slot: &mut ThreadSlot, global: &mut GlobalCell, stop: Stop) -> bool {
    match stop {
        Stop::Extend(n) => {
            assert_eq!(heap(global), Heap::Unasked);
            let reported = os.brk(n);
            if reported != BRK_FAILED {
                assert!(ends_below(slot, global, reported));
            }
            supply(slot, global, n, reported);
            true
        },
        Stop::Attach => {
            attach(slot, os.hooks).expect("no hooks at the exit of a thread");
            true
        },
        Stop::Oom => false,
        Stop::Upstream => panic!("the process-wide allocator was there"),
    }
}

fn alloc_on(
    os: &mut Platform,
    slot: &mut ThreadSlot,
    global: &mut GlobalCell,
    size: usize,
    align: usize,
) -> Option<usize> {
    match allocate(slot, size, align) {
        Ok(addr) => return Some(addr),
        Err(Stop::Attach) => {
            attach(slot, os.hooks).expect("no hooks at the exit of a thread");
        },
        Err(_) => {},
    }
    loop {
        assert!(is_sound(slot, global));
        match allocate_upstream(slot, global, size, align) {
            Ok(addr) => return Some(addr),
            Err(stop) => {
                if !serve(os, slot, global, stop) {
                    return None;
                }
            },
        }
    }
}

fn free_on(os: &mut Platform, slot: &mut ThreadSlot, global: &mut GlobalCell, addr: usize, size: usize) {
    loop {
        assert!(can_take(slot, addr, size));
        match free(slot, addr, size) {
            Ok(()) => return,
            Err(Stop::Attach) => {
                attach(slot, os.hooks).expect("no hooks at the exit of a thread");
            },
            Err(_) => loop {
                match init(slot, global) {
                    Ok(()) => break,
                    Err(stop) => assert!(serve(os, slot, global, stop)),
                }
            },
        }
    }
}

fn realloc_on(
    os: &mut Platform,
    slot: &mut ThreadSlot,
    global: &mut GlobalCell,
    addr: usize,
    old_size: usize,
    size: usize,
    align: usize,
) -> Option<usize> {
    if let Ok(addr) = realloc(slot, addr, old_size, size, align) {
        return Some(addr);
    }
    loop {
        assert!(is_sound(slot, global));
        assert!(upstream_can_take(global, addr, old_size));
        match realloc_upstream(slot, global, addr, old_size, size, align) {
            Ok(addr) => return Some(addr),
            Err(stop) => {
                if !serve(os, slot, global, stop) {
                    return None;
                }
            },
        }
    }
}

fn local_free_bytes(slot: &ThreadSlot) -> usize {
    match slot.borrow() {
        LazyInit::Initialized(l) => l.free_bytes(),
        _ => 0,
    }
}

fn local_arena_bytes(slot: &ThreadSlot) -> usize {
    match slot.borrow() {
        LazyInit::Initialized(l) => l.book().arena_parts().1,
        _ => 0,
    }
}

fn local_blocks(slot: &ThreadSlot) -> Vec<(usize, usize)> {
    let mut out = Vec::new();
    if let LazyInit::Initialized(l) = slot.borrow() {
        for i in 0..l.book().len() {
            out.push(l.book().get(i));
        }
    }
    out
}

fn global_free_bytes(global: &GlobalCell) -> usize {
    match global {
        LazyInit::Initialized(g) => g.free_bytes(),
        _ => 0,
    }
}

fn global_arena_bytes(global: &GlobalCell) -> usize {
    match global {
        LazyInit::Initialized(g) => g.book().arena_parts().1,
        _ => 0,
    }
}

fn global_blocks(global: &GlobalCell) -> Vec<(usize, usize)> {
    let mut out = Vec::new();
    if let LazyInit::Initialized(g) = global {
        for i in 0..g.book().len() {
            out.push(g.book().get(i));
        }
    }
    out
}

/// Free bytes and arenas of the process and of the threads given.
fn bytes_held(global: &GlobalCell, slots: &[&ThreadSlot]) -> usize {
    let mut sum = global_free_bytes(global) + global_arena_bytes(global);
    for slot in slots {
        sum += local_free_bytes(slot) + local_arena_bytes(slot);
    }
    sum
}

#[test]
fn test_oom() {
    let mut os = Platform::new(0x10000, 0x4000_0000);
    assert!(sbrk(os.brk(9999999999999)).is_err());
    assert_eq!(os.end, 0x10000);
    // and a request of that size runs out of memory
    let mut slot = new_slot();
    let mut global = new_global();
    assert_eq!(alloc_on(&mut os, &mut slot, &mut global, 9999999999999, 8), None);
    assert_eq!(os.asked.last(), Some(&(9999999999999 + 8)));
    assert_eq!(heap(&global), Heap::Unasked);
    // the allocator is still of use
    assert_eq!(alloc_on(&mut os, &mut slot, &mut global, 64, 8), Some(0x10030));
}

#[test]
fn new_state_is_empty() {
    let slot = new_slot();
    let global = new_global();
    assert!(matches!(slot.borrow(), LazyInit::Uninitialized(())));
    assert!(matches!(global, LazyInit::Uninitialized(_)));
    assert_eq!(heap(&global), Heap::Unasked);
    assert!(is_sound(&slot, &global));
    assert!(ends_below(&slot, &global, 0));
}

#[test]
fn first_request_goes_upstream() {
    let mut slot = new_slot();
    assert_eq!(allocate(&mut slot, 64, 8), Err(Stop::Upstream));
    assert_eq!(free(&mut slot, 0x1000, 8), Err(Stop::Upstream));
    assert_eq!(realloc(&mut slot, 0x1000, 8, 16, 8), Err(Stop::Upstream));
    assert_eq!(realloc_inplace(&mut slot, 0x1000, 8, 16), Err(Stop::Upstream));
    assert!(matches!(slot.borrow(), LazyInit::Uninitialized(())));
}

#[test]
fn init_makes_both_allocators_step_by_step() {
    let mut slot = new_slot();
    let mut global = new_global();
    assert_eq!(init(&mut slot, &mut global), Err(Stop::Extend(24)));
    assert!(matches!(global, LazyInit::Uninitialized(_)));
    supply(&slot, &mut global, 24, 0x10000);
    assert_eq!(heap(&global), Heap::Extended { addr: 0x10000, size: 24 });
    // the process-wide allocator is made; the thread's needs more heap
    assert_eq!(init(&mut slot, &mut global), Err(Stop::Extend(24)));
    assert!(matches!(global, LazyInit::Initialized(_)));
    assert!(matches!(slot.borrow(), LazyInit::Uninitialized(())));
    assert_eq!(global_blocks(&global), vec![(0x10010, 8)]);
    supply(&slot, &mut global, 24, 0x10018);
    assert_eq!(init(&mut slot, &mut global), Err(Stop::Attach));
    assert!(matches!(slot.borrow(), LazyInit::Initialized(_)));
    // nothing is served before the allocator is attached
    assert_eq!(init(&mut slot, &mut global), Err(Stop::Attach));
    assert_eq!(allocate(&mut slot, 1, 1), Err(Stop::Attach));
    assert_eq!(allocate_upstream(&mut slot, &mut global, 1, 1), Err(Stop::Attach));
    assert_eq!(free(&mut slot, 0x1000, 8), Err(Stop::Attach));
    assert_eq!(realloc(&mut slot, 0x1000, 8, 16, 8), Err(Stop::Attach));
    assert_eq!(realloc_upstream(&mut slot, &mut global, 0x1000, 8, 16, 8), Err(Stop::Attach));
    assert_eq!(realloc_inplace(&mut slot, 0x1000, 8, 16), Err(Stop::Attach));
    assert_eq!(attach(&mut slot, true), Ok(()));
    assert_eq!(init(&mut slot, &mut global), Ok(()));
    assert_eq!(init(&mut slot, &mut global), Ok(()));
    assert_eq!(local_blocks(&slot), vec![]);
    assert_eq!(local_arena_bytes(&slot), 16);
    assert_eq!(global_blocks(&global), vec![(0x10010, 8), (0x10028, 8)]);
}

#[test]
fn init_reports_a_refusal() {
    let mut slot = new_slot();
    let mut global = new_global();
    assert_eq!(init(&mut slot, &mut global), Err(Stop::Extend(24)));
    supply(&slot, &mut global, 24, BRK_FAILED);
    assert_eq!(heap(&global), Heap::Refused);
    assert_eq!(init(&mut slot, &mut global), Err(Stop::Oom));
    assert!(matches!(global, LazyInit::Uninitialized(_)));
    // the refusal was reported; the heap is asked again
    assert_eq!(init(&mut slot, &mut global), Err(Stop::Extend(24)));
}

#[test]
fn attach_without_hooks_leaves_the_allocator_unattached() {
    let mut os = Platform::new(0x10000, 0x100000);
    let mut slot = new_slot();
    let mut global = new_global();
    loop {
        match init(&mut slot, &mut global) {
            Err(Stop::Attach) => break,
            Err(stop) => assert!(serve(&mut os, &mut slot, &mut global, stop)),
            Ok(()) => panic!("attached by itself"),
        }
    }
    assert_eq!(attach(&mut slot, false), Err(()));
    assert_eq!(init(&mut slot, &mut global), Err(Stop::Attach));
    assert_eq!(allocate(&mut slot, 1, 1), Err(Stop::Attach));
}

#[test]
fn thread_a_allocates_frees_and_allocates_more() {
    let mut os = Platform::new(0x10000, 0x100000);
    let mut slot = new_slot();
    let mut global = new_global();

    let a = alloc_on(&mut os, &mut slot, &mut global, 64, 8).unwrap();
    assert_eq!(a, 0x10030);
    assert_eq!(a % 8, 0);
    // the first request ever made of the heap is for the arena of the process
    assert!(os.asked[0] >= EXTRA_ELEMENTS * 4);
    assert_eq!(os.asked, vec![24, 24, 4 * 64 + 8]);
    assert_eq!(local_blocks(&slot), vec![(0x10070, 192)]);

    free_on(&mut os, &mut slot, &mut global, a, 64);
    assert_eq!(local_blocks(&slot), vec![(0x10030, 256)]);

    // the over-allocation serves a request that it can hold, without the process
    assert_eq!(allocate(&mut slot, 128, 8), Ok(0x10030));
    assert_eq!(free(&mut slot, 0x10030, 128), Ok(()));
    assert_eq!(os.asked.len(), 3);

    // 4096 bytes it cannot hold: exactly 4 * 4096 bytes come from upstream
    assert_eq!(allocate(&mut slot, 4096, 8), Err(Stop::Upstream));
    let before = local_free_bytes(&slot);
    let b = alloc_on(&mut os, &mut slot, &mut global, 4096, 8).unwrap();
    assert_eq!(b, 0x10138);
    assert_eq!(os.asked, vec![24, 24, 264, 4 * 4096 + 8]);
    assert_eq!(local_free_bytes(&slot), before + 4 * 4096 - 4096);
    assert_eq!(local_blocks(&slot), vec![(0x10030, 256), (0x11138, 12288)]);
}

#[test]
fn thread_b_allocates_more_than_the_threshold() {
    let mut os = Platform::new(0x10000, 0x100000);
    let mut slot = new_slot();
    let mut global = new_global();
    let b = alloc_on(&mut os, &mut slot, &mut global, 16384, 8).unwrap();
    assert_eq!(b, 0x10030);
    // no amplification: the heap grows by the size and the room to align it
    assert_eq!(os.asked, vec![24, 24, 16384 + 8]);
    assert_eq!(local_free_bytes(&slot), 0);
    assert_eq!(global_free_bytes(&global), 8 + 8 + 8);
}

#[test]
fn thread_c_exits_without_freeing() {
    let mut os = Platform::new(0x10000, 0x100000);
    let mut slot = new_slot();
    let mut global = new_global();
    let c = alloc_on(&mut os, &mut slot, &mut global, 64, 8).unwrap();
    assert_eq!(bytes_held(&global, &[&slot]) + 64, os.obtained());
    let before = global_free_bytes(&global);
    let held = local_free_bytes(&slot) + local_arena_bytes(&slot);
    assert_eq!(held, 192 + 16);

    detach(&mut slot, &mut global);
    assert!(matches!(slot.borrow(), LazyInit::Uninitialized(())));
    assert_eq!(global_free_bytes(&global), before + held);
    // only the block that the thread leaked is missing
    assert_eq!(bytes_held(&global, &[]) + 64, os.obtained());
    assert!(upstream_can_take(&global, c, 64));
    assert_eq!(global_blocks(&global), vec![(0x10010, 32), (0x10070, 200)]);
}

#[test]
fn detach_of_a_thread_without_allocator_does_nothing() {
    let mut os = Platform::new(0x10000, 0x100000);
    let mut slot = new_slot();
    let mut global = new_global();
    detach(&mut slot, &mut global);
    assert!(matches!(global, LazyInit::Uninitialized(_)));
    alloc_on(&mut os, &mut slot, &mut global, 64, 8).unwrap();
    let before = global_blocks(&global);
    let mut other = new_slot();
    detach(&mut other, &mut global);
    assert_eq!(global_blocks(&global), before);
    assert!(matches!(other.borrow(), LazyInit::Uninitialized(())));
}

#[test]
fn teardown_after_matching_frees_reclaims_everything() {
    let mut os = Platform::new(0x10000, 0x100000);
    let mut main = new_slot();
    let mut global = new_global();
    alloc_on(&mut os, &mut main, &mut global, 8, 8).unwrap();

    let mut slot = new_slot();
    let global_before = global_free_bytes(&global);
    let obtained_before = os.obtained();
    let sizes = [64usize, 100, 8, 5000, 12, 9000, 64, 1];
    let mut got = Vec::new();
    for &size in sizes.iter() {
        let addr = alloc_on(&mut os, &mut slot, &mut global, size, 8).unwrap();
        got.push((addr, size));
    }
    for &(addr, size) in got.iter() {
        free_on(&mut os, &mut slot, &mut global, addr, size);
    }
    assert!(is_sound(&slot, &global));
    detach(&mut slot, &mut global);
    // all that the thread borrowed, from the free list upstream or from the heap, is free
    assert_eq!(
        global_free_bytes(&global),
        global_before + (os.obtained() - obtained_before)
    );
    assert_eq!(bytes_held(&global, &[&main]) + 8, os.obtained());
}

#[test]
fn no_byte_is_counted_twice() {
    let mut os = Platform::new(0x10004, 0x100000);
    let mut global = new_global();
    let mut one = new_slot();
    let mut two = new_slot();
    let mut in_use: usize = 0;

    let a = alloc_on(&mut os, &mut one, &mut global, 100, 16).unwrap();
    in_use += 100;
    assert_eq!(bytes_held(&global, &[&one, &two]) + in_use, os.obtained());
    let b = alloc_on(&mut os, &mut two, &mut global, 9000, 64).unwrap();
    in_use += 9000;
    assert_eq!(bytes_held(&global, &[&one, &two]) + in_use, os.obtained());
    let c = alloc_on(&mut os, &mut one, &mut global, 40, 8).unwrap();
    in_use += 40;
    assert_eq!(bytes_held(&global, &[&one, &two]) + in_use, os.obtained());
    assert_eq!(a % 16, 0);
    assert_eq!(b % 64, 0);
    assert_eq!(c % 8, 0);

    // a block may be given back to another thread than the one that got it
    free_on(&mut os, &mut two, &mut global, a, 100);
    in_use -= 100;
    assert_eq!(bytes_held(&global, &[&one, &two]) + in_use, os.obtained());

    let b = realloc_on(&mut os, &mut two, &mut global, b, 9000, 20000, 64).unwrap();
    in_use += 11000;
    assert_eq!(bytes_held(&global, &[&one, &two]) + in_use, os.obtained());

    assert_eq!(realloc_inplace(&mut one, c, 40, 8), Ok(Ok(())));
    in_use -= 32;
    assert_eq!(bytes_held(&global, &[&one, &two]) + in_use, os.obtained());

    assert!(is_sound(&one, &global));
    assert!(is_sound(&two, &global));
    detach(&mut one, &mut global);
    assert_eq!(bytes_held(&global, &[&one, &two]) + in_use, os.obtained());
    assert!(is_sound(&two, &global));
    free_on(&mut os, &mut two, &mut global, b, 20000);
    free_on(&mut os, &mut two, &mut global, c, 8);
    detach(&mut two, &mut global);
    assert_eq!(bytes_held(&global, &[]), os.obtained());
    assert_eq!(global_free_bytes(&global) + 16, os.obtained());
    // every byte has come back to one block, but for the arena of the process
    assert_eq!(global_blocks(&global).len(), 2);
}

#[test]
fn round_trip_loses_no_memory() {
    let mut os = Platform::new(0x10000, 0x1000000);
    let mut slot = new_slot();
    let mut global = new_global();
    alloc_on(&mut os, &mut slot, &mut global, 1, 1).unwrap();
    for &(size, align) in [(1usize, 1usize), (64, 8), (100, 64), (4096, 4096), (8192, 8), (8193, 2), (70000, 32)].iter() {
        let before = local_free_bytes(&slot) + global_free_bytes(&global);
        let list = local_blocks(&slot);
        let local = allocate(&mut slot, size, align).is_ok();
        if local {
            let got = local_blocks(&slot);
            assert_ne!(got, list);
            let addr = list_first_fit(&list, size, align);
            assert_eq!(free(&mut slot, addr, size), Ok(()));
            assert_eq!(local_blocks(&slot), list);
        } else {
            let addr = alloc_on(&mut os, &mut slot, &mut global, size, align).unwrap();
            assert_eq!(addr % align, 0);
            free_on(&mut os, &mut slot, &mut global, addr, size);
            assert!(local_free_bytes(&slot) + global_free_bytes(&global) >= before);
            // the block can be had again, from the thread's own list
            assert_eq!(allocate(&mut slot, size, align), Ok(addr));
            assert_eq!(free(&mut slot, addr, size), Ok(()));
        }
    }
}

/// The address that the first fit in `list` gives for `size` bytes at `align`.
fn list_first_fit(list: &[(usize, usize)], size: usize, align: usize) -> usize {
    for &(addr, room) in list {
        let pad = (align - addr % align) % align;
        if pad + size <= room {
            return addr + pad;
        }
    }
    panic!("nothing fits");
}

#[test]
fn realloc_stays_moves_or_goes_upstream() {
    let mut os = Platform::new(0x10000, 0x100000);
    let mut slot = new_slot();
    let mut global = new_global();
    let a = alloc_on(&mut os, &mut slot, &mut global, 64, 8).unwrap();
    assert_eq!(a, 0x10030);
    // grows where it lies: the bytes behind it are free
    assert_eq!(realloc(&mut slot, a, 64, 100, 8), Ok(a));
    assert_eq!(local_blocks(&slot), vec![(0x10094, 156)]);
    let b = allocate(&mut slot, 56, 4).unwrap();
    assert_eq!(b, 0x10094);
    // does not lie at a multiple of 32, and moves behind `b`
    assert_eq!(realloc(&mut slot, a, 100, 60, 32), Ok(0x100e0));
    assert_eq!(local_blocks(&slot), vec![(0x10030, 100), (0x100cc, 20), (0x1011c, 20)]);
    // neither where it lies nor elsewhere in the list is there room for 300 bytes
    assert_eq!(realloc(&mut slot, 0x100e0, 60, 300, 8), Err(Stop::Upstream));
    assert_eq!(local_blocks(&slot), vec![(0x10030, 100), (0x100cc, 20), (0x1011c, 20)]);
    // so they come from upstream, which is asked for four times as many
    let asked = os.asked.len();
    let c = realloc_on(&mut os, &mut slot, &mut global, 0x100e0, 60, 300, 8).unwrap();
    assert_eq!(os.asked[asked..], [4 * 300 + 8]);
    assert_eq!(c, 0x10138);
    assert_eq!(
        local_blocks(&slot),
        vec![(0x10030, 100), (0x100cc, 100), (0x10138 + 300, 900)]
    );
}

#[test]
fn realloc_upstream_stops_without_a_change() {
    let mut os = Platform::new(0x10000, 0x10400);
    let mut slot = new_slot();
    let mut global = new_global();
    let a = alloc_on(&mut os, &mut slot, &mut global, 64, 8).unwrap();
    let list = local_blocks(&slot);
    assert_eq!(
        realloc_upstream(&mut slot, &mut global, a, 64, 5000, 8),
        Err(Stop::Extend(4 * 5000 + 8))
    );
    assert_eq!(local_blocks(&slot), list);
    // the platform has no such memory
    assert_eq!(realloc_on(&mut os, &mut slot, &mut global, a, 64, 5000, 8), None);
    assert_eq!(local_blocks(&slot), list);
    assert_eq!(heap(&global), Heap::Unasked);
    // the block is as it was, and can be given back
    assert!(can_take(&slot, a, 64));
    assert_eq!(free(&mut slot, a, 64), Ok(()));
}

#[test]
fn realloc_inplace_reports_whether_the_block_could_stay() {
    let mut os = Platform::new(0x10000, 0x100000);
    let mut slot = new_slot();
    let mut global = new_global();
    let a = alloc_on(&mut os, &mut slot, &mut global, 64, 8).unwrap();
    assert_eq!(realloc_inplace(&mut slot, a, 64, 256), Ok(Ok(())));
    assert_eq!(local_blocks(&slot), vec![]);
    assert_eq!(realloc_inplace(&mut slot, a, 256, 257), Ok(Err(())));
    assert_eq!(local_blocks(&slot), vec![]);
    assert_eq!(realloc_inplace(&mut slot, a, 256, 16), Ok(Ok(())));
    assert_eq!(local_blocks(&slot), vec![(a + 16, 240)]);
    assert_eq!(realloc_inplace(&mut slot, a, 16, 16), Ok(Ok(())));
    assert_eq!(local_blocks(&slot), vec![(a + 16, 240)]);
    assert_eq!(realloc_inplace(&mut slot, a, 16, 0), Ok(Ok(())));
    assert_eq!(local_blocks(&slot), vec![(a, 256)]);
}

#[test]
fn out_of_memory_leaves_the_allocator_usable() {
    let mut os = Platform::new(0x10000, 0x10200);
    let mut slot = new_slot();
    let mut global = new_global();
    let a = alloc_on(&mut os, &mut slot, &mut global, 64, 8).unwrap();
    let list = local_blocks(&slot);
    let upstream = global_blocks(&global);
    assert_eq!(alloc_on(&mut os, &mut slot, &mut global, 4096, 8), None);
    assert_eq!(local_blocks(&slot), list);
    assert_eq!(global_blocks(&global), upstream);
    assert_eq!(allocate(&mut slot, 64, 8), Ok(a + 64));
    // a size that no heap can grow by is refused without asking the platform
    let asked = os.asked.len();
    assert_eq!(
        allocate_upstream(&mut slot, &mut global, usize::MAX - 8, 8),
        Err(Stop::Oom)
    );
    assert_eq!(os.asked.len(), asked);
}

#[test]
fn checks_tell_what_can_be_given_back() {
    let mut os = Platform::new(0x10000, 0x100000);
    let mut slot = new_slot();
    let mut global = new_global();
    assert!(can_take(&slot, 0x1000, 8));
    assert!(!can_take(&slot, usize::MAX, 1));
    assert!(can_take(&slot, usize::MAX, 0));
    let a = alloc_on(&mut os, &mut slot, &mut global, 64, 8).unwrap();
    assert!(can_take(&slot, a, 64));
    assert!(upstream_can_take(&global, a, 64));
    assert_eq!(free(&mut slot, a, 64), Ok(()));
    // given back twice
    assert!(!can_take(&slot, a, 64));
    assert!(!can_take(&slot, a + 8, 1));
    assert!(ends_below(&slot, &global, os.end));
    assert!(!ends_below(&slot, &global, os.end - 1));
}
