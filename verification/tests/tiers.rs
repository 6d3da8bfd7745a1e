use ralloc::block::Block;
use ralloc::bookkeeper::Bookkeeper;
use ralloc::brk::{Brk, Heap, Stop};
use ralloc::global::{global_init, GlobalAllocator, ARENA_ALIGN, ARENA_SIZE};
use ralloc::local::{canonicalize_space, local_init, LocalAllocator};
use ralloc::sys::BRK_FAILED;

fn blocks_of(book: &Bookkeeper) -> Vec<(usize, usize)> {
    let mut out = Vec::new();
    for i in 0..book.len() {
        out.push(book.get(i));
    }
    out
}

/// A process-wide allocator made from 24 bytes of heap at `at`.
fn global_at(at: usize) -> GlobalAllocator {
    let mut brk = Brk::new();
    brk.supply(24, at);
    match global_init(brk) {
        Ok(g) => g,
        Err(_) => panic!("the heap was supplied"),
    }
}

/// Serves a request of the process-wide allocator, with a heap that ends at `*end`.
fn global_alloc(g: &mut GlobalAllocator, end: &mut usize, size: usize, align: usize) -> Block {
    match g.allocate(size, align) {
        Ok(b) => b,
        Err(Stop::Extend(n)) => {
            g.supply(n, *end);
            *end += n;
            g.allocate(size, align).unwrap()
        },
        Err(stop) => panic!("stopped: {:?}", stop),
    }
}

/// A thread's allocator made from `g`, attached.
fn local_from(g: &mut GlobalAllocator, end: &mut usize) -> LocalAllocator {
    let mut local = match local_init(g) {
        Ok(l) => l,
        Err(Stop::Extend(n)) => {
            g.supply(n, *end);
            *end += n;
            match local_init(g) {
                Ok(l) => l,
                Err(stop) => panic!("stopped: {:?}", stop),
            }
        },
        Err(stop) => panic!("stopped: {:?}", stop),
    };
    assert_eq!(local.attach(true), Ok(()));
    local
}

fn local_alloc(
    l: &mut LocalAllocator,
    g: &mut GlobalAllocator,
    end: &mut usize,
    size: usize,
    align: usize,
) -> Block {
    if let Some(b) = l.allocate(size, align) {
        return b;
    }
    match l.alloc_fresh(g, size, align) {
        Ok(b) => b,
        Err(Stop::Extend(n)) => {
            g.supply(n, *end);
            *end += n;
            l.alloc_fresh(g, size, align).unwrap()
        },
        Err(stop) => panic!("stopped: {:?}", stop),
    }
}

#[test]
fn arena_request_is_sixteen_bytes_at_eight() {
    assert_eq!(ARENA_SIZE, 16);
    assert_eq!(ARENA_ALIGN, 8);
}

#[test]
fn canonicalize_space_multiplies_small_requests() {
    assert_eq!(canonicalize_space(0), 0);
    assert_eq!(canonicalize_space(1), 4);
    assert_eq!(canonicalize_space(64), 256);
    assert_eq!(canonicalize_space(4096), 16384);
    assert_eq!(canonicalize_space(8191), 32764);
    assert_eq!(canonicalize_space(8192), 32768);
}

#[test]
fn canonicalize_space_keeps_large_requests() {
    assert_eq!(canonicalize_space(8193), 8193);
    assert_eq!(canonicalize_space(16384), 16384);
    assert_eq!(canonicalize_space(usize::MAX), usize::MAX);
}

#[test]
fn global_init_stops_to_have_the_heap_grow() {
    match global_init(Brk::new()) {
        Err((brk, stop)) => {
            assert_eq!(stop, Stop::Extend(24));
            assert_eq!(brk.answer(), Heap::Unasked);
        },
        Ok(_) => panic!("made from nothing"),
    }
}

#[test]
fn global_init_reports_a_refusal() {
    let mut brk = Brk::new();
    brk.supply(24, BRK_FAILED);
    match global_init(brk) {
        Err((brk, stop)) => {
            assert_eq!(stop, Stop::Oom);
            assert_eq!(brk.answer(), Heap::Unasked);
        },
        Ok(_) => panic!("made from nothing"),
    }
}

#[test]
fn global_init_takes_the_arena_and_frees_the_rest() {
    let g = global_at(0x10000);
    assert_eq!(g.book().arena_parts(), (0x10000, 16));
    assert_eq!(blocks_of(g.book()), vec![(0x10010, 8)]);
    assert_eq!(g.free_bytes(), 8);
    assert_eq!(g.heap(), Heap::Unasked);
}

#[test]
fn global_init_frees_what_lies_before_the_arena() {
    let g = global_at(0x10004);
    assert_eq!(g.book().arena_parts(), (0x10008, 16));
    assert_eq!(blocks_of(g.book()), vec![(0x10004, 4), (0x10018, 4)]);
    assert_eq!(g.free_bytes(), 8);
}

#[test]
fn global_allocate_serves_from_the_free_list() {
    let mut g = global_at(0x10000);
    assert_eq!(g.allocate(4, 4), Ok(Block { addr: 0x10010, size: 4 }));
    assert_eq!(blocks_of(g.book()), vec![(0x10014, 4)]);
}

#[test]
fn global_allocate_goes_to_the_heap() {
    let mut g = global_at(0x10000);
    assert_eq!(g.allocate(100, 16), Err(Stop::Extend(116)));
    assert_eq!(blocks_of(g.book()), vec![(0x10010, 8)]);
    g.supply(116, 0x10018);
    assert_eq!(g.heap(), Heap::Extended { addr: 0x10018, size: 116 });
    assert_eq!(g.allocate(100, 16), Ok(Block { addr: 0x10020, size: 100 }));
    // the 8 bytes before the block joined the free block that ended there
    assert_eq!(blocks_of(g.book()), vec![(0x10010, 16), (0x10084, 8)]);
    assert_eq!(g.heap(), Heap::Unasked);
}

#[test]
fn global_alloc_fresh_skips_the_free_list() {
    let mut g = global_at(0x10000);
    assert_eq!(g.alloc_fresh(4, 4), Err(Stop::Extend(8)));
    g.supply(8, 0x10018);
    assert_eq!(g.alloc_fresh(4, 4), Ok(Block { addr: 0x10018, size: 4 }));
    assert_eq!(blocks_of(g.book()), vec![(0x10010, 8), (0x1001c, 4)]);
}

#[test]
fn global_alloc_fresh_lies_above_all_it_held() {
    let mut g = global_at(0x10000);
    let mut end = 0x10018;
    let mut highest = 0x10010;
    for size in [1usize, 8, 100, 4096, 3] {
        assert!(matches!(g.alloc_fresh(size, 8), Err(Stop::Extend(_))));
        let n = size + 8;
        g.supply(n, end);
        end += n;
        let got = g.alloc_fresh(size, 8).unwrap();
        assert!(got.addr > highest);
        for (addr, _) in blocks_of(g.book()) {
            if addr > highest {
                highest = addr;
            }
        }
    }
}

#[test]
fn global_allocate_reports_a_refusal() {
    let mut g = global_at(0x10000);
    assert_eq!(g.allocate(100, 16), Err(Stop::Extend(116)));
    g.supply(116, BRK_FAILED);
    assert_eq!(g.heap(), Heap::Refused);
    assert_eq!(g.allocate(100, 16), Err(Stop::Oom));
    assert_eq!(g.heap(), Heap::Unasked);
    assert_eq!(g.allocate(100, 16), Err(Stop::Extend(116)));
}

#[test]
fn global_allocate_refuses_what_no_heap_can_hold() {
    let mut g = global_at(0x10000);
    assert_eq!(g.allocate(usize::MAX, 8), Err(Stop::Oom));
    assert_eq!(blocks_of(g.book()), vec![(0x10010, 8)]);
}

#[test]
fn global_free_takes_a_block_back() {
    let mut g = global_at(0x10000);
    let mut end = 0x10018;
    let b = global_alloc(&mut g, &mut end, 100, 1);
    assert_eq!(b, Block { addr: 0x10018, size: 100 });
    assert_eq!(blocks_of(g.book()), vec![(0x10010, 8), (0x1007c, 1)]);
    g.free(b);
    assert_eq!(blocks_of(g.book()), vec![(0x10010, 109)]);
    assert_eq!(g.free_bytes(), 109);
}

#[test]
fn global_checks_what_it_can_take() {
    let g = global_at(0x10000);
    assert!(g.can_take(&Block { addr: 0x10018, size: 8 }));
    assert!(g.can_take(&Block { addr: 0x0, size: 0x10000 }));
    // the arena
    assert!(!g.can_take(&Block { addr: 0x10008, size: 8 }));
    // a free block
    assert!(!g.can_take(&Block { addr: 0x10010, size: 1 }));
    assert!(g.ends_below(0x10018));
    assert!(!g.ends_below(0x10017));
}

#[test]
fn global_keeps_blocks_below_new_memory() {
    let mut g = global_at(0x10000);
    g.supply(116, 0x10018);
    assert!(g.can_take(&Block { addr: 0x10000 - 8, size: 8 }));
    assert!(!g.can_take(&Block { addr: 0x10018, size: 8 }));
    assert!(!g.can_take(&Block { addr: 0x20000, size: 8 }));
}

#[test]
fn local_init_takes_its_arena_from_upstream() {
    let mut g = global_at(0x10000);
    match local_init(&mut g) {
        Err(stop) => assert_eq!(stop, Stop::Extend(24)),
        Ok(_) => panic!("the arena does not fit"),
    }
    g.supply(24, 0x10018);
    let local = match local_init(&mut g) {
        Ok(l) => l,
        Err(stop) => panic!("stopped: {:?}", stop),
    };
    assert_eq!(local.book().arena_parts(), (0x10018, 16));
    assert_eq!(local.book().len(), 0);
    assert!(!local.is_attached());
    assert_eq!(blocks_of(g.book()), vec![(0x10010, 8), (0x10028, 8)]);
}

#[test]
fn local_init_uses_free_memory_upstream() {
    let mut g = global_at(0x10000);
    g.free(Block { addr: 0x8000, size: 64 });
    let local = match local_init(&mut g) {
        Ok(l) => l,
        Err(stop) => panic!("stopped: {:?}", stop),
    };
    assert_eq!(local.book().arena_parts(), (0x8000, 16));
    assert_eq!(blocks_of(g.book()), vec![(0x8010, 48), (0x10010, 8)]);
}

#[test]
fn attach_needs_platform_support() {
    let mut g = global_at(0x10000);
    g.free(Block { addr: 0x8000, size: 64 });
    let mut local = match local_init(&mut g) {
        Ok(l) => l,
        Err(stop) => panic!("stopped: {:?}", stop),
    };
    assert_eq!(local.attach(false), Err(()));
    assert!(!local.is_attached());
    assert_eq!(local.attach(true), Ok(()));
    assert!(local.is_attached());
}

#[test]
fn local_alloc_fresh_asks_for_four_times_the_size() {
    let mut g = global_at(0x10000);
    let mut end = 0x10018;
    let mut l = local_from(&mut g, &mut end);
    assert_eq!(l.allocate(64, 8), None);
    assert_eq!(l.alloc_fresh(&mut g, 64, 8), Err(Stop::Extend(4 * 64 + 8)));
    g.supply(264, end);
    assert_eq!(l.alloc_fresh(&mut g, 64, 8), Ok(Block { addr: 0x10030, size: 64 }));
    assert_eq!(blocks_of(l.book()), vec![(0x10070, 192)]);
    assert_eq!(l.free_bytes(), 192);
    assert_eq!(blocks_of(g.book()), vec![(0x10010, 8), (0x10028, 8), (0x10130, 8)]);
}

#[test]
fn local_alloc_fresh_asks_for_the_size_of_a_large_request() {
    let mut g = global_at(0x10000);
    let mut end = 0x10018;
    let mut l = local_from(&mut g, &mut end);
    assert_eq!(l.alloc_fresh(&mut g, 16384, 8), Err(Stop::Extend(16384 + 8)));
    g.supply(16392, end);
    assert_eq!(l.alloc_fresh(&mut g, 16384, 8), Ok(Block { addr: 0x10030, size: 16384 }));
    assert_eq!(l.free_bytes(), 0);
    assert_eq!(l.book().len(), 0);
}

#[test]
fn local_alloc_fresh_at_the_threshold() {
    let mut g = global_at(0x10000);
    let mut end = 0x10018;
    let mut l = local_from(&mut g, &mut end);
    assert_eq!(l.alloc_fresh(&mut g, 8192, 8), Err(Stop::Extend(4 * 8192 + 8)));
    assert_eq!(l.alloc_fresh(&mut g, 8193, 8), Err(Stop::Extend(8193 + 8)));
}

#[test]
fn local_alloc_fresh_takes_from_the_free_list_upstream() {
    let mut g = global_at(0x10000);
    let mut end = 0x10018;
    let mut l = local_from(&mut g, &mut end);
    g.free(Block { addr: 0x4000, size: 0x1000 });
    assert_eq!(l.alloc_fresh(&mut g, 64, 8), Ok(Block { addr: 0x4000, size: 64 }));
    assert_eq!(blocks_of(l.book()), vec![(0x4040, 192)]);
    assert_eq!(blocks_of(g.book()), vec![(0x4100, 0xf00), (0x10010, 8), (0x10028, 8)]);
}

#[test]
fn local_alloc_fresh_inserts_below_what_it_holds() {
    let mut g = global_at(0x10000);
    let mut end = 0x10018;
    let mut l = local_from(&mut g, &mut end);
    let first = local_alloc(&mut l, &mut g, &mut end, 64, 8);
    assert_eq!(first, Block { addr: 0x10030, size: 64 });
    // memory that another thread gave back lies below the thread's own
    g.free(Block { addr: 0x4000, size: 0x1000 });
    assert_eq!(l.alloc_fresh(&mut g, 1024, 8), Ok(Block { addr: 0x4000, size: 1024 }));
    assert_eq!(blocks_of(l.book()), vec![(0x4400, 3072), (0x10070, 192)]);
}

#[test]
fn local_free_and_allocate_again() {
    let mut g = global_at(0x10000);
    let mut end = 0x10018;
    let mut l = local_from(&mut g, &mut end);
    let b = local_alloc(&mut l, &mut g, &mut end, 64, 8);
    l.free(b);
    assert_eq!(blocks_of(l.book()), vec![(0x10030, 256)]);
    assert_eq!(l.allocate(64, 8), Some(Block { addr: 0x10030, size: 64 }));
    assert_eq!(l.allocate(192, 8), Some(Block { addr: 0x10070, size: 192 }));
    assert_eq!(l.allocate(1, 1), None);
}

#[test]
fn local_realloc_inplace_never_moves() {
    let mut g = global_at(0x10000);
    let mut end = 0x10018;
    let mut l = local_from(&mut g, &mut end);
    let b = local_alloc(&mut l, &mut g, &mut end, 64, 8);
    let b = l.realloc_inplace(b, 100).unwrap();
    assert_eq!(b, Block { addr: 0x10030, size: 100 });
    assert_eq!(blocks_of(l.book()), vec![(0x10094, 156)]);
    let b = l.realloc_inplace(b, 10).unwrap();
    assert_eq!(b, Block { addr: 0x10030, size: 10 });
    assert_eq!(blocks_of(l.book()), vec![(0x1003a, 246)]);
    let b = l.realloc_inplace(b, 257).unwrap_err();
    assert_eq!(b, Block { addr: 0x10030, size: 10 });
    assert_eq!(blocks_of(l.book()), vec![(0x1003a, 246)]);
    assert_eq!(l.realloc_inplace(b, 256), Ok(Block { addr: 0x10030, size: 256 }));
    assert_eq!(l.book().len(), 0);
}

#[test]
fn local_realloc_moves_within_the_free_list() {
    let mut g = global_at(0x10000);
    let mut end = 0x10018;
    let mut l = local_from(&mut g, &mut end);
    let a = local_alloc(&mut l, &mut g, &mut end, 64, 8);
    let b = local_alloc(&mut l, &mut g, &mut end, 64, 8);
    assert_eq!(b, Block { addr: 0x10070, size: 64 });
    // `a` cannot grow: `b` lies behind it
    let moved = l.realloc(a, 100, 8).unwrap();
    assert_eq!(moved, Block { addr: 0x100b0, size: 100 });
    assert_eq!(blocks_of(l.book()), vec![(0x10030, 64), (0x10114, 28)]);
    let stuck = l.realloc(moved, 1000, 8).unwrap_err();
    assert_eq!(stuck, Block { addr: 0x100b0, size: 100 });
    assert_eq!(blocks_of(l.book()), vec![(0x10030, 64), (0x10114, 28)]);
}

#[test]
fn detach_gives_everything_to_the_process() {
    let mut g = global_at(0x10000);
    let mut end = 0x10018;
    let mut l = local_from(&mut g, &mut end);
    let a = local_alloc(&mut l, &mut g, &mut end, 64, 8);
    let b = local_alloc(&mut l, &mut g, &mut end, 64, 8);
    l.free(a);
    assert_eq!(blocks_of(l.book()), vec![(0x10030, 64), (0x100b0, 128)]);
    let before = g.free_bytes();
    assert!(l.is_separate_from(&g));
    l.detach(&mut g);
    // the free blocks and the arena of 16 bytes
    assert_eq!(g.free_bytes(), before + 64 + 128 + 16);
    assert_eq!(blocks_of(g.book()), vec![(0x10010, 0x60), (0x100b0, 0x88)]);
    g.free(b);
    assert_eq!(blocks_of(g.book()), vec![(0x10010, 0x128)]);
    // all that the heap handed out, but for the arena of the process
    assert_eq!(g.free_bytes(), end - 0x10000 - 16);
}

#[test]
fn local_checks_what_it_can_take() {
    let mut g = global_at(0x10000);
    let mut end = 0x10018;
    let mut l = local_from(&mut g, &mut end);
    let a = local_alloc(&mut l, &mut g, &mut end, 64, 8);
    assert!(l.can_take(&a));
    assert!(g.can_take(&a));
    // free already
    assert!(!l.can_take(&Block { addr: 0x10070, size: 1 }));
    // the arena
    assert!(!l.can_take(&Block { addr: 0x10018, size: 16 }));
    assert!(l.ends_below(0x10130));
    assert!(!l.ends_below(0x1012f));
    assert!(l.is_separate_from(&g));
    l.free(a);
    assert!(l.is_separate_from(&g));
}

#[test]
fn allocators_that_share_a_block_are_not_separate() {
    let mut g = global_at(0x10000);
    let mut end = 0x10018;
    let mut l = local_from(&mut g, &mut end);
    let a = local_alloc(&mut l, &mut g, &mut end, 64, 8);
    assert_eq!(a.addr, 0x10030);
    l.free(a);
    // the same block given to both
    g.free(Block { addr: 0x10030, size: 64 });
    assert!(!l.is_separate_from(&g));
}
