use ralloc::block::Block;
use ralloc::brk::{Brk, Heap, Stop};
use ralloc::sys::BRK_FAILED;

#[test]
fn new_heap_was_not_asked() {
    assert_eq!(Brk::new().answer(), Heap::Unasked);
}

#[test]
fn get_stops_to_have_the_heap_grow() {
    let mut brk = Brk::new();
    assert_eq!(brk.get(16, 8), Err(Stop::Extend(24)));
    assert_eq!(brk.get(256, 64), Err(Stop::Extend(320)));
    assert_eq!(brk.get(0, 1), Err(Stop::Extend(1)));
    assert_eq!(brk.answer(), Heap::Unasked);
}

#[test]
fn get_cuts_new_memory_in_three() {
    let mut brk = Brk::new();
    brk.supply(24, 0x1004);
    assert_eq!(brk.answer(), Heap::Extended { addr: 0x1004, size: 24 });
    assert_eq!(
        brk.get(16, 8),
        Ok((
            Block { addr: 0x1004, size: 4 },
            Block { addr: 0x1008, size: 16 },
            Block { addr: 0x1018, size: 4 },
        ))
    );
    assert_eq!(brk.answer(), Heap::Unasked);
}

#[test]
fn get_from_aligned_memory_leaves_no_front() {
    let mut brk = Brk::new();
    brk.supply(320, 0x1000);
    assert_eq!(
        brk.get(256, 64),
        Ok((
            Block { addr: 0x1000, size: 0 },
            Block { addr: 0x1000, size: 256 },
            Block { addr: 0x1100, size: 64 },
        ))
    );
}

#[test]
fn get_reports_a_refusal_once() {
    let mut brk = Brk::new();
    brk.supply(24, BRK_FAILED);
    assert_eq!(brk.answer(), Heap::Refused);
    assert_eq!(brk.get(16, 8), Err(Stop::Oom));
    assert_eq!(brk.answer(), Heap::Unasked);
    assert_eq!(brk.get(16, 8), Err(Stop::Extend(24)));
}

#[test]
fn get_refuses_what_no_heap_can_grow_by() {
    let mut brk = Brk::new();
    assert_eq!(brk.get(usize::MAX, 8), Err(Stop::Oom));
    assert_eq!(brk.get(isize::MAX as usize, 1), Err(Stop::Oom));
    assert_eq!(brk.get(isize::MAX as usize - 8, 8), Err(Stop::Extend(isize::MAX as usize)));
    assert_eq!(brk.get(isize::MAX as usize - 7, 8), Err(Stop::Oom));
}
