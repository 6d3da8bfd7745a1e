use ralloc::block::Block;
use ralloc::bookkeeper::{Bookkeeper, EXTRA_ELEMENTS};

fn list_of(book: &Bookkeeper) -> Vec<(usize, usize)> {
    let mut out = Vec::new();
    for i in 0..book.len() {
        out.push(book.get(i));
    }
    out
}

fn book_with(blocks: &[(usize, usize)]) -> Bookkeeper {
    let mut book = Bookkeeper::new(Block { addr: 0, size: 0 });
    for &(addr, size) in blocks {
        book.free(Block { addr, size });
    }
    book
}

#[test]
fn extra_elements_is_four() {
    assert_eq!(EXTRA_ELEMENTS, 4);
}

#[test]
fn new_bookkeeper_is_empty() {
    let book = Bookkeeper::new(Block { addr: 0x100, size: 16 });
    assert_eq!(book.len(), 0);
    assert_eq!(book.free_bytes(), 0);
    assert_eq!(book.arena_parts(), (0x100, 16));
}

#[test]
fn free_keeps_the_list_by_address() {
    let book = book_with(&[(300, 10), (100, 10), (200, 10)]);
    assert_eq!(list_of(&book), vec![(100, 10), (200, 10), (300, 10)]);
    assert_eq!(book.free_bytes(), 30);
}

#[test]
fn free_merges_with_the_block_before() {
    let book = book_with(&[(100, 10), (300, 10), (110, 5)]);
    assert_eq!(list_of(&book), vec![(100, 15), (300, 10)]);
}

#[test]
fn free_merges_with_the_block_behind() {
    let book = book_with(&[(100, 10), (300, 10), (290, 10)]);
    assert_eq!(list_of(&book), vec![(100, 10), (290, 20)]);
}

#[test]
fn free_merges_with_both_neighbours() {
    let book = book_with(&[(100, 10), (120, 10), (110, 10)]);
    assert_eq!(list_of(&book), vec![(100, 30)]);
    assert_eq!(book.free_bytes(), 30);
}

#[test]
fn free_of_an_empty_block_changes_nothing() {
    let mut book = book_with(&[(100, 10)]);
    book.free(Block { addr: 110, size: 0 });
    book.free(Block { addr: 50, size: 0 });
    assert_eq!(list_of(&book), vec![(100, 10)]);
}

#[test]
fn push_appends_above_all() {
    let mut book = book_with(&[(100, 10)]);
    book.push(Block { addr: 200, size: 20 });
    assert_eq!(list_of(&book), vec![(100, 10), (200, 20)]);
}

#[test]
fn push_merges_with_the_last_block() {
    let mut book = book_with(&[(100, 10)]);
    book.push(Block { addr: 110, size: 20 });
    assert_eq!(list_of(&book), vec![(100, 30)]);
    book.push(Block { addr: 130, size: 0 });
    assert_eq!(list_of(&book), vec![(100, 30)]);
}

#[test]
fn push_on_an_empty_list() {
    let mut book = Bookkeeper::new(Block { addr: 0, size: 0 });
    book.push(Block { addr: 0x40, size: 0 });
    assert_eq!(book.len(), 0);
    book.push(Block { addr: 0x40, size: 8 });
    assert_eq!(list_of(&book), vec![(0x40, 8)]);
}

#[test]
fn allocate_takes_the_first_block_that_fits() {
    let mut book = book_with(&[(100, 10), (200, 100), (400, 100)]);
    assert_eq!(book.allocate(50, 1), Some(Block { addr: 200, size: 50 }));
    assert_eq!(list_of(&book), vec![(100, 10), (250, 50), (400, 100)]);
    assert_eq!(book.free_bytes(), 160);
}

#[test]
fn allocate_takes_a_whole_block() {
    let mut book = book_with(&[(100, 10), (200, 100)]);
    assert_eq!(book.allocate(10, 1), Some(Block { addr: 100, size: 10 }));
    assert_eq!(list_of(&book), vec![(200, 100)]);
}

#[test]
fn allocate_leaves_the_padding_free() {
    let mut book = book_with(&[(100, 100)]);
    assert_eq!(book.allocate(16, 64), Some(Block { addr: 128, size: 16 }));
    assert_eq!(list_of(&book), vec![(100, 28), (144, 56)]);
    assert_eq!(book.free_bytes(), 84);
}

#[test]
fn allocate_skips_a_block_that_is_too_small_once_aligned() {
    let mut book = book_with(&[(100, 40), (200, 100)]);
    // 100..140 holds 12 bytes from 128 on, not 16
    assert_eq!(book.allocate(16, 128), Some(Block { addr: 256, size: 16 }));
    assert_eq!(list_of(&book), vec![(100, 40), (200, 56), (272, 28)]);
}

#[test]
fn allocate_fails_where_nothing_fits() {
    let mut book = book_with(&[(100, 10), (200, 20)]);
    assert_eq!(book.allocate(21, 1), None);
    assert_eq!(list_of(&book), vec![(100, 10), (200, 20)]);
    let mut none = Bookkeeper::new(Block { addr: 0, size: 0 });
    assert_eq!(none.allocate(1, 1), None);
}

#[test]
fn allocate_of_no_byte_changes_nothing() {
    let mut book = book_with(&[(100, 10)]);
    assert_eq!(book.allocate(0, 8), Some(Block { addr: 104, size: 0 }));
    assert_eq!(list_of(&book), vec![(100, 10)]);
}

#[test]
fn allocate_then_free_restores_the_list() {
    let mut book = book_with(&[(100, 100), (300, 50)]);
    let got = book.allocate(16, 64).unwrap();
    book.free(got);
    assert_eq!(list_of(&book), vec![(100, 100), (300, 50)]);
    assert_eq!(book.allocate(16, 64), Some(Block { addr: 128, size: 16 }));
}

#[test]
fn realloc_inplace_shrinks_and_frees_the_tail() {
    let mut book = book_with(&[(200, 10)]);
    let r = book.realloc_inplace(Block { addr: 100, size: 50 }, 20);
    assert_eq!(r, Ok(Block { addr: 100, size: 20 }));
    assert_eq!(list_of(&book), vec![(120, 30), (200, 10)]);
}

#[test]
fn realloc_inplace_shrinks_into_the_block_behind() {
    let mut book = book_with(&[(150, 10)]);
    let r = book.realloc_inplace(Block { addr: 100, size: 50 }, 20);
    assert_eq!(r, Ok(Block { addr: 100, size: 20 }));
    assert_eq!(list_of(&book), vec![(120, 40)]);
}

#[test]
fn realloc_inplace_to_the_same_size() {
    let mut book = book_with(&[(200, 10)]);
    let r = book.realloc_inplace(Block { addr: 100, size: 50 }, 50);
    assert_eq!(r, Ok(Block { addr: 100, size: 50 }));
    assert_eq!(list_of(&book), vec![(200, 10)]);
}

#[test]
fn realloc_inplace_grows_into_the_block_behind() {
    let mut book = book_with(&[(50, 10), (150, 100)]);
    let r = book.realloc_inplace(Block { addr: 100, size: 50 }, 80);
    assert_eq!(r, Ok(Block { addr: 100, size: 80 }));
    assert_eq!(list_of(&book), vec![(50, 10), (180, 70)]);
}

#[test]
fn realloc_inplace_grows_over_the_whole_block_behind() {
    let mut book = book_with(&[(150, 100), (400, 8)]);
    let r = book.realloc_inplace(Block { addr: 100, size: 50 }, 150);
    assert_eq!(r, Ok(Block { addr: 100, size: 150 }));
    assert_eq!(list_of(&book), vec![(400, 8)]);
}

#[test]
fn realloc_inplace_fails_where_the_bytes_behind_are_in_use() {
    let mut book = book_with(&[(160, 100)]);
    let r = book.realloc_inplace(Block { addr: 100, size: 50 }, 80);
    assert_eq!(r, Err(Block { addr: 100, size: 50 }));
    assert_eq!(list_of(&book), vec![(160, 100)]);
}

#[test]
fn realloc_inplace_fails_where_the_block_behind_is_too_small() {
    let mut book = book_with(&[(150, 29)]);
    let r = book.realloc_inplace(Block { addr: 100, size: 50 }, 80);
    assert_eq!(r, Err(Block { addr: 100, size: 50 }));
    assert_eq!(list_of(&book), vec![(150, 29)]);
}

#[test]
fn realloc_stays_where_it_can() {
    let mut book = book_with(&[(150, 100)]);
    let r = book.realloc(Block { addr: 96, size: 54 }, 80, 32);
    assert_eq!(r, Ok(Block { addr: 96, size: 80 }));
    assert_eq!(list_of(&book), vec![(176, 74)]);
}

#[test]
fn realloc_moves_where_the_block_cannot_grow() {
    let mut book = book_with(&[(10, 20), (300, 100)]);
    let r = book.realloc(Block { addr: 100, size: 50 }, 80, 1);
    assert_eq!(r, Ok(Block { addr: 300, size: 80 }));
    assert_eq!(list_of(&book), vec![(10, 20), (100, 50), (380, 20)]);
}

#[test]
fn realloc_moves_a_block_that_is_not_aligned() {
    let mut book = book_with(&[(150, 100)]);
    // the block could grow where it lies, but does not lie at a multiple of 64
    let r = book.realloc(Block { addr: 100, size: 50 }, 20, 64);
    assert_eq!(r, Ok(Block { addr: 192, size: 20 }));
    assert_eq!(list_of(&book), vec![(100, 92), (212, 38)]);
}

#[test]
fn realloc_fails_where_there_is_no_room() {
    let mut book = book_with(&[(10, 20)]);
    let r = book.realloc(Block { addr: 100, size: 50 }, 80, 1);
    assert_eq!(r, Err(Block { addr: 100, size: 50 }));
    assert_eq!(list_of(&book), vec![(10, 20)]);
}

#[test]
fn pop_takes_the_highest_block() {
    let mut book = book_with(&[(100, 10), (200, 20)]);
    assert_eq!(book.pop(), Some(Block { addr: 200, size: 20 }));
    assert_eq!(book.pop(), Some(Block { addr: 100, size: 10 }));
    assert_eq!(book.pop(), None);
    assert_eq!(book.len(), 0);
}

#[test]
fn into_arena_hands_out_the_arena() {
    let book = Bookkeeper::new(Block { addr: 0x100, size: 16 });
    assert_eq!(book.into_arena(), Block { addr: 0x100, size: 16 });
}

#[test]
fn is_clear_of_finds_a_shared_byte() {
    let book = book_with(&[(100, 10), (200, 20)]);
    assert!(book.is_clear_of(&Block { addr: 110, size: 90 }));
    assert!(book.is_clear_of(&Block { addr: 0, size: 100 }));
    assert!(book.is_clear_of(&Block { addr: 220, size: 1 }));
    assert!(!book.is_clear_of(&Block { addr: 109, size: 1 }));
    assert!(!book.is_clear_of(&Block { addr: 90, size: 200 }));
    assert!(!book.is_clear_of(&Block { addr: 205, size: 1 }));
    // an empty block shares no byte, wherever it lies
    assert!(book.is_clear_of(&Block { addr: 205, size: 0 }));
}

#[test]
fn is_disjoint_from_compares_two_lists() {
    let a = book_with(&[(100, 10), (200, 20)]);
    let b = book_with(&[(110, 90), (300, 5)]);
    let c = book_with(&[(0, 10), (219, 2)]);
    assert!(a.is_disjoint_from(&b));
    assert!(b.is_disjoint_from(&a));
    assert!(!a.is_disjoint_from(&c));
    assert!(!c.is_disjoint_from(&a));
    assert!(b.is_disjoint_from(&c));
}

#[test]
fn ends_below_compares_with_the_last_end() {
    let book = book_with(&[(100, 10), (200, 20)]);
    assert!(book.ends_below(220));
    assert!(book.ends_below(1000));
    assert!(!book.ends_below(219));
    assert!(!book.ends_below(0));
    assert!(Bookkeeper::new(Block { addr: 0, size: 0 }).ends_below(0));
}
