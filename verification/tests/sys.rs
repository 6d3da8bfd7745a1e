use ralloc::sys::{register_thread_destructor, sbrk, BRK_FAILED};

#[test]
fn sbrk_reads_the_failure_value() {
    assert_eq!(sbrk(BRK_FAILED), Err(()));
    assert_eq!(sbrk(usize::MAX), Err(()));
}

#[test]
fn sbrk_hands_on_an_address() {
    assert_eq!(sbrk(0x1000), Ok(0x1000));
    assert_eq!(sbrk(0), Ok(0));
    assert_eq!(sbrk(usize::MAX - 1), Ok(usize::MAX - 1));
}

#[test]
fn destructor_needs_platform_support() {
    assert_eq!(register_thread_destructor(true), Ok(()));
    assert_eq!(register_thread_destructor(false), Err(()));
}
