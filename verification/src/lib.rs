//! A thread-aware memory allocator in two tiers, as a model on addresses: one
//! process-wide allocator, fed by the heap, and one allocator per thread, fed in bulk by
//! the process-wide one and emptied into it when the thread ends.
//!
//! The library decides; it touches neither memory nor the platform. A block is an address
//! and a size. Where a request needs the world outside (the lock of the process, more
//! heap, a hook at the thread's exit) it stops and says so, and goes on when it is made
//! again.
//!
//! - `block`, `pool`, `bookkeeper`: blocks, free lists as sequences of blocks, and the
//!   engine that keeps one free list.
//! - `sys`, `brk`: what the platform answers, and the heap as the allocator sees it.
//! - `lazy_init`: values made on first use, and the cell a thread takes its value from.
//! - `global`, `local`, `allocator`: the two tiers, and the requests of a thread.
//! - `laws`, `custody`, `world`: what holds of every request, and of a whole process.

pub mod block;
pub mod pool;
pub mod bookkeeper;
pub mod sys;
pub mod brk;
pub mod lazy_init;
pub mod global;
pub mod local;
pub mod allocator;
pub mod laws;
pub mod custody;
pub mod world;
