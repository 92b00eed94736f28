//! Guest memory: the layout of the 32-bit address space and its allocator.
pub mod allocator;

use vstd::prelude::*;

verus! {

/// Size of the permanently unmapped guard page at address zero.
pub const NULL_PAGE_SIZE: u32 = 0x1000;

/// Size of the main thread's stack, which sits at the top of the address space.
pub const MAIN_THREAD_STACK_SIZE: u32 = 0x10_0000;

/// Lowest address of the main thread's stack.
pub const MAIN_THREAD_STACK_LOW_END: u32 = 0xFFF0_0000;

} // verus!
