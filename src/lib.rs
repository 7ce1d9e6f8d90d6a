//! Second-stage boot firmware logic: a FAT32 volume reader, the boot
//! sequence that loads the boot image, a bump allocator and the barrier
//! that holds the other harts until the image is in memory.

mod bytes;
pub mod barrier;
pub mod block;
pub mod boot;
pub mod fat;
pub mod mem;

use vstd::prelude::*;
use crate::mem::GlobalAllocator;

verus! {

/// Sets up the boot environment's memory: a bump allocator whose arena runs
/// from the end of the running code image, `code_end`, to `arena_end`.
pub fn init(code_end: usize, arena_end: usize) -> (r: GlobalAllocator)
    requires
        code_end <= arena_end,
    ensures
        r.wf(),
        r.pos == code_end,
        r.end == arena_end,
{
    mem::init(code_end, arena_end)
}

} // verus!
