use vstd::prelude::*;

verus! {

/// Block size used when the file system cannot report one (4 KiB).
pub const BLOCK_SIZE: usize = 4096;

/// Smallest number of blocks a slotted page spans (16 blocks = 64 KiB).
pub const MAX_PAGE_LEN: u16 = 16;

} // verus!
