use vstd::prelude::*;


verus! {

/// The block size to use, given what probing the file system reported:
/// the probed size when there is one, else the default block size.
pub open spec fn spec_block_size_or_default(probed: Option<usize>) -> usize {
    match probed {
        Some(b) => b,
        None => crate::config::default::BLOCK_SIZE,
    }
}

/// Picks the block size of the machine: `probed` is what asking the file
/// system for the block size of `/` gave back (`None` when it could not
/// tell), and the default block size stands in where it could not.
pub fn gen_block_size(probed: Option<usize>) -> (block_size: usize)
    ensures
        block_size == spec_block_size_or_default(probed),
        probed matches Some(b) ==> block_size == b,
        probed is None ==> block_size == 4096,
{
    match probed {
        Some(b) => b,
        None => crate::config::default::BLOCK_SIZE,
    }
}

/// A probed block size is kept as it is, whatever its value; only where
/// probing gave nothing does the block size become 4096.
pub proof fn lemma_block_size_choice(b: usize)
    ensures
        spec_block_size_or_default(Some(b)) == b,
        spec_block_size_or_default(None) == 4096,
{
}

} // verus!
