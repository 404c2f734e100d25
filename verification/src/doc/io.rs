//! The block geometry of a document file: where a block-wise write or read
//! starts, and what bytes a write puts there. Opening, seeking, writing and
//! reading the file itself is left to the caller.
use vstd::prelude::*;

use crate::doc::prop::gen_block_size;
use crate::doc::prop::spec_block_size_or_default;
use crate::oxdbin::bigendian::push_bytes;
use crate::oxdbin::bigendian::push_zeros;

verus! {

/// Where in the file an access starts.
#[derive(Clone, Copy, PartialEq, Eq, Structural, Debug)]
pub enum SeekTo {
    /// At this byte offset from the start of the file.
    Start(u64),
    /// At the end of the file (an append).
    End,
}

/// The block geometry of a document: its block size.
pub struct BlockLayout {
    block_size: usize,
}

/// The number of blocks an access spans: the given count, or one block.
pub open spec fn spec_page_count(page_len: Option<usize>) -> nat {
    match page_len {
        Some(p) => p as nat,
        None => 1,
    }
}

/// The bytes a write puts in the file: the data, padded with zero bytes up
/// to `page_size` when it is shorter (never cut).
pub open spec fn spec_padded(data: Seq<u8>, page_size: nat) -> Seq<u8> {
    if data.len() < page_size {
        data + Seq::new((page_size - data.len()) as nat, |_i: int| 0u8)
    } else {
        data
    }
}

impl BlockLayout {
    /// The block size of the document.
    pub closed spec fn spec_block_size(&self) -> nat {
        self.block_size as nat
    }

    /// The geometry of a document whose file system reported `probed` as
    /// its block size (`None` when it could not tell): that block size, or
    /// the default one.
    pub fn new(probed: Option<usize>) -> (layout: Self)
        ensures
            layout.spec_block_size() == spec_block_size_or_default(probed),
            probed matches Some(b) ==> layout.spec_block_size() == b,
            probed is None ==> layout.spec_block_size() == 4096,
    {
        BlockLayout { block_size: gen_block_size(probed) }
    }

    /// The block size of the document.
    pub fn get_block_size(&self) -> (block_size: usize)
        ensures
            block_size == self.spec_block_size(),
    {
        self.block_size
    }

    /// What writing `data` at block `index` (the end of the file where there
    /// is none) over `page_len` blocks (one where there is none) does: where
    /// the write starts, and the bytes written, which are `data` padded with
    /// zeros to `page_len` blocks where it is shorter.
    pub fn write_plan(&self, data: &[u8], index: Option<usize>, page_len: Option<usize>) -> (plan: (
        SeekTo,
        Vec<u8>,
    ))
        requires
            spec_page_count(page_len) * self.spec_block_size() <= usize::MAX,
            index matches Some(i) ==> i * self.spec_block_size() <= usize::MAX,
        ensures
            plan.0 == match index {
                Some(i) => SeekTo::Start((i * self.spec_block_size()) as u64),
                None => SeekTo::End,
            },
            plan.1@ == spec_padded(data@, spec_page_count(page_len) * self.spec_block_size()),
            plan.1@.len() == if data@.len() < spec_page_count(page_len) * self.spec_block_size() {
                spec_page_count(page_len) * self.spec_block_size()
            } else {
                data@.len()
            },
            plan.1@.subrange(0, data@.len() as int) == data@,
            forall|k: int| data@.len() <= k < plan.1@.len() ==> #[trigger] plan.1@[k] == 0u8,
    {
        let p_len = match page_len {
            Some(value) => value,
            None => 1,
        };
        let page_size = p_len * self.block_size;
        let mut padded_data: Vec<u8> = Vec::new();
        push_bytes(&mut padded_data, data);
        if padded_data.len() < page_size {
            let missing = page_size - padded_data.len();
            push_zeros(&mut padded_data, missing);
        }
        let seek = match index {
            Some(idx) => SeekTo::Start((idx * self.block_size) as u64),
            None => SeekTo::End,
        };
        proof {
            assert(padded_data@.subrange(0, data@.len() as int) =~= data@);
        }
        (seek, padded_data)
    }

    /// What reading block `index` (the first block where there is none) over
    /// `page_len` blocks (one where there is none) does: where the read
    /// starts, and how many bytes it reads.
    pub fn read_plan(&self, index: Option<usize>, page_len: Option<usize>) -> (plan: (SeekTo, usize))
        requires
            spec_page_count(page_len) * self.spec_block_size() <= usize::MAX,
            index matches Some(i) ==> i * self.spec_block_size() <= usize::MAX,
        ensures
            plan.0 == SeekTo::Start(
                match index {
                    Some(i) => (i * self.spec_block_size()) as u64,
                    None => 0u64,
                },
            ),
            plan.1 == spec_page_count(page_len) * self.spec_block_size(),
    {
        let block_size = self.block_size;
        let p_len = match page_len {
            Some(value) => value,
            None => 1,
        };
        let page_size = p_len * self.block_size;
        let seek = match index {
            Some(idx) => SeekTo::Start((idx * block_size) as u64),
            None => SeekTo::Start(0),
        };
        (seek, page_size)
    }
}

/// Reading back a block-wise write: a read at the same block index over the
/// same number of blocks starts where the write started and reads exactly
/// the written bytes when the data was no longer than those blocks: the
/// data, then zero bytes.
pub proof fn lemma_read_of_write(
    layout: BlockLayout,
    data: Seq<u8>,
    index: usize,
    page_len: Option<usize>,
)
    requires
        spec_page_count(page_len) * layout.spec_block_size() <= usize::MAX,
        index * layout.spec_block_size() <= usize::MAX,
        data.len() <= spec_page_count(page_len) * layout.spec_block_size(),
    ensures
        ({
            let page_size = spec_page_count(page_len) * layout.spec_block_size();
            let written = spec_padded(data, page_size);
            &&& written.len() == page_size
            &&& written.subrange(0, data.len() as int) == data
            &&& forall|k: int| data.len() <= k < page_size ==> #[trigger] written[k] == 0u8
        }),
{
    let page_size = spec_page_count(page_len) * layout.spec_block_size();
    let written = spec_padded(data, page_size);
    assert(written.subrange(0, data.len() as int) =~= data);
}

} // verus!
