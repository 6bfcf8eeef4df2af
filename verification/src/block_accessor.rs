//! The storage-transport abstraction the rest of the stack depends on: a
//! synchronous device presenting fixed 512-byte blocks, plus an in-memory
//! implementation backed by a flat byte image.

use vstd::prelude::*;

verus! {

/// Failure modes of `write_block`: addressing a block outside the device,
/// or any other failure of the transport.
#[derive(Debug, PartialEq, Eq, Structural, Clone, Copy)]
pub enum BlockAccessError {
    BlockOutOfRange,
    MiscError,
}

/// A synchronous block device with 512-byte granularity.
///
/// `spec_blocks` is the device's abstract content: the byte sequence of each
/// addressable block, in address order, each 512 bytes long. Reading never
/// changes the content; a successful write replaces exactly the addressed
/// block.
pub trait BlockAccessor: Sized {
    /// The current content of every addressable block. A transport that
    /// does not state its content — one whose blocks live outside the
    /// program, such as a physical card — leaves the default, the empty
    /// model, of which the contracts below promise nothing.
    open spec fn spec_blocks(&self) -> Seq<Seq<u8>> {
        Seq::empty()
    }

    /// The block size of this device; fixed at 512 bytes for this stack.
    fn block_size(&self) -> (r: u64)
        ensures
            r == 512,
    ;

    /// Fills `block` completely with the content of block `block_num`, or
    /// blocks the caller until it can. The buffer length must equal the block
    /// size; it is never partially populated. Reading an address outside the
    /// device yields unspecified bytes, still 512 of them.
    fn read_block(&mut self, block_num: u64, block: &mut Vec<u8>)
        requires
            old(block)@.len() == 512,
        ensures
            final(self).spec_blocks() == old(self).spec_blocks(),
            final(block)@.len() == 512,
            block_num < old(self).spec_blocks().len() ==> final(block)@ == old(
                self,
            ).spec_blocks()[block_num as int],
    ;

    /// Writes one 512-byte block. On success exactly the addressed block is
    /// replaced; on failure the device content is unchanged.
    fn write_block(&mut self, block_num: u64, block: &[u8]) -> (r: Result<(), BlockAccessError>)
        requires
            block@.len() == 512,
        ensures
            match r {
                Ok(()) => block_num < old(self).spec_blocks().len() && final(self).spec_blocks()
                    == old(self).spec_blocks().update(block_num as int, block@),
                Err(_) => final(self).spec_blocks() == old(self).spec_blocks(),
            },
    ;
}

/// The blocks denoted by a flat byte image: one 512-byte slice per complete
/// block, trailing partial bytes ignored.
pub open spec fn spec_image_blocks(data: Seq<u8>) -> Seq<Seq<u8>> {
    Seq::new((data.len() / 512) as nat, |i: int| data.subrange(512 * i, 512 * i + 512))
}

/// A block device held entirely in memory, backed by a flat image of the
/// disk. It serves as a transport stand-in wherever no physical card is
/// present; any bytes past the last complete 512-byte boundary are ignored.
pub struct MemoryBlockAccessor {
    data: Vec<u8>,
}

impl MemoryBlockAccessor {
    /// Wraps a flat disk image.
    pub fn new(data: Vec<u8>) -> (r: Self)
        ensures
            r.spec_blocks() == spec_image_blocks(data@),
    {
        MemoryBlockAccessor { data }
    }
}

impl BlockAccessor for MemoryBlockAccessor {
    closed spec fn spec_blocks(&self) -> Seq<Seq<u8>> {
        spec_image_blocks(self.data@)
    }

    fn block_size(&self) -> (r: u64) {
        512
    }

    fn read_block(&mut self, block_num: u64, block: &mut Vec<u8>) {
        let num_blocks = (self.data.len() as u64) / 512;
        if block_num < num_blocks {
            let start: usize = (block_num as usize) * 512;
            let mut i: usize = 0;
            while i < 512
                invariant
                    0 <= i <= 512,
                    block@.len() == 512,
                    start == 512 * block_num,
                    start + 512 <= self.data@.len(),
                    forall|j: int| 0 <= j < i ==> block@[j] == self.data@[start + j],
                    self == old(self),
                decreases 512 - i,
            {
                let b = self.data[start + i];
                block[i] = b;
                i = i + 1;
            }
            proof {
                assert(final(block)@ =~= self.spec_blocks()[block_num as int]);
            }
        }
    }

    fn write_block(&mut self, _block_num: u64, _block: &[u8]) -> (r: Result<
        (),
        BlockAccessError,
    >) {
        Err(BlockAccessError::MiscError)
    }
}

} // verus!
