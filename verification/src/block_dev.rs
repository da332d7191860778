//! The device boundary: a capability to read and write one fixed-size block
//! synchronously, plus an in-memory reference device used as an emulated
//! disk image.
use vstd::prelude::*;

use crate::BLOCK_SIZE;

verus! {

/// A block of `BLOCK_SIZE` zero bytes: the content of a freshly created or
/// freshly cleared block.
pub open spec fn zero_block() -> Seq<u8> {
    Seq::new(BLOCK_SIZE as nat, |i: int| 0u8)
}

/// A synchronous device of fixed-size blocks. This is the only capability
/// the core requires from its environment; retry and backoff are the
/// device's concern, so both operations always succeed.
pub trait BlockDevice: Sized {
    /// The current content of every block on the device.
    spec fn blocks(&self) -> Seq<Seq<u8>>;

    /// The device keeps every block exactly `BLOCK_SIZE` bytes long.
    spec fn device_wf(&self) -> bool;

    /// A well-formed device holds only `BLOCK_SIZE`-byte blocks.
    proof fn lemma_device_wf(&self)
        requires
            self.device_wf(),
        ensures
            forall|i: int|
                0 <= i < self.blocks().len() ==> (#[trigger] self.blocks()[i]).len()
                    == BLOCK_SIZE,
    ;

    /// How many blocks the device holds.
    fn num_blocks(&self) -> (n: usize)
        ensures
            n == self.blocks().len(),
    ;

    /// Fill `buf` with the content of block `block_id`.
    fn read_block(&self, block_id: usize, buf: &mut Vec<u8>)
        requires
            self.device_wf(),
            block_id < self.blocks().len(),
        ensures
            final(buf)@ == self.blocks()[block_id as int],
    ;

    /// Persist `buf` as the new content of block `block_id`.
    fn write_block(&mut self, block_id: usize, buf: &Vec<u8>)
        requires
            old(self).device_wf(),
            block_id < old(self).blocks().len(),
            buf@.len() == BLOCK_SIZE,
        ensures
            final(self).device_wf(),
            final(self).blocks() == old(self).blocks().update(block_id as int, buf@),
    ;
}

/// An in-memory block device: the reference implementation of
/// [`BlockDevice`], holding every block as a plain byte vector.
pub struct MemBlockDevice {
    data: Vec<Vec<u8>>,
}

impl MemBlockDevice {
    /// A device of `num_blocks` blocks, all zeroed.
    pub fn new(num_blocks: usize) -> (r: Self)
        ensures
            r.device_wf(),
            r.blocks().len() == num_blocks,
            forall|i: int| 0 <= i < num_blocks ==> #[trigger] r.blocks()[i] == zero_block(),
    {
        let mut data: Vec<Vec<u8>> = Vec::new();
        let mut i: usize = 0;
        while i < num_blocks
            invariant
                i <= num_blocks,
                data@.len() == i,
                forall|k: int| 0 <= k < i ==> (#[trigger] data@[k])@ == zero_block(),
            decreases num_blocks - i,
        {
            let mut block: Vec<u8> = Vec::new();
            let mut j: usize = 0;
            while j < BLOCK_SIZE
                invariant
                    j <= BLOCK_SIZE,
                    block@.len() == j,
                    forall|k: int| 0 <= k < j ==> block@[k] == 0u8,
                decreases BLOCK_SIZE - j,
            {
                block.push(0u8);
                j = j + 1;
            }
            proof {
                assert(block@ =~= zero_block());
            }
            data.push(block);
            i = i + 1;
        }
        let r = MemBlockDevice { data };
        proof {
            assert(forall|i: int|
                0 <= i < num_blocks ==> #[trigger] r.blocks()[i] == zero_block());
        }
        r
    }
}

impl BlockDevice for MemBlockDevice {
    closed spec fn blocks(&self) -> Seq<Seq<u8>> {
        Seq::new(self.data@.len(), |i: int| self.data@[i]@)
    }

    closed spec fn device_wf(&self) -> bool {
        forall|i: int| 0 <= i < self.data@.len() ==> (#[trigger] self.data@[i])@.len() == BLOCK_SIZE
    }

    proof fn lemma_device_wf(&self) {
    }

    fn num_blocks(&self) -> (n: usize) {
        self.data.len()
    }

    fn read_block(&self, block_id: usize, buf: &mut Vec<u8>) {
        buf.clear();
        let src = &self.data[block_id];
        let mut j: usize = 0;
        while j < src.len()
            invariant
                j <= src@.len(),
                buf@ == src@.subrange(0, j as int),
            decreases src@.len() - j,
        {
            buf.push(src[j]);
            j = j + 1;
        }
        proof {
            assert(buf@ =~= src@);
            assert(src@ =~= self.blocks()[block_id as int]);
        }
    }

    fn write_block(&mut self, block_id: usize, buf: &Vec<u8>) {
        let mut copy: Vec<u8> = Vec::new();
        let mut j: usize = 0;
        while j < buf.len()
            invariant
                j <= buf@.len(),
                copy@ == buf@.subrange(0, j as int),
            decreases buf@.len() - j,
        {
            copy.push(buf[j]);
            j = j + 1;
        }
        proof {
            assert(copy@ =~= buf@);
        }
        self.data[block_id] = copy;
        proof {
            assert(self.blocks() =~= old(self).blocks().update(block_id as int, buf@));
        }
    }
}

} // verus!
