//! Block devices: whole 512-byte blocks, read and written by number.
use vstd::prelude::*;

verus! {

/// Number of bytes in one block, the unit of all device I/O.
pub const BLOCK_SIZE: usize = 512;

/// Is every block of `blocks` exactly one block long?
pub open spec fn spec_valid_blocks(blocks: Seq<Seq<u8>>) -> bool {
    forall|b: int| 0 <= b < blocks.len() ==> (#[trigger] blocks[b]).len() == BLOCK_SIZE
}

/// A store of numbered 512-byte blocks.
///
/// An implementation promises that a read returns what was last written to
/// the same block, and that a write changes no other block. There is no
/// partial I/O.
pub trait BlockDevice {
    /// What the device holds, block by block. A device that does not say
    /// what it holds has no blocks as far as proofs go.
    open spec fn blocks(&self) -> Seq<Seq<u8>> {
        Seq::empty()
    }

    /// Copies block `block_id` into `buf`.
    fn read_block(&self, block_id: usize, buf: &mut [u8])
        requires
            spec_valid_blocks(self.blocks()),
            block_id < self.blocks().len(),
            old(buf)@.len() == BLOCK_SIZE,
        ensures
            final(buf)@ == self.blocks()[block_id as int],
    ;

    /// Replaces block `block_id` by `buf`.
    fn write_block(&mut self, block_id: usize, buf: &[u8])
        requires
            spec_valid_blocks(old(self).blocks()),
            block_id < old(self).blocks().len(),
            buf@.len() == BLOCK_SIZE,
        ensures
            final(self).blocks() == old(self).blocks().update(block_id as int, buf@),
    ;
}

/// A block device kept in memory.
pub struct RamDisk {
    data: Vec<Vec<u8>>,
}

impl RamDisk {
    /// A disk of `num_blocks` blocks, all zero.
    pub fn new(num_blocks: usize) -> (disk: Self)
        ensures
            disk.blocks().len() == num_blocks,
            forall|b: int, i: int|
                0 <= b < num_blocks && 0 <= i < BLOCK_SIZE ==> disk.blocks()[b][i] == 0,
            spec_valid_blocks(disk.blocks()),
    {
        let mut data: Vec<Vec<u8>> = Vec::new();
        let mut b: usize = 0;
        while b < num_blocks
            invariant
                b <= num_blocks,
                data.len() == b,
                forall|k: int| 0 <= k < b ==> (#[trigger] data[k]).len() == BLOCK_SIZE,
                forall|k: int, i: int| 0 <= k < b && 0 <= i < BLOCK_SIZE ==> data[k][i] == 0,
            decreases num_blocks - b,
        {
            let block: Vec<u8> = vec![0u8; 512];
            data.push(block);
            b += 1;
        }
        RamDisk { data }
    }

    /// Number of blocks on the disk.
    pub fn num_blocks(&self) -> (n: usize)
        ensures
            n == self.blocks().len(),
    {
        self.data.len()
    }
}

impl BlockDevice for RamDisk {
    closed spec fn blocks(&self) -> Seq<Seq<u8>> {
        Seq::new(self.data.len() as nat, |b: int| self.data[b]@)
    }

    fn read_block(&self, block_id: usize, buf: &mut [u8]) {
        assert(self.blocks()[block_id as int].len() == BLOCK_SIZE);
        let mut i: usize = 0;
        while i < BLOCK_SIZE
            invariant
                i <= BLOCK_SIZE,
                block_id < self.data.len(),
                self.data[block_id as int].len() == BLOCK_SIZE,
                buf@.len() == BLOCK_SIZE,
                forall|k: int| 0 <= k < i ==> buf@[k] == self.data[block_id as int][k],
            decreases BLOCK_SIZE - i,
        {
            buf[i] = self.data[block_id][i];
            i += 1;
        }
        assert(buf@ =~= self.blocks()[block_id as int]);
    }

    fn write_block(&mut self, block_id: usize, buf: &[u8]) {
        assert(self.blocks()[block_id as int].len() == BLOCK_SIZE);
        let mut i: usize = 0;
        while i < BLOCK_SIZE
            invariant
                i <= BLOCK_SIZE,
                block_id < self.data.len(),
                self.data.len() == old(self).data.len(),
                self.data[block_id as int].len() == BLOCK_SIZE,
                buf@.len() == BLOCK_SIZE,
                forall|k: int| 0 <= k < i ==> self.data[block_id as int][k] == buf@[k],
                forall|b: int|
                    0 <= b < self.data.len() && b != block_id ==> self.data[b] == old(self).data[b],
            decreases BLOCK_SIZE - i,
        {
            self.data[block_id][i] = buf[i];
            i += 1;
        }
        assert(self.data[block_id as int]@ =~= buf@);
        assert(self.blocks() =~= old(self).blocks().update(block_id as int, buf@));
    }
}

} // verus!
