//! Block devices: what the image is read from.
use crate::error::{failure, Error, ErrorKind};
use vstd::prelude::*;

verus! {

/// A source of fixed-size blocks. An implementation reads a file, a raw device
/// or memory; a read that succeeds hands out one whole block.
pub trait BlockDevice {
    fn read_block(&self, block: u64, block_size: u32) -> (r: Result<Vec<u8>, Error>)
        ensures
            r matches Ok(data) ==> data@.len() == block_size,
    ;
}

/// A device, with the numbers of the blocks that were read from it. Whoever holds it
/// can reach the device in no other way.
pub struct BlockReads<'a, D: BlockDevice> {
    dev: &'a D,
    blocks: Ghost<Seq<u64>>,
}

impl<'a, D: BlockDevice> View for BlockReads<'a, D> {
    type V = Seq<u64>;

    closed spec fn view(&self) -> Seq<u64> {
        self.blocks@
    }
}

impl<'a, D: BlockDevice> BlockReads<'a, D> {
    /// The device.
    pub closed spec fn dev(&self) -> &'a D {
        self.dev
    }

    /// A device from which nothing was read yet.
    pub fn new(dev: &'a D) -> (r: BlockReads<'a, D>)
        ensures
            r.dev() == dev,
            r@ == Seq::<u64>::empty(),
    {
        BlockReads { dev, blocks: Ghost(Seq::empty()) }
    }

    /// Reads one block.
    pub fn read_block(&mut self, block: u64, block_size: u32) -> (r: Result<Vec<u8>, Error>)
        ensures
            call_ensures(D::read_block, (old(self).dev(), block, block_size), r),
            r matches Ok(data) ==> data@.len() == block_size,
            final(self).dev() == old(self).dev(),
            final(self)@ == old(self)@.push(block),
    {
        let r = self.dev.read_block(block, block_size);
        self.blocks = Ghost(self.blocks@.push(block));
        r
    }
}

/// A device whose contents lie in memory.
pub struct MemDevice {
    pub data: Vec<u8>,
}

impl MemDevice {
    /// Where block `block` ends.
    pub open spec fn block_end(block: u64, block_size: u32) -> int {
        (block + 1) * block_size
    }
}

impl BlockDevice for MemDevice {
    fn read_block(&self, block: u64, block_size: u32) -> (r: Result<Vec<u8>, Error>)
        ensures
            match r {
                Ok(data) => MemDevice::block_end(block, block_size) <= self.data@.len() && data@
                    == self.data@.subrange(
                    block * block_size,
                    MemDevice::block_end(block, block_size),
                ),
                Err(error) => MemDevice::block_end(block, block_size) > self.data@.len() && error@
                    == failure(ErrorKind::Io, "read past the end of the device"@),
            },
    {
        let size: u128 = block_size as u128;
        proof {
            assert(0 <= block * block_size <= 0xffff_ffff_ffff_ffff * 0xffff_ffff)
                by (nonlinear_arith)
                requires
                    0 <= block <= 0xffff_ffff_ffff_ffff,
                    0 <= block_size <= 0xffff_ffff,
            ;
            assert((block + 1) * block_size == block * block_size + block_size)
                by (nonlinear_arith);
        }
        let start: u128 = block as u128 * size;
        let end: u128 = start + size;
        if end > self.data.len() as u128 {
            return Err(Error::fixed(ErrorKind::Io, "read past the end of the device"));
        }
        let first: usize = start as usize;
        let last: usize = end as usize;
        let mut out: Vec<u8> = Vec::new();
        let mut i: usize = first;
        while i < last
            invariant
                first <= i <= last <= self.data@.len(),
                out@ =~= self.data@.subrange(first as int, i as int),
            decreases last - i,
        {
            out.push(self.data[i]);
            i += 1;
        }
        Ok(out)
    }
}

} // verus!
