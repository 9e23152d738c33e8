use vstd::prelude::*;
use std::collections::HashMap;
use crate::block::BlockDevice;
use crate::bytes::{copy_of, zeroes};

verus! {

broadcast use vstd::std_specs::hash::group_hash_axioms;

/// A disk of `count` blocks of 512 bytes held in memory: the blocks written so far, by
/// number; a block never written reads as zeros.
pub struct MemDisk {
    pub blocks: HashMap<u64, Vec<u8>>,
    pub count: u64,
}

impl MemDisk {
    /// The bytes block `lba` holds: what was last written to it, zeros when nothing was.
    pub open spec fn block_spec(&self, lba: u64) -> Seq<u8> {
        if self.blocks@.contains_key(lba) {
            self.blocks@[lba]@
        } else {
            Seq::new(512, |i: int| 0u8)
        }
    }

    /// A disk of `count` zeroed blocks.
    pub fn new(count: u64) -> (r: MemDisk)
        ensures
            r.count == count,
            forall|l: u64| #[trigger] r.block_spec(l) == Seq::new(512, |i: int| 0u8),
    {
        MemDisk { blocks: HashMap::new(), count }
    }

    /// A copy of block `lba`.
    pub fn block(&self, lba: u64) -> (r: Vec<u8>)
        ensures
            r@ == self.block_spec(lba),
    {
        assert(vstd::std_specs::hash::obeys_key_model::<u64>());
        match self.blocks.get(&lba) {
            Some(b) => copy_of(b.as_slice()),
            None => {
                let z = zeroes(512);
                assert(z@ =~= Seq::new(512, |i: int| 0u8));
                z
            },
        }
    }
}

impl BlockDevice for MemDisk {
    /// A block inside the disk holds what `block_spec` says; one past its end nothing.
    open spec fn sector(&self, lba: u64) -> Seq<u8> {
        if lba < self.count { self.block_spec(lba) } else { Seq::empty() }
    }

    /// Every block inside the disk is served.
    open spec fn serves(&self, lba: u64) -> bool {
        lba < self.count
    }

    /// Blocks are 512 bytes.
    open spec fn reported_size(&self) -> Option<u32> {
        Some(512u32)
    }

    fn read_block(&mut self, lba: u64, buf: &mut Vec<u8>) -> (r: Result<(), &'static str>) {
        if lba >= self.count {
            return Err("block out of range");
        }
        let b = self.block(lba);
        if b.len() != buf.len() {
            return Err("buffer is not one block long");
        }
        let n = buf.len();
        let mut i: usize = 0;
        while i < n
            invariant
                n == buf@.len(),
                n == b@.len(),
                i <= n,
                forall|k: int| 0 <= k < i ==> buf@[k] == b@[k],
            decreases n - i,
        {
            buf.set(i, b[i]);
            i = i + 1;
        }
        assert(buf@ =~= b@);
        Ok(())
    }

    fn write_block(&mut self, lba: u64, buf: &[u8]) -> (r: Result<(), &'static str>) {
        if lba >= self.count {
            return Err("block out of range");
        }
        let v = copy_of(buf);
        self.blocks.insert(lba, v);
        Ok(())
    }

    fn block_size(&self) -> (r: u32) {
        512
    }
}

} // verus!
