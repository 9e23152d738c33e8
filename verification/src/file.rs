use vstd::prelude::*;
use crate::block::BlockDevice;
use crate::vfs::{INode, Fat32FileSystem, VfsMetadata};

verus! {

/// Where a seek counts from.
#[derive(Clone, Copy, PartialEq, Eq, Structural)]
pub enum SeekFrom {
    Start(usize),
    Current(isize),
    End(isize),
}

/// An open file: its node, the current position, and what it was opened for.
pub struct File<N> {
    pub node: N,
    pub offset: usize,
    pub readable: bool,
    pub writable: bool,
}

/// The position a seek asks for, from the current position `offset` in a file of `size`
/// bytes (a start position is read as a signed number, as the machine does).
pub open spec fn seek_target(pos: SeekFrom, offset: usize, size: usize) -> int {
    match pos {
        SeekFrom::Start(n) => (n as isize) as int,
        SeekFrom::Current(n) => (offset as isize) as int + n,
        SeekFrom::End(n) => (size as isize) as int + n,
    }
}

/// What a seek to `pos` from `offset` answers, and the position it leaves, given the node's
/// metadata `meta`: the metadata's error, or a position within the node's size, or a refusal
/// of one before the start or past the end.
pub open spec fn seek_outcome(meta: Result<VfsMetadata, &'static str>, pos: SeekFrom, offset: usize) -> (Result<usize, &'static str>, usize) {
    match meta {
        Err(e) => (Err(e), offset),
        Ok(m) => {
            let t = seek_target(pos, offset, m.size as usize);
            if t < 0 || t > ((m.size as usize) as isize) as int {
                (Err("Invalid seek offset value"), offset)
            } else {
                (Ok(t as usize), t as usize)
            }
        },
    }
}

impl<N> File<N> {
    /// Opens `node` at position 0.
    pub fn new(node: N, readable: bool, writable: bool) -> (r: Self)
        ensures
            r.node == node,
            r.offset == 0,
            r.readable == readable,
            r.writable == writable,
    {
        File { node, offset: 0, readable, writable }
    }

    /// Reads from the current position into `buf` and moves past what was read. A file not
    /// opened for reading is refused.
    pub fn read<D: BlockDevice>(&mut self, fs: &mut Fat32FileSystem<D>, buf: &mut Vec<u8>) -> (r: Result<usize, &'static str>)
        where
            N: INode<D>,
        requires
            old(fs).fat.wf(),
            old(self).offset + old(buf)@.len() <= usize::MAX,
        ensures
            final(fs).fat == old(fs).fat,
            final(buf)@.len() == old(buf)@.len(),
            final(self).readable == old(self).readable,
            final(self).writable == old(self).writable,
            !old(self).readable ==> r == Err::<usize, &'static str>("You do not have permission to read the file")
                && final(self).offset == old(self).offset && final(buf)@ == old(buf)@ && *final(fs) == *old(fs),
            r matches Ok(n) ==> n <= old(buf)@.len() && final(self).offset == old(self).offset + n,
            r is Err ==> final(self).offset == old(self).offset,
            old(self).readable ==> old(self).node.read_done(*old(fs), old(self).offset, old(buf)@, *final(fs), final(buf)@, r),
            final(self).node == old(self).node,
    {
        if !self.readable {
            return Err("You do not have permission to read the file");
        }
        let res = self.node.read(fs, self.offset, buf);
        self.advance(res)
    }

    /// Passes on what the node answered to a read or a write, `res`, moving the position
    /// past the bytes it reports.
    pub fn advance(&mut self, res: Result<usize, &'static str>) -> (r: Result<usize, &'static str>)
        requires
            res matches Ok(n) ==> old(self).offset + n <= usize::MAX,
        ensures
            r == res,
            final(self).node == old(self).node,
            final(self).readable == old(self).readable,
            final(self).writable == old(self).writable,
            res matches Ok(n) ==> final(self).offset == old(self).offset + n,
            res is Err ==> final(self).offset == old(self).offset,
    {
        match res {
            Ok(n) => {
                self.offset = self.offset + n;
                Ok(n)
            },
            Err(e) => Err(e),
        }
    }

    /// Writes `buf` at the current position and moves past it. A file not opened for writing
    /// is refused.
    pub fn write<D: BlockDevice>(&mut self, fs: &mut Fat32FileSystem<D>, buf: &[u8]) -> (r: Result<usize, &'static str>)
        where
            N: INode<D>,
        requires
            old(fs).fat.wf(),
            old(self).offset + buf@.len() <= usize::MAX - 0x100_0000,
        ensures
            final(fs).fat == old(fs).fat,
            final(self).readable == old(self).readable,
            final(self).writable == old(self).writable,
            !old(self).writable ==> r == Err::<usize, &'static str>("You do not have permission to write the file.")
                && final(self).offset == old(self).offset && *final(fs) == *old(fs) && final(self).node == old(self).node,
            r matches Ok(n) ==> n == buf@.len() && final(self).offset == old(self).offset + n,
            r is Err ==> final(self).offset == old(self).offset,
            old(self).writable ==> old(self).node.write_done(&final(self).node, *old(fs), old(self).offset, buf@, *final(fs), r),
    {
        if !self.writable {
            return Err("You do not have permission to write the file.");
        }
        let res = self.node.write(fs, self.offset, buf);
        self.advance(res)
    }

    /// Moves to the position `pos` asks for (see `seek_target`), given the node's metadata
    /// `meta`; a position before the start or past the end is refused.
    pub fn seek_in(&mut self, meta: Result<VfsMetadata, &'static str>, pos: SeekFrom) -> (r: Result<usize, &'static str>)
        requires
            meta matches Ok(m) ==> (match pos {
                SeekFrom::Current(n) => isize::MIN <= (old(self).offset as isize) as int + n <= isize::MAX,
                SeekFrom::End(n) => isize::MIN <= ((m.size as usize) as isize) as int + n <= isize::MAX,
                _ => true,
            }),
        ensures
            meta matches Err(e) ==> r == Err::<usize, &'static str>(e) && final(self).offset == old(self).offset,
            meta matches Ok(m) ==> {
                let t = seek_target(pos, old(self).offset, m.size as usize);
                let top = ((m.size as usize) as isize) as int;
                &&& (t < 0 || t > top) ==> r == Err::<usize, &'static str>("Invalid seek offset value")
                    && final(self).offset == old(self).offset
                &&& (0 <= t <= top) ==> r == Ok::<usize, &'static str>(t as usize) && final(self).offset == t
            },
            (r, final(self).offset) == seek_outcome(meta, pos, old(self).offset),
            final(self).readable == old(self).readable,
            final(self).writable == old(self).writable,
    {
        let m = meta?;
        let file_size = m.size as usize;
        let new_offset: isize = match pos {
            SeekFrom::Start(n) => n as isize,
            SeekFrom::Current(n) => self.offset as isize + n,
            SeekFrom::End(n) => file_size as isize + n,
        };
        if new_offset < 0 || new_offset > file_size as isize {
            return Err("Invalid seek offset value");
        }
        self.offset = new_offset as usize;
        Ok(self.offset)
    }

    /// Moves to the position `pos` asks for, within the node's size (see `seek_in`).
    pub fn seek<D: BlockDevice>(&mut self, pos: SeekFrom) -> (r: Result<usize, &'static str>)
        where
            N: INode<D>,
        requires
            match pos {
                SeekFrom::Current(n) => isize::MIN <= (old(self).offset as isize) as int + n <= isize::MAX,
                SeekFrom::End(n) => isize::MIN + 0x1_0000_0000 <= n <= isize::MAX - 0x1_0000_0000,
                _ => true,
            },
        ensures
            final(self).readable == old(self).readable,
            final(self).writable == old(self).writable,
            r is Err ==> final(self).offset == old(self).offset,
            r matches Ok(o) ==> final(self).offset == o,
            exists|meta: Result<VfsMetadata, &'static str>|
                old(self).node.meta_is(meta) && (r, final(self).offset) == #[trigger] seek_outcome(
                    meta,
                    pos,
                    old(self).offset,
                ),
    {
        let meta = self.node.metadata();
        let r = self.seek_in(meta, pos);
        assert((r, self.offset) == seek_outcome(meta, pos, old(self).offset));
        r
    }
}

} // verus!
