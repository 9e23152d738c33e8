use vstd::prelude::*;
use crate::block::{BlockDevice, disk_of, healthy};
use crate::bytes::{slice_of, put_bytes, copy_of};
use crate::fat32::{Fat32, DirEntry, DirInfo, max_chain, truncated};

verus! {

/// Whether a node is a file or a directory.
#[derive(Clone, Copy, PartialEq, Eq, Structural)]
pub enum NodeType {
    File,
    Directory,
}

/// What a node tells about itself: name, size and kind.
pub struct VfsMetadata {
    pub name: Vec<u8>,
    pub size: u32,
    pub node_type: NodeType,
}

/// A mounted FAT32 volume: its geometry and its device.
pub struct Fat32FileSystem<D: BlockDevice> {
    pub fat: Fat32,
    pub dev: D,
}

/// A file or directory of a file system, read and written through the file system `fs`.
pub trait INode<D: BlockDevice> {
    /// Copies the node's content from `offset` on into `buf`, as much as fits; returns how
    /// many bytes were copied.
    fn read(&self, fs: &mut Fat32FileSystem<D>, offset: usize, buf: &mut Vec<u8>) -> (r: Result<usize, &'static str>)
        requires
            old(fs).fat.wf(),
        ensures
            final(fs).fat == old(fs).fat,
            final(buf)@.len() == old(buf)@.len(),
            r matches Ok(n) ==> n <= old(buf)@.len(),
            self.read_done(*old(fs), offset, old(buf)@, *final(fs), final(buf)@, r),
    ;

    /// What a read of the node at `offset` does, as the node type states it: from the file
    /// system `fs` and buffer `buf` to `fs2` and `buf2`, answering `r`.
    spec fn read_done(&self, fs: Fat32FileSystem<D>, offset: usize, buf: Seq<u8>, fs2: Fat32FileSystem<D>, buf2: Seq<u8>, r: Result<usize, &'static str>) -> bool;

    /// What a write of `data` at `offset` does, as the node type states it: the node becomes
    /// `after`, the file system goes from `fs` to `fs2`, and the answer is `r`.
    spec fn write_done(&self, after: &Self, fs: Fat32FileSystem<D>, offset: usize, data: Seq<u8>, fs2: Fat32FileSystem<D>, r: Result<usize, &'static str>) -> bool;

    /// Writes `buf` into the node's content at `offset`; returns how many bytes were written.
    fn write(&mut self, fs: &mut Fat32FileSystem<D>, offset: usize, buf: &[u8]) -> (r: Result<usize, &'static str>)
        requires
            old(fs).fat.wf(),
            offset + buf@.len() <= usize::MAX - 0x100_0000,
        ensures
            final(fs).fat == old(fs).fat,
            r matches Ok(n) ==> n == buf@.len(),
            old(self).write_done(final(self), *old(fs), offset, buf@, *final(fs), r),
    ;

    /// Whether `r` is an answer the node may give when asked for its metadata, as the node
    /// type states it.
    spec fn meta_is(&self, r: Result<VfsMetadata, &'static str>) -> bool;

    /// The node's name, size and kind.
    fn metadata(&self) -> (r: Result<VfsMetadata, &'static str>)
        ensures
            self.meta_is(r),
    ;
}

/// A file system: its root node and its name.
pub trait FileSystem<D: BlockDevice> {
    /// The kind of node it hands out.
    type Node: INode<D>;

    /// The root directory.
    fn root_node(&self) -> (r: Result<Self::Node, &'static str>);

    /// The file system's name.
    fn name(&self) -> (r: &'static str);
}

/// A node of a FAT32 volume: the directory entry that describes it.
pub struct Fat32Node {
    pub entry: DirEntry,
}

/// A copy of a byte string's entry.
fn copy_entry(e: &DirEntry) -> (r: DirEntry)
    ensures
        r@ == e@,
{
    DirEntry {
        name: copy_of(e.name.as_slice()),
        is_dir: e.is_dir,
        size: e.size,
        first_cluster: e.first_cluster,
        parent_cluster: e.parent_cluster,
    }
}

impl Fat32Node {
    /// The content of the file `e` on `fat`: its chain cut to its size.
    pub open spec fn content(fat: Fat32, disk: crate::block::Disk, e: DirInfo) -> Option<Seq<u8>> {
        match fat.chain(disk, e.first_cluster, max_chain()) {
            Some(cs) => Some(truncated(fat.chain_data(disk, cs), e.size as int)),
            None => None,
        }
    }

    /// Reads the file from `offset` on (see `INode::read`): a directory cannot be read; past
    /// the end nothing is copied.
    pub fn read_at<D: BlockDevice>(&self, fs: &mut Fat32FileSystem<D>, offset: usize, buf: &mut Vec<u8>) -> (r: Result<usize, &'static str>)
        requires
            old(fs).fat.wf(),
        ensures
            final(fs).fat == old(fs).fat,
            disk_of(&final(fs).dev) == disk_of(&old(fs).dev),
            final(buf)@.len() == old(buf)@.len(),
            self.entry.is_dir ==> r is Err,
            r matches Ok(n) ==> {
                &&& Self::content(old(fs).fat, disk_of(&old(fs).dev), self.entry@) matches Some(data)
                &&& n == (if offset >= data.len() { 0 } else if data.len() - offset < old(buf)@.len() {
                    data.len() - offset
                } else {
                    old(buf)@.len() as int
                })
                &&& final(buf)@ == (if n == 0 {
                    old(buf)@
                } else {
                    crate::bytes::splice(old(buf)@, 0, data.subrange(offset as int, offset + n))
                })
            },
            healthy(&old(fs).dev, old(fs).fat.bytes_per_sector as int) ==> healthy(&final(fs).dev, old(fs).fat.bytes_per_sector as int),
            healthy(&old(fs).dev, old(fs).fat.bytes_per_sector as int) && !self.entry.is_dir
                && Self::content(old(fs).fat, disk_of(&old(fs).dev), self.entry@) is Some ==> r is Ok,
    {
        if self.entry.is_dir {
            return Err("Bu bir dizin, dosya olarak okunamadi");
        }
        let full = fs.fat.read_file(&mut fs.dev, &self.entry)?;
        if offset >= full.len() {
            return Ok(0);
        }
        let end = if full.len() - offset < buf.len() { full.len() } else { offset + buf.len() };
        let len = end - offset;
        let piece = slice_of(full.as_slice(), offset, end);
        put_bytes(buf, 0, piece.as_slice());
        Ok(len)
    }
}

impl Fat32Node {
    /// The entry's name, size and kind.
    pub fn meta(&self) -> (m: VfsMetadata)
        ensures
            m.name@ == self.entry.name@,
            m.size == self.entry.size,
            (m.node_type == NodeType::Directory) == self.entry.is_dir,
    {
        VfsMetadata {
            name: copy_of(self.entry.name.as_slice()),
            size: self.entry.size,
            node_type: if self.entry.is_dir { NodeType::Directory } else { NodeType::File },
        }
    }
}

impl<D: BlockDevice> INode<D> for Fat32Node {
    open spec fn meta_is(&self, r: Result<VfsMetadata, &'static str>) -> bool {
        r matches Ok(m) && m.name@ == self.entry.name@ && m.size == self.entry.size && (m.node_type
            == NodeType::Directory) == self.entry.is_dir
    }

    open spec fn read_done(&self, fs: Fat32FileSystem<D>, offset: usize, buf: Seq<u8>, fs2: Fat32FileSystem<D>, buf2: Seq<u8>, r: Result<usize, &'static str>) -> bool {
        &&& disk_of(&fs2.dev) == disk_of(&fs.dev)
        &&& self.entry.is_dir ==> r is Err
        &&& r matches Ok(n) ==> {
            &&& Self::content(fs.fat, disk_of(&fs.dev), self.entry@) matches Some(data)
            &&& n == (if offset >= data.len() {
                0
            } else if data.len() - offset < buf.len() {
                data.len() - offset
            } else {
                buf.len() as int
            })
            &&& buf2 == (if n == 0 { buf } else { crate::bytes::splice(buf, 0, data.subrange(offset as int, offset + n)) })
        }
        &&& healthy(&fs.dev, fs.fat.bytes_per_sector as int) ==> healthy(&fs2.dev, fs.fat.bytes_per_sector as int)
        &&& healthy(&fs.dev, fs.fat.bytes_per_sector as int) && !self.entry.is_dir
            && Self::content(fs.fat, disk_of(&fs.dev), self.entry@) is Some ==> r is Ok
    }

    open spec fn write_done(&self, after: &Self, fs: Fat32FileSystem<D>, offset: usize, data: Seq<u8>, fs2: Fat32FileSystem<D>, r: Result<usize, &'static str>) -> bool {
        &&& self.entry.is_dir ==> r is Err
        &&& r is Ok ==> after.entry.name@ == self.entry.name@ && !after.entry.is_dir
            && after.entry.parent_cluster == self.entry.parent_cluster && {
            let prior = Self::content(fs.fat, disk_of(&fs.dev), self.entry@).unwrap_or(Seq::empty()).len();
            let grown = offset + data.len();
            ||| after.entry.size == (if grown > prior { grown } else { prior as int }) as u32
            ||| after.entry.size == grown as u32
        }
        &&& healthy(&fs.dev, fs.fat.bytes_per_sector as int) ==> healthy(&fs2.dev, fs.fat.bytes_per_sector as int)
        &&& healthy(&fs.dev, fs.fat.bytes_per_sector as int) && !self.entry.is_dir && r is Err ==> (exists|mid: crate::block::Disk|
            #[trigger] fs.fat.write_blocked(mid, fs.fat.parent_of(self.entry@), self.entry.name@))
            || (Self::content(fs.fat, disk_of(&fs.dev), self.entry@) matches Some(d) && d.len() > usize::MAX - 0x100_0000)
    }

    fn read(&self, fs: &mut Fat32FileSystem<D>, offset: usize, buf: &mut Vec<u8>) -> (r: Result<usize, &'static str>)
        ensures
            disk_of(&final(fs).dev) == disk_of(&old(fs).dev),
            self.entry.is_dir ==> r is Err,
            r matches Ok(n) ==> {
                &&& Self::content(old(fs).fat, disk_of(&old(fs).dev), self.entry@) matches Some(data)
                &&& n == (if offset >= data.len() { 0 } else if data.len() - offset < old(buf)@.len() {
                    data.len() - offset
                } else {
                    old(buf)@.len() as int
                })
                &&& final(buf)@ == (if n == 0 {
                    old(buf)@
                } else {
                    crate::bytes::splice(old(buf)@, 0, data.subrange(offset as int, offset + n))
                })
            },
            healthy(&old(fs).dev, old(fs).fat.bytes_per_sector as int) ==> healthy(&final(fs).dev, old(fs).fat.bytes_per_sector as int),
            healthy(&old(fs).dev, old(fs).fat.bytes_per_sector as int) && !self.entry.is_dir
                && Self::content(old(fs).fat, disk_of(&old(fs).dev), self.entry@) is Some ==> r is Ok,
            self.read_done(*old(fs), offset, old(buf)@, *final(fs), final(buf)@, r),
    {
        self.read_at(fs, offset, buf)
    }

    fn write(&mut self, fs: &mut Fat32FileSystem<D>, offset: usize, buf: &[u8]) -> (r: Result<usize, &'static str>)
        ensures
            old(self).entry.is_dir ==> r is Err,
            r is Ok ==> final(self).entry.name@ == old(self).entry.name@ && !final(self).entry.is_dir
                && final(self).entry.parent_cluster == old(self).entry.parent_cluster && {
                let prior = Self::content(old(fs).fat, disk_of(&old(fs).dev), old(self).entry@).unwrap_or(
                    Seq::empty(),
                ).len();
                let grown = offset + buf@.len();
                ||| final(self).entry.size == (if grown > prior { grown } else { prior as int }) as u32
                ||| final(self).entry.size == grown as u32
            },
            healthy(&old(fs).dev, old(fs).fat.bytes_per_sector as int) ==> healthy(&final(fs).dev, old(fs).fat.bytes_per_sector as int),
            healthy(&old(fs).dev, old(fs).fat.bytes_per_sector as int) && !old(self).entry.is_dir && r is Err ==> (exists|mid: crate::block::Disk|
                #[trigger] old(fs).fat.write_blocked(mid, old(fs).fat.parent_of(old(self).entry@), old(self).entry.name@))
                || (Self::content(old(fs).fat, disk_of(&old(fs).dev), old(self).entry@) matches Some(d) && d.len() > usize::MAX - 0x100_0000),
            old(self).write_done(final(self), *old(fs), offset, buf@, *final(fs), r),
    {
        if self.entry.is_dir {
            return Err("Dizine dosya gibi yazilamaz");
        }
        let mut entry = copy_entry(&self.entry);
        let mut full = match fs.fat.read_file(&mut fs.dev, &entry) {
            Ok(d) => d,
            Err(_) => Vec::new(),
        };
        if full.len() > usize::MAX - 0x100_0000 {
            return Err("file too large");
        }
        if offset + buf.len() > full.len() {
            let mut k = full.len();
            while k < offset + buf.len()
                invariant
                    full@.len() == k,
                    k <= offset + buf@.len(),
                    offset + buf@.len() <= usize::MAX - 0x100_0000,
                decreases offset + buf@.len() - k,
            {
                full.push(0);
                k = k + 1;
            }
        }
        put_bytes(&mut full, offset, buf);
        fs.fat.write_file(&mut fs.dev, &mut entry, full.as_slice())?;
        self.entry = entry;
        Ok(buf.len())
    }

    fn metadata(&self) -> (r: Result<VfsMetadata, &'static str>) {
        Ok(self.meta())
    }
}

impl<D: BlockDevice> FileSystem<D> for Fat32FileSystem<D> {
    type Node = Fat32Node;

    fn root_node(&self) -> (r: Result<Fat32Node, &'static str>)
        ensures
            r matches Ok(n) ==> n.entry.name@ == seq![47u8] && n.entry.is_dir && n.entry.size == 0
                && n.entry.first_cluster == self.fat.root_cluster && n.entry.parent_cluster == 0,
            r is Ok,
    {
        let mut name: Vec<u8> = Vec::new();
        name.push(47);
        Ok(
            Fat32Node {
                entry: DirEntry {
                    name,
                    is_dir: true,
                    size: 0,
                    first_cluster: self.fat.root_cluster,
                    parent_cluster: 0,
                },
            },
        )
    }

    fn name(&self) -> (r: &'static str) {
        "FAT32"
    }
}

} // verus!
