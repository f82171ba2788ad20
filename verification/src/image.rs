//! What the library needs of an opened image, and the plain values it reads from
//! one.
//!
//! Walking B-trees and decoding on-disk structures belongs to the image: it hands
//! out plain values, and everything here is decided on those. Nothing is assumed
//! of what an image answers. Contracts say which questions are asked and what
//! follows from each answer.
use crate::device::BlockDevice;
use crate::error::Error;
use crate::jrec::Record;
use crate::omap::{OmapEntry, OmapPhys};
use vstd::prelude::*;

verus! {

/// The volume superblock, as far as it is needed here.
#[derive(Debug, Clone, Copy, PartialEq, Eq, Structural)]
pub struct ApfsSuperblock {
    pub xid: u64,
    pub omap_oid: u64,
    pub root_tree_oid: u64,
    pub encrypted: bool,
    pub case_insensitive: bool,
    pub normalization_insensitive: bool,
}

/// What an inode stands for.
#[derive(Debug, Clone, Copy, PartialEq, Eq, Structural)]
pub enum InodeKind {
    Regular,
    Dir,
    Symlink,
    Other,
}

/// The metadata of one file-system object.
#[derive(Debug)]
pub struct Inode {
    pub parent_id: u64,
    pub private_id: u64,
    pub create_time: u64,
    pub mod_time: u64,
    pub change_time: u64,
    pub access_time: u64,
    pub internal_flags: u64,
    pub nchildren_or_nlink: i32,
    pub bsd_flags: u32,
    pub owner: u32,
    pub group: u32,
    pub mode: u16,
    pub kind: InodeKind,
    pub compressed: bool,
    pub sparse: bool,
    pub rsrc_fork: bool,
    pub finder_info: bool,
    pub logical_size: Option<u64>,
    pub allocated_size: Option<u64>,
    pub name: Option<String>,
}

impl Inode {
    pub fn is_dir(&self) -> (r: bool)
        ensures
            r == (self.kind is Dir),
    {
        self.kind == InodeKind::Dir
    }

    pub fn is_symlink(&self) -> (r: bool)
        ensures
            r == (self.kind is Symlink),
    {
        self.kind == InodeKind::Symlink
    }

    pub fn is_regular(&self) -> (r: bool)
        ensures
            r == (self.kind is Regular),
    {
        self.kind == InodeKind::Regular
    }

    /// The logical size, or 0 where the inode has none.
    pub open spec fn spec_size(&self) -> u64 {
        match self.logical_size {
            Some(size) => size,
            None => 0,
        }
    }

    /// The logical size, or 0 where the inode has none.
    pub fn size(&self) -> (r: u64)
        ensures
            r == self.spec_size(),
    {
        match self.logical_size {
            Some(size) => size,
            None => 0,
        }
    }
}

/// One entry of a directory.
#[derive(Debug)]
pub struct DirRec {
    pub name: String,
    pub file_id: u64,
    pub flags: u16,
    /// The name of the entry's type, such as `file` or `dir`.
    pub type_label: String,
}

/// The mathematical content of a [`DirRec`].
pub struct DirRecView {
    pub name: Seq<char>,
    pub file_id: u64,
    pub flags: u16,
    pub type_label: Seq<char>,
}

impl View for DirRec {
    type V = DirRecView;

    open spec fn view(&self) -> DirRecView {
        DirRecView {
            name: self.name@,
            file_id: self.file_id,
            flags: self.flags,
            type_label: self.type_label@,
        }
    }
}

/// One extended attribute. Its data is the value itself, or describes the stream
/// that holds it.
#[derive(Debug)]
pub struct Xattr {
    pub name: String,
    pub flags: u16,
    pub embedded: bool,
    pub stream: bool,
    pub data: Vec<u8>,
}

/// Where the value of a stream-backed extended attribute lies.
#[derive(Debug, Clone, Copy, PartialEq, Eq, Structural)]
pub struct XattrStream {
    pub xattr_obj_id: u64,
    pub size: u64,
    pub allocated_size: u64,
}

/// Access to the B-trees of one image.
pub trait TreeReader {
    /// The newest mapping of `oid` at or below `max_xid` in the object map at
    /// `omap_root`.
    fn omap_get(&self, omap_root: u64, oid: u64, max_xid: u64) -> (r: Result<
        Option<OmapEntry>,
        Error,
    >);

    /// All records of object `oid` in the file-system tree at `root`, in key
    /// order. Child links are resolved through the object map at `omap_root`.
    fn fs_collect(&self, omap_root: Option<u64>, root: u64, oid: u64, max_xid: u64) -> (r: Result<
        Vec<Record>,
        Error,
    >);

    /// The warnings since the last call.
    fn take_warnings(&self) -> (r: Vec<String>);
}

/// An image of one container: its blocks, its trees and its structures.
pub trait ApfsImage: BlockDevice + Sized {
    type Reader: TreeReader;

    /// A reader of this image's trees.
    fn tree_reader(&self, block_size: u32) -> (r: Self::Reader);

    /// Refuses a volume whose features are not handled; gives warnings otherwise.
    fn check_volume(apsb: &ApfsSuperblock) -> (r: Result<Vec<String>, Error>);

    fn parse_omap(block: &Vec<u8>) -> (r: Result<OmapPhys, Error>);

    fn parse_inode(val: &Vec<u8>) -> (r: Result<Inode, Error>);

    fn parse_dir_rec(key: &Vec<u8>, val: &Vec<u8>) -> (r: Result<DirRec, Error>);

    fn parse_xattr(key: &Vec<u8>, val: &Vec<u8>) -> (r: Result<Xattr, Error>);

    fn parse_xattr_stream(data: &Vec<u8>) -> (r: Result<XattrStream, Error>);

    /// The text in a NUL-terminated byte string.
    fn text_of(data: &Vec<u8>) -> (r: String);

    /// The text of an on-disk time, where it can be written as one.
    fn time_text(raw: u64) -> (r: Option<String>);
}

/// An opened container.
pub trait Container {
    type Image: ApfsImage;

    fn volume_superblock(&self, index: u32) -> (r: Result<ApfsSuperblock, Error>);

    fn device(&self) -> (r: Self::Image);

    fn block_size(&self) -> (r: u32);
}

/// An inode without a size counts as one of no bytes.
pub proof fn law_size_of_an_inode(inode: Inode)
    ensures
        inode.logical_size matches Some(size) ==> inode.spec_size() == size,
        inode.logical_size is None ==> inode.spec_size() == 0,
{
}

} // verus!
