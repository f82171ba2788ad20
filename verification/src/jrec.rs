//! File-system records: the key that names them and the file extents they hold.
use crate::error::{viewed, Error, ErrorKind, ErrorView};
use crate::raw::{law_fields_are_read_from_their_bytes, number_at, u64_at, u64_field};
use vstd::prelude::*;

verus! {

pub const APFS_TYPE_SNAP_METADATA: u8 = 1;

pub const APFS_TYPE_EXTENT: u8 = 2;

pub const APFS_TYPE_INODE: u8 = 3;

pub const APFS_TYPE_XATTR: u8 = 4;

pub const APFS_TYPE_SIBLING_LINK: u8 = 5;

pub const APFS_TYPE_DSTREAM_ID: u8 = 6;

pub const APFS_TYPE_CRYPTO_STATE: u8 = 7;

pub const APFS_TYPE_FILE_EXTENT: u8 = 8;

pub const APFS_TYPE_DIR_REC: u8 = 9;

pub const APFS_TYPE_DIR_STATS: u8 = 10;

pub const APFS_TYPE_SNAP_NAME: u8 = 11;

pub const APFS_TYPE_SIBLING_MAP: u8 = 12;

pub const APFS_TYPE_FILE_INFO: u8 = 13;

/// One key and value of the file-system tree.
#[derive(Debug)]
pub struct Record {
    pub key: Vec<u8>,
    pub val: Vec<u8>,
}

/// The mathematical content of a [`Record`].
pub struct RecordView {
    pub key: Seq<u8>,
    pub val: Seq<u8>,
}

impl View for Record {
    type V = RecordView;

    open spec fn view(&self) -> RecordView {
        RecordView { key: self.key@, val: self.val@ }
    }
}

impl Clone for Record {
    fn clone(&self) -> (r: Record)
        ensures
            r@ == self@,
    {
        let r = Record { key: self.key.clone(), val: self.val.clone() };
        proof {
            assert(r.key@ =~= self.key@);
            assert(r.val@ =~= self.val@);
        }
        r
    }
}

/// The views of a list of records.
pub open spec fn record_views(records: Seq<Record>) -> Seq<RecordView> {
    Seq::new(records.len(), |i: int| records[i]@)
}

/// The object id in the low 60 bits of a key word.
pub open spec fn object_id(word: u64) -> u64 {
    word % 0x1000_0000_0000_0000
}

/// The record type in the high four bits of a key word.
pub open spec fn record_type(word: u64) -> u8 {
    (word / 0x1000_0000_0000_0000) as u8
}

/// Splits the first word of a record key into object id and record type.
pub fn split_obj_id_and_type(word: u64) -> (r: (u64, u8))
    ensures
        r.0 == object_id(word),
        r.1 == record_type(word),
{
    (word % 0x1000_0000_0000_0000, (word / 0x1000_0000_0000_0000) as u8)
}

/// The type of the record whose key is `key`.
pub open spec fn key_type(key: Seq<u8>) -> Result<u8, ErrorView> {
    match u64_field(key, 0) {
        Ok(word) => Ok(record_type(word)),
        Err(error) => Err(error),
    }
}

/// Reads the type of the record whose key is `key`.
pub fn type_of_key(key: &Vec<u8>) -> (r: Result<u8, Error>)
    ensures
        viewed(r) == key_type(key@),
{
    match u64_at(key.as_slice(), 0) {
        Ok(word) => Ok(split_obj_id_and_type(word).1),
        Err(error) => Err(error),
    }
}

/// A run of a file's logical bytes and the blocks that hold it.
#[derive(Debug, Clone, Copy, PartialEq, Eq, Structural)]
pub struct FileExtent {
    pub logical_addr: u64,
    pub len: u64,
    pub phys_block_num: u64,
    pub crypto_id: u64,
}

/// The extent that a key and a value describe. The length takes the low 56 bits
/// of its word; the high eight hold flags.
pub open spec fn extent_of(key: Seq<u8>, val: Seq<u8>) -> Result<FileExtent, ErrorView> {
    match (u64_field(key, 8), u64_field(val, 0), u64_field(val, 8), u64_field(val, 16)) {
        (Err(error), _, _, _) => Err(error),
        (Ok(_), Err(error), _, _) => Err(error),
        (Ok(_), Ok(_), Err(error), _) => Err(error),
        (Ok(_), Ok(_), Ok(_), Err(error)) => Err(error),
        (Ok(logical_addr), Ok(word), Ok(phys_block_num), Ok(crypto_id)) => Ok(
            FileExtent {
                logical_addr,
                len: word % 0x100_0000_0000_0000,
                phys_block_num,
                crypto_id,
            },
        ),
    }
}

impl View for FileExtent {
    type V = FileExtent;

    open spec fn view(&self) -> FileExtent {
        *self
    }
}

impl FileExtent {
    /// The extent has no blocks: its bytes are zero.
    pub open spec fn spec_is_hole(self) -> bool {
        self.phys_block_num == 0
    }

    /// Reads the extent that a key and a value describe.
    pub fn parse(key: &Vec<u8>, val: &Vec<u8>) -> (r: Result<FileExtent, Error>)
        ensures
            viewed(r) == extent_of(key@, val@),
    {
        let logical_addr: u64 = match u64_at(key.as_slice(), 8) {
            Ok(value) => value,
            Err(error) => return Err(error),
        };
        let word: u64 = match u64_at(val.as_slice(), 0) {
            Ok(value) => value,
            Err(error) => return Err(error),
        };
        let phys_block_num: u64 = match u64_at(val.as_slice(), 8) {
            Ok(value) => value,
            Err(error) => return Err(error),
        };
        let crypto_id: u64 = match u64_at(val.as_slice(), 16) {
            Ok(value) => value,
            Err(error) => return Err(error),
        };
        Ok(
            FileExtent {
                logical_addr,
                len: word % 0x100_0000_0000_0000,
                phys_block_num,
                crypto_id,
            },
        )
    }

    /// Whether the extent has no blocks, so that its bytes are zero.
    pub fn is_hole(&self) -> (r: bool)
        ensures
            r == self.spec_is_hole(),
    {
        self.phys_block_num == 0
    }
}

/// A key word holds the type of its record in its high four bits and the object in the
/// others.
pub proof fn law_key_word_splits(word: u64)
    ensures
        object_id(word) == word & 0x0fff_ffff_ffff_ffff,
        record_type(word) == word >> 60,
        record_type(word) < 16,
        word == record_type(word) * 0x1000_0000_0000_0000 + object_id(word),
{
    assert(word % 0x1000_0000_0000_0000 == word & 0x0fff_ffff_ffff_ffff) by (bit_vector);
    assert(word / 0x1000_0000_0000_0000 == word >> 60) by (bit_vector);
    assert(word / 0x1000_0000_0000_0000 < 16);
}

/// The type of a record stands in the high half of the last byte of its key word. A key
/// that is too short for one is corrupt.
pub proof fn law_type_is_read_from_the_key(key: Seq<u8>)
    ensures
        key_type(key) is Ok <==> key.len() >= 8,
        key_type(key) matches Ok(ty) ==> ty == key[7] >> 4,
        key_type(key) matches Err(error) ==> error.kind == ErrorKind::Corrupt,
{
    law_fields_are_read_from_their_bytes(key, 0);
    if key.len() >= 8 {
        let last = key[7];
        assert(last >> 4 == last / 16) by (bit_vector);
        reveal_with_fuel(number_at, 9);
        let word = u64_field(key, 0)->Ok_0;
        let low = number_at(key, 0, 7);
        assert(word == low + 0x100_0000_0000_0000 * last);
        assert(0 <= low < 0x100_0000_0000_0000);
        assert(word / 0x1000_0000_0000_0000 == last / 16);
    }
}

/// An extent's address stands behind the word of its key. Its length stands in the first
/// seven bytes of its value; the eighth holds flags that do not count. The block and the
/// key of encryption follow.
pub proof fn law_extent_is_read_from_its_bytes(key: Seq<u8>, val: Seq<u8>)
    ensures
        extent_of(key, val) is Ok <==> key.len() >= 16 && val.len() >= 24,
        extent_of(key, val) matches Ok(extent) ==> {
            &&& extent.logical_addr == number_at(key, 8, 8)
            &&& extent.len == number_at(val, 0, 7)
            &&& extent.phys_block_num == number_at(val, 8, 8)
            &&& extent.crypto_id == number_at(val, 16, 8)
            &&& extent.spec_is_hole() <==> number_at(val, 8, 8) == 0
        },
        extent_of(key, val) matches Err(error) ==> error.kind == ErrorKind::Corrupt,
{
    law_fields_are_read_from_their_bytes(key, 8);
    law_fields_are_read_from_their_bytes(val, 0);
    law_fields_are_read_from_their_bytes(val, 8);
    law_fields_are_read_from_their_bytes(val, 16);
    if val.len() >= 24 {
        let word = u64_field(val, 0)->Ok_0;
        let low = number_at(val, 0, 7);
        assert(word == low + 0x100_0000_0000_0000 * val[7] && 0 <= low < 0x100_0000_0000_0000) by {
            reveal_with_fuel(number_at, 9);
        }
        assert(word % 0x100_0000_0000_0000 == low);
    }
}

} // verus!
