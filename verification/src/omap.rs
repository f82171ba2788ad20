//! Object-map entries.
use vstd::prelude::*;

verus! {

/// The mapping is a placeholder: the object no longer exists.
pub const OMAP_VAL_DELETED: u32 = 0x1;

/// The object is stored encrypted.
pub const OMAP_VAL_ENCRYPTED: u32 = 0x4;

/// What a mapping is for: an object and the transaction that wrote it.
#[derive(Debug, Clone, Copy, PartialEq, Eq, Structural)]
pub struct OmapKey {
    pub oid: u64,
    pub xid: u64,
}

/// Where a mapping leads.
#[derive(Debug, Clone, Copy, PartialEq, Eq, Structural)]
pub struct OmapVal {
    pub flags: u32,
    pub size: u32,
    pub paddr: u64,
}

/// One mapping of an object map.
#[derive(Debug, Clone, Copy, PartialEq, Eq, Structural)]
pub struct OmapEntry {
    pub key: OmapKey,
    pub val: OmapVal,
}

impl OmapVal {
    pub open spec fn deleted(self) -> bool {
        self.flags & OMAP_VAL_DELETED != 0
    }

    pub open spec fn encrypted(self) -> bool {
        self.flags & OMAP_VAL_ENCRYPTED != 0
    }

    /// Whether the mapping is only a placeholder for an object that is gone.
    pub fn is_deleted(&self) -> (r: bool)
        ensures
            r == self.deleted(),
    {
        self.flags & OMAP_VAL_DELETED != 0
    }

    /// Whether the object is stored encrypted.
    pub fn is_encrypted(&self) -> (r: bool)
        ensures
            r == self.encrypted(),
    {
        self.flags & OMAP_VAL_ENCRYPTED != 0
    }
}

/// The head of an object map: where its tree is and whether the tree lies at a
/// physical address.
#[derive(Debug, Clone, Copy, PartialEq, Eq, Structural)]
pub struct OmapPhys {
    pub tree_oid: u64,
    pub physical_tree: bool,
}

/// A mapping is deleted if the lowest bit of its flags is set, and its object is encrypted
/// if the third is.
pub proof fn law_mapping_is_told_by_its_flags(val: OmapVal)
    ensures
        val.deleted() <==> val.flags % 2 == 1,
        val.encrypted() <==> val.flags / 4 % 2 == 1,
{
    let flags = val.flags;
    assert(flags & 0x1 != 0 <==> flags % 2 == 1) by (bit_vector);
    assert(flags & 0x4 != 0 <==> flags / 4 % 2 == 1) by (bit_vector);
}

} // verus!
