use apfsrelic::error::{Error, ErrorKind};
use apfsrelic::image::TreeReader;
use apfsrelic::jrec::Record;
use apfsrelic::omap::{OmapEntry, OmapKey, OmapVal, OMAP_VAL_DELETED, OMAP_VAL_ENCRYPTED};
use apfsrelic::resolver::{classify, readable_paddr, resolve_virtual, ResolveStatus};

fn entry(flags: u32) -> OmapEntry {
    OmapEntry {
        key: OmapKey { oid: 5, xid: 9 },
        val: OmapVal {
            flags,
            size: 4096,
            paddr: 0x1234,
        },
    }
}

#[test]
fn classifies_statuses() {
    assert_eq!(classify(None), ResolveStatus::NotFound);
    assert_eq!(
        classify(Some(entry(OMAP_VAL_DELETED))),
        ResolveStatus::Deleted
    );
    assert_eq!(
        classify(Some(entry(OMAP_VAL_ENCRYPTED))),
        ResolveStatus::Encrypted
    );
    assert_eq!(
        classify(Some(entry(0))),
        ResolveStatus::Found {
            paddr: 0x1234,
            xid: 9
        }
    );
}

#[test]
fn deleted_mapping_never_yields_a_physical_address() {
    assert_eq!(
        readable_paddr(Some(entry(OMAP_VAL_DELETED)), "test object").unwrap(),
        None
    );
    assert_eq!(
        readable_paddr(Some(entry(0)), "test object").unwrap(),
        Some(0x1234)
    );
    assert_eq!(readable_paddr(None, "test object").unwrap(), None);
}

#[test]
fn encrypted_mapping_is_not_exposed_as_plaintext() {
    let error = readable_paddr(Some(entry(OMAP_VAL_ENCRYPTED)), "test object").unwrap_err();
    assert_eq!(error.kind(), ErrorKind::EncryptedUnsupported);
}

#[test]
fn a_deleted_encrypted_mapping_counts_as_deleted() {
    let both = entry(OMAP_VAL_DELETED | OMAP_VAL_ENCRYPTED);
    assert_eq!(classify(Some(both)), ResolveStatus::Deleted);
    assert_eq!(readable_paddr(Some(both), "x").unwrap(), None);
    let error = readable_paddr(Some(entry(OMAP_VAL_ENCRYPTED)), "test object").unwrap_err();
    assert_eq!(error.text(), "test object is encrypted");
}

/// An object map that holds one entry, for object 5 in the map at block 77.
struct OneEntry(OmapEntry);

impl TreeReader for OneEntry {
    fn omap_get(&self, omap_root: u64, oid: u64, max_xid: u64) -> Result<Option<OmapEntry>, Error> {
        if omap_root != 77 {
            return Err(Error::new(ErrorKind::Corrupt, "no map there".to_string()));
        }
        Ok((oid == self.0.key.oid && self.0.key.xid <= max_xid).then_some(self.0))
    }

    fn fs_collect(
        &self,
        _omap_root: Option<u64>,
        _root: u64,
        _oid: u64,
        _max_xid: u64,
    ) -> Result<Vec<Record>, Error> {
        Ok(Vec::new())
    }

    fn take_warnings(&self) -> Vec<String> {
        Vec::new()
    }
}

#[test]
fn a_virtual_object_is_resolved_through_its_map() {
    let map = OneEntry(entry(0));
    assert_eq!(
        resolve_virtual(&map, 77, 5, 9).unwrap(),
        ResolveStatus::Found { paddr: 0x1234, xid: 9 }
    );
    assert_eq!(resolve_virtual(&map, 77, 5, 8).unwrap(), ResolveStatus::NotFound);
    assert_eq!(resolve_virtual(&map, 1, 5, 9).unwrap_err().text(), "no map there");
}
