//! What resolving a virtual object through an object map can come to.
//!
//! Callers tell "deleted" from "missing" from "encrypted" without knowing the
//! flags of the object map.
use crate::error::{failure, Error, ErrorKind, ErrorView};
use crate::image::TreeReader;
use crate::omap::OmapEntry;
use vstd::prelude::*;

verus! {

/// The outcome of resolving a virtual object through an object map.
#[derive(Debug, Clone, Copy, PartialEq, Eq, Structural)]
pub enum ResolveStatus {
    /// Found at the given physical block address.
    Found { paddr: u64, xid: u64 },
    /// No entry for this object at or below the requested transaction.
    NotFound,
    /// The entry is there but marked deleted.
    Deleted,
    /// The entry is marked encrypted.
    Encrypted,
}

/// The status of a mapping. A deleted mapping is deleted whatever else it is.
pub open spec fn status_of(entry: Option<OmapEntry>) -> ResolveStatus {
    match entry {
        None => ResolveStatus::NotFound,
        Some(e) => if e.val.deleted() {
            ResolveStatus::Deleted
        } else if e.val.encrypted() {
            ResolveStatus::Encrypted
        } else {
            ResolveStatus::Found { paddr: e.val.paddr, xid: e.key.xid }
        },
    }
}

/// The address that may be read for a mapping, if any.
pub open spec fn address_of(entry: Option<OmapEntry>, description: Seq<char>) -> Result<
    Option<u64>,
    ErrorView,
> {
    match status_of(entry) {
        ResolveStatus::Found { paddr, .. } => Ok(Some(paddr)),
        ResolveStatus::NotFound => Ok(None),
        ResolveStatus::Deleted => Ok(None),
        ResolveStatus::Encrypted => Err(
            failure(ErrorKind::EncryptedUnsupported, description + " is encrypted"@),
        ),
    }
}

/// Classifies an optional object-map entry.
pub fn classify(entry: Option<OmapEntry>) -> (r: ResolveStatus)
    ensures
        r == status_of(entry),
{
    match entry {
        None => ResolveStatus::NotFound,
        Some(e) => {
            if e.val.is_deleted() {
                ResolveStatus::Deleted
            } else if e.val.is_encrypted() {
                ResolveStatus::Encrypted
            } else {
                ResolveStatus::Found { paddr: e.val.paddr, xid: e.key.xid }
            }
        },
    }
}

/// Resolves a virtual object through the object map at `omap_root` and classifies
/// what was found.
pub fn resolve_virtual<B: TreeReader>(bt: &B, omap_root: u64, oid: u64, max_xid: u64) -> (r: Result<
    ResolveStatus,
    Error,
>)
    ensures
        exists|reply: Result<Option<OmapEntry>, Error>| #[trigger]
            call_ensures(B::omap_get, (bt, omap_root, oid, max_xid), reply) && r == status_reply(
                reply,
            ),
{
    let reply = bt.omap_get(omap_root, oid, max_xid);
    match reply {
        Ok(entry) => Ok(classify(entry)),
        Err(error) => Err(error),
    }
}

/// The status that an answer of the object map gives.
pub open spec fn status_reply(reply: Result<Option<OmapEntry>, Error>) -> Result<
    ResolveStatus,
    Error,
> {
    match reply {
        Ok(entry) => Ok(status_of(entry)),
        Err(error) => Err(error),
    }
}

/// The physical address at which the object of a mapping may be read.
///
/// A deleted mapping is a placeholder, not the location of an object, and an
/// encrypted one is not readable as plaintext.
pub fn readable_paddr(entry: Option<OmapEntry>, description: &str) -> (r: Result<
    Option<u64>,
    Error,
>)
    ensures
        match r {
            Ok(found) => address_of(entry, description@) == Ok::<Option<u64>, ErrorView>(found),
            Err(error) => address_of(entry, description@) == Err::<Option<u64>, ErrorView>(error@),
        },
{
    match classify(entry) {
        ResolveStatus::Found { paddr, .. } => Ok(Some(paddr)),
        ResolveStatus::NotFound => Ok(None),
        ResolveStatus::Deleted => Ok(None),
        ResolveStatus::Encrypted => {
            let mut message = description.to_owned();
            message.append(" is encrypted");
            Err(Error::new(ErrorKind::EncryptedUnsupported, message))
        },
    }
}

/// A deleted mapping never yields an address, and an encrypted one is always
/// refused: an address comes only from a mapping that is neither, and is the
/// mapping's own.
pub proof fn law_only_live_plain_mappings_are_readable(entry: OmapEntry, description: Seq<char>)
    ensures
        entry.val.deleted() ==> address_of(Some(entry), description) == Ok::<
            Option<u64>,
            ErrorView,
        >(None),
        address_of(Some(entry), description) is Err <==> entry.val.encrypted()
            && !entry.val.deleted(),
        address_of(Some(entry), description) matches Ok(Some(paddr)) ==> paddr == entry.val.paddr
            && !entry.val.deleted() && !entry.val.encrypted(),
{
}

/// The lowest flag of a mapping says that its object is gone, the third that it is
/// encrypted. Of a mapping with neither, the address and the transaction are given.
pub proof fn law_status_is_told_by_the_flags(entry: OmapEntry)
    ensures
        status_of(None) == ResolveStatus::NotFound,
        entry.val.flags & 1 != 0 ==> status_of(Some(entry)) == ResolveStatus::Deleted,
        entry.val.flags & 1 == 0 && entry.val.flags & 4 != 0 ==> status_of(Some(entry))
            == ResolveStatus::Encrypted,
        entry.val.flags & 1 == 0 && entry.val.flags & 4 == 0 ==> status_of(Some(entry))
            == (ResolveStatus::Found { paddr: entry.val.paddr, xid: entry.key.xid }),
{
}

/// Without a mapping there is no address and no error; an encrypted one is refused as such,
/// and the error names what was looked for.
pub proof fn law_address_is_told_by_the_flags(entry: OmapEntry, description: Seq<char>)
    ensures
        address_of(None, description) == Ok::<Option<u64>, ErrorView>(None),
        entry.val.flags & 1 == 0 && entry.val.flags & 4 == 0 ==> address_of(
            Some(entry),
            description,
        ) == Ok::<Option<u64>, ErrorView>(Some(entry.val.paddr)),
        address_of(Some(entry), description) matches Err(error) ==> error.kind
            == ErrorKind::EncryptedUnsupported && error.message == description
            + " is encrypted"@,
{
}

} // verus!
