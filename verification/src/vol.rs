//! Volumes: the view of one file-system tree, live or of a snapshot, and the
//! records of its objects.
use crate::device::{BlockDevice, BlockReads};
use crate::error::{failure, in_context, is_failed, viewed, Error, ErrorKind, ErrorView};
use crate::extract::{
    account, by_address, data_size, extents_written, law_account_is_complete,
    law_ordering_twice_changes_nothing, law_written_file_has_its_size, layout_of, outcome, plan,
    sparse_written, write_extents, write_extents_sparse, SparseFile, Written,
};
use crate::image::{ApfsImage, ApfsSuperblock, Container, DirRec, Inode, TreeReader, Xattr, XattrStream};
use crate::jrec::{
    extent_of, key_type, law_type_is_read_from_the_key, record_views, type_of_key, FileExtent, Record, RecordView,
    APFS_TYPE_DIR_REC, APFS_TYPE_FILE_EXTENT, APFS_TYPE_INODE, APFS_TYPE_XATTR,
};
use crate::omap::{OmapEntry, OmapPhys};
use crate::resolver::{address_of, readable_paddr};
use crate::snapshots::SnapshotInfo;
use crate::text::{dec, hex_prefixed, push_dec, push_hex, str_eq};
use std::borrow::Cow;
use vstd::prelude::*;

verus! {

/// An opened volume: the live view or a snapshot view.
pub struct Volume<D: ApfsImage> {
    pub dev: D,
    pub block_size: u32,
    pub apsb: ApfsSuperblock,
    /// Physical block of the root of the volume's object map.
    pub omap_tree_root: u64,
    /// Physical block of the root of the file-system tree.
    pub root_tree_root: u64,
    /// The transaction up to which virtual objects are resolved.
    pub max_xid: u64,
    pub warnings: Vec<String>,
}

/// Whether a file of `size` bytes has data to read by its extents, which are put in
/// order.
pub fn needs_blocks(extents: &mut Vec<FileExtent>, size: u64) -> (r: bool)
    ensures
        final(extents)@ == by_address(old(extents)@),
        r == (data_size(layout_of(by_address(old(extents)@), size as int).segments) != 0),
{
    let ghost given = by_address(extents@);
    let (_, account) = plan(extents, size);
    proof {
        law_account_is_complete(given, size);
    }
    account.data_bytes > 0
}

/// The error of a volume from which no data could ever be read.
pub open spec fn no_block_size() -> ErrorView {
    failure(ErrorKind::Corrupt, "volume has a block size of zero"@)
}

// ---------------------------------------------------------------------------
// Records
// ---------------------------------------------------------------------------

/// The first record from `i` on that has type `ty`; an error where a key before it
/// cannot be read.
pub open spec fn first_of_type(records: Seq<RecordView>, i: int, ty: u8) -> Result<
    Option<int>,
    ErrorView,
>
    decreases records.len() - i,
{
    if !(0 <= i < records.len()) {
        Ok(None)
    } else {
        match key_type(records[i].key) {
            Err(error) => Err(error),
            Ok(found) => if found == ty {
                Ok(Some(i))
            } else {
                first_of_type(records, i + 1, ty)
            },
        }
    }
}

/// The records of type `ty` from `i` on, up to the first whose key cannot be read.
pub open spec fn positions(records: Seq<RecordView>, i: int, ty: u8) -> Seq<int>
    decreases records.len() - i,
{
    if !(0 <= i < records.len()) {
        Seq::empty()
    } else {
        match key_type(records[i].key) {
            Err(_) => Seq::empty(),
            Ok(found) => if found == ty {
                seq![i] + positions(records, i + 1, ty)
            } else {
                positions(records, i + 1, ty)
            },
        }
    }
}

pub(crate) proof fn lemma_next_position(at: Seq<int>, n: int, i: int, rest: Seq<int>)
    requires
        0 <= n <= at.len(),
        at.skip(n) == seq![i] + rest,
    ensures
        n < at.len(),
        at[n] == i,
        at.skip(n + 1) == rest,
{
    let here = seq![i] + rest;
    assert(at.skip(n).len() == 1 + rest.len());
    assert(here[0] == i);
    assert(at.skip(n)[0] == at[n]);
    assert forall|k: int| 0 <= k < rest.len() implies at.skip(n + 1)[k] == rest[k] by {
        assert(here[k + 1] == rest[k]);
        assert(at.skip(n)[k + 1] == at[n + k + 1]);
    }
    assert(at.skip(n + 1) =~= rest);
}

/// The error of the first record from `i` on whose key cannot be read.
pub open spec fn key_error(records: Seq<RecordView>, i: int) -> Option<ErrorView>
    decreases records.len() - i,
{
    if !(0 <= i < records.len()) {
        None
    } else {
        match key_type(records[i].key) {
            Err(error) => Some(error),
            Ok(_) => key_error(records, i + 1),
        }
    }
}

/// The file extents among `records[i..]`, behind `acc`.
pub open spec fn extents_from(records: Seq<RecordView>, i: int, acc: Seq<FileExtent>) -> Result<
    Seq<FileExtent>,
    ErrorView,
>
    decreases records.len() - i,
{
    if !(0 <= i < records.len()) {
        Ok(acc)
    } else {
        match key_type(records[i].key) {
            Err(error) => Err(error),
            Ok(found) => if found == APFS_TYPE_FILE_EXTENT {
                match extent_of(records[i].key, records[i].val) {
                    Err(error) => Err(error),
                    Ok(extent) => extents_from(records, i + 1, acc.push(extent)),
                }
            } else {
                extents_from(records, i + 1, acc)
            },
        }
    }
}

/// The file extents among `records`, in record order.
pub open spec fn extents_in(records: Seq<RecordView>) -> Result<Seq<FileExtent>, ErrorView> {
    extents_from(records, 0, Seq::empty())
}

/// Reads the file extents among `records`, in record order.
pub fn collect_extents(records: &[Record]) -> (r: Result<Vec<FileExtent>, Error>)
    ensures
        match r {
            Ok(extents) => extents_in(record_views(records@)) == Ok::<Seq<FileExtent>, ErrorView>(
                extents@,
            ),
            Err(error) => extents_in(record_views(records@)) == Err::<Seq<FileExtent>, ErrorView>(
                error@,
            ),
        },
{
    let ghost views = record_views(records@);
    let mut extents: Vec<FileExtent> = Vec::new();
    let mut i: usize = 0;
    while i < records.len()
        invariant
            i <= records@.len(),
            views == record_views(records@),
            extents_in(views) == extents_from(views, i as int, extents@),
        decreases records@.len() - i,
    {
        let rec = &records[i];
        match type_of_key(&rec.key) {
            Err(error) => return Err(error),
            Ok(ty) => {
                if ty == APFS_TYPE_FILE_EXTENT {
                    match FileExtent::parse(&rec.key, &rec.val) {
                        Err(error) => return Err(error),
                        Ok(extent) => extents.push(extent),
                    }
                }
            },
        }
        i += 1;
    }
    Ok(extents)
}

/// The records in a borrowed or owned list.
pub open spec fn records_in<'a>(list: Cow<'a, [Record]>) -> Seq<Record> {
    match list {
        Cow::Borrowed(records) => records@,
        Cow::Owned(records) => records@,
    }
}

/// The records in a borrowed or owned list.
pub fn record_slice<'a, 'b>(list: &'b Cow<'a, [Record]>) -> (r: &'b [Record])
    ensures
        r@ == records_in(*list),
{
    match list {
        Cow::Borrowed(records) => *records,
        Cow::Owned(records) => records.as_slice(),
    }
}

/// The records that describe a file's data: those of the inode itself where the
/// data has the same id, otherwise those that `load` gives for `private_id`.
pub fn select_file_data_records<'a, F: FnOnce(u64) -> Result<Vec<Record>, Error>>(
    fsoid: u64,
    private_id: u64,
    inode_records: &'a [Record],
    load: F,
) -> (r: Result<Cow<'a, [Record]>, Error>)
    requires
        private_id != fsoid ==> load.requires((private_id,)),
    ensures
        private_id == fsoid ==> (r matches Ok(Cow::Borrowed(records)) && records@
            == inode_records@),
        private_id != fsoid ==> exists|reply: Result<Vec<Record>, Error>| #[trigger]
            load.ensures((private_id,), reply) && match reply {
                Ok(loaded) => r matches Ok(Cow::Owned(records)) && records@ == loaded@,
                Err(error) => r matches Err(e) && e == error,
            },
{
    if private_id == fsoid {
        Ok(Cow::Borrowed(inode_records))
    } else {
        match load(private_id) {
            Ok(records) => Ok(Cow::Owned(records)),
            Err(error) => Err(error),
        }
    }
}

// ---------------------------------------------------------------------------
// Opening
// ---------------------------------------------------------------------------

/// What a root tree is called in an error message.
pub open spec fn root_tree_label(oid: u64) -> Seq<char> {
    "filesystem root tree "@ + hex_prefixed(oid as nat)
}

/// The root of the file-system tree `oid`, from what the object map answered.
pub open spec fn root_from(reply: Result<Option<OmapEntry>, Error>, oid: u64) -> Result<
    u64,
    ErrorView,
> {
    match reply {
        Err(error) => Err(error@),
        Ok(entry) => match address_of(entry, root_tree_label(oid)) {
            Err(error) => Err(error),
            Ok(Some(paddr)) => Ok(paddr),
            Ok(None) => Err(
                failure(
                    ErrorKind::ObjectNotFound,
                    "filesystem root tree (virtual OID "@ + hex_prefixed(oid as nat)
                        + ") not in volume omap"@,
                ),
            ),
        },
    }
}

fn root_from_reply(reply: Result<Option<OmapEntry>, Error>, oid: u64) -> (r: Result<u64, Error>)
    ensures
        viewed(r) == root_from(reply, oid),
{
    match reply {
        Err(error) => Err(error),
        Ok(entry) => {
            let mut label = "filesystem root tree ".to_owned();
            push_hex(&mut label, oid);
            match readable_paddr(entry, label.as_str()) {
                Err(error) => Err(error),
                Ok(Some(paddr)) => Ok(paddr),
                Ok(None) => {
                    let mut message = "filesystem root tree (virtual OID ".to_owned();
                    push_hex(&mut message, oid);
                    message.append(") not in volume omap");
                    Err(Error::new(ErrorKind::ObjectNotFound, message))
                },
            }
        },
    }
}

/// Where the object map's tree lies, from the block that holds the map's head.
pub open spec fn omap_root_from(reply: Result<OmapPhys, Error>) -> Result<u64, ErrorView> {
    match reply {
        Err(error) => Err(error@),
        Ok(omap) => if omap.physical_tree {
            Ok(omap.tree_oid)
        } else {
            Err(
                failure(
                    ErrorKind::UnsupportedFeature,
                    "volume omap B-tree is not a physical object"@,
                ),
            )
        },
    }
}

impl<D: ApfsImage> Volume<D> {
    /// What opening a view gives where its features passed with `warnings` and the
    /// root of its object map is `omap_root`: the root of the file-system tree is
    /// asked of that object map.
    pub open spec fn opened_at(
        dev: D,
        block_size: u32,
        apsb: ApfsSuperblock,
        max_xid: u64,
        root_tree_oid: u64,
        warnings: Seq<String>,
        omap_root: u64,
        r: Result<Volume<D>, Error>,
    ) -> bool {
        exists|bt: D::Reader, reply: Result<Option<OmapEntry>, Error>|
            {
                &&& #[trigger] call_ensures(D::tree_reader, (&dev, block_size), bt)
                &&& #[trigger] call_ensures(
                    <D::Reader as TreeReader>::omap_get,
                    (&bt, omap_root, root_tree_oid, max_xid),
                    reply,
                )
                &&& match root_from(reply, root_tree_oid) {
                    Err(error) => r matches Err(e) && e@ == error,
                    Ok(root) => exists|more: Vec<String>|
                        {
                            &&& #[trigger] call_ensures(
                                <D::Reader as TreeReader>::take_warnings,
                                (&bt,),
                                more,
                            )
                            &&& r matches Ok(vol)
                            &&& vol.dev == dev
                            &&& vol.block_size == block_size
                            &&& vol.apsb == apsb
                            &&& vol.omap_tree_root == omap_root
                            &&& vol.root_tree_root == root
                            &&& vol.max_xid == max_xid
                            &&& vol.warnings@ == warnings + more@
                        },
                }
            }
    }

    /// What opening a view gives where its features passed with `warnings`: the
    /// head of the object map is read from the block that the superblock names.
    pub open spec fn opened_with(
        dev: D,
        block_size: u32,
        apsb: ApfsSuperblock,
        max_xid: u64,
        root_tree_oid: u64,
        warnings: Seq<String>,
        r: Result<Volume<D>, Error>,
    ) -> bool {
        exists|block: Result<Vec<u8>, Error>|
            {
                &&& #[trigger] call_ensures(
                    <D as BlockDevice>::read_block,
                    (&dev, apsb.omap_oid, block_size),
                    block,
                )
                &&& match block {
                    Err(error) => r matches Err(e) && e == error,
                    Ok(data) => exists|omap: Result<OmapPhys, Error>|
                        {
                            &&& #[trigger] call_ensures(D::parse_omap, (&data,), omap)
                            &&& match omap_root_from(omap) {
                                Err(error) => r matches Err(e) && e@ == error,
                                Ok(omap_root) => Self::opened_at(
                                    dev,
                                    block_size,
                                    apsb,
                                    max_xid,
                                    root_tree_oid,
                                    warnings,
                                    omap_root,
                                    r,
                                ),
                            }
                        },
                }
            }
    }

    /// What opening the view of `root_tree_oid` up to `max_xid` gives.
    pub open spec fn opened(
        dev: D,
        block_size: u32,
        apsb: ApfsSuperblock,
        max_xid: u64,
        root_tree_oid: u64,
        r: Result<Volume<D>, Error>,
    ) -> bool {
        exists|report: Result<Vec<String>, Error>|
            {
                &&& #[trigger] call_ensures(D::check_volume, (&apsb,), report)
                &&& match report {
                    Err(error) => r matches Err(e) && e == error,
                    Ok(warnings) => Self::opened_with(
                        dev,
                        block_size,
                        apsb,
                        max_xid,
                        root_tree_oid,
                        warnings@,
                        r,
                    ),
                }
            }
    }

    /// Opens the live view of volume `index` of `container`.
    pub fn open<C: Container<Image = D>>(container: &C, index: u32) -> (r: Result<Volume<D>, Error>)
        ensures
            exists|reply: Result<ApfsSuperblock, Error>|
                {
                    &&& #[trigger] call_ensures(C::volume_superblock, (container, index), reply)
                    &&& match reply {
                        Err(error) => r matches Err(e) && e == error,
                        Ok(apsb) => exists|dev: D, block_size: u32|
                            {
                                &&& #[trigger] call_ensures(C::device, (container,), dev)
                                &&& #[trigger] call_ensures(C::block_size, (container,), block_size)
                                &&& Self::opened(
                                    dev,
                                    block_size,
                                    apsb,
                                    apsb.xid,
                                    apsb.root_tree_oid,
                                    r,
                                )
                            },
                    }
                },
    {
        let reply = container.volume_superblock(index);
        match reply {
            Err(error) => Err(error),
            Ok(apsb) => {
                let dev = container.device();
                let block_size: u32 = container.block_size();
                Self::open_from_superblock(dev, block_size, apsb, apsb.xid, apsb.root_tree_oid)
            },
        }
    }

    /// Opens a view of an already parsed superblock. `max_xid` is the transaction
    /// up to which objects are resolved (the volume's own for the live view, a
    /// snapshot's otherwise), and `root_tree_oid` the file-system tree to show.
    pub fn open_from_superblock(
        dev: D,
        block_size: u32,
        apsb: ApfsSuperblock,
        max_xid: u64,
        root_tree_oid: u64,
    ) -> (r: Result<Volume<D>, Error>)
        ensures
            Self::opened(dev, block_size, apsb, max_xid, root_tree_oid, r),
    {
        let report = D::check_volume(&apsb);
        let mut warnings = match report {
            Ok(warnings) => warnings,
            Err(error) => return Err(error),
        };
        let ghost passed = warnings@;
        let block = dev.read_block(apsb.omap_oid, block_size);
        let data = match block {
            Ok(data) => data,
            Err(error) => return Err(error),
        };
        let parsed = D::parse_omap(&data);
        let omap = match parsed {
            Ok(omap) => omap,
            Err(error) => return Err(error),
        };
        if !omap.physical_tree {
            return Err(
                Error::fixed(
                    ErrorKind::UnsupportedFeature,
                    "volume omap B-tree is not a physical object",
                ),
            );
        }
        let omap_tree_root: u64 = omap.tree_oid;
        let bt = dev.tree_reader(block_size);
        let reply = bt.omap_get(omap_tree_root, root_tree_oid, max_xid);
        let root_tree_root: u64 = match root_from_reply(reply, root_tree_oid) {
            Ok(root) => root,
            Err(error) => {
                proof {
                    assert(Self::opened_at(
                        dev,
                        block_size,
                        apsb,
                        max_xid,
                        root_tree_oid,
                        passed,
                        omap_tree_root,
                        Err(error),
                    ));
                }
                return Err(error);
            },
        };
        let mut more = bt.take_warnings();
        let ghost late = more;
        warnings.append(&mut more);
        let vol = Volume {
            dev,
            block_size,
            apsb,
            omap_tree_root,
            root_tree_root,
            max_xid,
            warnings,
        };
        proof {
            assert(call_ensures(<D::Reader as TreeReader>::take_warnings, (&bt,), late));
            assert(Self::opened_at(
                dev,
                block_size,
                apsb,
                max_xid,
                root_tree_oid,
                passed,
                omap_tree_root,
                Ok(vol),
            ));
        }
        Ok(vol)
    }

    /// A reader of the trees of this volume's image.
    pub fn btree(&self) -> (r: D::Reader)
        ensures
            call_ensures(D::tree_reader, (&self.dev, self.block_size), r),
    {
        self.dev.tree_reader(self.block_size)
    }

    /// Asking `bt` for the records of `oid` in this view gave `reply`.
    pub open spec fn asked<B: TreeReader>(
        &self,
        bt: &B,
        oid: u64,
        reply: Result<Vec<Record>, Error>,
    ) -> bool {
        call_ensures(
            B::fs_collect,
            (bt, Some(self.omap_tree_root), self.root_tree_root, oid, self.max_xid),
            reply,
        )
    }

    /// All records of object `oid`, in key order. The tree is virtual, so child
    /// links are resolved through the volume's object map.
    pub fn records<B: TreeReader>(&self, bt: &B, oid: u64) -> (r: Result<Vec<Record>, Error>)
        ensures
            self.asked(bt, oid, r),
    {
        bt.fs_collect(Some(self.omap_tree_root), self.root_tree_root, oid, self.max_xid)
    }

    /// The inode among `records`, if there is one: what the image reads in the
    /// value of the first inode record.
    pub open spec fn inode_found(records: Seq<Record>, r: Result<Option<Inode>, Error>) -> bool {
        match first_of_type(record_views(records), 0, APFS_TYPE_INODE) {
            Err(error) => r matches Err(e) && e@ == error,
            Ok(None) => r matches Ok(found) && found is None,
            Ok(Some(i)) => Self::inode_read(records[i], r),
        }
    }

    /// What the image reads in the value of an inode record.
    pub open spec fn inode_read(record: Record, r: Result<Option<Inode>, Error>) -> bool {
        exists|reply: Result<Inode, Error>|
            {
                &&& #[trigger] call_ensures(D::parse_inode, (&record.val,), reply)
                &&& match reply {
                    Err(error) => r matches Err(e) && e == error,
                    Ok(inode) => r matches Ok(Some(found)) && found == inode,
                }
            }
    }

    /// Reads the inode among the records of one object, if there is one.
    pub fn inode_from_records(records: &[Record]) -> (r: Result<Option<Inode>, Error>)
        ensures
            Self::inode_found(records@, r),
    {
        let ghost views = record_views(records@);
        let mut i: usize = 0;
        while i < records.len()
            invariant
                i <= records@.len(),
                views == record_views(records@),
                first_of_type(views, 0, APFS_TYPE_INODE) == first_of_type(
                    views,
                    i as int,
                    APFS_TYPE_INODE,
                ),
            decreases records@.len() - i,
        {
            match type_of_key(&records[i].key) {
                Err(error) => return Err(error),
                Ok(ty) => {
                    if ty == APFS_TYPE_INODE {
                        let reply = D::parse_inode(&records[i].val);
                        let r = match reply {
                            Ok(inode) => Ok(Some(inode)),
                            Err(error) => Err(error),
                        };
                        proof {
                            assert(Self::inode_read(records@[i as int], r));
                        }
                        return r;
                    }
                },
            }
            i += 1;
        }
        Ok(None)
    }

    /// Looks up the inode of an object.
    pub fn inode<B: TreeReader>(&self, bt: &B, oid: u64) -> (r: Result<Option<Inode>, Error>)
        ensures
            exists|reply: Result<Vec<Record>, Error>| #[trigger]
                self.asked(bt, oid, reply) && match reply {
                    Err(error) => r matches Err(e) && e == error,
                    Ok(records) => Self::inode_found(records@, r),
                },
    {
        let reply = self.records(bt, oid);
        match reply {
            Err(error) => Err(error),
            Ok(records) => Self::inode_from_records(records.as_slice()),
        }
    }

    /// What the context of a failed look-up of a file's data says.
    pub open spec fn data_context(private_id: u64, fsoid: u64) -> Seq<char> {
        "data stream private_id "@ + hex_prefixed(private_id as nat) + " for FSOID "@
            + hex_prefixed(fsoid as nat)
    }

    /// `r` is what looking for the records of a regular file's data gives.
    pub open spec fn data_records_given<'a, B: TreeReader>(
        &self,
        bt: &B,
        fsoid: u64,
        private_id: u64,
        inode_records: Seq<Record>,
        r: Result<Cow<'a, [Record]>, Error>,
    ) -> bool {
        if private_id == fsoid {
            r matches Ok(Cow::Borrowed(records)) && records@ == inode_records
        } else {
            exists|reply: Result<Vec<Record>, Error>| #[trigger]
                self.asked(bt, private_id, reply) && match reply {
                    Ok(loaded) => r matches Ok(Cow::Owned(records)) && records@ == loaded@,
                    Err(error) => r matches Err(e) && e@ == in_context(
                        error@,
                        Self::data_context(private_id, fsoid),
                    ),
                }
        }
    }

    /// The records that describe a regular file's data.
    ///
    /// Metadata stands under the id of the object, the extents under the inode's
    /// `private_id`. Where both are the same, the records at hand are used and
    /// nothing is looked up.
    pub fn file_data_records<'a, B: TreeReader>(
        &self,
        bt: &B,
        fsoid: u64,
        inode: &Inode,
        inode_records: &'a [Record],
    ) -> (r: Result<Cow<'a, [Record]>, Error>)
        ensures
            self.data_records_given(bt, fsoid, inode.private_id, inode_records@, r),
    {
        let load = |private_id: u64| -> (loaded: Result<Vec<Record>, Error>)
            ensures
                exists|reply: Result<Vec<Record>, Error>| #[trigger]
                    self.asked(bt, private_id, reply) && match reply {
                        Ok(records) => loaded == Ok::<Vec<Record>, Error>(records),
                        Err(error) => loaded matches Err(e) && e@ == in_context(
                            error@,
                            Self::data_context(private_id, fsoid),
                        ),
                    },
            {
                match self.records(bt, private_id) {
                    Ok(records) => Ok(records),
                    Err(error) => {
                        let mut context = "data stream private_id ".to_owned();
                        push_hex(&mut context, private_id);
                        context.append(" for FSOID ");
                        push_hex(&mut context, fsoid);
                        Err(error.with_context(context))
                    },
                }
            };
        select_file_data_records(fsoid, inode.private_id, inode_records, load)
    }
}

// ---------------------------------------------------------------------------
// Directories
// ---------------------------------------------------------------------------

impl<D: ApfsImage> Volume<D> {
    /// Asking the image to read the directory entries among `records`, in order,
    /// gave `replies`.
    pub open spec fn dir_replies(
        records: Seq<Record>,
        replies: Seq<Result<DirRec, Error>>,
    ) -> bool {
        let at = positions(record_views(records), 0, APFS_TYPE_DIR_REC);
        &&& replies.len() <= at.len()
        &&& forall|k: int|
            0 <= k < replies.len() ==> call_ensures(
                D::parse_dir_rec,
                (&records[at[k]].key, &records[at[k]].val),
                #[trigger] replies[k],
            )
    }

    /// The listing that `replies` give: all entries in record order, or the first
    /// error, be it of an entry or of a key.
    pub open spec fn listing_from(
        records: Seq<Record>,
        replies: Seq<Result<DirRec, Error>>,
        r: Result<Vec<DirRec>, Error>,
    ) -> bool {
        let views = record_views(records);
        if replies.len() > 0 && replies.last() is Err {
            &&& forall|k: int| 0 <= k < replies.len() - 1 ==> (#[trigger] replies[k]) is Ok
            &&& r matches Err(e) && e == replies.last()->Err_0
        } else {
            &&& replies.len() == positions(views, 0, APFS_TYPE_DIR_REC).len()
            &&& forall|k: int| 0 <= k < replies.len() ==> (#[trigger] replies[k]) is Ok
            &&& match key_error(views, 0) {
                Some(error) => r matches Err(e) && e@ == error,
                None => r matches Ok(out) && out@ == Seq::new(
                    replies.len(),
                    |k: int| replies[k]->Ok_0,
                ),
            }
        }
    }

    /// `r` is a listing of the directory entries among `records`.
    pub open spec fn listed(records: Seq<Record>, r: Result<Vec<DirRec>, Error>) -> bool {
        exists|replies: Seq<Result<DirRec, Error>>| #[trigger]
            Self::dir_replies(records, replies) && Self::listing_from(records, replies, r)
    }

    /// Lists the directory entries among `records`.
    pub fn dir_entries(records: &[Record]) -> (r: Result<Vec<DirRec>, Error>)
        ensures
            Self::listed(records@, r),
    {
        let ghost views = record_views(records@);
        let ghost at = positions(views, 0, APFS_TYPE_DIR_REC);
        let ghost mut replies: Seq<Result<DirRec, Error>> = Seq::empty();
        let mut out: Vec<DirRec> = Vec::new();
        let mut i: usize = 0;
        proof {
            assert(at.skip(0) =~= at);
        }
        while i < records.len()
            invariant
                i <= records@.len(),
                views == record_views(records@),
                at == positions(views, 0, APFS_TYPE_DIR_REC),
                replies.len() <= at.len(),
                at.skip(replies.len() as int) == positions(views, i as int, APFS_TYPE_DIR_REC),
                key_error(views, 0) == key_error(views, i as int),
                Self::dir_replies(records@, replies),
                forall|k: int| 0 <= k < replies.len() ==> (#[trigger] replies[k]) is Ok,
                out@ =~= Seq::new(replies.len(), |k: int| replies[k]->Ok_0),
            decreases records@.len() - i,
        {
            match type_of_key(&records[i].key) {
                Err(error) => {
                    proof {
                        assert(at.skip(replies.len() as int).len() == 0);
                        assert(Self::listing_from(records@, replies, Err(error)));
                    }
                    return Err(error);
                },
                Ok(ty) => {
                    if ty == APFS_TYPE_DIR_REC {
                        let reply = D::parse_dir_rec(&records[i].key, &records[i].val);
                        let ghost before = replies;
                        proof {
                            let rest = positions(views, i + 1, APFS_TYPE_DIR_REC);
                            let here = at.skip(before.len() as int);
                            assert(here == seq![i as int] + rest);
                            lemma_next_position(at, before.len() as int, i as int, rest);
                            replies = replies.push(reply);
                            assert(Self::dir_replies(records@, replies));
                        }
                        match reply {
                            Err(error) => {
                                proof {
                                    assert(Self::listing_from(records@, replies, Err(error)));
                                }
                                return Err(error);
                            },
                            Ok(entry) => out.push(entry),
                        }
                    }
                },
            }
            i += 1;
        }
        let r = Ok(out);
        proof {
            assert(at.skip(replies.len() as int).len() == 0);
            assert(Self::listing_from(records@, replies, r));
        }
        r
    }

    /// `r` is a listing of directory `dir_oid`.
    pub open spec fn dir_listed<B: TreeReader>(
        &self,
        bt: &B,
        dir_oid: u64,
        r: Result<Vec<DirRec>, Error>,
    ) -> bool {
        exists|reply: Result<Vec<Record>, Error>| #[trigger]
            self.asked(bt, dir_oid, reply) && match reply {
                Err(error) => r matches Err(e) && e == error,
                Ok(records) => Self::listed(records@, r),
            }
    }

    /// Lists the entries of a directory.
    pub fn list_dir<B: TreeReader>(&self, bt: &B, dir_oid: u64) -> (r: Result<Vec<DirRec>, Error>)
        ensures
            self.dir_listed(bt, dir_oid, r),
    {
        let reply = self.records(bt, dir_oid);
        match reply {
            Err(error) => Err(error),
            Ok(records) => Self::dir_entries(records.as_slice()),
        }
    }

    // -----------------------------------------------------------------------
    // File data
    // -----------------------------------------------------------------------

    /// Writing the data of `size` bytes that `records` describe ended with `r` and
    /// turned the output `before` into `after`. Without a block size no data can be
    /// read.
    pub open spec fn data_written(
        &self,
        records: Seq<Record>,
        size: u64,
        r: Result<Written, Error>,
        before: Seq<u8>,
        after: Seq<u8>,
    ) -> bool {
        match extents_in(record_views(records)) {
            Err(error) => after == before && (r matches Err(e) && e@ == error),
            Ok(extents) => {
                let layout = layout_of(by_address(extents), size as int);
                if self.block_size == 0 && data_size(layout.segments) != 0 {
                    after == before && is_failed(r, no_block_size())
                } else {
                    &&& r matches Ok(written) ==> written == account(layout, size)
                    &&& extents_written(
                        &self.dev,
                        self.block_size,
                        layout.segments,
                        outcome(r),
                        before,
                        after,
                    )
                }
            },
        }
    }

    /// Appends exactly `file_size` bytes of a regular file to `writer`, from the
    /// extents among its records: in the order of their addresses, with zeros for
    /// holes and gaps.
    pub fn write_file_data(
        &self,
        records: &[Record],
        file_size: u64,
        writer: &mut Vec<u8>,
    ) -> (r: Result<Written, Error>)
        ensures
            self.data_written(records@, file_size, r, old(writer)@, final(writer)@),
    {
        match collect_extents(records) {
            Err(error) => Err(error),
            Ok(extents) => {
                let mut extents = extents;
                proof {
                    law_ordering_twice_changes_nothing(extents@);
                }
                if self.block_size == 0 && needs_blocks(&mut extents, file_size) {
                    return Err(
                        Error::fixed(ErrorKind::Corrupt, "volume has a block size of zero"),
                    );
                }
                let mut dev = BlockReads::new(&self.dev);
                write_extents(&mut dev, self.block_size, &mut extents, file_size, writer)
            },
        }
    }

    /// Reading the data of `size` bytes that `records` describe into a sparse file
    /// ended with `r` and turned `before` into `after`.
    pub open spec fn sparse_data_written(
        &self,
        records: Seq<Record>,
        size: u64,
        r: Result<Written, Error>,
        before: SparseFile,
        after: SparseFile,
    ) -> bool {
        match extents_in(record_views(records)) {
            Err(error) => after == before && (r matches Err(e) && e@ == error),
            Ok(extents) => {
                let layout = layout_of(by_address(extents), size as int);
                if self.block_size == 0 && data_size(layout.segments) != 0 {
                    after == before && is_failed(r, no_block_size())
                } else {
                    &&& r matches Ok(written) ==> written == account(layout, size)
                    &&& sparse_written(
                        &self.dev,
                        self.block_size,
                        layout.segments,
                        size,
                        outcome(r),
                        before,
                        after,
                    )
                }
            },
        }
    }

    /// Reads a regular file's data into `file` from the extents among its records,
    /// and leaves holes and gaps as they are.
    pub fn write_sparse_file_data(
        &self,
        records: &[Record],
        file_size: u64,
        file: &mut SparseFile,
    ) -> (r: Result<Written, Error>)
        ensures
            self.sparse_data_written(records@, file_size, r, *old(file), *final(file)),
    {
        match collect_extents(records) {
            Err(error) => Err(error),
            Ok(extents) => {
                let mut extents = extents;
                proof {
                    law_ordering_twice_changes_nothing(extents@);
                }
                if self.block_size == 0 && needs_blocks(&mut extents, file_size) {
                    return Err(
                        Error::fixed(ErrorKind::Corrupt, "volume has a block size of zero"),
                    );
                }
                let mut dev = BlockReads::new(&self.dev);
                write_extents_sparse(&mut dev, self.block_size, &mut extents, file_size, file)
            },
        }
    }
}

// ---------------------------------------------------------------------------
// Extended attributes
// ---------------------------------------------------------------------------

/// The extended attribute that stores the target of a symbolic link.
pub const SYMLINK_XATTR: &'static str = "com.apple.fs.symlink";

/// `x` is the attribute that is looked for.
pub open spec fn is_wanted(x: Xattr, name: Seq<char>, embedded_only: bool) -> bool {
    x.name@ == name && (embedded_only ==> x.embedded)
}

impl<D: ApfsImage> Volume<D> {
    /// Asking the image to read the extended attributes among `records`, in order,
    /// gave `replies`.
    pub open spec fn xattr_replies(
        records: Seq<Record>,
        replies: Seq<Result<Xattr, Error>>,
    ) -> bool {
        let at = positions(record_views(records), 0, APFS_TYPE_XATTR);
        &&& replies.len() <= at.len()
        &&& forall|k: int|
            0 <= k < replies.len() ==> call_ensures(
                D::parse_xattr,
                (&records[at[k]].key, &records[at[k]].val),
                #[trigger] replies[k],
            )
    }

    /// The first `n` replies are attributes other than the one looked for.
    pub open spec fn all_passed(
        replies: Seq<Result<Xattr, Error>>,
        n: int,
        name: Seq<char>,
        embedded_only: bool,
    ) -> bool {
        forall|k: int|
            0 <= k < n ==> (#[trigger] replies[k] matches Ok(x) && !is_wanted(
                x,
                name,
                embedded_only,
            ))
    }

    /// What `replies` say of the attribute looked for: the first one that is it, or
    /// the first error before that, be it of an attribute or of a key.
    pub open spec fn xattr_from(
        records: Seq<Record>,
        replies: Seq<Result<Xattr, Error>>,
        name: Seq<char>,
        embedded_only: bool,
        r: Result<Option<Xattr>, Error>,
    ) -> bool {
        let views = record_views(records);
        let n = replies.len() as int;
        if n > 0 && !Self::all_passed(replies, n, name, embedded_only) {
            &&& Self::all_passed(replies, n - 1, name, embedded_only)
            &&& match replies.last() {
                Err(error) => r matches Err(e) && e == error,
                Ok(x) => r matches Ok(Some(found)) && found == x,
            }
        } else {
            &&& n == positions(views, 0, APFS_TYPE_XATTR).len()
            &&& match key_error(views, 0) {
                Some(error) => r matches Err(e) && e@ == error,
                None => r matches Ok(found) && found is None,
            }
        }
    }

    /// `r` is what looking for an extended attribute among `records` gives.
    pub open spec fn xattr_found(
        records: Seq<Record>,
        name: Seq<char>,
        embedded_only: bool,
        r: Result<Option<Xattr>, Error>,
    ) -> bool {
        exists|replies: Seq<Result<Xattr, Error>>| #[trigger]
            Self::xattr_replies(records, replies) && Self::xattr_from(
                records,
                replies,
                name,
                embedded_only,
                r,
            )
    }

    fn find_xattr(records: &[Record], name: &str, embedded_only: bool) -> (r: Result<
        Option<Xattr>,
        Error,
    >)
        ensures
            Self::xattr_found(records@, name@, embedded_only, r),
    {
        let ghost views = record_views(records@);
        let ghost at = positions(views, 0, APFS_TYPE_XATTR);
        let ghost mut replies: Seq<Result<Xattr, Error>> = Seq::empty();
        let mut i: usize = 0;
        proof {
            assert(at.skip(0) =~= at);
        }
        while i < records.len()
            invariant
                i <= records@.len(),
                views == record_views(records@),
                at == positions(views, 0, APFS_TYPE_XATTR),
                replies.len() <= at.len(),
                at.skip(replies.len() as int) == positions(views, i as int, APFS_TYPE_XATTR),
                key_error(views, 0) == key_error(views, i as int),
                Self::xattr_replies(records@, replies),
                Self::all_passed(replies, replies.len() as int, name@, embedded_only),
            decreases records@.len() - i,
        {
            match type_of_key(&records[i].key) {
                Err(error) => {
                    proof {
                        assert(at.skip(replies.len() as int).len() == 0);
                        assert(Self::xattr_from(
                            records@,
                            replies,
                            name@,
                            embedded_only,
                            Err(error),
                        ));
                    }
                    return Err(error);
                },
                Ok(ty) => {
                    if ty == APFS_TYPE_XATTR {
                        let reply = D::parse_xattr(&records[i].key, &records[i].val);
                        let ghost before = replies;
                        proof {
                            let rest = positions(views, i + 1, APFS_TYPE_XATTR);
                            let here = at.skip(before.len() as int);
                            assert(here == seq![i as int] + rest);
                            lemma_next_position(at, before.len() as int, i as int, rest);
                            replies = replies.push(reply);
                            assert(Self::xattr_replies(records@, replies));
                            assert(Self::all_passed(
                                replies,
                                before.len() as int,
                                name@,
                                embedded_only,
                            ));
                            assert(replies[before.len() as int] == reply);
                        }
                        match reply {
                            Err(error) => {
                                proof {
                                    assert(Self::xattr_from(
                                        records@,
                                        replies,
                                        name@,
                                        embedded_only,
                                        Err(error),
                                    ));
                                }
                                return Err(error);
                            },
                            Ok(x) => {
                                if str_eq(x.name.as_str(), name) && (!embedded_only || x.embedded) {
                                    let r = Ok(Some(x));
                                    proof {
                                        assert(is_wanted(x, name@, embedded_only));
                                        assert(Self::xattr_from(
                                            records@,
                                            replies,
                                            name@,
                                            embedded_only,
                                            r,
                                        ));
                                    }
                                    return r;
                                }
                            },
                        }
                    }
                },
            }
            i += 1;
        }
        let r = Ok(None);
        proof {
            assert(at.skip(replies.len() as int).len() == 0);
            assert(Self::xattr_from(records@, replies, name@, embedded_only, r));
        }
        r
    }

    /// Finds the extended attribute `name` among the records of one object.
    pub fn xattr(records: &[Record], name: &str) -> (r: Result<Option<Xattr>, Error>)
        ensures
            Self::xattr_found(records@, name@, false, r),
    {
        Self::find_xattr(records, name, false)
    }

    /// `r` is what looking for the target of a symbolic link among `records` gives.
    pub open spec fn symlink_read(records: Seq<Record>, r: Result<Option<String>, Error>) -> bool {
        exists|found: Result<Option<Xattr>, Error>| #[trigger]
            Self::xattr_found(records, SYMLINK_XATTR@, true, found) && match found {
                Err(error) => r matches Err(e) && e == error,
                Ok(None) => r matches Ok(target) && target is None,
                Ok(Some(x)) => exists|text: String| #[trigger]
                    call_ensures(D::text_of, (&x.data,), text) && (r matches Ok(Some(target))
                        && target == text),
            }
    }

    /// The target of a symbolic link, where the records hold one inline.
    pub fn symlink_target(records: &[Record]) -> (r: Result<Option<String>, Error>)
        ensures
            Self::symlink_read(records@, r),
    {
        let found = Self::find_xattr(records, SYMLINK_XATTR, true);
        match found {
            Err(error) => Err(error),
            Ok(None) => Ok(None),
            Ok(Some(x)) => {
                let text = D::text_of(&x.data);
                let r = Ok(Some(text));
                proof {
                    assert(call_ensures(D::text_of, (&x.data,), text));
                }
                r
            },
        }
    }
}

/// The text `xattr `name`` with which messages about an attribute begin.
pub open spec fn xattr_label(name: Seq<char>) -> Seq<char> {
    "xattr `"@ + name + "`"@
}

fn xattr_label_text(name: &str) -> (r: String)
    ensures
        r@ == xattr_label(name@),
{
    let mut text = "xattr `".to_owned();
    text.append(name);
    text.append("`");
    text
}

/// The error of a stream that its extents do not cover completely.
pub open spec fn incomplete_stream(name: Seq<char>, written: Written) -> ErrorView {
    failure(
        ErrorKind::Corrupt,
        xattr_label(name) + " stream is incomplete: "@ + dec(written.bytes as nat) + " bytes, "@
            + dec(written.holes as nat) + " hole(s), "@ + dec(written.overlaps as nat)
            + " overlap(s), "@ + dec(written.missing as nat) + " missing byte(s)"@,
    )
}

fn incomplete_stream_error(name: &str, written: &Written) -> (r: Error)
    ensures
        r@ == incomplete_stream(name@, *written),
{
    let mut message = xattr_label_text(name);
    message.append(" stream is incomplete: ");
    push_dec(&mut message, written.bytes);
    message.append(" bytes, ");
    push_dec(&mut message, written.holes);
    message.append(" hole(s), ");
    push_dec(&mut message, written.overlaps);
    message.append(" overlap(s), ");
    push_dec(&mut message, written.missing);
    message.append(" missing byte(s)");
    Error::new(ErrorKind::Corrupt, message)
}

/// The error of a stream for which there is no memory.
pub open spec fn no_memory(name: Seq<char>, size: u64) -> ErrorView {
    failure(
        ErrorKind::Io,
        "cannot allocate "@ + dec(size as nat) + " bytes for "@ + xattr_label(name),
    )
}

/// The context of a failed look-up of a stream.
pub open spec fn stream_context(name: Seq<char>, id: u64) -> Seq<char> {
    xattr_label(name) + " data stream "@ + hex_prefixed(id as nat)
}

impl<D: ApfsImage> Volume<D> {
    /// What reading a stream gives, once its records are known and there is memory for
    /// it. Unlike a file's data, a stream with a hole or an overlap is refused: nothing
    /// is made up.
    pub open spec fn stream_from(
        &self,
        records: Seq<Record>,
        name: Seq<char>,
        size: u64,
        r: Result<Vec<u8>, Error>,
    ) -> bool {
        exists|written: Result<Written, Error>, out: Seq<u8>|
            {
                &&& #[trigger] self.data_written(records, size, written, Seq::empty(), out)
                &&& match written {
                    Err(error) => r matches Err(e) && e == error,
                    Ok(w) => if w.holes > 0 || w.overlaps > 0 {
                        r matches Err(e) && e@ == incomplete_stream(name, w)
                    } else {
                        r matches Ok(data) && data@ == out && out.len() == size
                    },
                }
            }
    }

    /// What reading the stream of an attribute gives.
    pub open spec fn stream_read<B: TreeReader>(
        &self,
        bt: &B,
        name: Seq<char>,
        stream: XattrStream,
        r: Result<Vec<u8>, Error>,
    ) -> bool {
        if stream.size > usize::MAX {
            r matches Err(e) && e@ == failure(
                ErrorKind::Io,
                xattr_label(name) + " stream size "@ + dec(stream.size as nat)
                    + " does not fit this platform"@,
            )
        } else {
            exists|reply: Result<Vec<Record>, Error>| #[trigger]
                self.asked(bt, stream.xattr_obj_id, reply) && match reply {
                    Err(error) => r matches Err(e) && e@ == in_context(
                        error@,
                        stream_context(name, stream.xattr_obj_id),
                    ),
                    Ok(records) => {
                        ||| (r matches Err(e) && e@ == no_memory(name, stream.size))
                        ||| self.stream_from(records@, name, stream.size, r)
                    },
                }
        }
    }

    /// Reads a stream of `size` bytes into `data`, the memory that was reserved for it.
    pub fn read_reserved(
        &self,
        records: &Vec<Record>,
        name: &str,
        size: u64,
        data: Vec<u8>,
    ) -> (r: Result<Vec<u8>, Error>)
        requires
            data@.len() == 0,
        ensures
            self.stream_from(records@, name@, size, r),
    {
        let mut data = data;
        proof {
            assert(data@ =~= Seq::empty());
        }
        let written = self.write_file_data(records.as_slice(), size, &mut data);
        proof {
            assert(self.data_written(records@, size, written, Seq::empty(), data@));
        }
        match written {
            Err(error) => Err(error),
            Ok(w) => {
                proof {
                    let extents = extents_in(record_views(records@))->Ok_0;
                    law_written_file_has_its_size(
                        &self.dev,
                        self.block_size,
                        by_address(extents),
                        size,
                        Seq::empty(),
                        data@,
                    );
                }
                if w.bytes != size || w.holes > 0 || w.overlaps > 0 || w.missing > 0 || data.len()
                    as u64 != size {
                    return Err(incomplete_stream_error(name, &w));
                }
                Ok(data)
            },
        }
    }

    /// Reads a stream of `size` bytes, where there is memory for it.
    fn read_stream_records(&self, records: &Vec<Record>, name: &str, size: u64) -> (r: Result<
        Vec<u8>,
        Error,
    >)
        requires
            size <= usize::MAX,
        ensures
            ({
                ||| (r matches Err(e) && e@ == no_memory(name@, size))
                ||| self.stream_from(records@, name@, size, r)
            }),
    {
        let mut data: Vec<u8> = Vec::new();
        match data.try_reserve(size as usize) {
            Ok(_) => {},
            Err(_) => {
                let mut message = "cannot allocate ".to_owned();
                push_dec(&mut message, size);
                message.append(" bytes for ");
                message.append(xattr_label_text(name).as_str());
                return Err(Error::new(ErrorKind::Io, message));
            },
        }
        self.read_reserved(records, name, size, data)
    }

    /// `r` is what reading the value of an extended attribute gives: the attribute's
    /// own data, or what its stream holds. Storage flags that say neither or both are
    /// an error.
    pub open spec fn xattr_read<B: TreeReader>(
        &self,
        bt: &B,
        xattr: &Xattr,
        r: Result<Vec<u8>, Error>,
    ) -> bool {
        if xattr.embedded && !xattr.stream {
            r matches Ok(data) && data@ == xattr.data@
        } else if !xattr.embedded && xattr.stream {
            exists|reply: Result<XattrStream, Error>| #[trigger]
                call_ensures(D::parse_xattr_stream, (&xattr.data,), reply) && match reply {
                    Err(error) => r matches Err(e) && e == error,
                    Ok(stream) => self.stream_read(bt, xattr.name@, stream, r),
                }
        } else {
            r matches Err(e) && e@ == failure(
                ErrorKind::Corrupt,
                xattr_label(xattr.name@) + " has invalid storage flags "@ + hex_prefixed(
                    xattr.flags as nat,
                ),
            )
        }
    }

    /// Reads the value of an extended attribute, embedded or in a stream. A stream
    /// must be complete: a resource fork must not silently get zeros where its
    /// extents leave gaps.
    pub fn read_xattr_data<B: TreeReader>(&self, bt: &B, xattr: &Xattr) -> (r: Result<
        Vec<u8>,
        Error,
    >)
        ensures
            self.xattr_read(bt, xattr, r),
    {
        if xattr.embedded && !xattr.stream {
            let data = xattr.data.clone();
            proof {
                assert(data@ =~= xattr.data@);
            }
            return Ok(data);
        }
        if xattr.embedded || !xattr.stream {
            let mut message = xattr_label_text(xattr.name.as_str());
            message.append(" has invalid storage flags ");
            push_hex(&mut message, xattr.flags as u64);
            return Err(Error::new(ErrorKind::Corrupt, message));
        }
        let parsed = D::parse_xattr_stream(&xattr.data);
        let stream = match parsed {
            Ok(stream) => stream,
            Err(error) => return Err(error),
        };
        if stream.size > usize::MAX as u64 {
            let mut message = xattr_label_text(xattr.name.as_str());
            message.append(" stream size ");
            push_dec(&mut message, stream.size);
            message.append(" does not fit this platform");
            let r = Err(Error::new(ErrorKind::Io, message));
            proof {
                assert(self.stream_read(bt, xattr.name@, stream, r));
            }
            return r;
        }
        let reply = self.records(bt, stream.xattr_obj_id);
        let r = match reply {
            Err(error) => {
                let mut context = xattr_label_text(xattr.name.as_str());
                context.append(" data stream ");
                push_hex(&mut context, stream.xattr_obj_id);
                Err(error.with_context(context))
            },
            Ok(records) => self.read_stream_records(&records, xattr.name.as_str(), stream.size),
        };
        proof {
            assert(self.asked(bt, stream.xattr_obj_id, reply));
            assert(self.stream_read(bt, xattr.name@, stream, r));
        }
        r
    }
}

// ---------------------------------------------------------------------------
// Snapshots
// ---------------------------------------------------------------------------

/// What a path leads to.
#[derive(Debug)]
pub struct Resolved {
    pub fsoid: u64,
    /// The name of the object's type, such as `file` or `dir`.
    pub type_label: String,
}

/// The snapshots of a volume, and the way along a path in one of them.
pub trait SnapshotSource<D: ApfsImage> {
    /// Opens the view of one snapshot.
    fn open_snapshot(&self, snap: &SnapshotInfo) -> (r: Result<Volume<D>, Error>);

    /// Follows an absolute path in a view.
    fn resolve(&self, vol: &Volume<D>, bt: &D::Reader, path: &str) -> (r: Result<Resolved, Error>);
}

// ---------------------------------------------------------------------------
// Laws
// ---------------------------------------------------------------------------

/// A key names its object and its type.
pub open spec fn is_typed(record: RecordView) -> bool {
    record.key.len() >= 8
}

/// A record has the type with number `ty`, which stands in the high half of the last byte
/// of its key word.
pub open spec fn has_type(record: RecordView, ty: u8) -> bool {
    record.key.len() >= 8 && record.key[7] >> 4 == ty
}

proof fn lemma_key(record: RecordView, ty: u8)
    ensures
        key_type(record.key) is Ok <==> is_typed(record),
        key_type(record.key) == Ok::<u8, ErrorView>(ty) <==> has_type(record, ty),
{
    law_type_is_read_from_the_key(record.key);
}

/// Among one more record, the extents are those found before and its own where it is a
/// record of a file extent. A record whose key does not name a type, or whose extent cannot
/// be read, is an error, and so is every list that goes on behind one.
pub proof fn law_extents_are_found_one_by_one(records: Seq<RecordView>, next: RecordView)
    ensures
        extents_in(Seq::empty()) == Ok::<Seq<FileExtent>, ErrorView>(Seq::empty()),
        ({
            let all = extents_in(records.push(next));
            match extents_in(records) {
                Err(error) => all == Err::<Seq<FileExtent>, ErrorView>(error),
                Ok(before) => {
                    &&& !is_typed(next) ==> all is Err
                    &&& is_typed(next) && !has_type(next, 8) ==> all == Ok::<
                        Seq<FileExtent>,
                        ErrorView,
                    >(before)
                    &&& has_type(next, 8) ==> match extent_of(next.key, next.val) {
                        Ok(extent) => all == Ok::<Seq<FileExtent>, ErrorView>(before.push(extent)),
                        Err(error) => all == Err::<Seq<FileExtent>, ErrorView>(error),
                    }
                },
            }
        }),
{
    assert(extents_in(Seq::empty()) == Ok::<Seq<FileExtent>, ErrorView>(Seq::empty()));
    lemma_extents_grow(records, next, 0, Seq::empty());
    if let Ok(before) = extents_in(records) {
        lemma_extents_last(records, next, before);
    }
}

proof fn lemma_extents_last(records: Seq<RecordView>, next: RecordView, before: Seq<FileExtent>)
    ensures
        ({
            let all = extents_from(records.push(next), records.len() as int, before);
            &&& !is_typed(next) ==> all is Err
            &&& is_typed(next) && !has_type(next, 8) ==> all == Ok::<Seq<FileExtent>, ErrorView>(
                before,
            )
            &&& has_type(next, 8) ==> match extent_of(next.key, next.val) {
                Ok(extent) => all == Ok::<Seq<FileExtent>, ErrorView>(before.push(extent)),
                Err(error) => all == Err::<Seq<FileExtent>, ErrorView>(error),
            }
        }),
{
    let more = records.push(next);
    let n = records.len() as int;
    lemma_key(next, 8);
    assert(more[n] == next);
    assert(extents_from(more, n + 1, before) == Ok::<Seq<FileExtent>, ErrorView>(before));
    if has_type(next, 8) {
        assert(key_type(more[n].key) == Ok::<u8, ErrorView>(8));
        match extent_of(next.key, next.val) {
            Ok(extent) => {
                let longer = before.push(extent);
                assert(extents_from(more, n + 1, longer) == Ok::<Seq<FileExtent>, ErrorView>(
                    longer,
                ));
                assert(extents_from(more, n, before) == extents_from(more, n + 1, longer));
            },
            Err(_) => {},
        }
    } else if is_typed(next) {
        assert(key_type(more[n].key) is Ok);
        assert(extents_from(more, n, before) == extents_from(more, n + 1, before));
    } else {
        assert(key_type(more[n].key) is Err);
    }
}

proof fn lemma_extents_grow(
    records: Seq<RecordView>,
    next: RecordView,
    i: int,
    acc: Seq<FileExtent>,
)
    requires
        0 <= i <= records.len(),
    ensures
        extents_from(records.push(next), i, acc) == match extents_from(records, i, acc) {
            Err(error) => Err(error),
            Ok(before) => extents_from(records.push(next), records.len() as int, before),
        },
    decreases records.len() - i,
{
    let more = records.push(next);
    if i < records.len() {
        assert(more[i] == records[i]);
        match key_type(records[i].key) {
            Err(_) => {},
            Ok(found) => {
                if found == APFS_TYPE_FILE_EXTENT {
                    match extent_of(records[i].key, records[i].val) {
                        Err(_) => {},
                        Ok(extent) => lemma_extents_grow(records, next, i + 1, acc.push(extent)),
                    }
                } else {
                    lemma_extents_grow(records, next, i + 1, acc);
                }
            },
        }
    } else {
        reveal_with_fuel(extents_from, 2);
    }
}

proof fn lemma_first(records: Seq<RecordView>, i: int, ty: u8)
    requires
        0 <= i <= records.len(),
    ensures
        match first_of_type(records, i, ty) {
            Ok(Some(at)) => {
                &&& i <= at < records.len()
                &&& has_type(records[at], ty)
                &&& forall|k: int|
                    i <= k < at ==> is_typed(#[trigger] records[k]) && !has_type(records[k], ty)
            },
            Ok(None) => forall|k: int|
                i <= k < records.len() ==> is_typed(#[trigger] records[k]) && !has_type(
                    records[k],
                    ty,
                ),
            Err(error) => error.kind == ErrorKind::Corrupt && exists|at: int|
                {
                    &&& i <= at < records.len()
                    &&& !is_typed(#[trigger] records[at])
                    &&& forall|k: int|
                        i <= k < at ==> is_typed(#[trigger] records[k]) && !has_type(
                            records[k],
                            ty,
                        )
                },
        },
    decreases records.len() - i,
{
    if i < records.len() {
        lemma_key(records[i], ty);
        law_type_is_read_from_the_key(records[i].key);
        if is_typed(records[i]) && !has_type(records[i], ty) {
            lemma_first(records, i + 1, ty);
        } else if !is_typed(records[i]) {
            assert(!is_typed(records[i]));
        }
    }
}

/// The inode of an object is what the image reads in the value of its first inode record. An
/// object without such a record has none. A key that names no type is an error where it
/// comes before.
pub proof fn law_inode_comes_from_the_first_inode_record<D: ApfsImage>(
    records: Seq<Record>,
    r: Result<Option<Inode>, Error>,
)
    requires
        Volume::<D>::inode_found(records, r),
    ensures
        r matches Ok(Some(inode)) ==> exists|at: int|
            {
                &&& 0 <= at < records.len()
                &&& has_type(#[trigger] records[at]@, 3)
                &&& call_ensures(D::parse_inode, (&records[at].val,), Ok(inode))
                &&& forall|k: int|
                    0 <= k < at ==> is_typed(#[trigger] records[k]@) && !has_type(records[k]@, 3)
            },
        r matches Ok(None) ==> forall|k: int|
            0 <= k < records.len() ==> is_typed(#[trigger] records[k]@) && !has_type(
                records[k]@,
                3,
            ),
        r matches Err(error) ==> exists|at: int|
            {
                &&& 0 <= at < records.len()
                &&& forall|k: int|
                    0 <= k < at ==> is_typed(#[trigger] records[k]@) && !has_type(records[k]@, 3)
                &&& !is_typed(#[trigger] records[at]@) || has_type(records[at]@, 3)
                    && call_ensures(D::parse_inode, (&records[at].val,), Err(error))
            },
{
    let views = record_views(records);
    lemma_first(views, 0, 3);
    assert forall|k: int| 0 <= k < records.len() implies #[trigger] records[k]@ == views[k] by {
    }
    match first_of_type(views, 0, 3) {
        Ok(Some(at)) => {
            assert(records[at]@ == views[at]);
            let reply = choose|reply: Result<Inode, Error>|
                {
                    &&& #[trigger] call_ensures(D::parse_inode, (&records[at].val,), reply)
                    &&& match reply {
                        Err(error) => r matches Err(e) && e == error,
                        Ok(inode) => r matches Ok(Some(found)) && found == inode,
                    }
                };
            match reply {
                Ok(inode) => {
                    assert(reply == Ok::<Inode, Error>(inode));
                },
                Err(error) => {
                    assert(reply == Err::<Inode, Error>(error));
                },
            }
        },
        Ok(None) => {},
        Err(_) => {
            let at = choose|at: int|
                {
                    &&& 0 <= at < views.len()
                    &&& !is_typed(#[trigger] views[at])
                    &&& forall|k: int|
                        0 <= k < at ==> is_typed(#[trigger] views[k]) && !has_type(views[k], 3)
                };
            assert(!is_typed(records[at]@));
        },
    }
}

proof fn lemma_positions(records: Seq<RecordView>, i: int, ty: u8)
    requires
        0 <= i <= records.len(),
    ensures
        ({
            let at = positions(records, i, ty);
            &&& forall|k: int|
                0 <= k < at.len() ==> i <= #[trigger] at[k] < records.len() && has_type(
                    records[at[k]],
                    ty,
                )
            &&& forall|j: int, k: int|
                0 <= j < k < at.len() ==> (#[trigger] at[j]) < (#[trigger] at[k])
            &&& key_error(records, i) is None <==> forall|j: int|
                i <= j < records.len() ==> is_typed(#[trigger] records[j])
            &&& key_error(records, i) is None ==> forall|j: int|
                i <= j < records.len() && has_type(#[trigger] records[j], ty) ==> at.contains(j)
        }),
    decreases records.len() - i,
{
    if i < records.len() {
        let at = positions(records, i, ty);
        lemma_key(records[i], ty);
        if is_typed(records[i]) {
            let rest = positions(records, i + 1, ty);
            lemma_positions(records, i + 1, ty);
            if has_type(records[i], ty) {
                assert(at == seq![i] + rest);
                assert forall|k: int| 0 <= k < at.len() implies i <= #[trigger] at[k]
                    < records.len() && has_type(records[at[k]], ty) by {
                    if k > 0 {
                        assert(at[k] == rest[k - 1]);
                    }
                }
                assert forall|j: int, k: int| 0 <= j < k < at.len() implies (#[trigger] at[j])
                    < (#[trigger] at[k]) by {
                    assert(at[k] == rest[k - 1]);
                    if j > 0 {
                        assert(at[j] == rest[j - 1]);
                    }
                }
                if key_error(records, i) is None {
                    assert forall|j: int|
                        i <= j < records.len() && has_type(#[trigger] records[j], ty) implies
                        at.contains(j) by {
                        if j == i {
                            assert(at[0] == j);
                        } else {
                            assert(rest.contains(j));
                            let k = choose|k: int| 0 <= k < rest.len() && rest[k] == j;
                            assert(at[k + 1] == j);
                        }
                    }
                }
            }
        } else {
            assert(!is_typed(records[i]));
        }
    }
}

/// `at` are the places of all records of type `ty`, in their order.
pub open spec fn are_places(records: Seq<Record>, ty: u8, at: Seq<int>) -> bool {
    &&& forall|k: int|
        0 <= k < at.len() ==> 0 <= #[trigger] at[k] < records.len() && has_type(
            records[at[k]]@,
            ty,
        )
    &&& forall|j: int, k: int| 0 <= j < k < at.len() ==> (#[trigger] at[j]) < (#[trigger] at[k])
    &&& forall|j: int|
        0 <= j < records.len() && has_type(#[trigger] records[j]@, ty) ==> at.contains(j)
}

pub(crate) proof fn lemma_places(records: Seq<Record>, ty: u8)
    requires
        key_error(record_views(records), 0) is None,
    ensures
        are_places(records, ty, positions(record_views(records), 0, ty)),
        forall|j: int| 0 <= j < records.len() ==> is_typed(#[trigger] records[j]@),
{
    let views = record_views(records);
    lemma_positions(views, 0, ty);
    assert forall|j: int| 0 <= j < records.len() implies #[trigger] records[j]@ == views[j] by {
    }
    let at = positions(views, 0, ty);
    assert forall|k: int| 0 <= k < at.len() implies 0 <= #[trigger] at[k] < records.len()
        && has_type(records[at[k]]@, ty) by {
        assert(records[at[k]]@ == views[at[k]]);
    }
    assert forall|j: int| 0 <= j < records.len() implies is_typed(#[trigger] records[j]@) by {
        assert(is_typed(views[j]));
    }
    assert forall|j: int| 0 <= j < records.len() && has_type(#[trigger] records[j]@, ty) implies
        at.contains(j) by {
        assert(has_type(views[j], ty));
    }
}

/// A listing has one entry for each directory record, in their order, as the image reads
/// it; no record is left out.
pub proof fn law_listing_has_every_entry<D: ApfsImage>(
    records: Seq<Record>,
    out: Vec<DirRec>,
) -> (at: Seq<int>)
    requires
        Volume::<D>::listed(records, Ok(out)),
    ensures
        are_places(records, 9, at),
        at.len() == out@.len(),
        forall|j: int| 0 <= j < records.len() ==> is_typed(#[trigger] records[j]@),
        forall|k: int|
            0 <= k < out@.len() ==> call_ensures(
                D::parse_dir_rec,
                (&records[at[k]].key, &records[at[k]].val),
                Ok(#[trigger] out@[k]),
            ),
{
    let replies = choose|replies: Seq<Result<DirRec, Error>>| #[trigger]
        Volume::<D>::dir_replies(records, replies) && Volume::<D>::listing_from(
            records,
            replies,
            Ok(out),
        );
    lemma_places(records, 9);
    let at = positions(record_views(records), 0, 9);
    assert forall|k: int| 0 <= k < out@.len() implies call_ensures(
        D::parse_dir_rec,
        (&records[at[k]].key, &records[at[k]].val),
        Ok(#[trigger] out@[k]),
    ) by {
        assert(replies[k] is Ok);
        assert(out@[k] == replies[k]->Ok_0);
        assert(replies[k] == Ok::<DirRec, Error>(out@[k]));
    }
    at
}

/// The attribute that is found has the name that was asked for, and its value at hand where
/// that was asked for. Where none is found, the image read every attribute, and none was it.
pub proof fn law_attribute_found_is_the_one_asked_for<D: ApfsImage>(
    records: Seq<Record>,
    name: Seq<char>,
    embedded_only: bool,
    r: Result<Option<Xattr>, Error>,
)
    requires
        Volume::<D>::xattr_found(records, name, embedded_only, r),
    ensures
        r matches Ok(Some(x)) ==> x.name@ == name && (embedded_only ==> x.embedded) && exists|
            j: int,
        |
            0 <= j < records.len() && has_type(#[trigger] records[j]@, 4) && call_ensures(
                D::parse_xattr,
                (&records[j].key, &records[j].val),
                Ok(x),
            ),
        r matches Ok(None) ==> forall|j: int|
            0 <= j < records.len() && has_type(#[trigger] records[j]@, 4) ==> exists|x: Xattr|
                call_ensures(D::parse_xattr, (&records[j].key, &records[j].val), Ok(x)) && !(
                #[trigger] is_called(x, name) && (embedded_only ==> x.embedded)),
{
    let replies = choose|replies: Seq<Result<Xattr, Error>>| #[trigger]
        Volume::<D>::xattr_replies(records, replies) && Volume::<D>::xattr_from(
            records,
            replies,
            name,
            embedded_only,
            r,
        );
    let views = record_views(records);
    let at = positions(views, 0, 4);
    let n = replies.len() as int;
    lemma_positions(views, 0, 4);
    if n > 0 && !Volume::<D>::all_passed(replies, n, name, embedded_only) {
        if let Ok(Some(x)) = r {
            assert(replies[n - 1] == Ok::<Xattr, Error>(x));
            let j = at[n - 1];
            assert(records[j]@ == views[j]);
            if !is_wanted(x, name, embedded_only) {
                assert forall|k: int| 0 <= k < n implies (#[trigger] replies[k] matches Ok(x)
                    && !is_wanted(x, name, embedded_only)) by {
                }
                assert(false);
            }
        }
    } else if r matches Ok(None) {
        lemma_places(records, 4);
        assert forall|j: int| 0 <= j < records.len() && has_type(#[trigger] records[j]@, 4) implies
            exists|x: Xattr|
            call_ensures(D::parse_xattr, (&records[j].key, &records[j].val), Ok(x)) && !(
            #[trigger] is_called(x, name) && (embedded_only ==> x.embedded)) by {
            let k = choose|k: int| 0 <= k < at.len() && at[k] == j;
            assert(replies[k] is Ok);
            let x = replies[k]->Ok_0;
            assert(replies[k] == Ok::<Xattr, Error>(x));
            assert(!(is_called(x, name) && (embedded_only ==> x.embedded)));
        }
    }
}

/// An attribute has this name.
pub open spec fn is_called(x: Xattr, name: Seq<char>) -> bool {
    x.name@ == name
}

/// The target of a symbolic link is the text of an attribute of this name whose value stands
/// in its record.
pub proof fn law_link_target_comes_from_its_attribute<D: ApfsImage>(
    records: Seq<Record>,
    target: String,
)
    requires
        Volume::<D>::symlink_read(records, Ok(Some(target))),
    ensures
        exists|x: Xattr|
            x.embedded && #[trigger] is_called(x, "com.apple.fs.symlink"@) && call_ensures(
                D::text_of,
                (&x.data,),
                target,
            ) && exists|j: int|
                0 <= j < records.len() && has_type(#[trigger] records[j]@, 4) && call_ensures(
                    D::parse_xattr,
                    (&records[j].key, &records[j].val),
                    Ok(x),
                ),
{
    let found = choose|found: Result<Option<Xattr>, Error>| #[trigger]
        Volume::<D>::xattr_found(records, SYMLINK_XATTR@, true, found) && match found {
            Err(error) => false,
            Ok(None) => false,
            Ok(Some(x)) => exists|text: String| #[trigger]
                call_ensures(D::text_of, (&x.data,), text) && target == text,
        };
    law_attribute_found_is_the_one_asked_for::<D>(records, SYMLINK_XATTR@, true, found);
    let x = found->Ok_0->Some_0;
    assert(is_called(x, "com.apple.fs.symlink"@));
}

/// The tree of the file system is read where its mapping says, if that is neither deleted
/// nor encrypted; and the object map's own tree only where it lies at a physical address.
pub proof fn law_roots_come_from_their_mappings(entry: OmapEntry, omap: OmapPhys, oid: u64)
    ensures
        ({
            let r = root_from(Ok(Some(entry)), oid);
            &&& entry.val.flags & 1 == 0 && entry.val.flags & 4 == 0 ==> r == Ok::<
                u64,
                ErrorView,
            >(entry.val.paddr)
            &&& entry.val.flags & 1 != 0 ==> (r matches Err(error) && error.kind
                == ErrorKind::ObjectNotFound)
            &&& entry.val.flags & 1 == 0 && entry.val.flags & 4 != 0 ==> (r matches Err(error)
                && error.kind == ErrorKind::EncryptedUnsupported)
        }),
        root_from(Ok(None), oid) matches Err(error) && error.kind == ErrorKind::ObjectNotFound,
        omap.physical_tree ==> omap_root_from(Ok(omap)) == Ok::<u64, ErrorView>(omap.tree_oid),
        !omap.physical_tree ==> (omap_root_from(Ok(omap)) matches Err(error) && error.kind
            == ErrorKind::UnsupportedFeature),
{
}

/// A view that was opened is of the device, the superblock and the transaction that were
/// asked for, and of the root that the object map gives.
pub proof fn law_opened_view_is_the_one_asked_for<D: ApfsImage>(
    dev: D,
    block_size: u32,
    apsb: ApfsSuperblock,
    max_xid: u64,
    root_tree_oid: u64,
    vol: Volume<D>,
)
    requires
        Volume::<D>::opened(dev, block_size, apsb, max_xid, root_tree_oid, Ok(vol)),
    ensures
        vol.dev == dev,
        vol.block_size == block_size,
        vol.apsb == apsb,
        vol.max_xid == max_xid,
        exists|bt: D::Reader, entry: OmapEntry|
            {
                &&& #[trigger] call_ensures(D::tree_reader, (&dev, block_size), bt)
                &&& #[trigger] call_ensures(
                    <D::Reader as TreeReader>::omap_get,
                    (&bt, vol.omap_tree_root, root_tree_oid, max_xid),
                    Ok(Some(entry)),
                )
                &&& vol.root_tree_root == entry.val.paddr
                &&& entry.val.flags & 1 == 0
                &&& entry.val.flags & 4 == 0
            },
        exists|data: Vec<u8>, omap: OmapPhys|
            {
                &&& #[trigger] call_ensures(
                    <D as BlockDevice>::read_block,
                    (&dev, apsb.omap_oid, block_size),
                    Ok(data),
                )
                &&& #[trigger] call_ensures(D::parse_omap, (&data,), Ok(omap))
                &&& omap.physical_tree
                &&& vol.omap_tree_root == omap.tree_oid
            },
{
    let r: Result<Volume<D>, Error> = Ok(vol);
    let report = choose|report: Result<Vec<String>, Error>|
        {
            &&& #[trigger] call_ensures(D::check_volume, (&apsb,), report)
            &&& match report {
                Err(error) => r matches Err(e) && e == error,
                Ok(warnings) => Volume::<D>::opened_with(
                    dev,
                    block_size,
                    apsb,
                    max_xid,
                    root_tree_oid,
                    warnings@,
                    r,
                ),
            }
        };
    let warnings = report->Ok_0@;
    let block = choose|block: Result<Vec<u8>, Error>|
        {
            &&& #[trigger] call_ensures(
                <D as BlockDevice>::read_block,
                (&dev, apsb.omap_oid, block_size),
                block,
            )
            &&& match block {
                Err(error) => r matches Err(e) && e == error,
                Ok(data) => exists|omap: Result<OmapPhys, Error>|
                    {
                        &&& #[trigger] call_ensures(D::parse_omap, (&data,), omap)
                        &&& match omap_root_from(omap) {
                            Err(error) => r matches Err(e) && e@ == error,
                            Ok(omap_root) => Volume::<D>::opened_at(
                                dev,
                                block_size,
                                apsb,
                                max_xid,
                                root_tree_oid,
                                warnings,
                                omap_root,
                                r,
                            ),
                        }
                    },
            }
        };
    let data = block->Ok_0;
    assert(block == Ok::<Vec<u8>, Error>(data));
    let head = choose|omap: Result<OmapPhys, Error>|
        {
            &&& #[trigger] call_ensures(D::parse_omap, (&data,), omap)
            &&& match omap_root_from(omap) {
                Err(error) => r matches Err(e) && e@ == error,
                Ok(omap_root) => Volume::<D>::opened_at(
                    dev,
                    block_size,
                    apsb,
                    max_xid,
                    root_tree_oid,
                    warnings,
                    omap_root,
                    r,
                ),
            }
        };
    let omap = head->Ok_0;
    assert(head == Ok::<OmapPhys, Error>(omap));
    let omap_root = omap.tree_oid;
    let (bt, reply) = choose|bt: D::Reader, reply: Result<Option<OmapEntry>, Error>|
        {
            &&& #[trigger] call_ensures(D::tree_reader, (&dev, block_size), bt)
            &&& #[trigger] call_ensures(
                <D::Reader as TreeReader>::omap_get,
                (&bt, omap_root, root_tree_oid, max_xid),
                reply,
            )
            &&& match root_from(reply, root_tree_oid) {
                Err(error) => r matches Err(e) && e@ == error,
                Ok(root) => exists|more: Vec<String>|
                    {
                        &&& #[trigger] call_ensures(
                            <D::Reader as TreeReader>::take_warnings,
                            (&bt,),
                            more,
                        )
                        &&& r matches Ok(vol)
                        &&& vol.dev == dev
                        &&& vol.block_size == block_size
                        &&& vol.apsb == apsb
                        &&& vol.omap_tree_root == omap_root
                        &&& vol.root_tree_root == root
                        &&& vol.max_xid == max_xid
                        &&& vol.warnings@ == warnings + more@
                    },
            }
        };
    let entry = reply->Ok_0->Some_0;
    assert(reply == Ok::<Option<OmapEntry>, Error>(Some(entry)));
}

/// The data of a file is described by its own records where it has the same id, and
/// otherwise by those of the id that the inode names.
pub proof fn law_data_records_are_those_of_the_data<'a, D: ApfsImage, B: TreeReader>(
    vol: &Volume<D>,
    bt: &B,
    fsoid: u64,
    private_id: u64,
    inode_records: Seq<Record>,
    given: Cow<'a, [Record]>,
)
    requires
        vol.data_records_given(bt, fsoid, private_id, inode_records, Ok(given)),
    ensures
        private_id == fsoid ==> records_in(given) == inode_records,
        private_id != fsoid ==> exists|loaded: Vec<Record>| #[trigger]
            call_ensures(
                B::fs_collect,
                (bt, Some(vol.omap_tree_root), vol.root_tree_root, private_id, vol.max_xid),
                Ok(loaded),
            ) && records_in(given) == loaded@,
{
    if private_id != fsoid {
        let r: Result<Cow<'a, [Record]>, Error> = Ok(given);
        let reply = choose|reply: Result<Vec<Record>, Error>| #[trigger]
            vol.asked(bt, private_id, reply) && match reply {
                Ok(loaded) => r matches Ok(Cow::Owned(records)) && records@ == loaded@,
                Err(error) => false,
            };
        assert(reply == Ok::<Vec<Record>, Error>(reply->Ok_0));
    }
}

/// The value of an attribute is its own data, or what its stream holds: as many bytes as the
/// stream says, with neither a hole nor an overlap. Flags that say both or neither are
/// corrupt.
pub proof fn law_attribute_value_is_whole<D: ApfsImage, B: TreeReader>(
    vol: &Volume<D>,
    bt: &B,
    xattr: &Xattr,
    r: Result<Vec<u8>, Error>,
)
    requires
        vol.xattr_read(bt, xattr, r),
    ensures
        xattr.embedded && !xattr.stream ==> (r matches Ok(data) && data@ == xattr.data@),
        xattr.embedded == xattr.stream ==> (r matches Err(error) && error.kind
            == ErrorKind::Corrupt),
        !xattr.embedded && xattr.stream ==> (r matches Ok(data) ==> exists|
            stream: XattrStream,
            records: Vec<Record>,
            extents: Seq<FileExtent>,
        |
            {
                &&& call_ensures(D::parse_xattr_stream, (&xattr.data,), Ok(stream))
                &&& #[trigger] vol.asked(bt, stream.xattr_obj_id, Ok(records))
                &&& extents_in(record_views(records@)) == Ok::<Seq<FileExtent>, ErrorView>(extents)
                &&& data@.len() == stream.size
                &&& #[trigger] is_whole(extents, stream.size)
                &&& extents_written(
                    &vol.dev,
                    vol.block_size,
                    layout_of(by_address(extents), stream.size as int).segments,
                    Ok(()),
                    Seq::empty(),
                    data@,
                )
            }),
{
    if !xattr.embedded && xattr.stream && r is Ok {
        let data = r->Ok_0;
        let reply = choose|reply: Result<XattrStream, Error>| #[trigger]
            call_ensures(D::parse_xattr_stream, (&xattr.data,), reply) && match reply {
                Err(error) => r matches Err(e) && e == error,
                Ok(stream) => vol.stream_read(bt, xattr.name@, stream, r),
            };
        let stream = reply->Ok_0;
        assert(reply == Ok::<XattrStream, Error>(stream));
        let asked = choose|asked: Result<Vec<Record>, Error>| #[trigger]
            vol.asked(bt, stream.xattr_obj_id, asked) && match asked {
                Err(error) => r matches Err(e) && e@ == in_context(
                    error@,
                    stream_context(xattr.name@, stream.xattr_obj_id),
                ),
                Ok(records) => {
                    ||| (r matches Err(e) && e@ == no_memory(xattr.name@, stream.size))
                    ||| vol.stream_from(records@, xattr.name@, stream.size, r)
                },
            };
        let records = asked->Ok_0;
        assert(asked == Ok::<Vec<Record>, Error>(records));
        let (written, out) = choose|written: Result<Written, Error>, out: Seq<u8>|
            {
                &&& #[trigger] vol.data_written(
                    records@,
                    stream.size,
                    written,
                    Seq::empty(),
                    out,
                )
                &&& match written {
                    Err(error) => r matches Err(e) && e == error,
                    Ok(w) => if w.holes > 0 || w.overlaps > 0 {
                        r matches Err(e) && e@ == incomplete_stream(xattr.name@, w)
                    } else {
                        r matches Ok(data) && data@ == out && out.len() == stream.size
                    },
                }
            };
        let extents = extents_in(record_views(records@))->Ok_0;
        assert(is_whole(extents, stream.size));
        assert(vol.asked(bt, stream.xattr_obj_id, Ok(records)));
    }
}

/// The extents of `size` bytes leave no hole and do not overlap.
pub open spec fn is_whole(extents: Seq<FileExtent>, size: u64) -> bool {
    let written = account(layout_of(by_address(extents), size as int), size);
    written.holes == 0 && written.overlaps == 0
}

/// Data that is written with or without its holes is accounted for in the same way: by the
/// layout of the extents, ordered by their addresses, over the whole size.
pub proof fn law_both_ways_give_the_same_account<D: ApfsImage>(
    vol: &Volume<D>,
    records: Seq<Record>,
    size: u64,
    dense: Written,
    before: Seq<u8>,
    after: Seq<u8>,
    sparse: Written,
    file: SparseFile,
    file_after: SparseFile,
)
    requires
        vol.data_written(records, size, Ok(dense), before, after),
        vol.sparse_data_written(records, size, Ok(sparse), file, file_after),
    ensures
        dense == sparse,
        extents_in(record_views(records)) matches Ok(extents) && dense == account(
            layout_of(by_address(extents), size as int),
            size,
        ),
{
}

} // verus!
