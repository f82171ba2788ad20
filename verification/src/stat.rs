//! What is known of one file-system object.
use crate::decmpfs::{header_of, parse_header, Header, DECMPFS_XATTR_NAME};
use crate::error::{failure, is_failed, Error, ErrorKind, ErrorView};
use crate::extract::{account, by_address, layout_of, plan};
use crate::image::{ApfsImage, Inode, TreeReader, Xattr, XattrStream};
use crate::jrec::{
    law_key_word_splits, object_id, record_type, record_views, split_obj_id_and_type, type_of_key, FileExtent,
    Record, RecordView, APFS_TYPE_CRYPTO_STATE, APFS_TYPE_DIR_REC, APFS_TYPE_DIR_STATS,
    APFS_TYPE_DSTREAM_ID, APFS_TYPE_EXTENT, APFS_TYPE_FILE_EXTENT, APFS_TYPE_FILE_INFO,
    APFS_TYPE_INODE, APFS_TYPE_SIBLING_LINK, APFS_TYPE_SIBLING_MAP, APFS_TYPE_SNAP_METADATA,
    APFS_TYPE_SNAP_NAME, APFS_TYPE_XATTR,
};
use crate::json::{json_values, law_added_field_is_found, says, with, Fields, Json, JsonView};
use crate::options::Options;
use crate::raw::{law_fields_are_read_from_their_bytes, number_at, u64_at, u64_field};
use crate::text::{
    dec, digit_value, hex_padded, hex_padded_text, hex_prefixed, law_padded_numbers_read_back,
    number_in, octal_prefixed, opt_text, push_dec, push_hex, push_octal, str_eq,
};
use crate::vol::{
    are_places, collect_extents, extents_in, key_error, lemma_next_position, lemma_places, positions,
    record_slice, records_in, Resolved, SnapshotSource, Volume,
};
use std::borrow::Cow;
use vstd::prelude::*;

verus! {

// ---------------------------------------------------------------------------
// Names and numbers
// ---------------------------------------------------------------------------

/// The name of a record type.
pub open spec fn record_label(ty: u8) -> Seq<char> {
    if ty == APFS_TYPE_SNAP_METADATA {
        "snap_metadata"@
    } else if ty == APFS_TYPE_EXTENT {
        "extent"@
    } else if ty == APFS_TYPE_INODE {
        "inode"@
    } else if ty == APFS_TYPE_XATTR {
        "xattr"@
    } else if ty == APFS_TYPE_SIBLING_LINK {
        "sibling_link"@
    } else if ty == APFS_TYPE_DSTREAM_ID {
        "dstream_id"@
    } else if ty == APFS_TYPE_CRYPTO_STATE {
        "crypto_state"@
    } else if ty == APFS_TYPE_FILE_EXTENT {
        "file_extent"@
    } else if ty == APFS_TYPE_DIR_REC {
        "dir_rec"@
    } else if ty == APFS_TYPE_DIR_STATS {
        "dir_stats"@
    } else if ty == APFS_TYPE_SNAP_NAME {
        "snap_name"@
    } else if ty == APFS_TYPE_SIBLING_MAP {
        "sibling_map"@
    } else if ty == APFS_TYPE_FILE_INFO {
        "file_info"@
    } else {
        "unknown"@
    }
}

/// The name of a record type.
pub fn jrec_type_name(ty: u8) -> (r: &'static str)
    ensures
        r@ == record_label(ty),
{
    if ty == APFS_TYPE_SNAP_METADATA {
        "snap_metadata"
    } else if ty == APFS_TYPE_EXTENT {
        "extent"
    } else if ty == APFS_TYPE_INODE {
        "inode"
    } else if ty == APFS_TYPE_XATTR {
        "xattr"
    } else if ty == APFS_TYPE_SIBLING_LINK {
        "sibling_link"
    } else if ty == APFS_TYPE_DSTREAM_ID {
        "dstream_id"
    } else if ty == APFS_TYPE_CRYPTO_STATE {
        "crypto_state"
    } else if ty == APFS_TYPE_FILE_EXTENT {
        "file_extent"
    } else if ty == APFS_TYPE_DIR_REC {
        "dir_rec"
    } else if ty == APFS_TYPE_DIR_STATS {
        "dir_stats"
    } else if ty == APFS_TYPE_SNAP_NAME {
        "snap_name"
    } else if ty == APFS_TYPE_SIBLING_MAP {
        "sibling_map"
    } else if ty == APFS_TYPE_FILE_INFO {
        "file_info"
    } else {
        "unknown"
    }
}

/// Bytes in hexadecimal, two digits each.
pub open spec fn hex_of(bytes: Seq<u8>) -> Seq<char>
    decreases bytes.len(),
{
    if bytes.len() == 0 {
        Seq::empty()
    } else {
        hex_of(bytes.drop_last()) + hex_padded(bytes.last() as nat, 2)
    }
}

/// The first `n` bytes in hexadecimal, two digits each.
pub fn hex_prefix(bytes: &Vec<u8>, n: usize) -> (r: String)
    requires
        n <= bytes@.len(),
    ensures
        r@ == hex_of(bytes@.take(n as int)),
{
    let mut out = String::new();
    let mut i: usize = 0;
    proof {
        assert(bytes@.take(0) =~= Seq::empty());
        assert(out@ =~= Seq::empty());
    }
    while i < n
        invariant
            i <= n <= bytes@.len(),
            out@ == hex_of(bytes@.take(i as int)),
        decreases n - i,
    {
        proof {
            assert(bytes@.take(i + 1).drop_last() =~= bytes@.take(i as int));
            assert(bytes@.take(i + 1).last() == bytes@[i as int]);
        }
        out.append(hex_padded_text(bytes[i] as u64, 2).as_str());
        i += 1;
    }
    out
}

/// Bytes in hexadecimal, two digits each.
pub fn hex(bytes: &Vec<u8>) -> (r: String)
    ensures
        r@ == hex_of(bytes@),
{
    proof {
        assert(bytes@.take(bytes@.len() as int) =~= bytes@);
    }
    hex_prefix(bytes, bytes.len())
}

// ---------------------------------------------------------------------------
// Inodes
// ---------------------------------------------------------------------------

/// The times of an inode as text, where they can be written as such.
pub struct InodeTimes {
    pub create_time: Option<String>,
    pub mod_time: Option<String>,
    pub change_time: Option<String>,
    pub access_time: Option<String>,
}

/// `fields` with a time under `key` and its raw value under `raw_key`, where the
/// time can be written as text.
pub open spec fn with_time(
    fields: Seq<(Seq<char>, JsonView)>,
    key: Seq<char>,
    raw_key: Seq<char>,
    text: Option<Seq<char>>,
    raw: u64,
) -> Seq<(Seq<char>, JsonView)> {
    match text {
        Some(text) => with(with(fields, key, JsonView::Str(text)), raw_key, JsonView::UInt(raw)),
        None => fields,
    }
}

/// An inode as the fields of a JSON object.
pub open spec fn inode_fields(i: Inode, times: InodeTimes) -> Seq<(Seq<char>, JsonView)> {
    let f = Seq::empty();
    let f = with(f, "parent_id"@, JsonView::UInt(i.parent_id));
    let f = with(f, "private_id"@, JsonView::UInt(i.private_id));
    let f = with(f, "mode"@, JsonView::UInt(i.mode as u64));
    let f = with(f, "uid"@, JsonView::UInt(i.owner as u64));
    let f = with(f, "gid"@, JsonView::UInt(i.group as u64));
    let f = with(f, "internal_flags"@, JsonView::Str(hex_prefixed(i.internal_flags as nat)));
    let f = with(f, "bsd_flags"@, JsonView::Str(hex_prefixed(i.bsd_flags as nat)));
    let f = with(f, "nchildren_or_nlink"@, JsonView::Int(i.nchildren_or_nlink as i64));
    let f = with(f, "is_dir"@, JsonView::Bool(i.kind is Dir));
    let f = with(f, "is_symlink"@, JsonView::Bool(i.kind is Symlink));
    let f = with(f, "is_regular"@, JsonView::Bool(i.kind is Regular));
    let f = with(f, "compressed"@, JsonView::Bool(i.compressed));
    let f = with(f, "sparse"@, JsonView::Bool(i.sparse));
    let f = with(f, "has_rsrc_fork"@, JsonView::Bool(i.rsrc_fork));
    let f = with(f, "has_finder_info"@, JsonView::Bool(i.finder_info));
    let f = match i.logical_size {
        Some(size) => with(f, "size"@, JsonView::UInt(size)),
        None => f,
    };
    let f = match i.allocated_size {
        Some(size) => with(f, "allocated_size"@, JsonView::UInt(size)),
        None => f,
    };
    let f = match i.name {
        Some(name) => with(f, "name"@, JsonView::Str(name@)),
        None => f,
    };
    let f = with_time(
        f,
        "create_time"@,
        "create_time_raw"@,
        opt_text(times.create_time),
        i.create_time,
    );
    let f = with_time(f, "mod_time"@, "mod_time_raw"@, opt_text(times.mod_time), i.mod_time);
    let f = with_time(
        f,
        "change_time"@,
        "change_time_raw"@,
        opt_text(times.change_time),
        i.change_time,
    );
    with_time(f, "access_time"@, "access_time_raw"@, opt_text(times.access_time), i.access_time)
}

/// An inode's object has one field for each of its properties: the owner is the `uid`, the
/// group the `gid`, and so on. A size, a name or a time that is not known has none.
pub proof fn law_inode_object_names_each_property(i: Inode, times: InodeTimes)
    ensures
        ({
            let f = inode_fields(i, times);
            &&& says(f, "parent_id"@, JsonView::UInt(i.parent_id))
            &&& says(f, "private_id"@, JsonView::UInt(i.private_id))
            &&& says(f, "mode"@, JsonView::UInt(i.mode as u64))
            &&& says(f, "uid"@, JsonView::UInt(i.owner as u64))
            &&& says(f, "gid"@, JsonView::UInt(i.group as u64))
            &&& says(f, "internal_flags"@, JsonView::Str(hex_prefixed(i.internal_flags as nat)))
            &&& says(f, "bsd_flags"@, JsonView::Str(hex_prefixed(i.bsd_flags as nat)))
            &&& says(f, "nchildren_or_nlink"@, JsonView::Int(i.nchildren_or_nlink as i64))
            &&& says(f, "is_dir"@, JsonView::Bool(i.kind is Dir))
            &&& says(f, "is_symlink"@, JsonView::Bool(i.kind is Symlink))
            &&& says(f, "is_regular"@, JsonView::Bool(i.kind is Regular))
            &&& says(f, "compressed"@, JsonView::Bool(i.compressed))
            &&& says(f, "sparse"@, JsonView::Bool(i.sparse))
            &&& says(f, "has_rsrc_fork"@, JsonView::Bool(i.rsrc_fork))
            &&& says(f, "has_finder_info"@, JsonView::Bool(i.finder_info))
            &&& i.logical_size matches Some(size) ==> says(f, "size"@, JsonView::UInt(size))
            &&& i.allocated_size matches Some(size) ==> says(
                f,
                "allocated_size"@,
                JsonView::UInt(size),
            )
            &&& i.name matches Some(name) ==> says(f, "name"@, JsonView::Str(name@))
            &&& times.create_time matches Some(text) ==> says(
                f,
                "create_time"@,
                JsonView::Str(text@),
            ) && says(f, "create_time_raw"@, JsonView::UInt(i.create_time))
            &&& times.mod_time matches Some(text) ==> says(f, "mod_time"@, JsonView::Str(text@))
                && says(f, "mod_time_raw"@, JsonView::UInt(i.mod_time))
            &&& times.change_time matches Some(text) ==> says(
                f,
                "change_time"@,
                JsonView::Str(text@),
            ) && says(f, "change_time_raw"@, JsonView::UInt(i.change_time))
            &&& times.access_time matches Some(text) ==> says(
                f,
                "access_time"@,
                JsonView::Str(text@),
            ) && says(f, "access_time_raw"@, JsonView::UInt(i.access_time))
            &&& f.len() == 15 + (if i.logical_size is Some { 1int } else { 0 })
                + (if i.allocated_size is Some { 1int } else { 0 })
                + (if i.name is Some { 1int } else { 0 })
                + (if times.create_time is Some { 2int } else { 0 })
                + (if times.mod_time is Some { 2int } else { 0 })
                + (if times.change_time is Some { 2int } else { 0 })
                + (if times.access_time is Some { 2int } else { 0 })
        }),
{
    let f = Seq::empty();
    let f = law_added_field_is_found(f, "parent_id"@, JsonView::UInt(i.parent_id));
    let f = law_added_field_is_found(f, "private_id"@, JsonView::UInt(i.private_id));
    let f = law_added_field_is_found(f, "mode"@, JsonView::UInt(i.mode as u64));
    let f = law_added_field_is_found(f, "uid"@, JsonView::UInt(i.owner as u64));
    let f = law_added_field_is_found(f, "gid"@, JsonView::UInt(i.group as u64));
    let f = law_added_field_is_found(f, "internal_flags"@, JsonView::Str(hex_prefixed(i.internal_flags as nat)));
    let f = law_added_field_is_found(f, "bsd_flags"@, JsonView::Str(hex_prefixed(i.bsd_flags as nat)));
    let f = law_added_field_is_found(f, "nchildren_or_nlink"@, JsonView::Int(i.nchildren_or_nlink as i64));
    let f = law_added_field_is_found(f, "is_dir"@, JsonView::Bool(i.kind is Dir));
    let f = law_added_field_is_found(f, "is_symlink"@, JsonView::Bool(i.kind is Symlink));
    let f = law_added_field_is_found(f, "is_regular"@, JsonView::Bool(i.kind is Regular));
    let f = law_added_field_is_found(f, "compressed"@, JsonView::Bool(i.compressed));
    let f = law_added_field_is_found(f, "sparse"@, JsonView::Bool(i.sparse));
    let f = law_added_field_is_found(f, "has_rsrc_fork"@, JsonView::Bool(i.rsrc_fork));
    let f = law_added_field_is_found(f, "has_finder_info"@, JsonView::Bool(i.finder_info));
    let f = match i.logical_size {
        Some(size) => law_added_field_is_found(f, "size"@, JsonView::UInt(size)),
        None => f,
    };
    let f = match i.allocated_size {
        Some(size) => law_added_field_is_found(f, "allocated_size"@, JsonView::UInt(size)),
        None => f,
    };
    let f = match i.name {
        Some(name) => law_added_field_is_found(f, "name"@, JsonView::Str(name@)),
        None => f,
    };
    let f = more_time(
        f,
        "create_time"@,
        "create_time_raw"@,
        opt_text(times.create_time),
        i.create_time,
    );
    let f = more_time(f, "mod_time"@, "mod_time_raw"@, opt_text(times.mod_time), i.mod_time);
    let f = more_time(
        f,
        "change_time"@,
        "change_time_raw"@,
        opt_text(times.change_time),
        i.change_time,
    );
    let f = more_time(f, "access_time"@, "access_time_raw"@, opt_text(times.access_time), i.access_time);
    assert(f == inode_fields(i, times));
}

proof fn more_time(
    f: Seq<(Seq<char>, JsonView)>,
    key: Seq<char>,
    raw_key: Seq<char>,
    text: Option<Seq<char>>,
    raw: u64,
) -> (more: Seq<(Seq<char>, JsonView)>)
    ensures
        more == with_time(f, key, raw_key, text, raw),
        text matches Some(text) ==> says(more, key, JsonView::Str(text)) && says(
            more,
            raw_key,
            JsonView::UInt(raw),
        ),
        more.len() == f.len() + (if text is Some { 2int } else { 0 }),
        forall|k: Seq<char>, v: JsonView| #[trigger] says(f, k, v) ==> says(more, k, v),
{
    match text {
        Some(text) => {
            let f = law_added_field_is_found(f, key, JsonView::Str(text));
            law_added_field_is_found(f, raw_key, JsonView::UInt(raw))
        },
        None => f,
    }
}

fn put_time(f: &mut Fields, key: &str, raw_key: &str, text: &Option<String>, raw: u64)
    ensures
        final(f)@ == with_time(old(f)@, key@, raw_key@, opt_text(*text), raw),
{
    match text {
        Some(text) => {
            f.put_str(key, text.as_str());
            f.put_u64(raw_key, raw);
        },
        None => {},
    }
}

/// An inode as a JSON object.
pub fn inode_json(i: &Inode, times: &InodeTimes) -> (r: Json)
    ensures
        r@ == JsonView::Object(inode_fields(*i, *times)),
{
    let mut f = Fields::new();
    f.put_u64("parent_id", i.parent_id);
    f.put_u64("private_id", i.private_id);
    f.put_u64("mode", i.mode as u64);
    f.put_u64("uid", i.owner as u64);
    f.put_u64("gid", i.group as u64);
    f.put_hex("internal_flags", i.internal_flags);
    f.put_hex("bsd_flags", i.bsd_flags as u64);
    f.put("nchildren_or_nlink", Json::Int(i.nchildren_or_nlink as i64));
    f.put_bool("is_dir", i.is_dir());
    f.put_bool("is_symlink", i.is_symlink());
    f.put_bool("is_regular", i.is_regular());
    f.put_bool("compressed", i.compressed);
    f.put_bool("sparse", i.sparse);
    f.put_bool("has_rsrc_fork", i.rsrc_fork);
    f.put_bool("has_finder_info", i.finder_info);
    match i.logical_size {
        Some(size) => f.put_u64("size", size),
        None => {},
    }
    match i.allocated_size {
        Some(size) => f.put_u64("allocated_size", size),
        None => {},
    }
    match &i.name {
        Some(name) => f.put_str("name", name.as_str()),
        None => {},
    }
    put_time(&mut f, "create_time", "create_time_raw", &times.create_time, i.create_time);
    put_time(&mut f, "mod_time", "mod_time_raw", &times.mod_time, i.mod_time);
    put_time(&mut f, "change_time", "change_time_raw", &times.change_time, i.change_time);
    put_time(&mut f, "access_time", "access_time_raw", &times.access_time, i.access_time);
    f.object()
}

// ---------------------------------------------------------------------------
// Recoverability
// ---------------------------------------------------------------------------

/// How far a file's extents let it be recovered.
pub open spec fn extent_status(
    size: u64,
    sparse: bool,
    has_extent: bool,
    has_hole: bool,
    has_overlap: bool,
) -> Seq<char> {
    if size == 0 {
        "ok"@
    } else if !has_extent && !sparse {
        "no-extents"@
    } else if has_overlap || (has_hole && !sparse) {
        "partial"@
    } else if has_hole {
        "ok-sparse"@
    } else if has_extent {
        "ok"@
    } else {
        "no-extents"@
    }
}

fn extent_status_text(
    size: u64,
    sparse: bool,
    has_extent: bool,
    has_hole: bool,
    has_overlap: bool,
) -> (r: &'static str)
    ensures
        r@ == extent_status(size, sparse, has_extent, has_hole, has_overlap),
{
    if size == 0 {
        "ok"
    } else if !has_extent && !sparse {
        "no-extents"
    } else if has_overlap || (has_hole && !sparse) {
        "partial"
    } else if has_hole {
        "ok-sparse"
    } else if has_extent {
        "ok"
    } else {
        "no-extents"
    }
}

/// A status with its reason.
pub open spec fn status_with_reason(status: Seq<char>, reason: Seq<char>) -> JsonView {
    JsonView::Object(
        with(with(Seq::empty(), "status"@, JsonView::Str(status)), "reason"@, JsonView::Str(reason)),
    )
}

fn status_reason_json(status: &str, reason: &str) -> (r: Json)
    ensures
        r@ == status_with_reason(status@, reason@),
{
    let mut f = Fields::new();
    f.put_str("status", status);
    f.put_str("reason", reason);
    f.object()
}

/// What is said of a compressed file.
pub open spec fn compressed_status(size: u64, header: Header) -> JsonView {
    let f = Seq::empty();
    let f = with(f, "status"@, JsonView::Str("ok-compressed"@));
    let f = with(f, "size"@, JsonView::UInt(size));
    let f = with(f, "compression_type"@, JsonView::UInt(header.compression_type as u64));
    let f = with(f, "compression_storage"@, JsonView::Str(header.spec_storage().name()));
    let f = with(f, "compression_codec"@, JsonView::Str(header.spec_codec()));
    JsonView::Object(
        with(
            f,
            "compressed_size_matches_inode"@,
            JsonView::Bool(header.uncompressed_size == size),
        ),
    )
}

/// What is said of a compressed file with this header.
pub fn compressed_json(size: u64, header: Header) -> (r: Json)
    ensures
        r@ == compressed_status(size, header),
{
    let mut f = Fields::new();
    f.put_str("status", "ok-compressed");
    f.put_u64("size", size);
    f.put_u64("compression_type", header.compression_type as u64);
    f.put_str("compression_storage", header.storage().as_str());
    f.put_str("compression_codec", header.codec());
    f.put_bool("compressed_size_matches_inode", header.uncompressed_size == size);
    f.object()
}

/// What is said of a file of `size` bytes that has `extents`. Holes and overlaps
/// are those that recovery would account for.
pub open spec fn plain_status(size: u64, sparse: bool, extents: Seq<FileExtent>) -> JsonView {
    let written = account(layout_of(by_address(extents), size as int), size);
    let has_extent = extents.len() > 0;
    let has_hole = written.holes > 0;
    let has_overlap = written.overlaps > 0;
    let f = Seq::empty();
    let f = with(
        f,
        "status"@,
        JsonView::Str(extent_status(size, sparse, has_extent, has_hole, has_overlap)),
    );
    let f = with(f, "size"@, JsonView::UInt(size));
    let f = with(f, "has_extents"@, JsonView::Bool(has_extent));
    let f = with(f, "has_holes"@, JsonView::Bool(has_hole));
    JsonView::Object(with(f, "has_overlaps"@, JsonView::Bool(has_overlap)))
}

/// `r` is a value that looks like `told`.
pub open spec fn is_told(r: Result<Json, Error>, told: JsonView) -> bool {
    r matches Ok(json) && json@ == told
}

/// The error of a compressed file that does not say how it is compressed.
pub open spec fn no_compression_header() -> ErrorView {
    failure(ErrorKind::Corrupt, "compressed inode has no com.apple.decmpfs xattr"@)
}

/// `r` is what is said of a compressed file of `size` bytes whose compression
/// attribute reads as `data`.
pub open spec fn compressed_told(
    size: u64,
    data: Result<Vec<u8>, Error>,
    r: Result<Json, Error>,
) -> bool {
    match data {
        Err(error) => is_failed(r, error@),
        Ok(bytes) => match header_of(bytes@) {
            Err(error) => is_failed(r, error),
            Ok(header) => is_told(r, compressed_status(size, header)),
        },
    }
}

/// `r` is what is said of a compressed file of `size` bytes for whose compression
/// attribute looking gave `found`.
pub open spec fn compression_told<D: ApfsImage, B: TreeReader>(
    vol: &Volume<D>,
    bt: &B,
    size: u64,
    found: Result<Option<Xattr>, Error>,
    r: Result<Json, Error>,
) -> bool {
    match found {
        Err(error) => is_failed(r, error@),
        Ok(None) => is_failed(r, no_compression_header()),
        Ok(Some(x)) => exists|data: Result<Vec<u8>, Error>| #[trigger]
            vol.xattr_read(bt, &x, data) && compressed_told(size, data, r),
    }
}

/// `r` says whether, and why, an object can be recovered: from the kind of the
/// object, and for a file from its compression attribute or from its extents.
pub open spec fn recoverability_told<D: ApfsImage, B: TreeReader>(
    inode: &Inode,
    vol: &Volume<D>,
    bt: &B,
    inode_records: Seq<Record>,
    records: Seq<Record>,
    r: Result<Json, Error>,
) -> bool {
    if vol.apsb.encrypted {
        is_told(
            r,
            status_with_reason("encrypted"@, "volume is encrypted; data cannot be decrypted"@),
        )
    } else if inode.kind is Dir {
        is_told(r, status_with_reason("ok"@, "directory (recurse to recover contents)"@))
    } else if inode.kind is Symlink {
        is_told(r, status_with_reason("ok"@, "symlink"@))
    } else if inode.compressed {
        exists|found: Result<Option<Xattr>, Error>| #[trigger]
            Volume::<D>::xattr_found(inode_records, DECMPFS_XATTR_NAME@, false, found)
                && compression_told(vol, bt, inode.spec_size(), found, r)
    } else {
        match extents_in(record_views(records)) {
            Err(error) => is_failed(r, error),
            Ok(extents) => is_told(r, plain_status(inode.spec_size(), inode.sparse, extents)),
        }
    }
}

/// Says whether, and why, an object can be recovered.
pub fn recoverability<D: ApfsImage, B: TreeReader>(
    inode: &Inode,
    vol: &Volume<D>,
    bt: &B,
    inode_records: &[Record],
    records: &[Record],
) -> (r: Result<Json, Error>)
    ensures
        recoverability_told(inode, vol, bt, inode_records@, records@, r),
{
    if vol.apsb.encrypted {
        return Ok(status_reason_json("encrypted", "volume is encrypted; data cannot be decrypted"));
    }
    if inode.is_dir() {
        return Ok(status_reason_json("ok", "directory (recurse to recover contents)"));
    }
    if inode.is_symlink() {
        return Ok(status_reason_json("ok", "symlink"));
    }
    let size: u64 = inode.size();
    if inode.compressed {
        let found = Volume::<D>::xattr(inode_records, DECMPFS_XATTR_NAME);
        let r = match &found {
            Err(error) => Err(error.clone()),
            Ok(None) => Err(
                Error::fixed(
                    ErrorKind::Corrupt,
                    "compressed inode has no com.apple.decmpfs xattr",
                ),
            ),
            Ok(Some(x)) => {
                let data = vol.read_xattr_data(bt, x);
                let told = match &data {
                    Err(error) => Err(error.clone()),
                    Ok(bytes) => match parse_header(bytes.as_slice()) {
                        Err(error) => Err(error),
                        Ok(header) => Ok(compressed_json(size, header)),
                    },
                };
                proof {
                    assert(compressed_told(size, data, told));
                }
                told
            },
        };
        proof {
            assert(compression_told(vol, bt, size, found, r));
        }
        return r;
    }
    match collect_extents(records) {
        Err(error) => Err(error),
        Ok(mut extents) => {
            let has_extent = extents.len() > 0;
            let (_, written) = plan(&mut extents, size);
            let has_hole = written.holes > 0;
            let has_overlap = written.overlaps > 0;
            let mut f = Fields::new();
            f.put_str(
                "status",
                extent_status_text(size, inode.sparse, has_extent, has_hole, has_overlap),
            );
            f.put_u64("size", size);
            f.put_bool("has_extents", has_extent);
            f.put_bool("has_holes", has_hole);
            f.put_bool("has_overlaps", has_overlap);
            Ok(f.object())
        },
    }
}

// ---------------------------------------------------------------------------
// Extents
// ---------------------------------------------------------------------------

/// One extent as a JSON object.
pub open spec fn extent_object(extent: FileExtent) -> JsonView {
    let f = Seq::empty();
    let f = with(f, "logical_addr"@, JsonView::UInt(extent.logical_addr));
    let f = with(f, "len"@, JsonView::UInt(extent.len));
    let f = with(f, "phys_block_num"@, JsonView::UInt(extent.phys_block_num));
    JsonView::Object(with(f, "hole"@, JsonView::Bool(extent.spec_is_hole())))
}

/// A list of extents as JSON objects.
pub open spec fn extent_objects(extents: Seq<FileExtent>) -> Seq<JsonView> {
    Seq::new(extents.len(), |i: int| extent_object(extents[i]))
}

/// The length of all extents together, modulo the range of a 64-bit number.
pub open spec fn total_len(extents: Seq<FileExtent>) -> u64
    decreases extents.len(),
{
    if extents.len() == 0 {
        0
    } else {
        total_len(extents.drop_last()).wrapping_add(extents.last().len)
    }
}

fn extent_json(extent: &FileExtent) -> (r: Json)
    ensures
        r@ == extent_object(*extent),
{
    let mut f = Fields::new();
    f.put_u64("logical_addr", extent.logical_addr);
    f.put_u64("len", extent.len);
    f.put_u64("phys_block_num", extent.phys_block_num);
    f.put_bool("hole", extent.is_hole());
    f.object()
}

/// Lists extents as JSON objects and sums their lengths up.
pub fn extents_json(extents: &Vec<FileExtent>) -> (r: (Vec<Json>, u64))
    ensures
        json_values(r.0@) == extent_objects(extents@),
        r.1 == total_len(extents@),
{
    let mut out: Vec<Json> = Vec::new();
    let mut total: u64 = 0;
    let mut i: usize = 0;
    proof {
        assert(extents@.take(0) =~= Seq::empty());
    }
    while i < extents.len()
        invariant
            i <= extents@.len(),
            out@.len() == i,
            forall|k: int| 0 <= k < i ==> (#[trigger] out@[k])@ == extent_object(extents@[k]),
            total == total_len(extents@.take(i as int)),
        decreases extents@.len() - i,
    {
        proof {
            let next = extents@.take(i + 1);
            assert(next.drop_last() =~= extents@.take(i as int));
            assert(next.last() == extents@[i as int]);
        }
        total = total.wrapping_add(extents[i].len);
        out.push(extent_json(&extents[i]));
        i += 1;
    }
    proof {
        assert(extents@.take(i as int) =~= extents@);
        assert(json_values(out@) =~= extent_objects(extents@));
    }
    (out, total)
}

// ---------------------------------------------------------------------------
// Extended attributes
// ---------------------------------------------------------------------------

/// How many bytes of a compression attribute are shown.
pub const PREFIX_LEN: usize = 32;

/// What is said of every attribute.
pub open spec fn xattr_fields(x: Xattr) -> Seq<(Seq<char>, JsonView)> {
    let f = Seq::empty();
    let f = with(f, "name"@, JsonView::Str(x.name@));
    let f = with(f, "embedded"@, JsonView::Bool(x.embedded));
    let f = with(f, "stream"@, JsonView::Bool(x.stream));
    with(f, "data_len"@, JsonView::UInt(x.data@.len() as u64))
}

/// What is said of an attribute that is kept in a stream.
pub open spec fn with_stream(
    f: Seq<(Seq<char>, JsonView)>,
    stream: XattrStream,
) -> Seq<(Seq<char>, JsonView)> {
    let f = with(f, "stream_id"@, JsonView::Str(hex_prefixed(stream.xattr_obj_id as nat)));
    let f = with(f, "stream_size"@, JsonView::UInt(stream.size));
    with(f, "stream_allocated_size"@, JsonView::UInt(stream.allocated_size))
}

/// The first bytes of an attribute's value.
pub open spec fn prefix_of(data: Seq<u8>) -> Seq<u8> {
    if data.len() < PREFIX_LEN {
        data
    } else {
        data.take(PREFIX_LEN as int)
    }
}

/// What is said of a compression attribute with this value.
pub open spec fn with_compression(
    f: Seq<(Seq<char>, JsonView)>,
    header: Header,
    data: Seq<u8>,
) -> Seq<(Seq<char>, JsonView)> {
    let f = with(f, "compression_type"@, JsonView::UInt(header.compression_type as u64));
    let f = with(f, "compression_storage"@, JsonView::Str(header.spec_storage().name()));
    let f = with(f, "compression_codec"@, JsonView::Str(header.spec_codec()));
    let f = with(f, "uncompressed_size"@, JsonView::UInt(header.uncompressed_size));
    with(f, "data_prefix_hex"@, JsonView::Str(hex_of(prefix_of(data))))
}

/// `r` is what is said of an attribute behind `f`, where its value reads as `data`.
pub open spec fn value_told(
    f: Seq<(Seq<char>, JsonView)>,
    data: Result<Vec<u8>, Error>,
    r: Result<Json, Error>,
) -> bool {
    match data {
        Err(error) => is_failed(r, error@),
        Ok(bytes) => match header_of(bytes@) {
            Err(error) => is_failed(r, error),
            Ok(header) => is_told(r, JsonView::Object(with_compression(f, header, bytes@))),
        },
    }
}

/// `r` is what is said of attribute `x` behind `f`. The value of a compression
/// attribute is read; no other is.
pub open spec fn xattr_told_behind<D: ApfsImage, B: TreeReader>(
    vol: &Volume<D>,
    bt: &B,
    x: &Xattr,
    f: Seq<(Seq<char>, JsonView)>,
    r: Result<Json, Error>,
) -> bool {
    if x.name@ == DECMPFS_XATTR_NAME@ {
        exists|data: Result<Vec<u8>, Error>| #[trigger]
            vol.xattr_read(bt, x, data) && value_told(f, data, r)
    } else {
        is_told(r, JsonView::Object(f))
    }
}

/// `r` is what is said of attribute `x` whose stream, if it has one, reads as
/// `stream`.
pub open spec fn xattr_told_with<D: ApfsImage, B: TreeReader>(
    vol: &Volume<D>,
    bt: &B,
    x: &Xattr,
    stream: Result<Option<XattrStream>, Error>,
    r: Result<Json, Error>,
) -> bool {
    match stream {
        Err(error) => is_failed(r, error@),
        Ok(None) => xattr_told_behind(vol, bt, x, xattr_fields(*x), r),
        Ok(Some(s)) => xattr_told_behind(vol, bt, x, with_stream(xattr_fields(*x), s), r),
    }
}

/// `stream` is what the image reads of an attribute's stream, where it has one.
pub open spec fn stream_asked<D: ApfsImage>(
    x: &Xattr,
    stream: Result<Option<XattrStream>, Error>,
) -> bool {
    if x.stream {
        exists|reply: Result<XattrStream, Error>| #[trigger]
            call_ensures(D::parse_xattr_stream, (&x.data,), reply) && match reply {
                Err(error) => is_failed(stream, error@),
                Ok(s) => stream == Ok::<Option<XattrStream>, Error>(Some(s)),
            }
    } else {
        stream == Ok::<Option<XattrStream>, Error>(None)
    }
}

/// `r` is what is said of one attribute.
pub open spec fn xattr_told<D: ApfsImage, B: TreeReader>(
    vol: &Volume<D>,
    bt: &B,
    x: &Xattr,
    r: Result<Json, Error>,
) -> bool {
    exists|stream: Result<Option<XattrStream>, Error>| #[trigger]
        stream_asked::<D>(x, stream) && xattr_told_with(vol, bt, x, stream, r)
}

fn ask_stream<D: ApfsImage>(x: &Xattr) -> (r: Result<Option<XattrStream>, Error>)
    ensures
        stream_asked::<D>(x, r),
{
    if x.stream {
        let reply = D::parse_xattr_stream(&x.data);
        match reply {
            Err(error) => Err(error),
            Ok(stream) => Ok(Some(stream)),
        }
    } else {
        Ok(None)
    }
}

fn put_value(f: &mut Fields, data: &Vec<u8>) -> (r: Result<(), Error>)
    ensures
        match header_of(data@) {
            Err(error) => final(f)@ == old(f)@ && is_failed(r, error),
            Ok(header) => r is Ok && final(f)@ == with_compression(old(f)@, header, data@),
        },
{
    match parse_header(data.as_slice()) {
        Err(error) => Err(error),
        Ok(header) => {
            f.put_u64("compression_type", header.compression_type as u64);
            f.put_str("compression_storage", header.storage().as_str());
            f.put_str("compression_codec", header.codec());
            f.put_u64("uncompressed_size", header.uncompressed_size);
            let n: usize = if data.len() < PREFIX_LEN {
                data.len()
            } else {
                PREFIX_LEN
            };
            proof {
                assert(data@.take(n as int) =~= prefix_of(data@));
            }
            f.put_str("data_prefix_hex", hex_prefix(data, n).as_str());
            Ok(())
        },
    }
}

/// Describes one attribute.
pub fn xattr_json<D: ApfsImage, B: TreeReader>(vol: &Volume<D>, bt: &B, x: &Xattr) -> (r: Result<
    Json,
    Error,
>)
    ensures
        xattr_told(vol, bt, x, r),
{
    let mut f = Fields::new();
    f.put_str("name", x.name.as_str());
    f.put_bool("embedded", x.embedded);
    f.put_bool("stream", x.stream);
    f.put_u64("data_len", x.data.len() as u64);
    let stream = ask_stream::<D>(x);
    match &stream {
        Err(error) => {
            let r = Err(error.clone());
            proof {
                assert(xattr_told_with(vol, bt, x, stream, r));
            }
            return r;
        },
        Ok(None) => {},
        Ok(Some(s)) => {
            f.put_hex("stream_id", s.xattr_obj_id);
            f.put_u64("stream_size", s.size);
            f.put_u64("stream_allocated_size", s.allocated_size);
        },
    }
    let ghost so_far = f@;
    let r = if str_eq(x.name.as_str(), DECMPFS_XATTR_NAME) {
        let data = vol.read_xattr_data(bt, x);
        let told = match &data {
            Err(error) => Err(error.clone()),
            Ok(bytes) => match put_value(&mut f, bytes) {
                Err(error) => Err(error),
                Ok(()) => Ok(f.object()),
            },
        };
        proof {
            assert(value_told(so_far, data, told));
        }
        told
    } else {
        Ok(f.object())
    };
    proof {
        assert(xattr_told_behind(vol, bt, x, so_far, r));
        assert(xattr_told_with(vol, bt, x, stream, r));
    }
    r
}

/// `r` is what is said of the attribute in one record.
pub open spec fn xattr_record_told<D: ApfsImage, B: TreeReader>(
    vol: &Volume<D>,
    bt: &B,
    record: Record,
    r: Result<Json, Error>,
) -> bool {
    exists|reply: Result<Xattr, Error>| #[trigger]
        call_ensures(D::parse_xattr, (&record.key, &record.val), reply) && match reply {
            Err(error) => is_failed(r, error@),
            Ok(x) => xattr_told(vol, bt, &x, r),
        }
}

/// `items` are what is said of the first attributes among `records`, in order.
pub open spec fn xattr_items<D: ApfsImage, B: TreeReader>(
    vol: &Volume<D>,
    bt: &B,
    records: Seq<Record>,
    items: Seq<Result<Json, Error>>,
) -> bool {
    let at = positions(record_views(records), 0, APFS_TYPE_XATTR);
    &&& items.len() <= at.len()
    &&& forall|k: int|
        0 <= k < items.len() ==> xattr_record_told(vol, bt, records[at[k]], #[trigger] items[k])
}

/// `r` is the list that `items` give: all of them in order, or the first error, be
/// it of an attribute or of a key.
pub open spec fn xattrs_from(
    records: Seq<Record>,
    items: Seq<Result<Json, Error>>,
    r: Result<Vec<Json>, Error>,
) -> bool {
    let views = record_views(records);
    if items.len() > 0 && items.last() is Err {
        &&& forall|k: int| 0 <= k < items.len() - 1 ==> (#[trigger] items[k]) is Ok
        &&& is_failed(r, items.last()->Err_0@)
    } else {
        &&& items.len() == positions(views, 0, APFS_TYPE_XATTR).len()
        &&& forall|k: int| 0 <= k < items.len() ==> (#[trigger] items[k]) is Ok
        &&& match key_error(views, 0) {
            Some(error) => is_failed(r, error),
            None => r matches Ok(out) && out@ == Seq::new(items.len(), |k: int| items[k]->Ok_0),
        }
    }
}

/// `r` lists what is said of the attributes among `records`.
pub open spec fn xattrs_told<D: ApfsImage, B: TreeReader>(
    vol: &Volume<D>,
    bt: &B,
    records: Seq<Record>,
    r: Result<Vec<Json>, Error>,
) -> bool {
    exists|items: Seq<Result<Json, Error>>| #[trigger]
        xattr_items(vol, bt, records, items) && xattrs_from(records, items, r)
}

fn xattr_record_json<D: ApfsImage, B: TreeReader>(
    vol: &Volume<D>,
    bt: &B,
    record: &Record,
) -> (r: Result<Json, Error>)
    ensures
        xattr_record_told(vol, bt, *record, r),
{
    let reply = D::parse_xattr(&record.key, &record.val);
    match &reply {
        Err(error) => Err(error.clone()),
        Ok(x) => xattr_json(vol, bt, x),
    }
}

/// Describes the attributes among the records of one object.
pub fn xattrs_json<D: ApfsImage, B: TreeReader>(
    vol: &Volume<D>,
    bt: &B,
    records: &[Record],
) -> (r: Result<Vec<Json>, Error>)
    ensures
        xattrs_told(vol, bt, records@, r),
{
    let ghost views = record_views(records@);
    let ghost at = positions(views, 0, APFS_TYPE_XATTR);
    let ghost mut items: Seq<Result<Json, Error>> = Seq::empty();
    let mut out: Vec<Json> = Vec::new();
    let mut i: usize = 0;
    proof {
        assert(at.skip(0) =~= at);
    }
    while i < records.len()
        invariant
            i <= records@.len(),
            views == record_views(records@),
            at == positions(views, 0, APFS_TYPE_XATTR),
            items.len() <= at.len(),
            at.skip(items.len() as int) == positions(views, i as int, APFS_TYPE_XATTR),
            key_error(views, 0) == key_error(views, i as int),
            xattr_items(vol, bt, records@, items),
            forall|k: int| 0 <= k < items.len() ==> (#[trigger] items[k]) is Ok,
            out@ =~= Seq::new(items.len(), |k: int| items[k]->Ok_0),
        decreases records@.len() - i,
    {
        match type_of_key(&records[i].key) {
            Err(error) => {
                proof {
                    assert(at.skip(items.len() as int).len() == 0);
                    assert(xattrs_from(records@, items, Err(error)));
                }
                return Err(error);
            },
            Ok(ty) => {
                if ty == APFS_TYPE_XATTR {
                    let item = xattr_record_json(vol, bt, &records[i]);
                    let ghost before = items;
                    proof {
                        let rest = positions(views, i + 1, APFS_TYPE_XATTR);
                        assert(at.skip(before.len() as int) == seq![i as int] + rest);
                        lemma_next_position(at, before.len() as int, i as int, rest);
                        items = items.push(item);
                        assert(xattr_items(vol, bt, records@, items));
                    }
                    match item {
                        Err(error) => {
                            proof {
                                assert(xattrs_from(records@, items, Err(error)));
                            }
                            return Err(error);
                        },
                        Ok(json) => out.push(json),
                    }
                }
            },
        }
        i += 1;
    }
    let r = Ok(out);
    proof {
        assert(at.skip(items.len() as int).len() == 0);
        assert(xattrs_from(records@, items, r));
    }
    r
}

// ---------------------------------------------------------------------------
// Raw records
// ---------------------------------------------------------------------------

/// One record as a JSON object, where `word` is the first of its key.
pub open spec fn record_object(record: RecordView, word: u64) -> JsonView {
    let f = Seq::empty();
    let f = with(f, "obj_id"@, JsonView::Str(hex_prefixed(object_id(word) as nat)));
    let f = with(f, "type"@, JsonView::Str(record_label(record_type(word))));
    let f = with(f, "key_len"@, JsonView::UInt(record.key.len() as u64));
    let f = with(f, "val_len"@, JsonView::UInt(record.val.len() as u64));
    JsonView::Object(with(f, "key_hex"@, JsonView::Str(hex_of(record.key))))
}

/// The objects of `records[i..]`, behind `acc`; the error of the first key that
/// cannot be read.
pub open spec fn record_objects(records: Seq<RecordView>, i: int, acc: Seq<JsonView>) -> Result<
    Seq<JsonView>,
    ErrorView,
>
    decreases records.len() - i,
{
    if !(0 <= i < records.len()) {
        Ok(acc)
    } else {
        match u64_field(records[i].key, 0) {
            Err(error) => Err(error),
            Ok(word) => record_objects(records, i + 1, acc.push(record_object(records[i], word))),
        }
    }
}

fn record_json(record: &Record, word: u64) -> (r: Json)
    ensures
        r@ == record_object(record@, word),
{
    let (oid, ty) = split_obj_id_and_type(word);
    let mut f = Fields::new();
    f.put_hex("obj_id", oid);
    f.put_str("type", jrec_type_name(ty));
    f.put_u64("key_len", record.key.len() as u64);
    f.put_u64("val_len", record.val.len() as u64);
    f.put_str("key_hex", hex(&record.key).as_str());
    f.object()
}

/// Describes every record as it stands.
pub fn records_json(records: &[Record]) -> (r: Result<Vec<Json>, Error>)
    ensures
        match record_objects(record_views(records@), 0, Seq::empty()) {
            Err(error) => is_failed(r, error),
            Ok(objects) => r matches Ok(out) && json_values(out@) == objects,
        },
{
    let ghost views = record_views(records@);
    let ghost whole = record_objects(views, 0, Seq::empty());
    let mut out: Vec<Json> = Vec::new();
    let mut i: usize = 0;
    proof {
        assert(json_values(out@) =~= Seq::empty());
    }
    while i < records.len()
        invariant
            i <= records@.len(),
            views == record_views(records@),
            whole == record_objects(views, 0, Seq::empty()),
            whole == record_objects(views, i as int, json_values(out@)),
        decreases records@.len() - i,
    {
        match u64_at(records[i].key.as_slice(), 0) {
            Err(error) => return Err(error),
            Ok(word) => {
                let ghost before = out@;
                let json = record_json(&records[i], word);
                let ghost object = json@;
                out.push(json);
                proof {
                    assert(json_values(out@) =~= json_values(before).push(object));
                }
            },
        }
        i += 1;
    }
    Ok(out)
}

// ---------------------------------------------------------------------------
// The whole object
// ---------------------------------------------------------------------------

/// `times` are the texts that the image gives for the times of an inode.
pub open spec fn times_asked<D: ApfsImage>(i: &Inode, times: InodeTimes) -> bool {
    &&& call_ensures(D::time_text, (i.create_time,), times.create_time)
    &&& call_ensures(D::time_text, (i.mod_time,), times.mod_time)
    &&& call_ensures(D::time_text, (i.change_time,), times.change_time)
    &&& call_ensures(D::time_text, (i.access_time,), times.access_time)
}

/// The times of an inode as text.
pub fn inode_times<D: ApfsImage>(i: &Inode) -> (r: InodeTimes)
    ensures
        times_asked::<D>(i, r),
{
    let create_time = D::time_text(i.create_time);
    let mod_time = D::time_text(i.mod_time);
    let change_time = D::time_text(i.change_time);
    let access_time = D::time_text(i.access_time);
    InodeTimes { create_time, mod_time, change_time, access_time }
}

/// `r` is the object of `f`, with the raw records behind it where they are wanted.
pub open spec fn records_added(
    opts: &Options,
    records: Seq<Record>,
    f: Seq<(Seq<char>, JsonView)>,
    r: Result<Json, Error>,
) -> bool {
    if opts.records {
        match record_objects(record_views(records), 0, Seq::empty()) {
            Err(error) => is_failed(r, error),
            Ok(objects) => is_told(
                r,
                JsonView::Object(with(f, "records"@, JsonView::Array(objects))),
            ),
        }
    } else {
        is_told(r, JsonView::Object(f))
    }
}

fn add_records(opts: &Options, records: &[Record], f: Fields) -> (r: Result<Json, Error>)
    ensures
        records_added(opts, records@, f@, r),
{
    let mut f = f;
    if opts.records {
        match records_json(records) {
            Err(error) => return Err(error),
            Ok(list) => f.put_array("records", list),
        }
    }
    Ok(f.object())
}

/// `r` is the object of `f`, with the attributes and the raw records behind it
/// where they are wanted.
pub open spec fn xattrs_added<D: ApfsImage, B: TreeReader>(
    vol: &Volume<D>,
    bt: &B,
    opts: &Options,
    records: Seq<Record>,
    f: Seq<(Seq<char>, JsonView)>,
    r: Result<Json, Error>,
) -> bool {
    if opts.xattrs {
        exists|list: Result<Vec<Json>, Error>| #[trigger]
            xattrs_told(vol, bt, records, list) && match list {
                Err(error) => is_failed(r, error@),
                Ok(items) => records_added(
                    opts,
                    records,
                    with(f, "xattrs"@, JsonView::Array(json_values(items@))),
                    r,
                ),
            }
    } else {
        records_added(opts, records, f, r)
    }
}

fn add_xattrs<D: ApfsImage, B: TreeReader>(
    vol: &Volume<D>,
    bt: &B,
    opts: &Options,
    records: &[Record],
    f: Fields,
) -> (r: Result<Json, Error>)
    ensures
        xattrs_added(vol, bt, opts, records@, f@, r),
{
    let mut f = f;
    if opts.xattrs {
        let list = xattrs_json(vol, bt, records);
        match list {
            Err(error) => return Err(error),
            Ok(items) => f.put_array("xattrs", items),
        }
    }
    add_records(opts, records, f)
}

/// `r` is the object of `f`, with the extents, the attributes and the raw records
/// behind it where they are wanted.
pub open spec fn extents_added<D: ApfsImage, B: TreeReader>(
    vol: &Volume<D>,
    bt: &B,
    opts: &Options,
    records: Seq<Record>,
    extent_records: Seq<Record>,
    f: Seq<(Seq<char>, JsonView)>,
    r: Result<Json, Error>,
) -> bool {
    if opts.extents {
        match extents_in(record_views(extent_records)) {
            Err(error) => is_failed(r, error),
            Ok(extents) => {
                let f = with(f, "extents"@, JsonView::Array(extent_objects(extents)));
                let f = with(f, "extents_total_bytes"@, JsonView::UInt(total_len(extents)));
                xattrs_added(vol, bt, opts, records, f, r)
            },
        }
    } else {
        xattrs_added(vol, bt, opts, records, f, r)
    }
}

fn add_extents<D: ApfsImage, B: TreeReader>(
    vol: &Volume<D>,
    bt: &B,
    opts: &Options,
    records: &[Record],
    extent_records: &[Record],
    f: Fields,
) -> (r: Result<Json, Error>)
    ensures
        extents_added(vol, bt, opts, records@, extent_records@, f@, r),
{
    let mut f = f;
    if opts.extents {
        match collect_extents(extent_records) {
            Err(error) => return Err(error),
            Ok(extents) => {
                let (list, total) = extents_json(&extents);
                f.put_array("extents", list);
                f.put_u64("extents_total_bytes", total);
            },
        }
    }
    add_xattrs(vol, bt, opts, records, f)
}

/// `r` is what is said of the object `fsoid` whose inode is `inode` and whose data
/// `extent_records` describe.
pub open spec fn object_told<D: ApfsImage, B: TreeReader>(
    vol: &Volume<D>,
    bt: &B,
    opts: &Options,
    fsoid: u64,
    inode: Option<Inode>,
    records: Seq<Record>,
    extent_records: Seq<Record>,
    r: Result<Json, Error>,
) -> bool {
    let f = with(Seq::empty(), "fsoid"@, JsonView::Str(hex_prefixed(fsoid as nat)));
    match inode {
        None => extents_added(
            vol,
            bt,
            opts,
            records,
            extent_records,
            with(f, "inode"@, JsonView::Null),
            r,
        ),
        Some(i) => exists|times: InodeTimes, recoverable: Result<Json, Error>|
            {
                &&& #[trigger] times_asked::<D>(&i, times)
                &&& #[trigger] recoverability_told(
                    &i,
                    vol,
                    bt,
                    records,
                    extent_records,
                    recoverable,
                )
                &&& match recoverable {
                    Err(error) => is_failed(r, error@),
                    Ok(json) => extents_added(
                        vol,
                        bt,
                        opts,
                        records,
                        extent_records,
                        with(
                            with(f, "inode"@, JsonView::Object(inode_fields(i, times))),
                            "recoverability"@,
                            json@,
                        ),
                        r,
                    ),
                }
            },
    }
}

/// Describes one object.
pub fn object_json<D: ApfsImage, B: TreeReader>(
    vol: &Volume<D>,
    bt: &B,
    opts: &Options,
    fsoid: u64,
    inode: &Option<Inode>,
    records: &[Record],
    extent_records: &[Record],
) -> (r: Result<Json, Error>)
    ensures
        object_told(vol, bt, opts, fsoid, *inode, records@, extent_records@, r),
{
    let mut f = Fields::new();
    f.put_hex("fsoid", fsoid);
    match inode {
        None => {
            f.put("inode", Json::Null);
            add_extents(vol, bt, opts, records, extent_records, f)
        },
        Some(i) => {
            let times = inode_times::<D>(i);
            f.put("inode", inode_json(i, &times));
            let recoverable = recoverability(i, vol, bt, records, extent_records);
            proof {
                assert(times_asked::<D>(i, times));
                assert(recoverability_told(i, vol, bt, records@, extent_records@, recoverable));
            }
            match recoverable {
                Err(error) => Err(error),
                Ok(json) => {
                    f.put("recoverability", json);
                    add_extents(vol, bt, opts, records, extent_records, f)
                },
            }
        },
    }
}

/// The records of a file's data are wanted: of a regular file, unless its volume is
/// encrypted and its extents are not asked for.
pub open spec fn wants_data_records(encrypted: bool, extents: bool, inode: Option<Inode>) -> bool {
    match inode {
        None => false,
        Some(i) => i.kind is Regular && (!encrypted || extents),
    }
}

/// `r` is what is said of object `fsoid`, whose records are `records` and in which
/// looking for an inode gave `inode`.
pub open spec fn inode_told<D: ApfsImage, B: TreeReader>(
    vol: &Volume<D>,
    bt: &B,
    opts: &Options,
    fsoid: u64,
    records: Seq<Record>,
    inode: Result<Option<Inode>, Error>,
    r: Result<Json, Error>,
) -> bool {
    match inode {
        Err(error) => is_failed(r, error@),
        Ok(inode) => if wants_data_records(vol.apsb.encrypted, opts.extents, inode) {
            exists|given: Result<Cow<[Record]>, Error>| #[trigger]
                vol.data_records_given(bt, fsoid, inode->Some_0.private_id, records, given)
                    && match given {
                    Err(error) => is_failed(r, error@),
                    Ok(data) => object_told(
                        vol,
                        bt,
                        opts,
                        fsoid,
                        inode,
                        records,
                        records_in(data),
                        r,
                    ),
                }
        } else {
            object_told(vol, bt, opts, fsoid, inode, records, records, r)
        },
    }
}

fn json_with_inode<D: ApfsImage, B: TreeReader>(
    vol: &Volume<D>,
    bt: &B,
    opts: &Options,
    fsoid: u64,
    records: &[Record],
    inode: &Option<Inode>,
) -> (r: Result<Json, Error>)
    ensures
        inode_told(vol, bt, opts, fsoid, records@, Ok(*inode), r),
{
    match inode {
        Some(i) => {
            if i.is_regular() && (!vol.apsb.encrypted || opts.extents) {
                let given = vol.file_data_records(bt, fsoid, i, records);
                return match &given {
                    Err(error) => Err(error.clone()),
                    Ok(data) => object_json(
                        vol,
                        bt,
                        opts,
                        fsoid,
                        inode,
                        records,
                        record_slice(data),
                    ),
                };
            }
        },
        None => {},
    }
    object_json(vol, bt, opts, fsoid, inode, records, records)
}

/// What is found out about one object.
#[derive(Debug)]
pub struct Stat {
    pub fsoid: u64,
    pub inode: Option<Inode>,
    pub result: Json,
}

/// The error of an object that has no records.
pub open spec fn no_records(fsoid: u64) -> ErrorView {
    failure(ErrorKind::ObjectNotFound, "no records for FSOID "@ + hex_prefixed(fsoid as nat))
}

/// `r` is what is found out about object `fsoid`, which has `records`.
pub open spec fn stat_from<D: ApfsImage, B: TreeReader>(
    vol: &Volume<D>,
    bt: &B,
    opts: &Options,
    fsoid: u64,
    records: Seq<Record>,
    r: Result<Stat, Error>,
) -> bool {
    if records.len() == 0 {
        is_failed(r, no_records(fsoid))
    } else {
        exists|inode: Result<Option<Inode>, Error>, told: Result<Json, Error>|
            {
                &&& #[trigger] Volume::<D>::inode_found(records, inode)
                &&& #[trigger] inode_told(vol, bt, opts, fsoid, records, inode, told)
                &&& match told {
                    Err(error) => is_failed(r, error@),
                    Ok(json) => r == Ok::<Stat, Error>(
                        (Stat { fsoid, inode: inode->Ok_0, result: json }),
                    ),
                }
            }
    }
}

fn stat_records<D: ApfsImage, B: TreeReader>(
    vol: &Volume<D>,
    bt: &B,
    opts: &Options,
    fsoid: u64,
    records: &[Record],
) -> (r: Result<Stat, Error>)
    ensures
        stat_from(vol, bt, opts, fsoid, records@, r),
{
    if records.len() == 0 {
        let mut message = "no records for FSOID ".to_owned();
        push_hex(&mut message, fsoid);
        return Err(Error::new(ErrorKind::ObjectNotFound, message));
    }
    let found = Volume::<D>::inode_from_records(records);
    match found {
        Err(error) => {
            let ghost told: Result<Json, Error> = Err(error);
            proof {
                assert(inode_told(vol, bt, opts, fsoid, records@, found, told));
            }
            Err(error)
        },
        Ok(inode) => {
            let told = json_with_inode(vol, bt, opts, fsoid, records, &inode);
            proof {
                assert(inode_told(vol, bt, opts, fsoid, records@, found, told));
            }
            match told {
                Err(error) => Err(error),
                Ok(result) => Ok(Stat { fsoid, inode, result }),
            }
        },
    }
}

/// The error of a request that names no object.
pub open spec fn no_object_named(command: Seq<char>) -> ErrorView {
    failure(ErrorKind::Usage, "`"@ + command + "` needs `--path <p>` or `--fsoid <id>`"@)
}

/// `r` is the object that the options name: the one their path leads to, or else
/// the one with their id.
pub open spec fn target_found<D: ApfsImage, S: SnapshotSource<D>>(
    source: &S,
    vol: &Volume<D>,
    bt: &D::Reader,
    opts: &Options,
    command: Seq<char>,
    r: Result<u64, Error>,
) -> bool {
    match opts.path {
        Some(wanted) => exists|path: &str, resolved: Result<Resolved, Error>|
            {
                &&& path@ == wanted@
                &&& #[trigger] call_ensures(S::resolve, (source, vol, bt, path), resolved)
                &&& match resolved {
                    Err(error) => is_failed(r, error@),
                    Ok(target) => r == Ok::<u64, Error>(target.fsoid),
                }
            },
        None => match opts.fsoid {
            Some(fsoid) => r == Ok::<u64, Error>(fsoid),
            None => is_failed(r, no_object_named(command)),
        },
    }
}

/// Finds the object that the options of a command name.
pub fn find_target<D: ApfsImage, S: SnapshotSource<D>>(
    source: &S,
    vol: &Volume<D>,
    bt: &D::Reader,
    opts: &Options,
    command: &str,
) -> (r: Result<u64, Error>)
    ensures
        target_found(source, vol, bt, opts, command@, r),
{
    match &opts.path {
        Some(wanted) => {
            let path = wanted.as_str();
            let resolved = source.resolve(vol, bt, path);
            proof {
                assert(call_ensures(S::resolve, (source, vol, bt, path), resolved));
            }
            match resolved {
                Err(error) => Err(error),
                Ok(target) => Ok(target.fsoid),
            }
        },
        None => match opts.fsoid {
            Some(fsoid) => Ok(fsoid),
            None => {
                let mut message = "`".to_owned();
                message.append(command);
                message.append("` needs `--path <p>` or `--fsoid <id>`");
                Err(Error::new(ErrorKind::Usage, message))
            },
        },
    }
}

/// `r` is what is found out about the object that the options name.
pub open spec fn stat_told<D: ApfsImage, S: SnapshotSource<D>>(
    source: &S,
    vol: &Volume<D>,
    bt: &D::Reader,
    opts: &Options,
    r: Result<Stat, Error>,
) -> bool {
    exists|target: Result<u64, Error>| #[trigger]
        target_found(source, vol, bt, opts, "stat"@, target) && match target {
            Err(error) => is_failed(r, error@),
            Ok(fsoid) => exists|reply: Result<Vec<Record>, Error>| #[trigger]
                vol.asked(bt, fsoid, reply) && match reply {
                    Err(error) => is_failed(r, error@),
                    Ok(records) => stat_from(vol, bt, opts, fsoid, records@, r),
                },
        }
}

/// Finds out what is known of the object that the options name.
pub fn stat<D: ApfsImage, S: SnapshotSource<D>>(
    source: &S,
    vol: &Volume<D>,
    bt: &D::Reader,
    opts: &Options,
) -> (r: Result<Stat, Error>)
    ensures
        stat_told(source, vol, bt, opts, r),
{
    let target = find_target(source, vol, bt, opts, "stat");
    match target {
        Err(error) => Err(error),
        Ok(fsoid) => {
            let reply = vol.records(bt, fsoid);
            proof {
                assert(vol.asked(bt, fsoid, reply));
            }
            match &reply {
                Err(error) => Err(error.clone()),
                Ok(records) => stat_records(vol, bt, opts, fsoid, records.as_slice()),
            }
        },
    }
}

// ---------------------------------------------------------------------------
// Text
// ---------------------------------------------------------------------------

/// What a person is shown of an object, one line each for what is known.
pub open spec fn lines_of(
    fsoid: u64,
    inode: Option<Inode>,
    mod_time: Option<Seq<char>>,
) -> Seq<char> {
    let head = "FSOID "@ + hex_prefixed(fsoid as nat) + "\n"@;
    match inode {
        None => head,
        Some(i) => {
            let mode = head + "  mode "@ + octal_prefixed(i.mode as nat) + " uid "@ + dec(
                i.owner as nat,
            ) + " gid "@ + dec(i.group as nat) + "\n"@;
            let sized = match i.logical_size {
                None => mode,
                Some(size) => mode + "  size "@ + dec(size as nat) + " bytes\n"@,
            };
            match mod_time {
                None => sized,
                Some(time) => sized + "  modified "@ + time + "\n"@,
            }
        },
    }
}

/// What a person is shown of an object whose time of change reads as `mod_time`.
pub fn stat_lines(fsoid: u64, inode: &Option<Inode>, mod_time: &Option<String>) -> (r: String)
    ensures
        r@ == lines_of(fsoid, *inode, opt_text(*mod_time)),
{
    let mut text = "FSOID ".to_owned();
    push_hex(&mut text, fsoid);
    text.append("\n");
    match inode {
        None => {},
        Some(i) => {
            text.append("  mode ");
            push_octal(&mut text, i.mode as u64);
            text.append(" uid ");
            push_dec(&mut text, i.owner as u64);
            text.append(" gid ");
            push_dec(&mut text, i.group as u64);
            text.append("\n");
            match i.logical_size {
                None => {},
                Some(size) => {
                    text.append("  size ");
                    push_dec(&mut text, size);
                    text.append(" bytes\n");
                },
            }
            match mod_time {
                None => {},
                Some(time) => {
                    text.append("  modified ");
                    text.append(time.as_str());
                    text.append("\n");
                },
            }
        },
    }
    text
}

// ---------------------------------------------------------------------------
// Laws
// ---------------------------------------------------------------------------

/// The name of each type of record, by its number.
pub proof fn law_record_types_are_named(ty: u8)
    ensures
        record_label(1) == "snap_metadata"@,
        record_label(2) == "extent"@,
        record_label(3) == "inode"@,
        record_label(4) == "xattr"@,
        record_label(5) == "sibling_link"@,
        record_label(6) == "dstream_id"@,
        record_label(7) == "crypto_state"@,
        record_label(8) == "file_extent"@,
        record_label(9) == "dir_rec"@,
        record_label(10) == "dir_stats"@,
        record_label(11) == "snap_name"@,
        record_label(12) == "sibling_map"@,
        record_label(13) == "file_info"@,
        ty == 0 || ty > 13 ==> record_label(ty) == "unknown"@,
{
}

/// Each byte is written as two hexadecimal digits, the higher one first.
pub proof fn law_bytes_are_written_as_two_digits(bytes: Seq<u8>)
    ensures
        hex_of(bytes).len() == 2 * bytes.len(),
        forall|i: int|
            0 <= i < bytes.len() ==> #[trigger] bytes[i] == 16 * digit_value(hex_of(bytes)[2 * i])
                + digit_value(hex_of(bytes)[2 * i + 1]) && digit_value(hex_of(bytes)[2 * i + 1])
                < 16,
    decreases bytes.len(),
{
    if bytes.len() > 0 {
        let front = bytes.drop_last();
        let last = bytes.last();
        law_bytes_are_written_as_two_digits(front);
        let pair = hex_padded(last as nat, 2);
        law_padded_numbers_read_back(last as nat, 2);
        assert(vstd::arithmetic::power::pow(16, 2) == 256) by {
            reveal(vstd::arithmetic::power::pow);
            reveal_with_fuel(vstd::arithmetic::power::pow, 3);
        }
        assert(number_in(pair, 16) == 16 * digit_value(pair[0]) + digit_value(pair[1])) by {
            reveal_with_fuel(number_in, 3);
            assert(pair.drop_last().drop_last() =~= Seq::empty());
        }
        assert(last as int % 256 == last);
        let h = hex_of(bytes);
        assert forall|i: int| 0 <= i < bytes.len() implies #[trigger] bytes[i] == 16 * digit_value(
            h[2 * i],
        ) + digit_value(h[2 * i + 1]) && digit_value(h[2 * i + 1]) < 16 by {
            if i < front.len() {
                assert(front[i] == bytes[i]);
                assert(h[2 * i] == hex_of(front)[2 * i]);
                assert(h[2 * i + 1] == hex_of(front)[2 * i + 1]);
            } else {
                assert(h[2 * i] == pair[0]);
                assert(h[2 * i + 1] == pair[1]);
            }
        }
    }
}

/// How far a file can be recovered: a file without bytes, or whose extents have neither
/// holes nor overlaps, as it was; a sparse one with its holes; one with overlaps, or with
/// holes that it should not have, in part.
pub proof fn law_status_follows_the_extents(
    size: u64,
    sparse: bool,
    has_extent: bool,
    has_hole: bool,
    has_overlap: bool,
)
    ensures
        ({
            let status = extent_status(size, sparse, has_extent, has_hole, has_overlap);
            &&& size == 0 ==> status == "ok"@
            &&& size > 0 && !has_extent && !sparse ==> status == "no-extents"@
            &&& size > 0 && (has_extent || sparse) && has_overlap ==> status == "partial"@
            &&& size > 0 && has_extent && has_hole && !sparse ==> status == "partial"@
            &&& size > 0 && sparse && has_hole && !has_overlap ==> status == "ok-sparse"@
            &&& size > 0 && has_extent && !has_hole && !has_overlap ==> status == "ok"@
            &&& size > 0 && !has_extent && !has_hole && !has_overlap ==> status
                == "no-extents"@
        }),
{
}

/// What is said of a compressed file: how it is compressed, and whether its header agrees
/// with its inode on the size.
pub proof fn law_compressed_status_names_each_property(size: u64, header: Header) -> (f: Seq<
    (Seq<char>, JsonView),
>)
    ensures
        compressed_status(size, header) == JsonView::Object(f),
        says(f, "status"@, JsonView::Str("ok-compressed"@)),
        says(f, "size"@, JsonView::UInt(size)),
        says(f, "compression_type"@, JsonView::UInt(header.compression_type as u64)),
        says(f, "compression_storage"@, JsonView::Str(header.spec_storage().name())),
        says(f, "compression_codec"@, JsonView::Str(header.spec_codec())),
        says(
            f,
            "compressed_size_matches_inode"@,
            JsonView::Bool(header.uncompressed_size == size),
        ),
        f.len() == 6,
{
    let f = Seq::empty();
    let f = law_added_field_is_found(f, "status"@, JsonView::Str("ok-compressed"@));
    let f = law_added_field_is_found(f, "size"@, JsonView::UInt(size));
    let f = law_added_field_is_found(f, "compression_type"@, JsonView::UInt(header.compression_type as u64));
    let f = law_added_field_is_found(f, "compression_storage"@, JsonView::Str(header.spec_storage().name()));
    let f = law_added_field_is_found(f, "compression_codec"@, JsonView::Str(header.spec_codec()));
    let f = law_added_field_is_found(
            f,
            "compressed_size_matches_inode"@,
            JsonView::Bool(header.uncompressed_size == size),
        );
    assert(JsonView::Object(f) == compressed_status(size, header));
    f
}

/// What is said of a file that is not compressed: how far its extents let it be recovered,
/// and whether they leave holes or overlap.
pub proof fn law_plain_status_names_each_property(
    size: u64,
    sparse: bool,
    extents: Seq<FileExtent>,
) -> (f: Seq<(Seq<char>, JsonView)>)
    ensures
        plain_status(size, sparse, extents) == JsonView::Object(f),
        ({
            let written = account(layout_of(by_address(extents), size as int), size);
            &&& says(
                f,
                "status"@,
                JsonView::Str(
                    extent_status(
                        size,
                        sparse,
                        extents.len() > 0,
                        written.holes > 0,
                        written.overlaps > 0,
                    ),
                ),
            )
            &&& says(f, "size"@, JsonView::UInt(size))
            &&& says(f, "has_extents"@, JsonView::Bool(extents.len() > 0))
            &&& says(f, "has_holes"@, JsonView::Bool(written.holes > 0))
            &&& says(f, "has_overlaps"@, JsonView::Bool(written.overlaps > 0))
            &&& f.len() == 5
        }),
{
    let written = account(layout_of(by_address(extents), size as int), size);
    let has_extent = extents.len() > 0;
    let has_hole = written.holes > 0;
    let has_overlap = written.overlaps > 0;
    let f = Seq::empty();
    let f = law_added_field_is_found(
        f,
        "status"@,
        JsonView::Str(extent_status(size, sparse, has_extent, has_hole, has_overlap)),
    );
    let f = law_added_field_is_found(f, "size"@, JsonView::UInt(size));
    let f = law_added_field_is_found(f, "has_extents"@, JsonView::Bool(has_extent));
    let f = law_added_field_is_found(f, "has_holes"@, JsonView::Bool(has_hole));
    let f = law_added_field_is_found(f, "has_overlaps"@, JsonView::Bool(has_overlap));
    assert(JsonView::Object(f) == plain_status(size, sparse, extents));
    f
}

/// A status with its reason has these two fields.
pub proof fn law_status_is_given_with_its_reason(status: Seq<char>, reason: Seq<char>) -> (f: Seq<
    (Seq<char>, JsonView),
>)
    ensures
        status_with_reason(status, reason) == JsonView::Object(f),
        says(f, "status"@, JsonView::Str(status)),
        says(f, "reason"@, JsonView::Str(reason)),
        f.len() == 2,
{
    let f = law_added_field_is_found(Seq::empty(), "status"@, JsonView::Str(status));
    law_added_field_is_found(f, "reason"@, JsonView::Str(reason))
}

/// What is encrypted cannot be recovered, whatever it is. Directories and symbolic links
/// can, a compressed file by its header, any other file by its extents.
pub proof fn law_recoverability_goes_by_the_kind<D: ApfsImage, B: TreeReader>(
    inode: &Inode,
    vol: &Volume<D>,
    bt: &B,
    inode_records: Seq<Record>,
    records: Seq<Record>,
    r: Result<Json, Error>,
)
    requires
        recoverability_told(inode, vol, bt, inode_records, records, r),
    ensures
        vol.apsb.encrypted ==> is_told(
            r,
            status_with_reason("encrypted"@, "volume is encrypted; data cannot be decrypted"@),
        ),
        !vol.apsb.encrypted && inode.kind is Dir ==> is_told(
            r,
            status_with_reason("ok"@, "directory (recurse to recover contents)"@),
        ),
        !vol.apsb.encrypted && inode.kind is Symlink ==> is_told(
            r,
            status_with_reason("ok"@, "symlink"@),
        ),
        !vol.apsb.encrypted && !(inode.kind is Dir) && !(inode.kind is Symlink)
            && !inode.compressed ==> match extents_in(record_views(records)) {
            Ok(extents) => is_told(
                r,
                plain_status(
                    if inode.logical_size is Some {
                        inode.logical_size->Some_0
                    } else {
                        0
                    },
                    inode.sparse,
                    extents,
                ),
            ),
            Err(error) => r matches Err(e) && e@ == error,
        },
        !vol.apsb.encrypted && !(inode.kind is Dir) && !(inode.kind is Symlink)
            && inode.compressed ==> (r matches Ok(json) ==> exists|header: Header| #[trigger]
            compressed_status(inode.spec_size(), header) == json@),
{
    if !vol.apsb.encrypted && !(inode.kind is Dir) && !(inode.kind is Symlink)
        && inode.compressed {
        let found = choose|found: Result<Option<Xattr>, Error>| #[trigger]
            Volume::<D>::xattr_found(inode_records, DECMPFS_XATTR_NAME@, false, found)
                && compression_told(vol, bt, inode.spec_size(), found, r);
        if let Ok(Some(x)) = found {
            let data = choose|data: Result<Vec<u8>, Error>| #[trigger]
                vol.xattr_read(bt, &x, data) && compressed_told(inode.spec_size(), data, r);
            if let Ok(bytes) = data {
                if let Ok(header) = header_of(bytes@) {
                    assert(r is Ok ==> compressed_status(inode.spec_size(), header)
                        == r->Ok_0@);
                }
            }
        }
    }
}

/// Each extent has an object of its own, in their order, with its address, its length, its
/// block and whether it is a hole.
pub proof fn law_each_extent_has_its_object(extents: Seq<FileExtent>, i: int) -> (f: Seq<
    (Seq<char>, JsonView),
>)
    requires
        0 <= i < extents.len(),
    ensures
        extent_objects(extents).len() == extents.len(),
        extent_objects(extents)[i] == JsonView::Object(f),
        says(f, "logical_addr"@, JsonView::UInt(extents[i].logical_addr)),
        says(f, "len"@, JsonView::UInt(extents[i].len)),
        says(f, "phys_block_num"@, JsonView::UInt(extents[i].phys_block_num)),
        says(f, "hole"@, JsonView::Bool(extents[i].phys_block_num == 0)),
        f.len() == 4,
{
    let extent = extents[i];
    let f = Seq::empty();
    let f = law_added_field_is_found(f, "logical_addr"@, JsonView::UInt(extent.logical_addr));
    let f = law_added_field_is_found(f, "len"@, JsonView::UInt(extent.len));
    let f = law_added_field_is_found(f, "phys_block_num"@, JsonView::UInt(extent.phys_block_num));
    let f = law_added_field_is_found(f, "hole"@, JsonView::Bool(extent.spec_is_hole()));
    assert(JsonView::Object(f) == extent_object(extent));
    f
}

/// The length of all extents together: nothing for none, and for one more its own length
/// more, within 64 bits.
pub proof fn law_lengths_add_up(extents: Seq<FileExtent>, next: FileExtent)
    ensures
        total_len(Seq::empty()) == 0,
        total_len(extents.push(next)) == (total_len(extents) + next.len)
            % 0x1_0000_0000_0000_0000,
{
    assert(extents.push(next).drop_last() =~= extents);
}

/// What is said of every attribute, and more of one that is kept in a stream.
pub proof fn law_attribute_object_names_each_property(x: Xattr, stream: XattrStream)
    ensures
        ({
            let f = xattr_fields(x);
            &&& says(f, "name"@, JsonView::Str(x.name@))
            &&& says(f, "embedded"@, JsonView::Bool(x.embedded))
            &&& says(f, "stream"@, JsonView::Bool(x.stream))
            &&& says(f, "data_len"@, JsonView::UInt(x.data@.len() as u64))
            &&& f.len() == 4
        }),
        ({
            let f = with_stream(xattr_fields(x), stream);
            &&& forall|k: Seq<char>, v: JsonView| #[trigger]
                says(xattr_fields(x), k, v) ==> says(f, k, v)
            &&& says(f, "stream_id"@, JsonView::Str(hex_prefixed(stream.xattr_obj_id as nat)))
            &&& says(f, "stream_size"@, JsonView::UInt(stream.size))
            &&& says(f, "stream_allocated_size"@, JsonView::UInt(stream.allocated_size))
            &&& f.len() == 7
        }),
{
    let f = Seq::empty();
    let f = law_added_field_is_found(f, "name"@, JsonView::Str(x.name@));
    let f = law_added_field_is_found(f, "embedded"@, JsonView::Bool(x.embedded));
    let f = law_added_field_is_found(f, "stream"@, JsonView::Bool(x.stream));
    let f = law_added_field_is_found(f, "data_len"@, JsonView::UInt(x.data@.len() as u64));
    assert(f == xattr_fields(x));
    let f = law_added_field_is_found(f, "stream_id"@, JsonView::Str(hex_prefixed(stream.xattr_obj_id as nat)));
    let f = law_added_field_is_found(f, "stream_size"@, JsonView::UInt(stream.size));
    let f = law_added_field_is_found(f, "stream_allocated_size"@, JsonView::UInt(stream.allocated_size));
    assert(f == with_stream(xattr_fields(x), stream));
}

/// Of a compression attribute its header is told, and its first bytes, up to thirty-two.
pub proof fn law_compression_attribute_is_told(
    before: Seq<(Seq<char>, JsonView)>,
    header: Header,
    data: Seq<u8>,
)
    ensures
        ({
            let f = with_compression(before, header, data);
            let shown = if data.len() <= 32 {
                data
            } else {
                data.take(32)
            };
            &&& forall|k: Seq<char>, v: JsonView| #[trigger] says(before, k, v) ==> says(f, k, v)
            &&& says(f, "compression_type"@, JsonView::UInt(header.compression_type as u64))
            &&& says(f, "compression_storage"@, JsonView::Str(header.spec_storage().name()))
            &&& says(f, "compression_codec"@, JsonView::Str(header.spec_codec()))
            &&& says(f, "uncompressed_size"@, JsonView::UInt(header.uncompressed_size))
            &&& says(f, "data_prefix_hex"@, JsonView::Str(hex_of(shown)))
            &&& f.len() == before.len() + 5
        }),
{
    assert(data.len() == 32 ==> data.take(32) =~= data);
    let f = before;
    let f = law_added_field_is_found(f, "compression_type"@, JsonView::UInt(header.compression_type as u64));
    let f = law_added_field_is_found(f, "compression_storage"@, JsonView::Str(header.spec_storage().name()));
    let f = law_added_field_is_found(f, "compression_codec"@, JsonView::Str(header.spec_codec()));
    let f = law_added_field_is_found(f, "uncompressed_size"@, JsonView::UInt(header.uncompressed_size));
    let f = law_added_field_is_found(f, "data_prefix_hex"@, JsonView::Str(hex_of(prefix_of(data))));
    assert(f == with_compression(before, header, data));
}

/// What is told of an attribute: its own fields, those of its stream where it has one, and
/// those of its value where it is the compression attribute.
pub proof fn law_attribute_is_told<D: ApfsImage, B: TreeReader>(
    vol: &Volume<D>,
    bt: &B,
    x: &Xattr,
    r: Result<Json, Error>,
)
    requires
        xattr_told(vol, bt, x, r),
    ensures
        r matches Ok(json) ==> {
            &&& json@ is Object
            &&& forall|k: Seq<char>, v: JsonView| #[trigger]
                says(xattr_fields(*x), k, v) ==> says(json@->Object_0, k, v)
            &&& x.stream ==> exists|stream: XattrStream, reply: Result<XattrStream, Error>|
                #[trigger] call_ensures(D::parse_xattr_stream, (&x.data,), reply) && reply
                    == Ok::<XattrStream, Error>(stream) && #[trigger] says(
                    json@->Object_0,
                    "stream_size"@,
                    JsonView::UInt(stream.size),
                ) && says(
                    json@->Object_0,
                    "stream_id"@,
                    JsonView::Str(hex_prefixed(stream.xattr_obj_id as nat)),
                )
            &&& json@->Object_0.len() == 4 + (if x.stream { 3int } else { 0 }) + (if x.name@
                == "com.apple.decmpfs"@ { 5int } else { 0 })
        },
{
    let stream = choose|stream: Result<Option<XattrStream>, Error>| #[trigger]
        stream_asked::<D>(x, stream) && xattr_told_with(vol, bt, x, stream, r);
    if let Ok(given) = stream {
        let f = match given {
            None => xattr_fields(*x),
            Some(s) => with_stream(xattr_fields(*x), s),
        };
        let some = match given {
            None => XattrStream { xattr_obj_id: 0, size: 0, allocated_size: 0 },
            Some(s) => s,
        };
        law_attribute_object_names_each_property(*x, some);
        if x.stream {
            let reply = choose|reply: Result<XattrStream, Error>| #[trigger]
                call_ensures(D::parse_xattr_stream, (&x.data,), reply) && match reply {
                    Err(error) => is_failed(stream, error@),
                    Ok(s) => stream == Ok::<Option<XattrStream>, Error>(Some(s)),
                };
            assert(given == Some(some));
            assert(reply == Ok::<XattrStream, Error>(some));
            assert(call_ensures(D::parse_xattr_stream, (&x.data,), reply));
        }
        if x.name@ == DECMPFS_XATTR_NAME@ {
            let data = choose|data: Result<Vec<u8>, Error>| #[trigger]
                vol.xattr_read(bt, x, data) && value_told(f, data, r);
            if let Ok(bytes) = data {
                if let Ok(header) = header_of(bytes@) {
                    law_compression_attribute_is_told(f, header, bytes@);
                }
            }
        }
        if let Ok(json) = r {
            if x.stream {
                assert(says(json@->Object_0, "stream_size"@, JsonView::UInt(some.size)));
            }
        }
    }
}

proof fn lemma_record_objects(records: Seq<RecordView>, i: int, acc: Seq<JsonView>)
    requires
        0 <= i <= records.len(),
    ensures
        ({
            let all = record_objects(records, i, acc);
            &&& all is Ok <==> forall|k: int|
                i <= k < records.len() ==> (#[trigger] records[k]).key.len() >= 8
            &&& all matches Ok(objects) ==> objects.len() == acc.len() + records.len() - i
                && objects.take(acc.len() as int) == acc && forall|k: int|
                i <= k < records.len() ==> objects[acc.len() + k - i] == record_object(
                    #[trigger] records[k],
                    u64_field(records[k].key, 0)->Ok_0,
                )
        }),
    decreases records.len() - i,
{
    if i < records.len() {
        if records[i].key.len() >= 8 {
            let word = u64_field(records[i].key, 0)->Ok_0;
            let more = acc.push(record_object(records[i], word));
            lemma_record_objects(records, i + 1, more);
            let all = record_objects(records, i, acc);
            if let Ok(objects) = all {
                assert(objects.take(acc.len() as int) =~= acc) by {
                    assert(objects.take((acc.len() + 1) as int) == more);
                    assert(forall|k: int|
                        0 <= k < acc.len() ==> objects[k] == objects.take((acc.len() + 1) as int)[k]);
                }
                assert(objects[acc.len() as int] == objects.take((acc.len() + 1) as int)[acc.len() as int]);
                assert forall|k: int| i <= k < records.len() implies objects[acc.len() + k - i]
                    == record_object(#[trigger] records[k], u64_field(records[k].key, 0)->Ok_0) by {
                    if k > i {
                        assert(more.len() + k - (i + 1) == acc.len() + k - i);
                    }
                }
            }
        } else {
            assert(record_objects(records, i, acc) is Err);
        }
    } else {
        assert(acc.take(acc.len() as int) =~= acc);
    }
}

/// The records are all described, in their order, exactly if each key is long enough to name
/// an object; the object and the type are read from the key.
pub proof fn law_each_record_has_its_object(records: Seq<RecordView>, i: int) -> (f: Seq<
    (Seq<char>, JsonView),
>)
    requires
        0 <= i < records.len(),
    ensures
        ({
            let all = record_objects(records, 0, Seq::empty());
            let record = records[i];
            let word = number_at(record.key, 0, 8) as u64;
            &&& all is Ok <==> forall|k: int|
                0 <= k < records.len() ==> (#[trigger] records[k]).key.len() >= 8
            &&& all matches Ok(objects) ==> {
                &&& objects.len() == records.len()
                &&& objects[i] == JsonView::Object(f)
                &&& says(
                    f,
                    "obj_id"@,
                    JsonView::Str(hex_prefixed((word & 0x0fff_ffff_ffff_ffff) as nat)),
                )
                &&& says(f, "type"@, JsonView::Str(record_label((word >> 60) as u8)))
                &&& says(f, "key_len"@, JsonView::UInt(record.key.len() as u64))
                &&& says(f, "val_len"@, JsonView::UInt(record.val.len() as u64))
                &&& says(f, "key_hex"@, JsonView::Str(hex_of(record.key)))
                &&& f.len() == 5
            }
        }),
{
    lemma_record_objects(records, 0, Seq::empty());
    let record = records[i];
    law_fields_are_read_from_their_bytes(record.key, 0);
    let word = number_at(record.key, 0, 8) as u64;
    law_key_word_splits(word);
    let f = Seq::empty();
    let f = law_added_field_is_found(f, "obj_id"@, JsonView::Str(hex_prefixed(object_id(word) as nat)));
    let f = law_added_field_is_found(f, "type"@, JsonView::Str(record_label(record_type(word))));
    let f = law_added_field_is_found(f, "key_len"@, JsonView::UInt(record.key.len() as u64));
    let f = law_added_field_is_found(f, "val_len"@, JsonView::UInt(record.val.len() as u64));
    let f = law_added_field_is_found(f, "key_hex"@, JsonView::Str(hex_of(record.key)));
    assert(JsonView::Object(f) == record_object(record, word));
    f
}

/// What is told of an object: its id, its inode or that it has none, and for an inode how
/// far it can be recovered; extents, attributes and records where they are wanted, and
/// nothing else.
pub proof fn law_object_is_told<D: ApfsImage, B: TreeReader>(
    vol: &Volume<D>,
    bt: &B,
    opts: &Options,
    fsoid: u64,
    inode: Option<Inode>,
    records: Seq<Record>,
    extent_records: Seq<Record>,
    r: Result<Json, Error>,
)
    requires
        object_told(vol, bt, opts, fsoid, inode, records, extent_records, r),
    ensures
        r matches Ok(json) ==> {
            let f = json@->Object_0;
            &&& json@ is Object
            &&& says(f, "fsoid"@, JsonView::Str(hex_prefixed(fsoid as nat)))
            &&& inode is None ==> says(f, "inode"@, JsonView::Null)
            &&& inode matches Some(i) ==> exists|times: InodeTimes, recoverable: Json|
                #[trigger] times_asked::<D>(&i, times) && #[trigger] recoverability_told(
                    &i,
                    vol,
                    bt,
                    records,
                    extent_records,
                    Ok(recoverable),
                ) && says(f, "inode"@, JsonView::Object(inode_fields(i, times))) && says(
                    f,
                    "recoverability"@,
                    recoverable@,
                )
            &&& opts.extents ==> exists|extents: Seq<FileExtent>| #[trigger]
                says(f, "extents"@, JsonView::Array(extent_objects(extents))) && extents_in(
                    record_views(extent_records),
                ) == Ok::<Seq<FileExtent>, ErrorView>(extents) && says(
                    f,
                    "extents_total_bytes"@,
                    JsonView::UInt(total_len(extents)),
                )
            &&& opts.xattrs ==> exists|items: Vec<Json>| #[trigger]
                says(f, "xattrs"@, JsonView::Array(json_values(items@))) && xattrs_told(
                    vol,
                    bt,
                    records,
                    Ok(items),
                )
            &&& opts.records ==> exists|objects: Seq<JsonView>| #[trigger]
                says(f, "records"@, JsonView::Array(objects)) && record_objects(
                    record_views(records),
                    0,
                    Seq::empty(),
                ) == Ok::<Seq<JsonView>, ErrorView>(objects)
            &&& f.len() == (if inode is Some { 3int } else { 2 }) + (if opts.extents { 2int } else {
                0
            }) + (if opts.xattrs { 1int } else { 0 }) + (if opts.records { 1int } else { 0 })
        },
{
    let f = law_added_field_is_found(
        Seq::empty(),
        "fsoid"@,
        JsonView::Str(hex_prefixed(fsoid as nat)),
    );
    match inode {
        None => {
            let f = law_added_field_is_found(f, "inode"@, JsonView::Null);
            lemma_extents_added(vol, bt, opts, records, extent_records, f, r);
        },
        Some(i) => {
            let (times, recoverable) = choose|times: InodeTimes, recoverable: Result<Json, Error>|
                {
                    &&& #[trigger] times_asked::<D>(&i, times)
                    &&& #[trigger] recoverability_told(
                        &i,
                        vol,
                        bt,
                        records,
                        extent_records,
                        recoverable,
                    )
                    &&& match recoverable {
                        Err(error) => is_failed(r, error@),
                        Ok(json) => extents_added(
                            vol,
                            bt,
                            opts,
                            records,
                            extent_records,
                            with(
                                with(f, "inode"@, JsonView::Object(inode_fields(i, times))),
                                "recoverability"@,
                                json@,
                            ),
                            r,
                        ),
                    }
                };
            if let Ok(json) = recoverable {
                let f = law_added_field_is_found(
                    f,
                    "inode"@,
                    JsonView::Object(inode_fields(i, times)),
                );
                let f = law_added_field_is_found(f, "recoverability"@, json@);
                lemma_extents_added(vol, bt, opts, records, extent_records, f, r);
                assert(recoverability_told(&i, vol, bt, records, extent_records, Ok(json)));
            }
        },
    }
}

proof fn lemma_extents_added<D: ApfsImage, B: TreeReader>(
    vol: &Volume<D>,
    bt: &B,
    opts: &Options,
    records: Seq<Record>,
    extent_records: Seq<Record>,
    before: Seq<(Seq<char>, JsonView)>,
    r: Result<Json, Error>,
)
    requires
        extents_added(vol, bt, opts, records, extent_records, before, r),
    ensures
        r matches Ok(json) ==> {
            let f = json@->Object_0;
            &&& json@ is Object
            &&& forall|k: Seq<char>, v: JsonView| #[trigger] says(before, k, v) ==> says(f, k, v)
            &&& opts.extents ==> exists|extents: Seq<FileExtent>| #[trigger]
                says(f, "extents"@, JsonView::Array(extent_objects(extents))) && extents_in(
                    record_views(extent_records),
                ) == Ok::<Seq<FileExtent>, ErrorView>(extents) && says(
                    f,
                    "extents_total_bytes"@,
                    JsonView::UInt(total_len(extents)),
                )
            &&& opts.xattrs ==> exists|items: Vec<Json>| #[trigger]
                says(f, "xattrs"@, JsonView::Array(json_values(items@))) && xattrs_told(
                    vol,
                    bt,
                    records,
                    Ok(items),
                )
            &&& opts.records ==> exists|objects: Seq<JsonView>| #[trigger]
                says(f, "records"@, JsonView::Array(objects)) && record_objects(
                    record_views(records),
                    0,
                    Seq::empty(),
                ) == Ok::<Seq<JsonView>, ErrorView>(objects)
            &&& f.len() == before.len() + (if opts.extents { 2int } else { 0 }) + (if opts.xattrs {
                1int
            } else {
                0
            }) + (if opts.records { 1int } else { 0 })
        },
{
    if r is Ok {
        let extents = extents_in(record_views(extent_records))->Ok_0;
        let f = if opts.extents {
            let f = law_added_field_is_found(
                before,
                "extents"@,
                JsonView::Array(extent_objects(extents)),
            );
            law_added_field_is_found(f, "extents_total_bytes"@, JsonView::UInt(total_len(extents)))
        } else {
            before
        };
        assert(xattrs_added(vol, bt, opts, records, f, r));
        let told = choose|list: Result<Vec<Json>, Error>| #[trigger]
            xattrs_told(vol, bt, records, list) && match list {
                Err(error) => is_failed(r, error@),
                Ok(items) => records_added(
                    opts,
                    records,
                    with(f, "xattrs"@, JsonView::Array(json_values(items@))),
                    r,
                ),
            };
        let f = if opts.xattrs {
            law_added_field_is_found(
                f,
                "xattrs"@,
                JsonView::Array(json_values(told->Ok_0@)),
            )
        } else {
            f
        };
        assert(records_added(opts, records, f, r));
        let objects = record_objects(record_views(records), 0, Seq::empty())->Ok_0;
        if opts.records {
            let f = law_added_field_is_found(f, "records"@, JsonView::Array(objects));
            assert(says(f, "records"@, JsonView::Array(objects)));
        }
        let last = r->Ok_0@->Object_0;
        if opts.xattrs {
            assert(told == Ok::<Vec<Json>, Error>(told->Ok_0));
            assert(says(last, "xattrs"@, JsonView::Array(json_values(told->Ok_0@))));
        }
        if opts.extents {
            assert(says(last, "extents"@, JsonView::Array(extent_objects(extents))));
        }
    }
}

/// A path comes before an id; without either there is nothing to look for.
pub proof fn law_target_is_named<D: ApfsImage, S: SnapshotSource<D>>(
    source: &S,
    vol: &Volume<D>,
    bt: &D::Reader,
    opts: &Options,
    command: Seq<char>,
    r: Result<u64, Error>,
)
    requires
        target_found(source, vol, bt, opts, command, r),
    ensures
        opts.path is None && opts.fsoid is Some ==> r == Ok::<u64, Error>(opts.fsoid->Some_0),
        opts.path is None && opts.fsoid is None ==> (r matches Err(error) && error.kind
            == ErrorKind::Usage),
        opts.path matches Some(wanted) ==> (r matches Ok(fsoid) ==> exists|
            path: &str,
            resolved: Result<Resolved, Error>,
        |
            path@ == wanted@ && #[trigger] call_ensures(
                S::resolve,
                (source, vol, bt, path),
                resolved,
            ) && (resolved matches Ok(target) && target.fsoid == fsoid)),
{
}

/// An object without records is not found. Of one with records the id, the inode and what is
/// told of it are given together.
pub proof fn law_stat_needs_records<D: ApfsImage, B: TreeReader>(
    vol: &Volume<D>,
    bt: &B,
    opts: &Options,
    fsoid: u64,
    records: Seq<Record>,
    r: Result<Stat, Error>,
)
    requires
        stat_from(vol, bt, opts, fsoid, records, r),
    ensures
        records.len() == 0 ==> (r matches Err(error) && error.kind == ErrorKind::ObjectNotFound),
        r matches Ok(stat) ==> stat.fsoid == fsoid && records.len() > 0
            && Volume::<D>::inode_found(records, Ok(stat.inode)),
{
}

/// The data records of a file are looked up for regular files alone, and not of an encrypted
/// volume unless its extents are asked for.
pub proof fn law_data_records_are_for_regular_files(
    encrypted: bool,
    extents: bool,
    inode: Option<Inode>,
)
    ensures
        inode is None ==> !wants_data_records(encrypted, extents, inode),
        inode matches Some(i) ==> (wants_data_records(encrypted, extents, inode) <==> i.kind
            is Regular && (extents || !encrypted)),
{
}

/// A person is shown the id, then for an inode its mode, owner and group, its size where it
/// has one and the time of its last change where it can be written.
pub proof fn law_lines_shown(
    fsoid: u64,
    i: Inode,
    mod_time: Option<Seq<char>>,
)
    ensures
        lines_of(fsoid, None, mod_time) == "FSOID "@ + hex_prefixed(fsoid as nat) + "\n"@,
        ({
            let head = "FSOID "@ + hex_prefixed(fsoid as nat) + "\n"@ + "  mode "@
                + octal_prefixed(i.mode as nat) + " uid "@ + dec(i.owner as nat) + " gid "@ + dec(
                i.group as nat,
            ) + "\n"@;
            let size = if i.logical_size is Some {
                "  size "@ + dec(i.logical_size->Some_0 as nat) + " bytes\n"@
            } else {
                Seq::empty()
            };
            let time = if mod_time is Some {
                "  modified "@ + mod_time->Some_0 + "\n"@
            } else {
                Seq::empty()
            };
            lines_of(fsoid, Some(i), mod_time) == head + size + time
        }),
{
    let head = "FSOID "@ + hex_prefixed(fsoid as nat) + "\n"@ + "  mode "@ + octal_prefixed(
        i.mode as nat,
    ) + " uid "@ + dec(i.owner as nat) + " gid "@ + dec(i.group as nat) + "\n"@;
    let size = if i.logical_size is Some {
        "  size "@ + dec(i.logical_size->Some_0 as nat) + " bytes\n"@
    } else {
        Seq::empty()
    };
    let time = if mod_time is Some {
        "  modified "@ + mod_time->Some_0 + "\n"@
    } else {
        Seq::empty()
    };
    assert(lines_of(fsoid, Some(i), mod_time) =~= head + size + time);
}

/// `json` is what is told of the attribute that the image reads from `record`.
pub open spec fn told_from<D: ApfsImage, B: TreeReader>(
    vol: &Volume<D>,
    bt: &B,
    record: Record,
    json: Json,
) -> bool {
    exists|x: Xattr|
        call_ensures(D::parse_xattr, (&record.key, &record.val), Ok(x)) && #[trigger] xattr_told(
            vol,
            bt,
            &x,
            Ok(json),
        )
}

/// The attributes are told in the order of their records, each of them once and from its own
/// record.
pub proof fn law_each_attribute_is_told_in_order<D: ApfsImage, B: TreeReader>(
    vol: &Volume<D>,
    bt: &B,
    records: Seq<Record>,
    out: Vec<Json>,
) -> (at: Seq<int>)
    requires
        xattrs_told(vol, bt, records, Ok(out)),
    ensures
        are_places(records, 4, at),
        out@.len() == at.len(),
        forall|k: int|
            0 <= k < at.len() ==> told_from(vol, bt, records[at[k]], #[trigger] out@[k]),
{
    let r: Result<Vec<Json>, Error> = Ok(out);
    let items = choose|items: Seq<Result<Json, Error>>| #[trigger]
        xattr_items(vol, bt, records, items) && xattrs_from(records, items, r);
    lemma_places(records, 4);
    let at = positions(record_views(records), 0, 4);
    assert forall|k: int| 0 <= k < at.len() implies told_from(
        vol,
        bt,
        records[at[k]],
        #[trigger] out@[k],
    ) by {
        let record = records[at[k]];
        assert(items[k] is Ok);
        assert(items[k] == Ok::<Json, Error>(out@[k]));
        assert(xattr_record_told(vol, bt, record, items[k]));
        let reply = choose|reply: Result<Xattr, Error>| #[trigger]
            call_ensures(D::parse_xattr, (&record.key, &record.val), reply) && match reply {
                Err(error) => is_failed(items[k], error@),
                Ok(x) => xattr_told(vol, bt, &x, items[k]),
            };
        let x = reply->Ok_0;
        assert(reply == Ok::<Xattr, Error>(x));
        assert(xattr_told(vol, bt, &x, Ok(out@[k])));
    }
    at
}

/// A regular file is told from the records of its data: its own, or those of the object that
/// its inode names. Anything else is told from its own records.
pub proof fn law_file_is_told_from_its_data<D: ApfsImage, B: TreeReader>(
    vol: &Volume<D>,
    bt: &B,
    opts: &Options,
    fsoid: u64,
    records: Seq<Record>,
    inode: Option<Inode>,
    json: Json,
)
    requires
        inode_told(vol, bt, opts, fsoid, records, Ok(inode), Ok(json)),
    ensures
        ({
            let elsewhere = inode is Some && inode->Some_0.kind is Regular && (opts.extents
                || !vol.apsb.encrypted) && inode->Some_0.private_id != fsoid;
            &&& !elsewhere ==> object_told(
                vol,
                bt,
                opts,
                fsoid,
                inode,
                records,
                records,
                Ok(json),
            )
            &&& elsewhere ==> exists|loaded: Vec<Record>| #[trigger]
                vol.asked(bt, inode->Some_0.private_id, Ok(loaded)) && object_told(
                    vol,
                    bt,
                    opts,
                    fsoid,
                    inode,
                    records,
                    loaded@,
                    Ok(json),
                )
        }),
{
    law_data_records_are_for_regular_files(vol.apsb.encrypted, opts.extents, inode);
}

/// What is told of an object is told of the one that was asked for, from its own records.
pub proof fn law_stat_is_of_the_object_asked_for<D: ApfsImage, S: SnapshotSource<D>>(
    source: &S,
    vol: &Volume<D>,
    bt: &D::Reader,
    opts: &Options,
    stat: Stat,
)
    requires
        stat_told(source, vol, bt, opts, Ok(stat)),
    ensures
        target_found(source, vol, bt, opts, "stat"@, Ok(stat.fsoid)),
        exists|loaded: Vec<Record>| #[trigger]
            vol.asked(bt, stat.fsoid, Ok(loaded)) && loaded@.len() > 0 && Volume::<
                D,
            >::inode_found(loaded@, Ok(stat.inode)) && inode_told(
                vol,
                bt,
                opts,
                stat.fsoid,
                loaded@,
                Ok(stat.inode),
                Ok(stat.result),
            ),
{
    let r: Result<Stat, Error> = Ok(stat);
    let target = choose|target: Result<u64, Error>| #[trigger]
        target_found(source, vol, bt, opts, "stat"@, target) && match target {
            Err(error) => is_failed(r, error@),
            Ok(fsoid) => exists|reply: Result<Vec<Record>, Error>| #[trigger]
                vol.asked(bt, fsoid, reply) && match reply {
                    Err(error) => is_failed(r, error@),
                    Ok(records) => stat_from(vol, bt, opts, fsoid, records@, r),
                },
        };
    let fsoid = target->Ok_0;
    let reply = choose|reply: Result<Vec<Record>, Error>| #[trigger]
        vol.asked(bt, fsoid, reply) && match reply {
            Err(error) => is_failed(r, error@),
            Ok(records) => stat_from(vol, bt, opts, fsoid, records@, r),
        };
    let loaded = reply->Ok_0;
    assert(reply == Ok::<Vec<Record>, Error>(loaded));
    let (inode, told) = choose|inode: Result<Option<Inode>, Error>, told: Result<Json, Error>|
        {
            &&& #[trigger] Volume::<D>::inode_found(loaded@, inode)
            &&& #[trigger] inode_told(vol, bt, opts, fsoid, loaded@, inode, told)
            &&& match told {
                Err(error) => is_failed(r, error@),
                Ok(json) => r == Ok::<Stat, Error>(
                    (Stat { fsoid, inode: inode->Ok_0, result: json }),
                ),
            }
        };
    assert(stat.fsoid == fsoid);
    assert(inode == Ok::<Option<Inode>, Error>(stat.inode));
    assert(told == Ok::<Json, Error>(stat.result));
    assert(target == Ok::<u64, Error>(fsoid));
    assert(vol.asked(bt, stat.fsoid, Ok(loaded)));
}

} // verus!
