//! Recovering files and folders by the logical layout of their extents.
//!
//! Output is written to a temporary file and moved to its place in one step. The
//! image is never modified. Folders are walked, symbolic and hard links are kept,
//! names that would leave the folder are refused, and every file gets its status.
use crate::decmpfs::{
    embedded_decoded, header_of, parse_header, write_embedded, Codec, Header, Storage,
    DECMPFS_XATTR_NAME, RESOURCE_FORK_XATTR_NAME,
};
use crate::destination::{
    bytes_installed, compressed_installed, data_installed,
    law_bytes_are_filled_before_they_are_moved, law_bytes_are_placed_whole,
    law_compressed_file_is_filled_with_its_attribute, law_compressed_file_is_placed_whole,
    law_data_is_placed_whole,
    law_file_is_filled_before_it_is_moved, law_placed_file_holds_its_data, write_bytes_atomic,
    write_file_atomic, write_kernel_compressed_atomic, Destination, Standing,
};
use crate::error::{failure, is_failed, Error, ErrorKind, ErrorView};
use crate::extract::{
    account, by_address, law_account_is_complete, law_no_hole_means_all_data,
    law_order_is_a_stable_sort, layout_of, Written,
};
use crate::image::{ApfsImage, DirRec, Inode, TreeReader, Xattr};
use crate::jrec::{FileExtent, Record};
use crate::journal::{did, fork_view, only_adds_events, touches_at_most, Event, Journal};
use crate::json::{json_values, law_added_field_is_found, says, with, Fields, Json, JsonView};
use crate::options::Options;
use crate::output::{
    after_request, data_sent, law_only_its_place_is_written, left_by, lemma_left_by_later,
    send_file_data, writes_to, Output, Place, Sheet,
};
use crate::stat::{extent_status, find_target, target_found};
use crate::text::{
    byte_len, chars_of, contains_char, dec, hex_prefixed, joined, opt_text, push_dec, push_hex, starts_with,
    str_eq,
};
use crate::vol::{
    is_called, law_attribute_found_is_the_one_asked_for, record_slice, records_in, SnapshotSource,
    Volume,
};
use std::borrow::Cow;
use std::collections::HashMap;
use vstd::prelude::*;

verus! {

// ---------------------------------------------------------------------------
// Results
// ---------------------------------------------------------------------------

/// What became of one file.
#[derive(Debug)]
pub struct FileResult {
    pub path: String,
    pub fsoid: u64,
    pub status: &'static str,
    pub bytes: u64,
    pub note: Option<String>,
}

/// The mathematical content of a [`FileResult`].
pub struct FileResultView {
    pub path: Seq<char>,
    pub fsoid: u64,
    pub status: Seq<char>,
    pub bytes: u64,
    pub note: Option<Seq<char>>,
}

impl View for FileResult {
    type V = FileResultView;

    open spec fn view(&self) -> FileResultView {
        FileResultView {
            path: self.path@,
            fsoid: self.fsoid,
            status: self.status@,
            bytes: self.bytes,
            note: opt_text(self.note),
        }
    }
}

/// The result as the fields of a JSON object.
pub open spec fn result_fields(result: FileResultView) -> Seq<(Seq<char>, JsonView)> {
    let f = Seq::empty();
    let f = with(f, "path"@, JsonView::Str(result.path));
    let f = with(f, "fsoid"@, JsonView::Str(hex_prefixed(result.fsoid as nat)));
    let f = with(f, "status"@, JsonView::Str(result.status));
    let f = with(f, "bytes"@, JsonView::UInt(result.bytes));
    match result.note {
        Some(note) => with(f, "note"@, JsonView::Str(note)),
        None => f,
    }
}

impl FileResult {
    /// The result as a JSON object.
    pub fn to_json(&self) -> (r: Json)
        ensures
            r@ == JsonView::Object(result_fields(self@)),
    {
        let mut f = Fields::new();
        f.put_str("path", self.path.as_str());
        f.put_hex("fsoid", self.fsoid);
        f.put_str("status", self.status);
        f.put_u64("bytes", self.bytes);
        match &self.note {
            Some(note) => f.put_str("note", note.as_str()),
            None => {},
        }
        f.object()
    }
}

/// `r` is a result that looks like `told`.
pub open spec fn is_result(r: Result<FileResult, Error>, told: FileResultView) -> bool {
    r matches Ok(result) && result@ == told
}

// ---------------------------------------------------------------------------
// Decisions
// ---------------------------------------------------------------------------

/// The account of an extraction leaves no doubt that the whole file was there.
///
/// A sparse file may have holes, but overlaps and short writes always raise doubt.
/// A hole in another file that is not empty does so too, which covers the file
/// without any extent. A sparse file with storage of its own must have yielded at
/// least one byte of data.
pub open spec fn is_sound(
    file_size: u64,
    is_sparse: bool,
    allocated_size: Option<u64>,
    written: Written,
) -> bool {
    &&& written.bytes == file_size
    &&& written.missing == 0
    &&& file_size > 0 ==> written.overlaps == 0
    &&& file_size > 0 && !is_sparse ==> written.holes == 0
    &&& file_size > 0 && is_sparse && (allocated_size matches Some(size) && size > 0)
        ==> written.data_bytes > 0
}

/// The status of an extraction.
pub open spec fn status_of(
    file_size: u64,
    is_sparse: bool,
    allocated_size: Option<u64>,
    written: Written,
) -> Seq<char> {
    if is_sound(file_size, is_sparse, allocated_size, written) {
        "recovered"@
    } else {
        "partial"@
    }
}

/// Gives an extraction its status, without taking zeros in the place of lost data
/// for success.
pub fn recovery_status(
    file_size: u64,
    is_sparse: bool,
    allocated_size: Option<u64>,
    written: &Written,
) -> (r: &'static str)
    ensures
        r@ == status_of(file_size, is_sparse, allocated_size, *written),
{
    let incomplete = written.bytes != file_size || written.missing > 0;
    let suspect_layout = file_size > 0 && (written.overlaps > 0 || (!is_sparse && written.holes
        > 0));
    let declares_data = match allocated_size {
        Some(size) => size > 0,
        None => false,
    };
    let missing_allocated_data = file_size > 0 && is_sparse && declares_data && written.data_bytes
        == 0;
    if incomplete || suspect_layout || missing_allocated_data {
        "partial"
    } else {
        "recovered"
    }
}

/// A recovered file that is not sparse has all of its bytes from its extents, one
/// after the other: no byte was made up. No memory holds as many extents as are left
/// out here.
pub proof fn law_recovered_means_whole(extents: Seq<FileExtent>, size: u64, allocated: Option<u64>)
    requires
        extents.len() < 0x4000_0000_0000_0000,
        is_sound(size, false, allocated, account(layout_of(by_address(extents), size as int), size)),
    ensures
        account(layout_of(by_address(extents), size as int), size).data_bytes == size,
{
    law_order_is_a_stable_sort(extents);
    if size == 0 {
        law_account_is_complete(by_address(extents), size);
    } else {
        law_no_hole_means_all_data(by_address(extents), size);
    }
}

/// What the metadata of a file says of its recovery is what recovery comes to: the
/// layout that is called partial is never recovered, and one that is called whole
/// is, unless a sparse file yields none of the storage it declares.
pub proof fn law_forecast_holds(
    size: u64,
    sparse: bool,
    allocated: Option<u64>,
    extents: Seq<FileExtent>,
)
    ensures
        ({
            let written = account(layout_of(by_address(extents), size as int), size);
            let forecast = extent_status(
                size,
                sparse,
                extents.len() > 0,
                written.holes > 0,
                written.overlaps > 0,
            );
            &&& forecast == "partial"@ ==> !is_sound(size, sparse, allocated, written)
            &&& forecast == "ok"@ && !sparse ==> is_sound(size, sparse, allocated, written)
            &&& forecast == "ok-sparse"@ && written.data_bytes > 0 ==> is_sound(
                size,
                sparse,
                allocated,
                written,
            )
        }),
{
    reveal_strlit("ok");
    reveal_strlit("ok-sparse");
    reveal_strlit("partial");
    reveal_strlit("no-extents");
    assert("ok"@.len() != "partial"@.len());
    assert("ok-sparse"@.len() != "partial"@.len());
    assert("no-extents"@.len() != "partial"@.len());
    assert("no-extents"@.len() != "ok"@.len());
    assert("no-extents"@.len() != "ok-sparse"@.len());
    assert("ok"@.len() != "ok-sparse"@.len());
    law_account_is_complete(by_address(extents), size);
}

/// A name that stays inside its directory: neither empty nor one of the two names
/// of directories themselves, and without a separator or NUL.
pub open spec fn is_safe(name: Seq<char>) -> bool {
    &&& name.len() > 0
    &&& name != "."@
    &&& name != ".."@
    &&& !name.contains('/')
    &&& !name.contains('\0')
}

/// The name of a directory entry can be used as it is.
pub fn is_safe_name(name: &str) -> (r: bool)
    ensures
        r == is_safe(name@),
{
    proof {
        reveal_strlit("");
        assert(""@ =~= Seq::<char>::empty());
        if name@.len() == 0 {
            assert(name@ =~= ""@);
        }
    }
    !str_eq(name, "") && !str_eq(name, ".") && !str_eq(name, "..") && !contains_char(name, '/')
        && !contains_char(name, '\0')
}

/// The path of `name` in directory `dir`.
pub open spec fn path_in(dir: Seq<char>, name: Seq<char>) -> Seq<char> {
    if dir.len() == 0 {
        name
    } else if dir.last() == '/' {
        dir + name
    } else {
        dir + "/"@ + name
    }
}

/// The path of `name` in directory `dir`.
pub fn join_path(dir: &str, name: &str) -> (r: String)
    ensures
        r@ == path_in(dir@, name@),
{
    let chars = chars_of(dir);
    let mut path = dir.to_owned();
    if chars.len() > 0 && chars[chars.len() - 1] != '/' {
        path.append("/");
    }
    path.append(name);
    proof {
        if dir@.len() == 0 {
            assert(path@ =~= name@);
        }
    }
    path
}

// ---------------------------------------------------------------------------
// One file
// ---------------------------------------------------------------------------

/// All that recovery works from: the view it reads and what was asked for.
pub struct Recovery<'a, D: ApfsImage, B: TreeReader, C: Codec> {
    pub vol: &'a Volume<D>,
    pub bt: &'a B,
    pub codec: &'a C,
    pub opts: &'a Options,
}

/// The error of a destination that is occupied.
pub open spec fn already_exists(path: Seq<char>) -> ErrorView {
    failure(
        ErrorKind::Usage,
        "`"@ + path + "` already exists; pass --overwrite to replace it"@,
    )
}

/// `r` is what is said of a destination at which `standing` was found.
pub open spec fn may_write(
    overwrite: bool,
    path: Seq<char>,
    standing: Result<Standing, Error>,
    r: Result<(), Error>,
) -> bool {
    match standing {
        Err(error) => is_failed(r, error@),
        Ok(found) => if found == Standing::Nothing || overwrite {
            r is Ok
        } else {
            is_failed(r, already_exists(path))
        },
    }
}

/// Refuses a destination that is occupied, be it by a link that leads nowhere,
/// unless it may be overwritten.
pub fn guard_standing(overwrite: bool, path: &str, standing: Result<Standing, Error>) -> (r: Result<
    (),
    Error,
>)
    ensures
        may_write(overwrite, path@, standing, r),
{
    match standing {
        Err(error) => Err(error),
        Ok(found) => {
            if found == Standing::Nothing || overwrite {
                Ok(())
            } else {
                let mut message = "`".to_owned();
                message.append(path);
                message.append("` already exists; pass --overwrite to replace it");
                Err(Error::new(ErrorKind::Usage, message))
            }
        },
    }
}

/// How a compressed file is described.
pub open spec fn compression_note(header: Header) -> Seq<char> {
    "decmpfs type "@ + dec(header.compression_type as nat) + " "@ + header.spec_storage().name()
}

/// How a compressed file is described that the kernel has decoded.
pub open spec fn kernel_note(header: Header) -> Seq<char> {
    "decmpfs type "@ + dec(header.compression_type as nat) + " kernel-verified"@
}

fn compression_note_text(header: Header) -> (r: String)
    ensures
        r@ == compression_note(header),
{
    let mut note = "decmpfs type ".to_owned();
    push_dec(&mut note, header.compression_type as u64);
    note.append(" ");
    note.append(header.storage().as_str());
    note
}

fn kernel_note_text(header: Header) -> (r: String)
    ensures
        r@ == kernel_note(header),
{
    let mut note = "decmpfs type ".to_owned();
    push_dec(&mut note, header.compression_type as u64);
    note.append(" kernel-verified");
    note
}

/// The result of a file that was recovered to `path`.
pub open spec fn recovered_as(
    path: Seq<char>,
    fsoid: u64,
    bytes: u64,
    note: Option<Seq<char>>,
) -> FileResultView {
    FileResultView { path, fsoid, status: "recovered"@, bytes, note }
}

/// The note of an account.
pub open spec fn written_note(written: Written) -> Option<Seq<char>> {
    if written.anomalies().len() > 0 {
        Some(joined(written.anomalies(), ", "@))
    } else {
        None
    }
}

/// The result of an extraction to `path`.
pub open spec fn extracted_as(
    path: Seq<char>,
    fsoid: u64,
    inode: Inode,
    written: Written,
) -> FileResultView {
    FileResultView {
        path,
        fsoid,
        status: status_of(inode.spec_size(), inode.sparse, inode.allocated_size, written),
        bytes: written.bytes,
        note: written_note(written),
    }
}

fn extraction_result(path: &str, fsoid: u64, inode: &Inode, written: &Written) -> (r: FileResult)
    ensures
        r@ == extracted_as(path@, fsoid, *inode, *written),
{
    FileResult {
        path: path.to_owned(),
        fsoid,
        status: recovery_status(inode.size(), inode.sparse, inode.allocated_size, written),
        bytes: written.bytes,
        note: written.note(),
    }
}

/// The error of a compressed file that does not say how it is compressed.
pub open spec fn no_compression_attribute(fsoid: u64) -> ErrorView {
    failure(
        ErrorKind::Corrupt,
        "compressed FSOID "@ + hex_prefixed(fsoid as nat) + " has no `com.apple.decmpfs` xattr"@,
    )
}

/// The error of a compressed file whose two sizes differ.
pub open spec fn sizes_differ(header: Header, size: u64) -> ErrorView {
    failure(
        ErrorKind::Corrupt,
        "decmpfs size "@ + dec(header.uncompressed_size as nat)
            + " does not match inode logical size "@ + dec(size as nat),
    )
}

/// The error of a compressed file whose resource fork is missing.
pub open spec fn no_resource_fork(header: Header) -> ErrorView {
    failure(
        ErrorKind::Corrupt,
        "decmpfs type "@ + dec(header.compression_type as nat)
            + " has no `com.apple.ResourceFork` xattr"@,
    )
}

/// The error of a compressed file that only the kernel decodes, where there is no
/// file to let it do so.
pub open spec fn needs_output(header: Header) -> ErrorView {
    if header.spec_storage() == Storage::ResourceFork {
        failure(
            ErrorKind::UnsupportedFeature,
            "resource-fork decmpfs recovery requires --output on macOS"@,
        )
    } else {
        failure(
            ErrorKind::UnsupportedFeature,
            "decmpfs type "@ + dec(header.compression_type as nat)
                + " requires --output on macOS"@,
        )
    }
}

fn needs_output_error(header: Header) -> (r: Error)
    ensures
        r@ == needs_output(header),
{
    if header.storage() == Storage::ResourceFork {
        Error::fixed(
            ErrorKind::UnsupportedFeature,
            "resource-fork decmpfs recovery requires --output on macOS",
        )
    } else {
        let mut message = "decmpfs type ".to_owned();
        push_dec(&mut message, header.compression_type as u64);
        message.append(" requires --output on macOS");
        Error::new(ErrorKind::UnsupportedFeature, message)
    }
}

/// The text of an output, where one is named.
pub open spec fn output_text(output: Option<&str>) -> Option<Seq<char>> {
    match output {
        Some(path) => Some(path@),
        None => None,
    }
}

impl<'a, D: ApfsImage, B: TreeReader, C: Codec> Recovery<'a, D, B, C> {
    /// Whether `path` may be written was asked, with result `r`. That takes one
    /// question and nothing else.
    pub open spec fn guarded(
        &self,
        path: Seq<char>,
        at: Seq<Event>,
        to: Seq<Event>,
        r: Result<(), Error>,
    ) -> bool {
        exists|standing: Result<Standing, Error>| #[trigger]
            did(at, Event::Standing { path, reply: standing }, to) && may_write(
                self.opts.overwrite,
                path,
                standing,
                r,
            )
    }

    /// Refuses a path that is occupied, unless it may be overwritten.
    pub fn guard_overwrite<O: Destination>(&self, dest: &mut Journal<O>, path: &str) -> (r: Result<
        (),
        Error,
    >)
        ensures
            final(dest).dest() == old(dest).dest(),
            self.guarded(path@, old(dest)@, final(dest)@, r),
    {
        let standing = dest.standing(path);
        guard_standing(self.opts.overwrite, path, standing)
    }

    /// `r` is the result of making a symbolic link to `target` at `path`, which may be
    /// written: what stands there is removed, and then the link is made.
    pub open spec fn link_made(
        &self,
        fsoid: u64,
        target: Seq<char>,
        path: Seq<char>,
        at: Seq<Event>,
        to: Seq<Event>,
        r: Result<FileResult, Error>,
    ) -> bool {
        let bytes = vstd::utf8::encode_utf8(target).len() as u64;
        let note = Some("symlink -> "@ + target);
        exists|gone: Result<(), Error>, mid: Seq<Event>, made: Result<(), Error>|
            {
                &&& #[trigger] did(at, Event::Remove { path, reply: gone }, mid)
                &&& #[trigger] did(mid, Event::Symlink { target, path, reply: made }, to)
                &&& match made {
                    Err(error) => is_failed(r, error@),
                    Ok(_) => is_result(r, recovered_as(path, fsoid, bytes, note)),
                }
            }
    }

    /// `r` is the result of making a symbolic link to `target` at `path`.
    pub open spec fn link_recovered(
        &self,
        fsoid: u64,
        target: Seq<char>,
        path: Seq<char>,
        at: Seq<Event>,
        to: Seq<Event>,
        r: Result<FileResult, Error>,
    ) -> bool {
        let bytes = vstd::utf8::encode_utf8(target).len() as u64;
        let note = Some("symlink -> "@ + target);
        if self.opts.dry_run {
            &&& to == at
            &&& is_result(
                r,
                FileResultView { path, fsoid, status: "dry-run"@, bytes, note },
            )
        } else {
            exists|free: Result<(), Error>, mid: Seq<Event>| #[trigger]
                self.guarded(path, at, mid, free) && match free {
                    Err(error) => to == mid && is_failed(r, error@),
                    Ok(_) => self.link_made(fsoid, target, path, mid, to, r),
                }
        }
    }

    fn recover_link<O: Destination>(
        &self,
        dest: &mut Journal<O>,
        fsoid: u64,
        target: &str,
        path: &str,
    ) -> (r: Result<FileResult, Error>)
        ensures
            final(dest).dest() == old(dest).dest(),
            self.link_recovered(fsoid, target@, path@, old(dest)@, final(dest)@, r),
    {
        let bytes: u64 = byte_len(target);
        let mut note = "symlink -> ".to_owned();
        note.append(target);
        if self.opts.dry_run {
            return Ok(
                FileResult {
                    path: path.to_owned(),
                    fsoid,
                    status: "dry-run",
                    bytes,
                    note: Some(note),
                },
            );
        }
        let free = self.guard_overwrite(dest, path);
        let ghost mid = dest@;
        let ghost given = free;
        proof {
            assert(self.guarded(path@, old(dest)@, mid, given));
        }
        match free {
            Err(error) => return Err(error),
            Ok(_) => {},
        }
        let _gone = dest.remove(path);
        let made = dest.symlink(target, path);
        let r = match made {
            Err(error) => Err(error),
            Ok(_) => Ok(
                FileResult {
                    path: path.to_owned(),
                    fsoid,
                    status: "recovered",
                    bytes,
                    note: Some(note),
                },
            ),
        };
        proof {
            assert(self.link_made(fsoid, target@, path@, mid, dest@, r));
        }
        r
    }

    /// `r` is the result of a compressed file that the kernel is to decode at `path`,
    /// which may be written.
    pub open spec fn kernel_written(
        &self,
        fsoid: u64,
        path: Seq<char>,
        attribute: Seq<u8>,
        resource_fork: Option<Seq<u8>>,
        size: u64,
        note: Seq<char>,
        at: Seq<Event>,
        to: Seq<Event>,
        r: Result<FileResult, Error>,
    ) -> bool {
        exists|done: Result<(), Error>| #[trigger]
            compressed_installed(path, attribute, resource_fork, size, at, to, done)
                && match done {
                Err(error) => is_failed(r, error@),
                Ok(_) => is_result(r, recovered_as(path, fsoid, size, Some(note))),
            }
    }

    /// `r` is the result of a compressed file that the kernel is to decode at `path`.
    pub open spec fn kernel_recovered(
        &self,
        fsoid: u64,
        path: Seq<char>,
        attribute: Seq<u8>,
        resource_fork: Option<Seq<u8>>,
        size: u64,
        note: Seq<char>,
        at: Seq<Event>,
        to: Seq<Event>,
        r: Result<FileResult, Error>,
    ) -> bool {
        exists|free: Result<(), Error>, mid: Seq<Event>| #[trigger]
            self.guarded(path, at, mid, free) && match free {
                Err(error) => to == mid && is_failed(r, error@),
                Ok(_) => self.kernel_written(
                    fsoid,
                    path,
                    attribute,
                    resource_fork,
                    size,
                    note,
                    mid,
                    to,
                    r,
                ),
            }
    }

    fn recover_by_kernel<O: Destination>(
        &self,
        dest: &mut Journal<O>,
        fsoid: u64,
        path: &str,
        attribute: &Vec<u8>,
        resource_fork: &Option<Vec<u8>>,
        size: u64,
        note: String,
    ) -> (r: Result<FileResult, Error>)
        ensures
            final(dest).dest() == old(dest).dest(),
            self.kernel_recovered(
                fsoid,
                path@,
                attribute@,
                fork_view(*resource_fork),
                size,
                note@,
                old(dest)@,
                final(dest)@,
                r,
            ),
    {
        let free = self.guard_overwrite(dest, path);
        let ghost mid = dest@;
        let ghost given = free;
        proof {
            assert(self.guarded(path@, old(dest)@, mid, given));
        }
        match free {
            Err(error) => return Err(error),
            Ok(_) => {},
        }
        let ghost told = note@;
        let done = write_kernel_compressed_atomic(dest, path, attribute, resource_fork, size);
        let r = match done {
            Err(error) => Err(error),
            Ok(_) => Ok(
                FileResult {
                    path: path.to_owned(),
                    fsoid,
                    status: "recovered",
                    bytes: size,
                    note: Some(note),
                },
            ),
        };
        proof {
            assert(self.kernel_written(
                fsoid,
                path@,
                attribute@,
                fork_view(*resource_fork),
                size,
                told,
                mid,
                dest@,
                r,
            ));
        }
        r
    }

    /// `r` is the result of sending decoded bytes to the output stream.
    pub open spec fn decoded_sent(
        &self,
        fsoid: u64,
        header: Header,
        bytes: Seq<u8>,
        at: Seq<Event>,
        to: Seq<Event>,
        r: Result<FileResult, Error>,
    ) -> bool {
        exists|sent: Result<(), Error>| #[trigger]
            did(at, Event::Stream { bytes, reply: sent }, to) && match sent {
                Err(error) => is_failed(r, error@),
                Ok(_) => is_result(
                    r,
                    recovered_as(
                        "-"@,
                        fsoid,
                        bytes.len() as u64,
                        Some(compression_note(header)),
                    ),
                ),
            }
    }

    /// `r` is the result of a compressed file whose payload stands in its attribute.
    pub open spec fn embedded_recovered(
        &self,
        fsoid: u64,
        output: Option<Seq<char>>,
        header: Header,
        attribute: Seq<u8>,
        size: u64,
        at: Seq<Event>,
        to: Seq<Event>,
        r: Result<FileResult, Error>,
    ) -> bool {
        match output {
            None => exists|decoded: Result<Vec<u8>, Error>| #[trigger]
                embedded_decoded(self.codec, attribute, decoded) && match decoded {
                    Err(error) => to == at && is_failed(r, error@),
                    Ok(bytes) => self.decoded_sent(fsoid, header, bytes@, at, to, r),
                },
            Some(path) => exists|able: bool, mid: Seq<Event>| #[trigger]
                did(at, Event::HasKernelCodec { reply: able }, mid) && if able {
                    self.kernel_recovered(
                        fsoid,
                        path,
                        attribute,
                        None,
                        size,
                        kernel_note(header),
                        mid,
                        to,
                        r,
                    )
                } else {
                    self.decoded_recovered(fsoid, path, header, attribute, mid, to, r)
                },
        }
    }

    /// `r` is the result of decoding the payload of `attribute` to `path`, which may
    /// be written.
    pub open spec fn decoded_written(
        &self,
        fsoid: u64,
        path: Seq<char>,
        header: Header,
        attribute: Seq<u8>,
        at: Seq<Event>,
        to: Seq<Event>,
        r: Result<FileResult, Error>,
    ) -> bool {
        exists|decoded: Result<Vec<u8>, Error>, given: Result<Vec<u8>, Error>, done: Result<u64, Error>|
            {
                &&& #[trigger] embedded_decoded(self.codec, attribute, decoded)
                &&& same_bytes(decoded, given)
                &&& #[trigger] bytes_installed(path, given, at, to, done)
                &&& match done {
                    Err(error) => is_failed(r, error@),
                    Ok(bytes) => is_result(
                        r,
                        recovered_as(path, fsoid, bytes, Some(compression_note(header))),
                    ),
                }
            }
    }

    /// `r` is the result of decoding the payload of `attribute` to `path`.
    pub open spec fn decoded_recovered(
        &self,
        fsoid: u64,
        path: Seq<char>,
        header: Header,
        attribute: Seq<u8>,
        at: Seq<Event>,
        to: Seq<Event>,
        r: Result<FileResult, Error>,
    ) -> bool {
        exists|free: Result<(), Error>, mid: Seq<Event>| #[trigger]
            self.guarded(path, at, mid, free) && match free {
                Err(error) => to == mid && is_failed(r, error@),
                Ok(_) => self.decoded_written(fsoid, path, header, attribute, mid, to, r),
            }
    }
}

/// Both are the same bytes, or the same error.
pub open spec fn same_bytes(a: Result<Vec<u8>, Error>, b: Result<Vec<u8>, Error>) -> bool {
    match a {
        Ok(bytes) => b matches Ok(other) && other@ == bytes@,
        Err(error) => b == a,
    }
}

impl<'a, D: ApfsImage, B: TreeReader, C: Codec> Recovery<'a, D, B, C> {
    fn decode(&self, attribute: &Vec<u8>) -> (r: Result<Vec<u8>, Error>)
        ensures
            exists|decoded: Result<Vec<u8>, Error>| #[trigger]
                embedded_decoded(self.codec, attribute@, decoded) && same_bytes(decoded, r),
    {
        let mut bytes: Vec<u8> = Vec::new();
        match write_embedded(attribute.as_slice(), self.codec, &mut bytes) {
            Err(error) => Err(error),
            Ok(_) => Ok(bytes),
        }
    }

    fn recover_decoded<O: Destination>(
        &self,
        dest: &mut Journal<O>,
        fsoid: u64,
        path: &str,
        header: Header,
        attribute: &Vec<u8>,
    ) -> (r: Result<FileResult, Error>)
        ensures
            final(dest).dest() == old(dest).dest(),
            self.decoded_recovered(
                fsoid,
                path@,
                header,
                attribute@,
                old(dest)@,
                final(dest)@,
                r,
            ),
    {
        let free = self.guard_overwrite(dest, path);
        let ghost mid = dest@;
        let ghost may = free;
        proof {
            assert(self.guarded(path@, old(dest)@, mid, may));
        }
        match free {
            Err(error) => return Err(error),
            Ok(_) => {},
        }
        let given = self.decode(attribute);
        let ghost bytes = given;
        let done = write_bytes_atomic(dest, path, given);
        let r = match done {
            Err(error) => Err(error),
            Ok(count) => Ok(
                FileResult {
                    path: path.to_owned(),
                    fsoid,
                    status: "recovered",
                    bytes: count,
                    note: Some(compression_note_text(header)),
                },
            ),
        };
        proof {
            assert(bytes_installed(path@, bytes, mid, dest@, done));
            assert(self.decoded_written(fsoid, path@, header, attribute@, mid, dest@, r));
        }
        r
    }

    fn recover_embedded<O: Destination>(
        &self,
        dest: &mut Journal<O>,
        fsoid: u64,
        output: Option<&str>,
        header: Header,
        attribute: &Vec<u8>,
        size: u64,
    ) -> (r: Result<FileResult, Error>)
        ensures
            final(dest).dest() == old(dest).dest(),
            self.embedded_recovered(
                fsoid,
                output_text(output),
                header,
                attribute@,
                size,
                old(dest)@,
                final(dest)@,
                r,
            ),
    {
        match output {
            None => {
                let given = self.decode(attribute);
                let ghost decoded = choose|decoded: Result<Vec<u8>, Error>| #[trigger]
                    embedded_decoded(self.codec, attribute@, decoded) && same_bytes(
                        decoded,
                        given,
                    );
                proof {
                    assert(embedded_decoded(self.codec, attribute@, decoded));
                }
                let out = match given {
                    Err(error) => return Err(error),
                    Ok(out) => out,
                };
                let sent = dest.stream(&out);
                let r = match sent {
                    Err(error) => Err(error),
                    Ok(_) => Ok(
                        FileResult {
                            path: "-".to_owned(),
                            fsoid,
                            status: "recovered",
                            bytes: out.len() as u64,
                            note: Some(compression_note_text(header)),
                        },
                    ),
                };
                proof {
                    assert(self.decoded_sent(fsoid, header, out@, old(dest)@, dest@, r));
                }
                r
            },
            Some(path) => {
                let able = dest.has_kernel_codec();
                if able {
                    self.recover_by_kernel(
                        dest,
                        fsoid,
                        path,
                        attribute,
                        &None,
                        size,
                        kernel_note_text(header),
                    )
                } else {
                    self.recover_decoded(dest, fsoid, path, header, attribute)
                }
            },
        }
    }

    /// `r` is the resource fork among `records`, where there is one.
    pub open spec fn fork_read(
        &self,
        records: Seq<Record>,
        r: Result<Option<Vec<u8>>, Error>,
    ) -> bool {
        exists|found: Result<Option<Xattr>, Error>| #[trigger]
            Volume::<D>::xattr_found(records, RESOURCE_FORK_XATTR_NAME@, false, found)
                && match found {
                Err(error) => is_failed(r, error@),
                Ok(None) => r == Ok::<Option<Vec<u8>>, Error>(None),
                Ok(Some(x)) => exists|data: Result<Vec<u8>, Error>| #[trigger]
                    self.vol.xattr_read(self.bt, &x, data) && match data {
                        Err(error) => is_failed(r, error@),
                        Ok(bytes) => r == Ok::<Option<Vec<u8>>, Error>(Some(bytes)),
                    },
            }
    }

    fn read_fork(&self, records: &[Record]) -> (r: Result<Option<Vec<u8>>, Error>)
        ensures
            self.fork_read(records@, r),
    {
        let found = Volume::<D>::xattr(records, RESOURCE_FORK_XATTR_NAME);
        match &found {
            Err(error) => Err(error.clone()),
            Ok(None) => Ok(None),
            Ok(Some(x)) => {
                let data = self.vol.read_xattr_data(self.bt, x);
                let ghost given = data;
                proof {
                    assert(self.vol.xattr_read(self.bt, x, given));
                }
                match data {
                    Err(error) => Err(error),
                    Ok(bytes) => Ok(Some(bytes)),
                }
            },
        }
    }

    /// `r` is the result of a compressed file with this header.
    pub open spec fn header_recovered(
        &self,
        fsoid: u64,
        output: Option<Seq<char>>,
        header: Header,
        attribute: Seq<u8>,
        size: u64,
        records: Seq<Record>,
        at: Seq<Event>,
        to: Seq<Event>,
        r: Result<FileResult, Error>,
    ) -> bool {
        if header.spec_storage() == Storage::Embedded {
            self.embedded_recovered(fsoid, output, header, attribute, size, at, to, r)
        } else {
            match output {
                None => to == at && is_failed(r, needs_output(header)),
                Some(path) => exists|fork: Result<Option<Vec<u8>>, Error>| #[trigger]
                    self.fork_read(records, fork) && match fork {
                        Err(error) => to == at && is_failed(r, error@),
                        Ok(fork) => if header.spec_storage() == Storage::ResourceFork && fork
                            is None {
                            to == at && is_failed(r, no_resource_fork(header))
                        } else {
                            self.kernel_recovered(
                                fsoid,
                                path,
                                attribute,
                                fork_view(fork),
                                size,
                                if header.spec_storage() == Storage::ResourceFork {
                                    compression_note(header)
                                } else {
                                    kernel_note(header)
                                },
                                at,
                                to,
                                r,
                            )
                        },
                    },
            }
        }
    }

    fn recover_with_header<O: Destination>(
        &self,
        dest: &mut Journal<O>,
        fsoid: u64,
        output: Option<&str>,
        header: Header,
        attribute: &Vec<u8>,
        size: u64,
        records: &[Record],
    ) -> (r: Result<FileResult, Error>)
        ensures
            final(dest).dest() == old(dest).dest(),
            self.header_recovered(
                fsoid,
                output_text(output),
                header,
                attribute@,
                size,
                records@,
                old(dest)@,
                final(dest)@,
                r,
            ),
    {
        if header.storage() == Storage::Embedded {
            return self.recover_embedded(dest, fsoid, output, header, attribute, size);
        }
        match output {
            None => Err(needs_output_error(header)),
            Some(path) => {
                let read = self.read_fork(records);
                let ghost given = read;
                proof {
                    assert(self.fork_read(records@, given));
                }
                match read {
                    Err(error) => Err(error),
                    Ok(fork) => {
                        if header.storage() == Storage::ResourceFork {
                            if fork.is_none() {
                                let mut message = "decmpfs type ".to_owned();
                                push_dec(&mut message, header.compression_type as u64);
                                message.append(" has no `com.apple.ResourceFork` xattr");
                                return Err(Error::new(ErrorKind::Corrupt, message));
                            }
                            self.recover_by_kernel(
                                dest,
                                fsoid,
                                path,
                                attribute,
                                &fork,
                                size,
                                compression_note_text(header),
                            )
                        } else {
                            self.recover_by_kernel(
                                dest,
                                fsoid,
                                path,
                                attribute,
                                &fork,
                                size,
                                kernel_note_text(header),
                            )
                        }
                    },
                }
            },
        }
    }

    /// `r` is the result of a compressed file whose attribute reads as `data`.
    pub open spec fn attribute_recovered(
        &self,
        fsoid: u64,
        output: Option<Seq<char>>,
        data: Result<Vec<u8>, Error>,
        size: u64,
        records: Seq<Record>,
        at: Seq<Event>,
        to: Seq<Event>,
        r: Result<FileResult, Error>,
    ) -> bool {
        match data {
            Err(error) => to == at && is_failed(r, error@),
            Ok(attribute) => match header_of(attribute@) {
                Err(error) => to == at && is_failed(r, error),
                Ok(header) => if header.uncompressed_size != size {
                    to == at && is_failed(r, sizes_differ(header, size))
                } else {
                    self.header_recovered(
                        fsoid,
                        output,
                        header,
                        attribute@,
                        size,
                        records,
                        at,
                        to,
                        r,
                    )
                },
            },
        }
    }

    /// `r` is the result of a compressed file for whose attribute looking gave
    /// `found`.
    pub open spec fn found_recovered(
        &self,
        fsoid: u64,
        output: Option<Seq<char>>,
        found: Result<Option<Xattr>, Error>,
        size: u64,
        records: Seq<Record>,
        at: Seq<Event>,
        to: Seq<Event>,
        r: Result<FileResult, Error>,
    ) -> bool {
        match found {
            Err(error) => to == at && is_failed(r, error@),
            Ok(None) => to == at && is_failed(r, no_compression_attribute(fsoid)),
            Ok(Some(x)) => exists|data: Result<Vec<u8>, Error>| #[trigger]
                self.vol.xattr_read(self.bt, &x, data) && self.attribute_recovered(
                    fsoid,
                    output,
                    data,
                    size,
                    records,
                    at,
                    to,
                    r,
                ),
        }
    }

    /// `r` is the result of a compressed file of `size` bytes.
    pub open spec fn compressed_recovered(
        &self,
        fsoid: u64,
        output: Option<Seq<char>>,
        size: u64,
        records: Seq<Record>,
        at: Seq<Event>,
        to: Seq<Event>,
        r: Result<FileResult, Error>,
    ) -> bool {
        exists|found: Result<Option<Xattr>, Error>| #[trigger]
            Volume::<D>::xattr_found(records, DECMPFS_XATTR_NAME@, false, found)
                && self.found_recovered(fsoid, output, found, size, records, at, to, r)
    }

    fn recover_compressed<O: Destination>(
        &self,
        dest: &mut Journal<O>,
        fsoid: u64,
        output: Option<&str>,
        size: u64,
        records: &[Record],
    ) -> (r: Result<FileResult, Error>)
        ensures
            final(dest).dest() == old(dest).dest(),
            self.compressed_recovered(
                fsoid,
                output_text(output),
                size,
                records@,
                old(dest)@,
                final(dest)@,
                r,
            ),
    {
        let found = Volume::<D>::xattr(records, DECMPFS_XATTR_NAME);
        let r = match &found {
            Err(error) => Err(error.clone()),
            Ok(None) => {
                let mut message = "compressed FSOID ".to_owned();
                push_hex(&mut message, fsoid);
                message.append(" has no `com.apple.decmpfs` xattr");
                Err(Error::new(ErrorKind::Corrupt, message))
            },
            Ok(Some(x)) => {
                let data = self.vol.read_xattr_data(self.bt, x);
                let told = match &data {
                    Err(error) => Err(error.clone()),
                    Ok(attribute) => match parse_header(attribute.as_slice()) {
                        Err(error) => Err(error),
                        Ok(header) => if header.uncompressed_size != size {
                            let mut message = "decmpfs size ".to_owned();
                            push_dec(&mut message, header.uncompressed_size);
                            message.append(" does not match inode logical size ");
                            push_dec(&mut message, size);
                            Err(Error::new(ErrorKind::Corrupt, message))
                        } else {
                            self.recover_with_header(
                                dest,
                                fsoid,
                                output,
                                header,
                                attribute,
                                size,
                                records,
                            )
                        },
                    },
                };
                proof {
                    assert(self.attribute_recovered(
                        fsoid,
                        output_text(output),
                        data,
                        size,
                        records@,
                        old(dest)@,
                        dest@,
                        told,
                    ));
                }
                told
            },
        };
        proof {
            assert(self.found_recovered(
                fsoid,
                output_text(output),
                found,
                size,
                records@,
                old(dest)@,
                dest@,
                r,
            ));
        }
        r
    }

    /// `r` is the result of sending a file's data, which `records` describe, to the
    /// output stream.
    pub open spec fn data_streamed(
        &self,
        fsoid: u64,
        inode: &Inode,
        records: Seq<Record>,
        at: Seq<Event>,
        to: Seq<Event>,
        r: Result<FileResult, Error>,
    ) -> bool {
        exists|written: Result<Written, Error>| #[trigger]
            data_sent(self.vol, records, inode.spec_size(), Place::Stream, at, to, written)
                && match written {
                Err(error) => is_failed(r, error@),
                Ok(account) => is_result(r, extracted_as("-"@, fsoid, *inode, account)),
            }
    }

    /// `r` is the result of writing a file's data to `path`, which may be written.
    pub open spec fn data_placed(
        &self,
        fsoid: u64,
        path: Seq<char>,
        inode: &Inode,
        records: Seq<Record>,
        at: Seq<Event>,
        to: Seq<Event>,
        r: Result<FileResult, Error>,
    ) -> bool {
        exists|written: Result<Written, Error>| #[trigger]
            data_installed(
                self.vol,
                records,
                inode.spec_size(),
                inode.sparse,
                path,
                at,
                to,
                written,
            ) && match written {
                Err(error) => is_failed(r, error@),
                Ok(account) => is_result(r, extracted_as(path, fsoid, *inode, account)),
            }
    }

    /// `r` is the result of the extraction of a file's data, which `records`
    /// describe.
    pub open spec fn data_recovered(
        &self,
        fsoid: u64,
        output: Option<Seq<char>>,
        inode: &Inode,
        records: Seq<Record>,
        at: Seq<Event>,
        to: Seq<Event>,
        r: Result<FileResult, Error>,
    ) -> bool {
        match output {
            None => self.data_streamed(fsoid, inode, records, at, to, r),
            Some(path) => self.data_moved(fsoid, path, inode, records, at, to, r),
        }
    }

    /// `r` is the result of writing a file's data to `path`.
    pub open spec fn data_moved(
        &self,
        fsoid: u64,
        path: Seq<char>,
        inode: &Inode,
        records: Seq<Record>,
        at: Seq<Event>,
        to: Seq<Event>,
        r: Result<FileResult, Error>,
    ) -> bool {
        exists|free: Result<(), Error>, mid: Seq<Event>| #[trigger]
            self.guarded(path, at, mid, free) && match free {
                Err(error) => to == mid && is_failed(r, error@),
                Ok(_) => self.data_placed(fsoid, path, inode, records, mid, to, r),
            }
    }

    fn send_data<O: Destination>(
        &self,
        dest: &mut Journal<O>,
        fsoid: u64,
        inode: &Inode,
        records: &[Record],
    ) -> (r: Result<FileResult, Error>)
        ensures
            final(dest).dest() == old(dest).dest(),
            self.data_streamed(fsoid, inode, records@, old(dest)@, final(dest)@, r),
    {
        let out: Output<O::Temp> = Output::Stream;
        let written = send_file_data(dest, self.vol, records, inode.size(), &out);
        let ghost given = written;
        proof {
            assert(data_sent(
                self.vol,
                records@,
                inode.spec_size(),
                Place::Stream,
                old(dest)@,
                dest@,
                given,
            ));
        }
        match written {
            Err(error) => Err(error),
            Ok(account) => Ok(extraction_result("-", fsoid, inode, &account)),
        }
    }

    fn move_data<O: Destination>(
        &self,
        dest: &mut Journal<O>,
        fsoid: u64,
        path: &str,
        inode: &Inode,
        records: &[Record],
    ) -> (r: Result<FileResult, Error>)
        ensures
            final(dest).dest() == old(dest).dest(),
            self.data_moved(fsoid, path@, inode, records@, old(dest)@, final(dest)@, r),
    {
        let free = self.guard_overwrite(dest, path);
        let ghost mid = dest@;
        let ghost may = free;
        proof {
            assert(self.guarded(path@, old(dest)@, mid, may));
        }
        match free {
            Err(error) => return Err(error),
            Ok(_) => {},
        }
        let size: u64 = inode.size();
        let written = write_file_atomic(dest, self.vol, records, size, inode.sparse, path);
        let ghost given = written;
        let r = match written {
            Err(error) => Err(error),
            Ok(account) => Ok(extraction_result(path, fsoid, inode, &account)),
        };
        proof {
            assert(data_installed(
                self.vol,
                records@,
                size,
                inode.sparse,
                path@,
                mid,
                dest@,
                given,
            ));
            assert(self.data_placed(fsoid, path@, inode, records@, mid, dest@, r));
        }
        r
    }

    fn recover_data<O: Destination>(
        &self,
        dest: &mut Journal<O>,
        fsoid: u64,
        output: Option<&str>,
        inode: &Inode,
        records: &[Record],
    ) -> (r: Result<FileResult, Error>)
        ensures
            final(dest).dest() == old(dest).dest(),
            self.data_recovered(
                fsoid,
                output_text(output),
                inode,
                records@,
                old(dest)@,
                final(dest)@,
                r,
            ),
    {
        match output {
            None => self.send_data(dest, fsoid, inode, records),
            Some(path) => self.move_data(dest, fsoid, path, inode, records),
        }
    }

    /// `r` is the result of a file's content, whatever holds it.
    pub open spec fn content_recovered(
        &self,
        fsoid: u64,
        output: Option<Seq<char>>,
        inode: &Inode,
        inode_records: Seq<Record>,
        at: Seq<Event>,
        to: Seq<Event>,
        r: Result<FileResult, Error>,
    ) -> bool {
        if self.opts.dry_run {
            &&& to == at
            &&& is_result(
                r,
                FileResultView {
                    path: match output {
                        Some(path) => path,
                        None => "-"@,
                    },
                    fsoid,
                    status: "dry-run"@,
                    bytes: inode.spec_size(),
                    note: None,
                },
            )
        } else if inode.kind is Regular && inode.compressed {
            self.compressed_recovered(fsoid, output, inode.spec_size(), inode_records, at, to, r)
        } else if inode.kind is Regular {
            exists|given: Result<Cow<[Record]>, Error>| #[trigger]
                self.vol.data_records_given(
                    self.bt,
                    fsoid,
                    inode.private_id,
                    inode_records,
                    given,
                ) && match given {
                    Err(error) => to == at && is_failed(r, error@),
                    Ok(data) => self.data_recovered(fsoid, output, inode, records_in(data), at, to, r),
                }
        } else {
            self.data_recovered(fsoid, output, inode, inode_records, at, to, r)
        }
    }

    fn recover_content<O: Destination>(
        &self,
        dest: &mut Journal<O>,
        fsoid: u64,
        output: Option<&str>,
        inode: &Inode,
        inode_records: &[Record],
    ) -> (r: Result<FileResult, Error>)
        ensures
            final(dest).dest() == old(dest).dest(),
            self.content_recovered(
                fsoid,
                output_text(output),
                inode,
                inode_records@,
                old(dest)@,
                final(dest)@,
                r,
            ),
    {
        if self.opts.dry_run {
            let path = match output {
                Some(path) => path,
                None => "-",
            };
            return Ok(
                FileResult {
                    path: path.to_owned(),
                    fsoid,
                    status: "dry-run",
                    bytes: inode.size(),
                    note: None,
                },
            );
        }
        if inode.is_regular() && inode.compressed {
            return self.recover_compressed(dest, fsoid, output, inode.size(), inode_records);
        }
        if inode.is_regular() {
            let given = self.vol.file_data_records(self.bt, fsoid, inode, inode_records);
            match &given {
                Err(error) => Err(error.clone()),
                Ok(data) => self.recover_data(dest, fsoid, output, inode, record_slice(data)),
            }
        } else {
            self.recover_data(dest, fsoid, output, inode, inode_records)
        }
    }

    /// `r` is the result of recovering one file or symbolic link to `output`, or to
    /// the output stream where there is none. A symbolic link whose target is known
    /// is made anew where it has a place to stand.
    pub open spec fn file_recovered(
        &self,
        fsoid: u64,
        output: Option<Seq<char>>,
        inode: &Inode,
        inode_records: Seq<Record>,
        at: Seq<Event>,
        to: Seq<Event>,
        r: Result<FileResult, Error>,
    ) -> bool {
        if inode.kind is Symlink {
            exists|target: Result<Option<String>, Error>| #[trigger]
                Volume::<D>::symlink_read(inode_records, target) && match target {
                    Err(error) => to == at && is_failed(r, error@),
                    Ok(target) => if target is Some && output is Some {
                        self.link_recovered(fsoid, target->Some_0@, output->Some_0, at, to, r)
                    } else {
                        self.content_recovered(fsoid, output, inode, inode_records, at, to, r)
                    },
                }
        } else {
            self.content_recovered(fsoid, output, inode, inode_records, at, to, r)
        }
    }

    /// Recovers one file or symbolic link to `output`, or to the output stream.
    pub fn recover_single_file<O: Destination>(
        &self,
        dest: &mut Journal<O>,
        fsoid: u64,
        output: Option<&str>,
        inode: &Inode,
        inode_records: &[Record],
    ) -> (r: Result<FileResult, Error>)
        ensures
            final(dest).dest() == old(dest).dest(),
            self.file_recovered(
                fsoid,
                output_text(output),
                inode,
                inode_records@,
                old(dest)@,
                final(dest)@,
                r,
            ),
    {
        if inode.is_symlink() {
            let target = Volume::<D>::symlink_target(inode_records);
            match &target {
                Err(error) => return Err(error.clone()),
                Ok(Some(text)) => match output {
                    Some(path) => {
                        return self.recover_link(dest, fsoid, text.as_str(), path);
                    },
                    None => {},
                },
                Ok(None) => {},
            }
            let r = self.recover_content(dest, fsoid, output, inode, inode_records);
            proof {
                assert(Volume::<D>::symlink_read(inode_records@, target));
            }
            return r;
        }
        self.recover_content(dest, fsoid, output, inode, inode_records)
    }
}

// ---------------------------------------------------------------------------
// Folders
// ---------------------------------------------------------------------------

/// How deep folders may nest.
pub const MAX_DIR_DEPTH: u32 = 256;

/// For each file with several names, the path at which it was recovered first.
#[derive(Debug)]
pub struct HardlinkState {
    map: HashMap<u64, String>,
}

impl View for HardlinkState {
    type V = Map<u64, Seq<char>>;

    closed spec fn view(&self) -> Map<u64, Seq<char>> {
        self.map@.map_values(|path: String| path@)
    }
}

impl HardlinkState {
    /// No file was recovered yet.
    pub fn new() -> (r: HardlinkState)
        ensures
            r@ == Map::<u64, Seq<char>>::empty(),
    {
        broadcast use vstd::std_specs::hash::group_hash_axioms;

        let r = HardlinkState { map: HashMap::new() };
        proof {
            assert(r@ =~= Map::<u64, Seq<char>>::empty());
        }
        r
    }

    /// Where object `oid` was recovered first.
    pub fn get(&self, oid: u64) -> (r: Option<&String>)
        ensures
            match r {
                Some(path) => self@.contains_key(oid) && self@[oid] == path@,
                None => !self@.contains_key(oid),
            },
    {
        broadcast use vstd::std_specs::hash::group_hash_axioms;

        self.map.get(&oid)
    }

    /// Notes where object `oid` was recovered, unless that is known.
    pub fn insert(&mut self, oid: u64, path: String)
        ensures
            final(self)@ == first_kept(old(self)@, oid, path@),
    {
        broadcast use vstd::std_specs::hash::group_hash_axioms;

        if !self.map.contains_key(&oid) {
            let ghost before = self@;
            let ghost text = path@;
            self.map.insert(oid, path);
            proof {
                assert(self@ =~= before.insert(oid, text));
            }
        }
    }
}

/// `links` with `path` for `oid`, unless there is one.
pub open spec fn first_kept(links: Map<u64, Seq<char>>, oid: u64, path: Seq<char>) -> Map<
    u64,
    Seq<char>,
> {
    if links.contains_key(oid) {
        links
    } else {
        links.insert(oid, path)
    }
}

/// What recovery has done so far.
#[derive(Debug)]
pub struct Progress {
    pub results: Vec<FileResult>,
    pub links: HardlinkState,
}

/// The mathematical content of a [`Progress`], with the journal that goes with it.
pub struct ProgressView {
    pub results: Seq<FileResultView>,
    pub links: Map<u64, Seq<char>>,
    pub log: Seq<Event>,
}

/// The views of a list of results.
pub open spec fn result_views(results: Seq<FileResult>) -> Seq<FileResultView> {
    Seq::new(results.len(), |i: int| results[i]@)
}

impl Progress {
    /// What was done so far, where `log` is the journal.
    pub open spec fn with_log(&self, log: Seq<Event>) -> ProgressView {
        ProgressView { results: result_views(self.results@), links: self.links@, log }
    }
}

/// `before` with one more result.
pub open spec fn noted(before: ProgressView, result: FileResultView) -> ProgressView {
    ProgressView { results: before.results.push(result), ..before }
}

impl Progress {
    /// Nothing was done yet.
    pub fn new() -> (r: Progress)
        ensures
            result_views(r.results@) == Seq::<FileResultView>::empty(),
            r.links@ == Map::<u64, Seq<char>>::empty(),
    {
        let r = Progress { results: Vec::new(), links: HardlinkState::new() };
        proof {
            assert(result_views(r.results@) =~= Seq::empty());
        }
        r
    }

    fn note(&mut self, result: FileResult)
        ensures
            result_views(final(self).results@) == result_views(old(self).results@).push(result@),
            final(self).links@ == old(self).links@,
    {
        push_result(&mut self.results, result);
    }
}

fn push_result(results: &mut Vec<FileResult>, result: FileResult)
    ensures
        result_views(final(results)@) == result_views(old(results)@).push(result@),
{
    let ghost before = results@;
    let ghost seen = result@;
    results.push(result);
    proof {
        assert(result_views(results@) =~= result_views(before).push(seen));
    }
}

/// The result of a file that could not be recovered.
pub open spec fn failed_as(path: Seq<char>, fsoid: u64, note: Seq<char>) -> FileResultView {
    FileResultView { path, fsoid, status: "error"@, bytes: 0, note: Some(note) }
}

fn failure_result(path: &str, fsoid: u64, note: String) -> (r: FileResult)
    ensures
        r@ == failed_as(path@, fsoid, note@),
{
    FileResult { path: path.to_owned(), fsoid, status: "error", bytes: 0, note: Some(note) }
}

/// What an error of one file does: it ends the whole recovery, or it is noted where
/// recovery is to do what it can.
pub open spec fn child_failed(
    best_effort: bool,
    before: Seq<FileResultView>,
    path: Seq<char>,
    fsoid: u64,
    error: ErrorView,
    after: Seq<FileResultView>,
    r: Result<(), Error>,
) -> bool {
    if best_effort {
        after == before.push(failed_as(path, fsoid, error.message)) && r is Ok
    } else {
        after == before && is_failed(r, error)
    }
}

/// Notes the error of one file where recovery is to do what it can, and gives it
/// back otherwise.
pub fn record_child_error_or_fail(
    opts: &Options,
    results: &mut Vec<FileResult>,
    path: &str,
    fsoid: u64,
    error: Error,
) -> (r: Result<(), Error>)
    ensures
        child_failed(
            opts.best_effort,
            result_views(old(results)@),
            path@,
            fsoid,
            error@,
            result_views(final(results)@),
            r,
        ),
{
    if !opts.best_effort {
        return Err(error);
    }
    push_result(results, failure_result(path, fsoid, error.text()));
    Ok(())
}

impl<'a, D: ApfsImage, B: TreeReader, C: Codec> Recovery<'a, D, B, C> {
    /// An error of one file led from `before` to `after`.
    pub open spec fn error_noted(
        &self,
        before: ProgressView,
        path: Seq<char>,
        fsoid: u64,
        error: ErrorView,
        after: ProgressView,
        r: Result<(), Error>,
    ) -> bool {
        &&& child_failed(
            self.opts.best_effort,
            before.results,
            path,
            fsoid,
            error,
            after.results,
            r,
        )
        &&& after.links == before.links
        &&& after.log == before.log
    }

    fn note_error(&self, progress: &mut Progress, path: &str, fsoid: u64, error: Error) -> (r: Result<
        (),
        Error,
    >)
        ensures
            child_failed(
                self.opts.best_effort,
                result_views(old(progress).results@),
                path@,
                fsoid,
                error@,
                result_views(final(progress).results@),
                r,
            ),
            final(progress).links@ == old(progress).links@,
    {
        record_child_error_or_fail(self.opts, &mut progress.results, path, fsoid, error)
    }

    /// A file that was recovered before, at `first`, was to get the second name
    /// `path`, with result `made`. What stands there is removed before, where it may
    /// be overwritten.
    pub open spec fn hard_linked(
        &self,
        first: Seq<char>,
        path: Seq<char>,
        at: Seq<Event>,
        to: Seq<Event>,
        made: Result<(), Error>,
    ) -> bool {
        if self.opts.overwrite {
            exists|gone: Result<(), Error>, mid: Seq<Event>| #[trigger]
                did(at, Event::Remove { path, reply: gone }, mid) && did(
                    mid,
                    Event::HardLink { first, path, reply: made },
                    to,
                )
        } else {
            did(at, Event::HardLink { first, path, reply: made }, to)
        }
    }

    fn link_again<O: Destination>(&self, dest: &mut Journal<O>, first: &str, path: &str) -> (r:
        Result<(), Error>)
        ensures
            final(dest).dest() == old(dest).dest(),
            self.hard_linked(first@, path@, old(dest)@, final(dest)@, r),
    {
        if self.opts.overwrite {
            let _gone = dest.remove(path);
        }
        dest.hard_link(first, path)
    }

    /// A file that was recovered before, at `first`, was to get the second name
    /// `path`, which led from `before` to `after`.
    pub open spec fn second_name_given(
        &self,
        fsoid: u64,
        first: Seq<char>,
        path: Seq<char>,
        before: ProgressView,
        after: ProgressView,
    ) -> bool {
        let linked = recovered_as(path, fsoid, 0, Some("hardlink"@));
        if self.opts.dry_run {
            after == noted(before, linked)
        } else {
            exists|made: Result<(), Error>| #[trigger]
                self.hard_linked(first, path, before.log, after.log, made) && after == noted(
                    ProgressView { log: after.log, ..before },
                    match made {
                        Ok(_) => linked,
                        Err(error) => failed_as(
                            path,
                            fsoid,
                            "hardlink failed: "@ + error@.message,
                        ),
                    },
                )
        }
    }

    fn give_second_name<O: Destination>(
        &self,
        dest: &mut Journal<O>,
        fsoid: u64,
        first: &str,
        path: &str,
        progress: &mut Progress,
    )
        ensures
            final(dest).dest() == old(dest).dest(),
            self.second_name_given(
                fsoid,
                first@,
                path@,
                old(progress).with_log(old(dest)@),
                final(progress).with_log(final(dest)@),
            ),
    {
        let ghost before = progress.with_log(dest@);
        let linked = FileResult {
            path: path.to_owned(),
            fsoid,
            status: "recovered",
            bytes: 0,
            note: Some("hardlink".to_owned()),
        };
        if self.opts.dry_run {
            progress.note(linked);
            return ;
        }
        let made = self.link_again(dest, first, path);
        let ghost given = made;
        match made {
            Ok(_) => progress.note(linked),
            Err(error) => {
                let mut note = "hardlink failed: ".to_owned();
                note.append(error.text().as_str());
                progress.note(failure_result(path, fsoid, note));
            },
        }
        proof {
            let after = progress.with_log(dest@);
            assert(self.hard_linked(first@, path@, before.log, after.log, given));
        }
    }

    /// Recovering a file to `path`, where nothing is in the way, led from `before` to
    /// `after`. A file that was recovered before under another name only gets a
    /// second one.
    pub open spec fn leaf_written(
        &self,
        fsoid: u64,
        inode: &Inode,
        records: Seq<Record>,
        path: Seq<char>,
        before: ProgressView,
        after: ProgressView,
        r: Result<(), Error>,
    ) -> bool {
        let several = inode.nchildren_or_nlink > 1;
        if several && before.links.contains_key(fsoid) {
            r is Ok && self.second_name_given(fsoid, before.links[fsoid], path, before, after)
        } else {
            exists|done: Result<FileResult, Error>, mid: Seq<Event>| #[trigger]
                self.file_recovered(fsoid, Some(path), inode, records, before.log, mid, done)
                    && match done {
                    Err(error) => self.error_noted(
                        ProgressView { log: mid, ..before },
                        path,
                        fsoid,
                        error@,
                        after,
                        r,
                    ),
                    Ok(result) => r is Ok && after == ProgressView {
                        results: before.results.push(FileResultView { path, ..result@ }),
                        links: if several && !self.opts.dry_run {
                            first_kept(before.links, fsoid, path)
                        } else {
                            before.links
                        },
                        log: mid,
                    },
                }
        }
    }

    fn write_leaf<O: Destination>(
        &self,
        dest: &mut Journal<O>,
        fsoid: u64,
        inode: &Inode,
        records: &[Record],
        path: &str,
        progress: &mut Progress,
    ) -> (r: Result<(), Error>)
        ensures
            final(dest).dest() == old(dest).dest(),
            self.leaf_written(
                fsoid,
                inode,
                records@,
                path@,
                old(progress).with_log(old(dest)@),
                final(progress).with_log(final(dest)@),
                r,
            ),
    {
        let several = inode.nchildren_or_nlink > 1;
        if several {
            let known = match progress.links.get(fsoid) {
                Some(first) => Some(first.clone()),
                None => None,
            };
            match known {
                Some(first) => {
                    self.give_second_name(dest, fsoid, first.as_str(), path, progress);
                    return Ok(());
                },
                None => {},
            }
        }
        let ghost before = progress.with_log(dest@);
        let done = self.recover_single_file(dest, fsoid, Some(path), inode, records);
        let ghost given = done;
        proof {
            assert(self.file_recovered(
                fsoid,
                Some(path@),
                inode,
                records@,
                before.log,
                dest@,
                given,
            ));
        }
        match done {
            Err(error) => self.note_error(progress, path, fsoid, error),
            Ok(mut result) => {
                if several && !self.opts.dry_run {
                    progress.links.insert(fsoid, path.to_owned());
                }
                result.path = path.to_owned();
                push_result(&mut progress.results, result);
                Ok(())
            },
        }
    }

    /// Recovering a file to `path` led from `before` to `after`. What stands there is
    /// left alone, unless it may be overwritten.
    pub open spec fn leaf_recovered(
        &self,
        fsoid: u64,
        inode: &Inode,
        records: Seq<Record>,
        path: Seq<char>,
        before: ProgressView,
        after: ProgressView,
        r: Result<(), Error>,
    ) -> bool {
        if !self.opts.overwrite && !self.opts.dry_run {
            exists|found: bool, mid: Seq<Event>| #[trigger]
                did(before.log, Event::Reaches { path, reply: found }, mid) && if found {
                    r is Ok && after == noted(
                        ProgressView { log: mid, ..before },
                        FileResultView {
                            path,
                            fsoid,
                            status: "skipped-exists"@,
                            bytes: 0,
                            note: None,
                        },
                    )
                } else {
                    self.leaf_written(
                        fsoid,
                        inode,
                        records,
                        path,
                        ProgressView { log: mid, ..before },
                        after,
                        r,
                    )
                }
        } else {
            self.leaf_written(fsoid, inode, records, path, before, after, r)
        }
    }

    fn recover_leaf<O: Destination>(
        &self,
        dest: &mut Journal<O>,
        fsoid: u64,
        inode: &Inode,
        records: &[Record],
        path: &str,
        progress: &mut Progress,
    ) -> (r: Result<(), Error>)
        ensures
            final(dest).dest() == old(dest).dest(),
            self.leaf_recovered(
                fsoid,
                inode,
                records@,
                path@,
                old(progress).with_log(old(dest)@),
                final(progress).with_log(final(dest)@),
                r,
            ),
    {
        if !self.opts.overwrite && !self.opts.dry_run {
            let ghost before = progress.with_log(dest@);
            let found = dest.reaches(path);
            proof {
                assert(did(before.log, Event::Reaches { path: path@, reply: found }, dest@));
                assert(progress.with_log(dest@) == ProgressView { log: dest@, ..before });
            }
            if found {
                progress.note(
                    FileResult {
                        path: path.to_owned(),
                        fsoid,
                        status: "skipped-exists",
                        bytes: 0,
                        note: None,
                    },
                );
                return Ok(());
            }
        }
        self.write_leaf(dest, fsoid, inode, records, path, progress)
    }
}

/// How many more folders may nest in one at `depth`.
pub open spec fn levels_left(depth: int) -> int {
    MAX_DIR_DEPTH + 1 - depth
}

/// Names a state on the way. It holds of every state.
pub open spec fn on_the_way(state: ProgressView, step: Result<(), Error>) -> bool {
    true
}

impl<'a, D: ApfsImage, B: TreeReader, C: Codec> Recovery<'a, D, B, C> {
    /// Recovering the folder `dir_fsoid` to `dir` led from `before` to `after`.
    pub open spec fn folder_recovered(
        &self,
        dir_fsoid: u64,
        dir: Seq<char>,
        depth: int,
        before: ProgressView,
        after: ProgressView,
        r: Result<(), Error>,
    ) -> bool
        decreases levels_left(depth), 3int, 0int,
    {
        if depth > MAX_DIR_DEPTH {
            r is Ok && after == noted(
                before,
                failed_as(dir, dir_fsoid, "max directory depth exceeded"@),
            )
        } else {
            exists|made: Result<(), Error>, mid: Seq<Event>| #[trigger]
                self.dir_made(dir, before.log, mid, made) && match made {
                    Err(error) => after == (ProgressView { log: mid, ..before }) && is_failed(
                        r,
                        error@,
                    ),
                    Ok(_) => self.folder_filled(
                        dir_fsoid,
                        dir,
                        depth,
                        ProgressView { log: mid, ..before },
                        after,
                        r,
                    ),
                }
        }
    }

    /// Recovering all that the folder `dir_fsoid` holds to `dir` led from `before` to
    /// `after`.
    pub open spec fn folder_filled(
        &self,
        dir_fsoid: u64,
        dir: Seq<char>,
        depth: int,
        before: ProgressView,
        after: ProgressView,
        r: Result<(), Error>,
    ) -> bool
        decreases levels_left(depth), 2int, 0int,
    {
        exists|listing: Result<Vec<DirRec>, Error>| #[trigger]
            self.vol.dir_listed(self.bt, dir_fsoid, listing) && match listing {
                Err(error) => after == before && is_failed(r, error@),
                Ok(entries) => self.entries_recovered(
                    entries@,
                    0,
                    dir,
                    depth,
                    before,
                    after,
                    r,
                ),
            }
    }

    /// The folder `dir` was made, unless nothing is to be written.
    pub open spec fn dir_made(
        &self,
        dir: Seq<char>,
        at: Seq<Event>,
        to: Seq<Event>,
        r: Result<(), Error>,
    ) -> bool {
        if self.opts.dry_run {
            to == at && r is Ok
        } else {
            did(at, Event::MakeDirs { path: dir, reply: r }, to)
        }
    }

    /// Recovering the entries from `i` on, one after the other, led from `before` to
    /// `after`.
    pub open spec fn entries_recovered(
        &self,
        entries: Seq<DirRec>,
        i: int,
        dir: Seq<char>,
        depth: int,
        before: ProgressView,
        after: ProgressView,
        r: Result<(), Error>,
    ) -> bool
        decreases levels_left(depth), 1int, entries.len() - i,
    {
        if !(0 <= i < entries.len()) {
            after == before && r is Ok
        } else {
            exists|mid: ProgressView, step: Result<(), Error>| #[trigger]
                on_the_way(mid, step) && self.entry_recovered(
                    entries[i],
                    dir,
                    depth,
                    before,
                    mid,
                    step,
                ) && match step {
                    Err(error) => after == mid && is_failed(r, error@),
                    Ok(_) => self.entries_recovered(entries, i + 1, dir, depth, mid, after, r),
                }
        }
    }

    /// Recovering one entry of the folder at `dir` led from `before` to `after`. An
    /// entry whose name would leave the folder is refused.
    pub open spec fn entry_recovered(
        &self,
        entry: DirRec,
        dir: Seq<char>,
        depth: int,
        before: ProgressView,
        after: ProgressView,
        r: Result<(), Error>,
    ) -> bool
        decreases levels_left(depth), 0int, 2int,
    {
        let path = path_in(dir, entry.name@);
        if !is_safe(entry.name@) {
            r is Ok && after == noted(
                before,
                failed_as(
                    dir + "/"@ + entry.name@,
                    entry.file_id,
                    "unsafe entry name; skipped"@,
                ),
            )
        } else {
            exists|reply: Result<Vec<Record>, Error>| #[trigger]
                self.vol.asked(self.bt, entry.file_id, reply) && match reply {
                    Err(error) => self.error_noted(
                        before,
                        path,
                        entry.file_id,
                        error@,
                        after,
                        r,
                    ),
                    Ok(records) => exists|found: Result<Option<Inode>, Error>| #[trigger]
                        Volume::<D>::inode_found(records@, found) && match found {
                            Err(error) => self.error_noted(
                                before,
                                path,
                                entry.file_id,
                                error@,
                                after,
                                r,
                            ),
                            Ok(None) => r is Ok && after == noted(
                                before,
                                failed_as(path, entry.file_id, "no inode"@),
                            ),
                            Ok(Some(inode)) => self.child_recovered(
                                entry.file_id,
                                inode,
                                records@,
                                path,
                                depth,
                                before,
                                after,
                                r,
                            ),
                        },
                }
        }
    }

    /// Recovering an object of the folder at `depth` to `path` led from `before` to
    /// `after`.
    pub open spec fn child_recovered(
        &self,
        fsoid: u64,
        inode: Inode,
        records: Seq<Record>,
        path: Seq<char>,
        depth: int,
        before: ProgressView,
        after: ProgressView,
        r: Result<(), Error>,
    ) -> bool
        decreases levels_left(depth), 0int, 1int,
    {
        if inode.kind is Dir {
            &&& depth <= MAX_DIR_DEPTH
            &&& exists|mid: ProgressView, done: Result<(), Error>|
                {
                    &&& #[trigger] on_the_way(mid, done)
                    &&& self.folder_recovered(
                        fsoid,
                        path,
                        depth + 1,
                        before,
                        mid,
                        done,
                    )
                    &&& match done {
                        Ok(_) => after == mid && r is Ok,
                        Err(error) => self.error_noted(mid, path, fsoid, error@, after, r),
                    }
                }
        } else {
            self.leaf_recovered(fsoid, &inode, records, path, before, after, r)
        }
    }

    fn recover_child<O: Destination>(
        &self,
        dest: &mut Journal<O>,
        fsoid: u64,
        inode: &Inode,
        records: &[Record],
        path: &str,
        depth: u32,
        progress: &mut Progress,
    ) -> (r: Result<(), Error>)
        requires
            depth <= MAX_DIR_DEPTH,
        ensures
            final(dest).dest() == old(dest).dest(),
            self.child_recovered(
                fsoid,
                *inode,
                records@,
                path@,
                depth as int,
                old(progress).with_log(old(dest)@),
                final(progress).with_log(final(dest)@),
                r,
            ),
        decreases levels_left(depth as int), 0int,
    {
        let ghost before = progress.with_log(dest@);
        if inode.is_dir() {
            let done = self.recover_folder(dest, fsoid, path, depth + 1, progress);
            let ghost given = done;
            let ghost mid = progress.with_log(dest@);
            proof {
                assert(on_the_way(mid, given));
                assert(self.folder_recovered(fsoid, path@, depth + 1, before, mid, given));
            }
            match done {
                Ok(_) => Ok(()),
                Err(error) => self.note_error(progress, path, fsoid, error),
            }
        } else {
            self.recover_leaf(dest, fsoid, inode, records, path, progress)
        }
    }

    fn recover_entry<O: Destination>(
        &self,
        dest: &mut Journal<O>,
        entry: &DirRec,
        dir: &str,
        depth: u32,
        progress: &mut Progress,
    ) -> (r: Result<(), Error>)
        requires
            depth <= MAX_DIR_DEPTH,
        ensures
            final(dest).dest() == old(dest).dest(),
            self.entry_recovered(
                *entry,
                dir@,
                depth as int,
                old(progress).with_log(old(dest)@),
                final(progress).with_log(final(dest)@),
                r,
            ),
        decreases levels_left(depth as int), 1int,
    {
        if !is_safe_name(entry.name.as_str()) {
            let mut path = dir.to_owned();
            path.append("/");
            path.append(entry.name.as_str());
            progress.note(
                failure_result(
                    path.as_str(),
                    entry.file_id,
                    "unsafe entry name; skipped".to_owned(),
                ),
            );
            return Ok(());
        }
        let path = join_path(dir, entry.name.as_str());
        let reply = self.vol.records(self.bt, entry.file_id);
        proof {
            assert(self.vol.asked(self.bt, entry.file_id, reply));
        }
        match &reply {
            Err(error) => self.note_error(progress, path.as_str(), entry.file_id, error.clone()),
            Ok(records) => {
                let found = Volume::<D>::inode_from_records(records.as_slice());
                proof {
                    assert(Volume::<D>::inode_found(records@, found));
                }
                match &found {
                    Err(error) => self.note_error(
                        progress,
                        path.as_str(),
                        entry.file_id,
                        error.clone(),
                    ),
                    Ok(None) => {
                        progress.note(
                            failure_result(path.as_str(), entry.file_id, "no inode".to_owned()),
                        );
                        Ok(())
                    },
                    Ok(Some(inode)) => self.recover_child(
                        dest,
                        entry.file_id,
                        inode,
                        records.as_slice(),
                        path.as_str(),
                        depth,
                        progress,
                    ),
                }
            },
        }
    }

    fn fill_folder<O: Destination>(
        &self,
        dest: &mut Journal<O>,
        dir_fsoid: u64,
        dir: &str,
        depth: u32,
        progress: &mut Progress,
    ) -> (r: Result<(), Error>)
        requires
            depth <= MAX_DIR_DEPTH,
        ensures
            final(dest).dest() == old(dest).dest(),
            self.folder_filled(
                dir_fsoid,
                dir@,
                depth as int,
                old(progress).with_log(old(dest)@),
                final(progress).with_log(final(dest)@),
                r,
            ),
        decreases levels_left(depth as int), 2int,
    {
        let ghost before = progress.with_log(dest@);
        let listing = self.vol.list_dir(self.bt, dir_fsoid);
        let ghost listed = listing;
        proof {
            assert(self.vol.dir_listed(self.bt, dir_fsoid, listed));
        }
        let entries = match listing {
            Err(error) => return Err(error),
            Ok(entries) => entries,
        };
        let mut i: usize = 0;
        while i < entries.len()
            invariant
                depth <= MAX_DIR_DEPTH,
                i <= entries@.len(),
                listed == Ok::<Vec<DirRec>, Error>(entries),
                self.vol.dir_listed(self.bt, dir_fsoid, listed),
                before == old(progress).with_log(old(dest)@),
                dest.dest() == old(dest).dest(),
                forall|after: ProgressView, r: Result<(), Error>|
                    self.entries_recovered(
                        entries@,
                        i as int,
                        dir@,
                        depth as int,
                        progress.with_log(dest@),
                        after,
                        r,
                    ) ==> #[trigger] self.entries_recovered(
                        entries@,
                        0,
                        dir@,
                        depth as int,
                        before,
                        after,
                        r,
                    ),
            decreases levels_left(depth as int), 1int, entries@.len() - i,
        {
            let ghost start = progress.with_log(dest@);
            let step = self.recover_entry(dest, &entries[i], dir, depth, progress);
            let ghost reply = step;
            let ghost now = progress.with_log(dest@);
            proof {
                assert(self.entry_recovered(
                    entries@[i as int],
                    dir@,
                    depth as int,
                    start,
                    now,
                    reply,
                ));
                assert(on_the_way(now, reply));
                if reply is Ok {
                    assert forall|after: ProgressView, r: Result<(), Error>|
                        self.entries_recovered(
                            entries@,
                            i + 1,
                            dir@,
                            depth as int,
                            now,
                            after,
                            r,
                        ) implies #[trigger] self.entries_recovered(
                        entries@,
                        0,
                        dir@,
                        depth as int,
                        before,
                        after,
                        r,
                    ) by {
                        assert(self.entries_recovered(
                            entries@,
                            i as int,
                            dir@,
                            depth as int,
                            start,
                            after,
                            r,
                        ));
                    }
                }
            }
            match step {
                Err(error) => {
                    proof {
                        let r: Result<(), Error> = Err(error);
                        assert(self.entries_recovered(
                            entries@,
                            i as int,
                            dir@,
                            depth as int,
                            start,
                            now,
                            r,
                        ));
                        assert(self.entries_recovered(
                            entries@,
                            0,
                            dir@,
                            depth as int,
                            before,
                            now,
                            r,
                        ));
                    }
                    return Err(error);
                },
                Ok(_) => {},
            }
            i += 1;
        }
        proof {
            let r: Result<(), Error> = Ok(());
            let now = progress.with_log(dest@);
            assert(self.entries_recovered(entries@, i as int, dir@, depth as int, now, now, r));
            assert(self.entries_recovered(entries@, 0, dir@, depth as int, before, now, r));
        }
        Ok(())
    }

    /// Recovers a folder with all that it holds to `dir`.
    pub fn recover_folder<O: Destination>(
        &self,
        dest: &mut Journal<O>,
        dir_fsoid: u64,
        dir: &str,
        depth: u32,
        progress: &mut Progress,
    ) -> (r: Result<(), Error>)
        requires
            depth <= MAX_DIR_DEPTH + 1,
        ensures
            final(dest).dest() == old(dest).dest(),
            self.folder_recovered(
                dir_fsoid,
                dir@,
                depth as int,
                old(progress).with_log(old(dest)@),
                final(progress).with_log(final(dest)@),
                r,
            ),
        decreases levels_left(depth as int), 3int,
    {
        if depth > MAX_DIR_DEPTH {
            progress.note(
                failure_result(dir, dir_fsoid, "max directory depth exceeded".to_owned()),
            );
            return Ok(());
        }
        let made = if self.opts.dry_run {
            Ok(())
        } else {
            dest.make_dirs(dir)
        };
        let ghost given = made;
        let ghost mid = dest@;
        let ghost before = old(progress).with_log(old(dest)@);
        proof {
            assert(self.dir_made(dir@, before.log, mid, given));
            assert(progress.with_log(mid) == ProgressView { log: mid, ..before });
        }
        match made {
            Err(error) => return Err(error),
            Ok(_) => {},
        }
        self.fill_folder(dest, dir_fsoid, dir, depth, progress)
    }
}

// ---------------------------------------------------------------------------
// The whole request
// ---------------------------------------------------------------------------

/// What a request came to.
#[derive(Debug)]
pub struct Recovered {
    pub folder: bool,
    pub results: Vec<FileResult>,
}

/// The error of a volume whose data cannot be read in the clear.
pub open spec fn encrypted_refused() -> ErrorView {
    failure(
        ErrorKind::EncryptedUnsupported,
        "volume is encrypted; refusing plaintext recovery (use --raw-extents for a forensic dump)"@,
    )
}

/// Refuses to recover from an encrypted volume, unless its raw extents are asked for.
pub fn refuse_encrypted(encrypted: bool, opts: &Options) -> (r: Result<(), Error>)
    ensures
        if encrypted && !opts.raw_extents {
            is_failed(r, encrypted_refused())
        } else {
            r is Ok
        },
{
    if encrypted && !opts.raw_extents {
        Err(
            Error::fixed(
                ErrorKind::EncryptedUnsupported,
                "volume is encrypted; refusing plaintext recovery (use --raw-extents for a forensic dump)",
            ),
        )
    } else {
        Ok(())
    }
}

/// The error of an object without an inode.
pub open spec fn no_inode(fsoid: u64) -> ErrorView {
    failure(ErrorKind::ObjectNotFound, "no inode for FSOID "@ + hex_prefixed(fsoid as nat))
}

/// The error of an object without an inode.
pub fn no_inode_error(fsoid: u64) -> (r: Error)
    ensures
        r@ == no_inode(fsoid),
{
    let mut message = "no inode for FSOID ".to_owned();
    push_hex(&mut message, fsoid);
    Error::new(ErrorKind::ObjectNotFound, message)
}

/// The error of a folder that has nowhere to go.
pub open spec fn folder_needs_output() -> ErrorView {
    failure(ErrorKind::Usage, "folder recovery requires `--output <dir>`"@)
}

/// Nothing was recovered yet, and `log` is the journal.
pub open spec fn no_progress(log: Seq<Event>) -> ProgressView {
    ProgressView { results: Seq::empty(), links: Map::empty(), log }
}

/// `r` holds these results.
pub open spec fn has_results(
    r: Result<Recovered, Error>,
    folder: bool,
    results: Seq<FileResultView>,
) -> bool {
    r matches Ok(done) && done.folder == folder && result_views(done.results@) == results
}

impl<'a, D: ApfsImage, C: Codec> Recovery<'a, D, D::Reader, C> {
    /// `r` is what recovering the folder `fsoid` to `output` comes to.
    pub open spec fn whole_folder_recovered(
        &self,
        fsoid: u64,
        output: Option<Seq<char>>,
        at: Seq<Event>,
        to: Seq<Event>,
        r: Result<Recovered, Error>,
    ) -> bool {
        match output {
            None => to == at && is_failed(r, folder_needs_output()),
            Some(dir) => self.folder_placed(fsoid, dir, at, to, r),
        }
    }

    /// `r` is what recovering the folder `fsoid` to `dir` comes to.
    pub open spec fn folder_placed(
        &self,
        fsoid: u64,
        dir: Seq<char>,
        at: Seq<Event>,
        to: Seq<Event>,
        r: Result<Recovered, Error>,
    ) -> bool {
        exists|after: ProgressView, done: Result<(), Error>| #[trigger]
            self.folder_recovered(fsoid, dir, 0, no_progress(at), after, done) && after.log == to
                && match done {
                Err(error) => is_failed(r, error@),
                Ok(_) => has_results(r, true, after.results),
            }
    }

    fn recover_whole_folder<O: Destination>(
        &self,
        dest: &mut Journal<O>,
        fsoid: u64,
        output: Option<&str>,
    ) -> (r: Result<Recovered, Error>)
        ensures
            final(dest).dest() == old(dest).dest(),
            self.whole_folder_recovered(
                fsoid,
                output_text(output),
                old(dest)@,
                final(dest)@,
                r,
            ),
    {
        match output {
            None => Err(
                Error::fixed(ErrorKind::Usage, "folder recovery requires `--output <dir>`"),
            ),
            Some(dir) => {
                let mut progress = Progress::new();
                let done = self.recover_folder(dest, fsoid, dir, 0, &mut progress);
                let ghost given = done;
                proof {
                    assert(self.folder_recovered(
                        fsoid,
                        dir@,
                        0,
                        no_progress(old(dest)@),
                        progress.with_log(dest@),
                        given,
                    ));
                }
                let r = match done {
                    Err(error) => Err(error),
                    Ok(_) => Ok(Recovered { folder: true, results: progress.results }),
                };
                proof {
                    assert(self.folder_placed(fsoid, dir@, old(dest)@, dest@, r));
                }
                r
            },
        }
    }

    /// `r` is what recovering the file `fsoid` to `output` comes to.
    pub open spec fn whole_file_recovered(
        &self,
        fsoid: u64,
        output: Option<Seq<char>>,
        inode: &Inode,
        records: Seq<Record>,
        at: Seq<Event>,
        to: Seq<Event>,
        r: Result<Recovered, Error>,
    ) -> bool {
        exists|done: Result<FileResult, Error>| #[trigger]
            self.file_recovered(fsoid, output, inode, records, at, to, done) && match done {
                Ok(result) => has_results(r, false, seq![result@]),
                Err(error) => if self.opts.best_effort {
                    has_results(
                        r,
                        false,
                        seq![failed_as(
                            match output {
                                Some(path) => path,
                                None => "-"@,
                            },
                            fsoid,
                            error@.message,
                        )],
                    )
                } else {
                    is_failed(r, error@)
                },
            }
    }

    fn recover_whole_file<O: Destination>(
        &self,
        dest: &mut Journal<O>,
        fsoid: u64,
        output: Option<&str>,
        inode: &Inode,
        records: &[Record],
    ) -> (r: Result<Recovered, Error>)
        ensures
            final(dest).dest() == old(dest).dest(),
            self.whole_file_recovered(
                fsoid,
                output_text(output),
                inode,
                records@,
                old(dest)@,
                final(dest)@,
                r,
            ),
    {
        let mut results: Vec<FileResult> = Vec::new();
        let done = self.recover_single_file(dest, fsoid, output, inode, records);
        let ghost given = done;
        proof {
            assert(self.file_recovered(
                fsoid,
                output_text(output),
                inode,
                records@,
                old(dest)@,
                dest@,
                given,
            ));
            assert(result_views(results@) =~= Seq::empty());
        }
        match done {
            Ok(result) => push_result(&mut results, result),
            Err(error) => {
                let path = match output {
                    Some(path) => path,
                    None => "-",
                };
                match record_child_error_or_fail(self.opts, &mut results, path, fsoid, error) {
                    Ok(_) => {},
                    Err(error) => return Err(error),
                }
            },
        }
        let r = Ok(Recovered { folder: false, results });
        proof {
            match given {
                Ok(result) => {
                    assert(result_views(results@) =~= seq![result@]);
                },
                Err(error) => {
                    assert(result_views(results@).len() == 1);
                    assert(result_views(results@) =~= seq![result_views(results@)[0]]);
                },
            }
        }
        r
    }

    /// `r` is what recovering object `fsoid`, which has `records`, comes to.
    pub open spec fn object_recovered(
        &self,
        fsoid: u64,
        output: Option<Seq<char>>,
        records: Seq<Record>,
        at: Seq<Event>,
        to: Seq<Event>,
        r: Result<Recovered, Error>,
    ) -> bool {
        exists|found: Result<Option<Inode>, Error>| #[trigger]
            Volume::<D>::inode_found(records, found) && match found {
                Err(error) => to == at && is_failed(r, error@),
                Ok(None) => to == at && is_failed(r, no_inode(fsoid)),
                Ok(Some(inode)) => if inode.kind is Dir {
                    self.whole_folder_recovered(fsoid, output, at, to, r)
                } else {
                    self.whole_file_recovered(fsoid, output, &inode, records, at, to, r)
                },
            }
    }

    /// `r` is what the request of the options comes to.
    pub open spec fn request_recovered<S: SnapshotSource<D>>(
        &self,
        source: &S,
        at: Seq<Event>,
        to: Seq<Event>,
        r: Result<Recovered, Error>,
    ) -> bool {
        exists|target: Result<u64, Error>| #[trigger]
            target_found(source, self.vol, self.bt, self.opts, "recover"@, target)
                && match target {
                Err(error) => to == at && is_failed(r, error@),
                Ok(fsoid) => if self.vol.apsb.encrypted && !self.opts.raw_extents {
                    to == at && is_failed(r, encrypted_refused())
                } else {
                    self.target_recovered(fsoid, at, to, r)
                },
            }
    }

    /// `r` is what recovering object `fsoid` to the output of the options comes to.
    pub open spec fn target_recovered(
        &self,
        fsoid: u64,
        at: Seq<Event>,
        to: Seq<Event>,
        r: Result<Recovered, Error>,
    ) -> bool {
        exists|reply: Result<Vec<Record>, Error>| #[trigger]
            self.vol.asked(self.bt, fsoid, reply) && match reply {
                Err(error) => to == at && is_failed(r, error@),
                Ok(records) => self.object_recovered(
                    fsoid,
                    opt_text(self.opts.output),
                    records@,
                    at,
                    to,
                    r,
                ),
            }
    }

    fn recover_target<O: Destination>(&self, dest: &mut Journal<O>, fsoid: u64) -> (r: Result<
        Recovered,
        Error,
    >)
        ensures
            final(dest).dest() == old(dest).dest(),
            self.target_recovered(fsoid, old(dest)@, final(dest)@, r),
    {
        let output = match &self.opts.output {
            Some(path) => Some(path.as_str()),
            None => None,
        };
        let reply = self.vol.records(self.bt, fsoid);
        proof {
            assert(self.vol.asked(self.bt, fsoid, reply));
            assert(output_text(output) == opt_text(self.opts.output));
        }
        match &reply {
            Err(error) => Err(error.clone()),
            Ok(records) => {
                let found = Volume::<D>::inode_from_records(records.as_slice());
                proof {
                    assert(Volume::<D>::inode_found(records@, found));
                }
                let r = match &found {
                    Err(error) => Err(error.clone()),
                    Ok(None) => Err(no_inode_error(fsoid)),
                    Ok(Some(inode)) => if inode.is_dir() {
                        self.recover_whole_folder(dest, fsoid, output)
                    } else {
                        self.recover_whole_file(dest, fsoid, output, inode, records.as_slice())
                    },
                };
                proof {
                    assert(self.object_recovered(
                        fsoid,
                        output_text(output),
                        records@,
                        old(dest)@,
                        dest@,
                        r,
                    ));
                }
                r
            },
        }
    }

    /// Recovers what the options ask for.
    pub fn recover<S: SnapshotSource<D>, O: Destination>(
        &self,
        source: &S,
        dest: &mut Journal<O>,
    ) -> (r: Result<Recovered, Error>)
        ensures
            final(dest).dest() == old(dest).dest(),
            self.request_recovered(source, old(dest)@, final(dest)@, r),
    {
        let target = find_target(source, self.vol, self.bt, self.opts, "recover");
        let ghost given = target;
        proof {
            assert(target_found(source, self.vol, self.bt, self.opts, "recover"@, given));
        }
        let fsoid: u64 = match target {
            Err(error) => return Err(error),
            Ok(fsoid) => fsoid,
        };
        match refuse_encrypted(self.vol.apsb.encrypted, self.opts) {
            Err(error) => return Err(error),
            Ok(_) => {},
        }
        self.recover_target(dest, fsoid)
    }
}

/// From an encrypted volume nothing is ever recovered as plaintext, unless its raw
/// extents are asked for: the request fails, and nothing is asked of the destination.
pub proof fn law_encrypted_volume_is_refused<
    'a,
    D: ApfsImage,
    C: Codec,
    S: SnapshotSource<D>,
>(
    recovery: &Recovery<'a, D, D::Reader, C>,
    source: &S,
    at: Seq<Event>,
    to: Seq<Event>,
    r: Result<Recovered, Error>,
)
    requires
        recovery.request_recovered(source, at, to, r),
        recovery.vol.apsb.encrypted,
        !recovery.opts.raw_extents,
    ensures
        r is Err,
        to == at,
{
}

/// One of the results is partial or an error.
pub open spec fn any_incomplete(results: Seq<FileResultView>) -> bool {
    exists|i: int|
        0 <= i < results.len() && is_incomplete(#[trigger] results[i].status)
}

/// A status that says that a file is not there as it was.
pub open spec fn is_incomplete(status: Seq<char>) -> bool {
    status == "partial"@ || status == "error"@
}

/// The bytes of all results together, modulo the range of a 64-bit number.
pub open spec fn total_bytes(results: Seq<FileResultView>) -> u64
    decreases results.len(),
{
    if results.len() == 0 {
        0
    } else {
        total_bytes(results.drop_last()).wrapping_add(results.last().bytes)
    }
}

/// The results as a JSON object.
pub open spec fn recovered_fields(
    folder: bool,
    dry_run: bool,
    results: Seq<FileResultView>,
) -> Seq<(Seq<char>, JsonView)> {
    let f = Seq::empty();
    let f = with(
        f,
        "type"@,
        JsonView::Str(
            if folder {
                "folder"@
            } else {
                "file"@
            },
        ),
    );
    let f = with(f, "dry_run"@, JsonView::Bool(dry_run));
    let f = with(f, "files_total"@, JsonView::UInt(results.len() as u64));
    let f = with(f, "bytes_total"@, JsonView::UInt(total_bytes(results)));
    with(
        f,
        "files"@,
        JsonView::Array(
            Seq::new(results.len(), |i: int| JsonView::Object(result_fields(results[i]))),
        ),
    )
}

/// What a person is shown of one result.
pub open spec fn result_line(result: FileResultView) -> Seq<char> {
    let line = result.status + "  "@ + result.path + "  "@ + dec(result.bytes as nat) + " bytes"@;
    match result.note {
        Some(note) => line + "  ("@ + note + ")\n"@,
        None => line + "\n"@,
    }
}

impl FileResult {
    /// What a person is shown of this result.
    pub fn line(&self) -> (r: String)
        ensures
            r@ == result_line(self@),
    {
        let mut text = self.status.to_owned();
        text.append("  ");
        text.append(self.path.as_str());
        text.append("  ");
        push_dec(&mut text, self.bytes);
        text.append(" bytes");
        match &self.note {
            Some(note) => {
                text.append("  (");
                text.append(note.as_str());
                text.append(")\n");
            },
            None => text.append("\n"),
        }
        text
    }
}

impl Recovered {
    /// One or more files were not fully recovered.
    pub fn partial(&self) -> (r: bool)
        ensures
            r == any_incomplete(result_views(self.results@)),
    {
        let mut i: usize = 0;
        while i < self.results.len()
            invariant
                i <= self.results@.len(),
                forall|k: int| 0 <= k < i ==> !is_incomplete(#[trigger] self.results@[k].status@),
            decreases self.results@.len() - i,
        {
            if str_eq(self.results[i].status, "partial") || str_eq(
                self.results[i].status,
                "error",
            ) {
                proof {
                    let views = result_views(self.results@);
                    assert(is_incomplete(views[i as int].status));
                }
                return true;
            }
            i += 1;
        }
        false
    }

    /// The results as a JSON object.
    pub fn to_json(&self, dry_run: bool) -> (r: Json)
        ensures
            r@ == JsonView::Object(
                recovered_fields(self.folder, dry_run, result_views(self.results@)),
            ),
    {
        let ghost views = result_views(self.results@);
        let mut files: Vec<Json> = Vec::new();
        let mut total: u64 = 0;
        let mut i: usize = 0;
        proof {
            assert(views.take(0) =~= Seq::empty());
        }
        while i < self.results.len()
            invariant
                i <= self.results@.len(),
                views == result_views(self.results@),
                files@.len() == i,
                forall|k: int|
                    0 <= k < i ==> (#[trigger] files@[k])@ == JsonView::Object(
                        result_fields(views[k]),
                    ),
                total == total_bytes(views.take(i as int)),
            decreases self.results@.len() - i,
        {
            proof {
                assert(views.take(i + 1).drop_last() =~= views.take(i as int));
                assert(views.take(i + 1).last() == self.results@[i as int]@);
            }
            total = total.wrapping_add(self.results[i].bytes);
            files.push(self.results[i].to_json());
            i += 1;
        }
        proof {
            assert(views.take(i as int) =~= views);
            assert(json_values(files@) =~= Seq::new(
                views.len(),
                |i: int| JsonView::Object(result_fields(views[i])),
            ));
        }
        let mut f = Fields::new();
        if self.folder {
            f.put_str("type", "folder");
        } else {
            f.put_str("type", "file");
        }
        f.put_bool("dry_run", dry_run);
        f.put_u64("files_total", self.results.len() as u64);
        f.put_u64("bytes_total", total);
        f.put_array("files", files);
        f.object()
    }
}

// ---------------------------------------------------------------------------
// Laws
// ---------------------------------------------------------------------------

/// `after` only adds to `before`: no result is lost or changed, nor anything of the
/// journal, and the first path of a file with several names stays.
pub open spec fn only_adds(before: ProgressView, after: ProgressView) -> bool {
    &&& before.results.is_prefix_of(after.results)
    &&& before.log.is_prefix_of(after.log)
    &&& forall|oid: u64| #[trigger]
        before.links.contains_key(oid) ==> after.links.contains_key(oid) && after.links[oid]
            == before.links[oid]
}

/// The journal `after` is `before` with only such events behind it as touch nothing but
/// what stands at `dir` or at a path that continues it.
pub open spec fn stays_inside(before: Seq<Event>, after: Seq<Event>, dir: Seq<char>) -> bool {
    &&& before.is_prefix_of(after)
    &&& forall|i: int, place: Seq<char>|
        before.len() <= i < after.len() && #[trigger] after[i].touches(place) ==> starts_with(
            place,
            dir,
        )
}

proof fn lemma_starts_with_itself(path: Seq<char>)
    ensures
        starts_with(path, path),
{
    assert(path.take(path.len() as int) =~= path);
}

proof fn lemma_stays_inside(a: Seq<Event>, b: Seq<Event>, c: Seq<Event>, dir: Seq<char>)
    requires
        stays_inside(a, b, dir),
        stays_inside(b, c, dir),
    ensures
        stays_inside(a, c, dir),
{
    assert forall|i: int, place: Seq<char>|
        a.len() <= i < c.len() && #[trigger] c[i].touches(place) implies starts_with(
        place,
        dir,
    ) by {
        if i < b.len() {
            assert(c[i] == b[i]);
        }
    }
}

proof fn lemma_stays_further_inside(
    a: Seq<Event>,
    b: Seq<Event>,
    dir: Seq<char>,
    path: Seq<char>,
)
    requires
        stays_inside(a, b, path),
        starts_with(path, dir),
    ensures
        stays_inside(a, b, dir),
{
    assert forall|i: int, place: Seq<char>|
        a.len() <= i < b.len() && #[trigger] b[i].touches(place) implies starts_with(
        place,
        dir,
    ) by {
        assert(place.take(dir.len() as int) =~= place.take(path.len() as int).take(
            dir.len() as int,
        ));
    }
}

/// A file goes to the folder of its entry: what stands behind the folder's path is
/// the entry's name, at most with one separator before it, and the name itself has
/// none.
pub proof fn law_safe_names_stay_inside(dir: Seq<char>, name: Seq<char>)
    requires
        is_safe(name),
    ensures
        starts_with(path_in(dir, name), dir),
        path_in(dir, name).skip(path_in(dir, name).len() - name.len()) == name,
        path_in(dir, name).len() <= dir.len() + 1 + name.len(),
        !name.contains('/'),
        name != ".."@,
{
    reveal_strlit("/");
    assert(path_in(dir, name).take(dir.len() as int) =~= dir);
    assert(path_in(dir, name).skip(path_in(dir, name).len() - name.len()) =~= name);
}

impl<'a, D: ApfsImage, B: TreeReader, C: Codec> Recovery<'a, D, B, C> {
    /// Where no answer said that the output of a file is free, and it may not be
    /// overwritten, nothing is recovered there: the file fails, and the destination
    /// was only asked questions.
    pub proof fn law_occupied_place_is_refused(
        &self,
        fsoid: u64,
        path: Seq<char>,
        inode: &Inode,
        inode_records: Seq<Record>,
        at: Seq<Event>,
        to: Seq<Event>,
        r: Result<FileResult, Error>,
    )
        requires
            self.file_recovered(fsoid, Some(path), inode, inode_records, at, to, r),
            !self.opts.overwrite,
            !self.opts.dry_run,
            forall|i: int|
                at.len() <= i < to.len() ==> #[trigger] to[i] != (Event::Standing {
                    path,
                    reply: Ok(Standing::Nothing),
                }),
        ensures
            r is Err,
            only_adds_events(at, to, |event: Event| event.is_question()),
    {
        self.lemma_file_only_adds_events(fsoid, Some(path), inode, inode_records, at, to, r);
    }

    /// Recovering one file only adds to the journal, and nothing that stands anywhere
    /// but at its output is touched.
    pub proof fn law_only_the_output_is_touched(
        &self,
        fsoid: u64,
        output: Option<Seq<char>>,
        inode: &Inode,
        inode_records: Seq<Record>,
        at: Seq<Event>,
        to: Seq<Event>,
        r: Result<FileResult, Error>,
    )
        requires
            self.file_recovered(fsoid, output, inode, inode_records, at, to, r),
        ensures
            touches_at_most(at, to, output),
    {
        self.lemma_file_only_adds_events(fsoid, output, inode, inode_records, at, to, r);
    }

    /// A dry run only forecasts: no file is ever told to be recovered by one, and
    /// nothing at all is asked of the destination.
    pub proof fn law_dry_run_only_forecasts(
        &self,
        fsoid: u64,
        output: Option<Seq<char>>,
        inode: &Inode,
        inode_records: Seq<Record>,
        at: Seq<Event>,
        to: Seq<Event>,
        r: Result<FileResult, Error>,
    )
        requires
            self.file_recovered(fsoid, output, inode, inode_records, at, to, r),
            self.opts.dry_run,
        ensures
            to == at,
            r matches Ok(result) ==> result@.status == "dry-run"@ && result@.fsoid == fsoid,
    {
    }

    /// Recovering a file only adds to the journal, and touches nothing but its place;
    /// and where that was not found free and may not be overwritten, it adds questions
    /// only and fails.
    proof fn lemma_file_only_adds_events(
        &self,
        fsoid: u64,
        output: Option<Seq<char>>,
        inode: &Inode,
        inode_records: Seq<Record>,
        at: Seq<Event>,
        to: Seq<Event>,
        r: Result<FileResult, Error>,
    )
        requires
            self.file_recovered(fsoid, output, inode, inode_records, at, to, r),
        ensures
            touches_at_most(at, to, output),
            !self.opts.dry_run && output is Some ==> self.asked_first(output->Some_0, at, to, r),
    {
        if inode.kind is Symlink {
            let target = choose|target: Result<Option<String>, Error>| #[trigger]
                Volume::<D>::symlink_read(inode_records, target) && match target {
                    Err(error) => to == at && is_failed(r, error@),
                    Ok(target) => if target is Some && output is Some {
                        self.link_recovered(fsoid, target->Some_0@, output->Some_0, at, to, r)
                    } else {
                        self.content_recovered(fsoid, output, inode, inode_records, at, to, r)
                    },
                };
            if target is Ok && target->Ok_0 is Some && output is Some {
                self.lemma_link_only_adds_events(
                    fsoid,
                    target->Ok_0->Some_0@,
                    output->Some_0,
                    at,
                    to,
                    r,
                );
            } else if target is Ok {
                self.lemma_content_only_adds_events(
                    fsoid,
                    output,
                    inode,
                    inode_records,
                    at,
                    to,
                    r,
                );
            }
        } else {
            self.lemma_content_only_adds_events(fsoid, output, inode, inode_records, at, to, r);
        }
    }

    /// The place `path` was found free, or may be overwritten, or nothing came of it.
    pub open spec fn asked_first(
        &self,
        path: Seq<char>,
        at: Seq<Event>,
        to: Seq<Event>,
        r: Result<FileResult, Error>,
    ) -> bool {
        ||| self.opts.overwrite
        ||| exists|i: int|
            at.len() <= i < to.len() && #[trigger] to[i] == (Event::Standing {
                path,
                reply: Ok(Standing::Nothing),
            })
        ||| r is Err && only_adds_events(at, to, |event: Event| event.is_question())
    }

    proof fn lemma_link_only_adds_events(
        &self,
        fsoid: u64,
        target: Seq<char>,
        path: Seq<char>,
        at: Seq<Event>,
        to: Seq<Event>,
        r: Result<FileResult, Error>,
    )
        requires
            self.link_recovered(fsoid, target, path, at, to, r),
        ensures
            touches_at_most(at, to, Some(path)),
            !self.opts.dry_run ==> self.asked_first(path, at, to, r),
    {
        if !self.opts.dry_run {
            let (free, mid) = choose|free: Result<(), Error>, mid: Seq<Event>| #[trigger]
                self.guarded(path, at, mid, free) && match free {
                    Err(error) => to == mid && is_failed(r, error@),
                    Ok(_) => self.link_made(fsoid, target, path, mid, to, r),
                };
            if free is Ok {
                assert(to[at.len() as int] == mid.last());
            }
        }
    }

    proof fn lemma_content_only_adds_events(
        &self,
        fsoid: u64,
        output: Option<Seq<char>>,
        inode: &Inode,
        inode_records: Seq<Record>,
        at: Seq<Event>,
        to: Seq<Event>,
        r: Result<FileResult, Error>,
    )
        requires
            self.content_recovered(fsoid, output, inode, inode_records, at, to, r),
        ensures
            touches_at_most(at, to, output),
            !self.opts.dry_run && output is Some ==> self.asked_first(output->Some_0, at, to, r),
    {
        if self.opts.dry_run {
        } else if inode.kind is Regular && inode.compressed {
            self.lemma_compressed_only_adds_events(
                fsoid,
                output,
                inode.spec_size(),
                inode_records,
                at,
                to,
                r,
            );
        } else if inode.kind is Regular {
            let given = choose|given: Result<Cow<[Record]>, Error>| #[trigger]
                self.vol.data_records_given(
                    self.bt,
                    fsoid,
                    inode.private_id,
                    inode_records,
                    given,
                ) && match given {
                    Err(error) => to == at && is_failed(r, error@),
                    Ok(data) => self.data_recovered(
                        fsoid,
                        output,
                        inode,
                        records_in(data),
                        at,
                        to,
                        r,
                    ),
                };
            if given is Ok {
                self.lemma_data_only_adds_events(
                    fsoid,
                    output,
                    inode,
                    records_in(given->Ok_0),
                    at,
                    to,
                    r,
                );
            }
        } else {
            self.lemma_data_only_adds_events(fsoid, output, inode, inode_records, at, to, r);
        }
    }

    proof fn lemma_data_only_adds_events(
        &self,
        fsoid: u64,
        output: Option<Seq<char>>,
        inode: &Inode,
        records: Seq<Record>,
        at: Seq<Event>,
        to: Seq<Event>,
        r: Result<FileResult, Error>,
    )
        requires
            self.data_recovered(fsoid, output, inode, records, at, to, r),
        ensures
            touches_at_most(at, to, output),
            output is Some ==> self.asked_first(output->Some_0, at, to, r),
    {
        if output is Some {
            let path = output->Some_0;
            let (free, mid) = choose|free: Result<(), Error>, mid: Seq<Event>| #[trigger]
                self.guarded(path, at, mid, free) && match free {
                    Err(error) => to == mid && is_failed(r, error@),
                    Ok(_) => self.data_placed(fsoid, path, inode, records, mid, to, r),
                };
            if free is Ok {
                let written = choose|written: Result<Written, Error>| #[trigger]
                    data_installed(
                        self.vol,
                        records,
                        inode.spec_size(),
                        inode.sparse,
                        path,
                        mid,
                        to,
                        written,
                    );
                law_data_is_placed_whole(
                    self.vol,
                    records,
                    inode.spec_size(),
                    inode.sparse,
                    path,
                    mid,
                    to,
                    written,
                );
                assert(to[at.len() as int] == mid.last());
            }
        } else {
            let written = choose|written: Result<Written, Error>| #[trigger]
                data_sent(
                    self.vol,
                    records,
                    inode.spec_size(),
                    Place::Stream,
                    at,
                    to,
                    written,
                );
            law_only_its_place_is_written(
                self.vol,
                records,
                inode.spec_size(),
                Place::Stream,
                at,
                to,
                written,
            );
            assert forall|i: int, place: Seq<char>| at.len() <= i < to.len() implies !(
            #[trigger] to[i].touches(place)) by {
                assert(writes_to(to[i], Place::Stream));
            }
        }
    }

    proof fn lemma_kernel_only_adds_events(
        &self,
        fsoid: u64,
        path: Seq<char>,
        attribute: Seq<u8>,
        resource_fork: Option<Seq<u8>>,
        size: u64,
        note: Seq<char>,
        at: Seq<Event>,
        to: Seq<Event>,
        r: Result<FileResult, Error>,
    )
        requires
            self.kernel_recovered(fsoid, path, attribute, resource_fork, size, note, at, to, r),
        ensures
            touches_at_most(at, to, Some(path)),
            self.asked_first(path, at, to, r),
    {
        let (free, mid) = choose|free: Result<(), Error>, mid: Seq<Event>| #[trigger]
            self.guarded(path, at, mid, free) && match free {
                Err(error) => to == mid && is_failed(r, error@),
                Ok(_) => self.kernel_written(
                    fsoid,
                    path,
                    attribute,
                    resource_fork,
                    size,
                    note,
                    mid,
                    to,
                    r,
                ),
            };
        if free is Ok {
            let done = choose|done: Result<(), Error>| #[trigger]
                compressed_installed(path, attribute, resource_fork, size, mid, to, done);
            law_compressed_file_is_placed_whole(
                path,
                attribute,
                resource_fork,
                size,
                mid,
                to,
                done,
            );
            assert(to[at.len() as int] == mid.last());
        }
    }

    proof fn lemma_decoded_only_adds_events(
        &self,
        fsoid: u64,
        path: Seq<char>,
        header: Header,
        attribute: Seq<u8>,
        at: Seq<Event>,
        to: Seq<Event>,
        r: Result<FileResult, Error>,
    )
        requires
            self.decoded_recovered(fsoid, path, header, attribute, at, to, r),
        ensures
            touches_at_most(at, to, Some(path)),
            self.asked_first(path, at, to, r),
    {
        let (free, mid) = choose|free: Result<(), Error>, mid: Seq<Event>| #[trigger]
            self.guarded(path, at, mid, free) && match free {
                Err(error) => to == mid && is_failed(r, error@),
                Ok(_) => self.decoded_written(fsoid, path, header, attribute, mid, to, r),
            };
        if free is Ok {
            let (decoded, given, done) = choose|
                decoded: Result<Vec<u8>, Error>,
                given: Result<Vec<u8>, Error>,
                done: Result<u64, Error>,
            |
                #[trigger] embedded_decoded(self.codec, attribute, decoded)
                    && #[trigger] bytes_installed(path, given, mid, to, done);
            law_bytes_are_placed_whole(path, given, mid, to, done);
            assert(to[at.len() as int] == mid.last());
        }
    }

    proof fn lemma_embedded_only_adds_events(
        &self,
        fsoid: u64,
        output: Option<Seq<char>>,
        header: Header,
        attribute: Seq<u8>,
        size: u64,
        at: Seq<Event>,
        to: Seq<Event>,
        r: Result<FileResult, Error>,
    )
        requires
            self.embedded_recovered(fsoid, output, header, attribute, size, at, to, r),
        ensures
            touches_at_most(at, to, output),
            output is Some ==> self.asked_first(output->Some_0, at, to, r),
    {
        if output is Some {
            let path = output->Some_0;
            let (able, mid) = choose|able: bool, mid: Seq<Event>| #[trigger]
                did(at, Event::HasKernelCodec { reply: able }, mid) && if able {
                    self.kernel_recovered(
                        fsoid,
                        path,
                        attribute,
                        None,
                        size,
                        kernel_note(header),
                        mid,
                        to,
                        r,
                    )
                } else {
                    self.decoded_recovered(fsoid, path, header, attribute, mid, to, r)
                };
            if able {
                self.lemma_kernel_only_adds_events(
                    fsoid,
                    path,
                    attribute,
                    None,
                    size,
                    kernel_note(header),
                    mid,
                    to,
                    r,
                );
            } else {
                self.lemma_decoded_only_adds_events(
                    fsoid,
                    path,
                    header,
                    attribute,
                    mid,
                    to,
                    r,
                );
            }
            assert(to[at.len() as int] == mid.last());
        }
    }

    proof fn lemma_compressed_only_adds_events(
        &self,
        fsoid: u64,
        output: Option<Seq<char>>,
        size: u64,
        records: Seq<Record>,
        at: Seq<Event>,
        to: Seq<Event>,
        r: Result<FileResult, Error>,
    )
        requires
            self.compressed_recovered(fsoid, output, size, records, at, to, r),
        ensures
            touches_at_most(at, to, output),
            output is Some ==> self.asked_first(output->Some_0, at, to, r),
    {
        let found = choose|found: Result<Option<Xattr>, Error>| #[trigger]
            Volume::<D>::xattr_found(records, DECMPFS_XATTR_NAME@, false, found)
                && self.found_recovered(fsoid, output, found, size, records, at, to, r);
        if found is Ok && found->Ok_0 is Some {
            let x = found->Ok_0->Some_0;
            let data = choose|data: Result<Vec<u8>, Error>| #[trigger]
                self.vol.xattr_read(self.bt, &x, data) && self.attribute_recovered(
                    fsoid,
                    output,
                    data,
                    size,
                    records,
                    at,
                    to,
                    r,
                );
            if data is Ok && header_of(data->Ok_0@) is Ok {
                let attribute = data->Ok_0@;
                let header = header_of(attribute)->Ok_0;
                if header.uncompressed_size == size {
                    self.lemma_header_only_adds_events(
                        fsoid,
                        output,
                        header,
                        attribute,
                        size,
                        records,
                        at,
                        to,
                        r,
                    );
                }
            }
        }
    }

    proof fn lemma_header_only_adds_events(
        &self,
        fsoid: u64,
        output: Option<Seq<char>>,
        header: Header,
        attribute: Seq<u8>,
        size: u64,
        records: Seq<Record>,
        at: Seq<Event>,
        to: Seq<Event>,
        r: Result<FileResult, Error>,
    )
        requires
            self.header_recovered(fsoid, output, header, attribute, size, records, at, to, r),
        ensures
            touches_at_most(at, to, output),
            output is Some ==> self.asked_first(output->Some_0, at, to, r),
    {
        if header.spec_storage() == Storage::Embedded {
            self.lemma_embedded_only_adds_events(
                fsoid,
                output,
                header,
                attribute,
                size,
                at,
                to,
                r,
            );
        } else if output is Some {
            let path = output->Some_0;
            let note = if header.spec_storage() == Storage::ResourceFork {
                compression_note(header)
            } else {
                kernel_note(header)
            };
            let fork = choose|fork: Result<Option<Vec<u8>>, Error>| #[trigger]
                self.fork_read(records, fork) && match fork {
                    Err(error) => to == at && is_failed(r, error@),
                    Ok(fork) => if header.spec_storage() == Storage::ResourceFork && fork
                        is None {
                        to == at && is_failed(r, no_resource_fork(header))
                    } else {
                        self.kernel_recovered(
                            fsoid,
                            path,
                            attribute,
                            fork_view(fork),
                            size,
                            note,
                            at,
                            to,
                            r,
                        )
                    },
                };
            if fork is Ok && !(header.spec_storage() == Storage::ResourceFork && fork->Ok_0
                is None) {
                self.lemma_kernel_only_adds_events(
                    fsoid,
                    path,
                    attribute,
                    fork_view(fork->Ok_0),
                    size,
                    note,
                    at,
                    to,
                    r,
                );
            }
        }
    }

    /// Recovering a folder only adds to what was done before. Where recovery is to do
    /// what it can, no entry ends it: a folder fails only where it cannot be made or
    /// listed itself. A dry run asks nothing of the destination, and no other run
    /// touches anything but what stands at the folder's path or continues it.
    pub proof fn law_folder_recovery_only_adds(
        &self,
        dir_fsoid: u64,
        dir: Seq<char>,
        depth: int,
        before: ProgressView,
        after: ProgressView,
        r: Result<(), Error>,
    )
        requires
            self.folder_recovered(dir_fsoid, dir, depth, before, after, r),
        ensures
            only_adds(before, after),
            self.opts.best_effort && r is Err ==> after.results == before.results && after.links
                == before.links,
            self.opts.dry_run ==> after.log == before.log,
            stays_inside(before.log, after.log, dir),
        decreases levels_left(depth), 3int, 0int,
    {
        if depth <= MAX_DIR_DEPTH {
            let (made, mid) = choose|made: Result<(), Error>, mid: Seq<Event>| #[trigger]
                self.dir_made(dir, before.log, mid, made) && match made {
                    Err(error) => after == (ProgressView { log: mid, ..before }) && is_failed(
                        r,
                        error@,
                    ),
                    Ok(_) => self.folder_filled(
                        dir_fsoid,
                        dir,
                        depth,
                        ProgressView { log: mid, ..before },
                        after,
                        r,
                    ),
                };
            assert(stays_inside(before.log, mid, dir)) by {
                lemma_starts_with_itself(dir);
            }
            if made is Ok {
                let made_dir = ProgressView { log: mid, ..before };
                let listing = choose|listing: Result<Vec<DirRec>, Error>| #[trigger]
                    self.vol.dir_listed(self.bt, dir_fsoid, listing) && match listing {
                        Err(error) => after == made_dir && is_failed(r, error@),
                        Ok(entries) => self.entries_recovered(
                            entries@,
                            0,
                            dir,
                            depth,
                            made_dir,
                            after,
                            r,
                        ),
                    };
                if listing is Ok {
                    self.lemma_entries_only_add(
                        listing->Ok_0@,
                        0,
                        dir,
                        depth,
                        made_dir,
                        after,
                        r,
                    );
                    lemma_stays_inside(before.log, mid, after.log, dir);
                }
            }
        }
    }

    proof fn lemma_entries_only_add(
        &self,
        entries: Seq<DirRec>,
        i: int,
        dir: Seq<char>,
        depth: int,
        before: ProgressView,
        after: ProgressView,
        r: Result<(), Error>,
    )
        requires
            self.entries_recovered(entries, i, dir, depth, before, after, r),
        ensures
            only_adds(before, after),
            self.opts.best_effort ==> r is Ok,
            self.opts.dry_run ==> after.log == before.log,
            stays_inside(before.log, after.log, dir),
        decreases levels_left(depth), 1int, entries.len() - i,
    {
        if 0 <= i < entries.len() {
            let (mid, step) = choose|mid: ProgressView, step: Result<(), Error>| #[trigger]
                on_the_way(mid, step) && self.entry_recovered(
                    entries[i],
                    dir,
                    depth,
                    before,
                    mid,
                    step,
                ) && match step {
                    Err(error) => after == mid && is_failed(r, error@),
                    Ok(_) => self.entries_recovered(entries, i + 1, dir, depth, mid, after, r),
                };
            self.lemma_entry_only_adds(entries[i], dir, depth, before, mid, step);
            if step is Ok {
                self.lemma_entries_only_add(entries, i + 1, dir, depth, mid, after, r);
                lemma_stays_inside(before.log, mid.log, after.log, dir);
            }
        }
    }

    proof fn lemma_entry_only_adds(
        &self,
        entry: DirRec,
        dir: Seq<char>,
        depth: int,
        before: ProgressView,
        after: ProgressView,
        r: Result<(), Error>,
    )
        requires
            self.entry_recovered(entry, dir, depth, before, after, r),
        ensures
            only_adds(before, after),
            self.opts.best_effort ==> r is Ok,
            self.opts.dry_run ==> after.log == before.log,
            stays_inside(before.log, after.log, dir),
        decreases levels_left(depth), 0int, 2int,
    {
        let path = path_in(dir, entry.name@);
        if is_safe(entry.name@) {
            let reply = choose|reply: Result<Vec<Record>, Error>| #[trigger]
                self.vol.asked(self.bt, entry.file_id, reply) && match reply {
                    Err(error) => self.error_noted(
                        before,
                        path,
                        entry.file_id,
                        error@,
                        after,
                        r,
                    ),
                    Ok(records) => exists|found: Result<Option<Inode>, Error>| #[trigger]
                        Volume::<D>::inode_found(records@, found) && match found {
                            Err(error) => self.error_noted(
                                before,
                                path,
                                entry.file_id,
                                error@,
                                after,
                                r,
                            ),
                            Ok(None) => r is Ok && after == noted(
                                before,
                                failed_as(path, entry.file_id, "no inode"@),
                            ),
                            Ok(Some(inode)) => self.child_recovered(
                                entry.file_id,
                                inode,
                                records@,
                                path,
                                depth,
                                before,
                                after,
                                r,
                            ),
                        },
                };
            if reply is Ok {
                let records = reply->Ok_0;
                let found = choose|found: Result<Option<Inode>, Error>| #[trigger]
                    Volume::<D>::inode_found(records@, found) && match found {
                        Err(error) => self.error_noted(
                            before,
                            path,
                            entry.file_id,
                            error@,
                            after,
                            r,
                        ),
                        Ok(None) => r is Ok && after == noted(
                            before,
                            failed_as(path, entry.file_id, "no inode"@),
                        ),
                        Ok(Some(inode)) => self.child_recovered(
                            entry.file_id,
                            inode,
                            records@,
                            path,
                            depth,
                            before,
                            after,
                            r,
                        ),
                    };
                if found is Ok && found->Ok_0 is Some {
                    self.lemma_child_only_adds(
                        entry.file_id,
                        found->Ok_0->Some_0,
                        records@,
                        path,
                        depth,
                        before,
                        after,
                        r,
                    );
                    law_safe_names_stay_inside(dir, entry.name@);
                    lemma_stays_further_inside(before.log, after.log, dir, path);
                }
            }
        }
    }

    proof fn lemma_child_only_adds(
        &self,
        fsoid: u64,
        inode: Inode,
        records: Seq<Record>,
        path: Seq<char>,
        depth: int,
        before: ProgressView,
        after: ProgressView,
        r: Result<(), Error>,
    )
        requires
            self.child_recovered(fsoid, inode, records, path, depth, before, after, r),
        ensures
            only_adds(before, after),
            self.opts.best_effort ==> r is Ok,
            self.opts.dry_run ==> after.log == before.log,
            stays_inside(before.log, after.log, path),
        decreases levels_left(depth), 0int, 1int,
    {
        if inode.kind is Dir {
            let (mid, done) = choose|mid: ProgressView, done: Result<(), Error>|
                {
                    &&& #[trigger] on_the_way(mid, done)
                    &&& self.folder_recovered(fsoid, path, depth + 1, before, mid, done)
                    &&& match done {
                        Ok(_) => after == mid && r is Ok,
                        Err(error) => self.error_noted(mid, path, fsoid, error@, after, r),
                    }
                };
            self.law_folder_recovery_only_adds(fsoid, path, depth + 1, before, mid, done);
        } else {
            self.lemma_leaf_only_adds(fsoid, &inode, records, path, before, after, r);
            lemma_starts_with_itself(path);
        }
    }

    proof fn lemma_leaf_only_adds(
        &self,
        fsoid: u64,
        inode: &Inode,
        records: Seq<Record>,
        path: Seq<char>,
        before: ProgressView,
        after: ProgressView,
        r: Result<(), Error>,
    )
        requires
            self.leaf_recovered(fsoid, inode, records, path, before, after, r),
        ensures
            only_adds(before, after),
            self.opts.best_effort ==> r is Ok,
            self.opts.dry_run ==> after.log == before.log,
            touches_at_most(before.log, after.log, Some(path)),
    {
        if !self.opts.overwrite && !self.opts.dry_run {
            let (found, mid) = choose|found: bool, mid: Seq<Event>| #[trigger]
                did(before.log, Event::Reaches { path, reply: found }, mid) && if found {
                    r is Ok && after == noted(
                        ProgressView { log: mid, ..before },
                        FileResultView {
                            path,
                            fsoid,
                            status: "skipped-exists"@,
                            bytes: 0,
                            note: None,
                        },
                    )
                } else {
                    self.leaf_written(
                        fsoid,
                        inode,
                        records,
                        path,
                        ProgressView { log: mid, ..before },
                        after,
                        r,
                    )
                };
            if !found {
                self.lemma_written_leaf_only_adds(
                    fsoid,
                    inode,
                    records,
                    path,
                    ProgressView { log: mid, ..before },
                    after,
                    r,
                );
                assert forall|i: int, place: Seq<char>|
                    before.log.len() <= i < after.log.len() && #[trigger] after.log[i].touches(
                        place,
                    ) implies place == path by {
                    if i < mid.len() {
                        assert(after.log[i] == mid[i]);
                    }
                }
            }
        } else {
            self.lemma_written_leaf_only_adds(fsoid, inode, records, path, before, after, r);
        }
    }

    proof fn lemma_written_leaf_only_adds(
        &self,
        fsoid: u64,
        inode: &Inode,
        records: Seq<Record>,
        path: Seq<char>,
        before: ProgressView,
        after: ProgressView,
        r: Result<(), Error>,
    )
        requires
            self.leaf_written(fsoid, inode, records, path, before, after, r),
        ensures
            only_adds(before, after),
            self.opts.best_effort ==> r is Ok,
            self.opts.dry_run ==> after.log == before.log,
            touches_at_most(before.log, after.log, Some(path)),
    {
        let several = inode.nchildren_or_nlink > 1;
        if !(several && before.links.contains_key(fsoid)) {
            let (done, mid) = choose|done: Result<FileResult, Error>, mid: Seq<Event>| #[trigger]
                self.file_recovered(fsoid, Some(path), inode, records, before.log, mid, done)
                    && match done {
                    Err(error) => self.error_noted(
                        ProgressView { log: mid, ..before },
                        path,
                        fsoid,
                        error@,
                        after,
                        r,
                    ),
                    Ok(result) => r is Ok && after == ProgressView {
                        results: before.results.push(FileResultView { path, ..result@ }),
                        links: if several && !self.opts.dry_run {
                            first_kept(before.links, fsoid, path)
                        } else {
                            before.links
                        },
                        log: mid,
                    },
                };
            self.lemma_file_only_adds_events(
                fsoid,
                Some(path),
                inode,
                records,
                before.log,
                mid,
                done,
            );
        }
    }
}

// ---------------------------------------------------------------------------
// Laws on results
// ---------------------------------------------------------------------------

/// A file is recovered exactly if as many bytes were written as it has, none is missing, and
/// a file with bytes has no overlap, no hole unless it is sparse, and some data where it is
/// sparse and has storage. Otherwise it is partial.
pub proof fn law_recovered_or_partial(
    size: u64,
    sparse: bool,
    allocated: Option<u64>,
    written: Written,
)
    ensures
        ({
            let whole = written.bytes == size && written.missing == 0;
            let doubtful = written.overlaps > 0 || (!sparse && written.holes > 0) || (sparse
                && allocated is Some && allocated->Some_0 > 0 && written.data_bytes == 0);
            let status = status_of(size, sparse, allocated, written);
            &&& whole && (size == 0 || !doubtful) ==> status == "recovered"@
            &&& !whole || (size > 0 && doubtful) ==> status == "partial"@
        }),
{
}

/// The note of an account names what is wrong with it, and there is none where nothing is.
pub proof fn law_note_names_what_is_wrong(written: Written)
    ensures
        written.holes == 0 && written.overlaps == 0 && written.missing == 0 ==> written_note(
            written,
        ) is None,
        written.holes > 0 && written.overlaps == 0 && written.missing == 0 ==> written_note(written)
            == Some(dec(written.holes as nat) + " hole(s)"@),
        written.holes == 0 && written.overlaps > 0 && written.missing == 0 ==> written_note(written)
            == Some(dec(written.overlaps as nat) + " overlap(s)"@),
        written.holes == 0 && written.overlaps == 0 && written.missing > 0 ==> written_note(written)
            == Some(dec(written.missing as nat) + " missing byte(s)"@),
        written.holes > 0 && written.overlaps > 0 && written.missing == 0 ==> written_note(written)
            == Some(
            dec(written.holes as nat) + " hole(s)"@ + ", "@ + (dec(written.overlaps as nat)
                + " overlap(s)"@),
        ),
{
    reveal_with_fuel(joined, 3);
    let parts = written.anomalies();
    if written.holes > 0 && written.overlaps > 0 && written.missing == 0 {
        assert(parts.drop_last() =~= seq![dec(written.holes as nat) + " hole(s)"@]);
    }
}

/// The object of a result has one field for each of its properties.
pub proof fn law_result_object_names_each_property(result: FileResultView)
    ensures
        ({
            let f = result_fields(result);
            &&& says(f, "path"@, JsonView::Str(result.path))
            &&& says(f, "fsoid"@, JsonView::Str(hex_prefixed(result.fsoid as nat)))
            &&& says(f, "status"@, JsonView::Str(result.status))
            &&& says(f, "bytes"@, JsonView::UInt(result.bytes))
            &&& result.note matches Some(note) ==> says(f, "note"@, JsonView::Str(note)) && f.len()
                == 5
            &&& result.note is None ==> f.len() == 4
        }),
{
    let f = law_added_field_is_found(Seq::empty(), "path"@, JsonView::Str(result.path));
    let f = law_added_field_is_found(
        f,
        "fsoid"@,
        JsonView::Str(hex_prefixed(result.fsoid as nat)),
    );
    let f = law_added_field_is_found(f, "status"@, JsonView::Str(result.status));
    let f = law_added_field_is_found(f, "bytes"@, JsonView::UInt(result.bytes));
    if let Some(note) = result.note {
        law_added_field_is_found(f, "note"@, JsonView::Str(note));
    }
}

/// The object of a whole recovery counts its files and their bytes and lists each of them.
pub proof fn law_recovery_object_names_each_property(
    folder: bool,
    dry_run: bool,
    results: Seq<FileResultView>,
)
    ensures
        ({
            let f = recovered_fields(folder, dry_run, results);
            &&& folder ==> says(f, "type"@, JsonView::Str("folder"@))
            &&& !folder ==> says(f, "type"@, JsonView::Str("file"@))
            &&& says(f, "dry_run"@, JsonView::Bool(dry_run))
            &&& says(f, "files_total"@, JsonView::UInt(results.len() as u64))
            &&& says(f, "bytes_total"@, JsonView::UInt(total_bytes(results)))
            &&& says(
                f,
                "files"@,
                JsonView::Array(
                    results.map_values(
                        |result: FileResultView| JsonView::Object(result_fields(result)),
                    ),
                ),
            )
            &&& f.len() == 5
        }),
{
    assert(Seq::new(results.len(), |i: int| JsonView::Object(result_fields(results[i])))
        =~= results.map_values(|result: FileResultView| JsonView::Object(result_fields(result))));
    let f = Seq::empty();
    let f = law_added_field_is_found(
        f,
        "type"@,
        JsonView::Str(
            if folder {
                "folder"@
            } else {
                "file"@
            },
        ),
    );
    let f = law_added_field_is_found(f, "dry_run"@, JsonView::Bool(dry_run));
    let f = law_added_field_is_found(f, "files_total"@, JsonView::UInt(results.len() as u64));
    let f = law_added_field_is_found(f, "bytes_total"@, JsonView::UInt(total_bytes(results)));
    let f = law_added_field_is_found(
        f,
        "files"@,
        JsonView::Array(
            Seq::new(results.len(), |i: int| JsonView::Object(result_fields(results[i]))),
        ),
    );
    assert(f == recovered_fields(folder, dry_run, results));
}

/// The bytes of results add up within 64 bits, and a recovery is incomplete as soon as one
/// of its results is partial or an error.
pub proof fn law_results_add_up(results: Seq<FileResultView>, next: FileResultView)
    ensures
        total_bytes(Seq::empty()) == 0,
        total_bytes(results.push(next)) == (total_bytes(results) + next.bytes)
            % 0x1_0000_0000_0000_0000,
        !any_incomplete(Seq::empty()),
        any_incomplete(results.push(next)) <==> any_incomplete(results) || next.status
            == "partial"@ || next.status == "error"@,
{
    let more = results.push(next);
    let n = results.len() as int;
    assert(more.drop_last() =~= results);
    assert(more[n].status == next.status);
    if any_incomplete(results) {
        let i = choose|i: int| 0 <= i < results.len() && is_incomplete(#[trigger] results[i].status);
        assert(more[i].status == results[i].status);
    }
    if any_incomplete(more) {
        let i = choose|i: int| 0 <= i < more.len() && is_incomplete(#[trigger] more[i].status);
        if i < n {
            assert(results[i].status == more[i].status);
        }
    }
}

/// A person is shown the status, the path and the number of bytes, and the note where there
/// is one.
pub proof fn law_result_line(result: FileResultView)
    ensures
        result.note is None ==> result_line(result) == result.status + "  "@ + result.path + "  "@
            + dec(result.bytes as nat) + " bytes"@ + "\n"@,
        result.note matches Some(note) ==> result_line(result) == result.status + "  "@
            + result.path + "  "@ + dec(result.bytes as nat) + " bytes"@ + "  ("@ + note + ")\n"@,
{
}

/// A name is safe exactly if it has characters, is neither one dot nor two, and has neither
/// a slash nor a NUL.
pub proof fn law_safe_names(name: Seq<char>)
    ensures
        is_safe(name) <==> name.len() > 0 && name != seq!['.'] && name != seq!['.', '.']
            && forall|i: int|
            0 <= i < name.len() ==> #[trigger] name[i] != '/' && name[i] != '\0',
{
    reveal_strlit(".");
    reveal_strlit("..");
    assert("."@ =~= seq!['.']);
    assert(".."@ =~= seq!['.', '.']);
    if is_safe(name) {
        assert forall|i: int| 0 <= i < name.len() implies #[trigger] name[i] != '/' && name[i]
            != '\0' by {
            assert(name.contains(name[i]));
        }
    }
}

/// A path has one slash between the directory and the name, unless the directory ends in one
/// or is not named.
pub proof fn law_path_in_a_directory(dir: Seq<char>, name: Seq<char>)
    ensures
        path_in(Seq::empty(), name) == name,
        path_in(dir.push('/'), name) == dir + seq!['/'] + name,
        dir.len() > 0 && dir[dir.len() - 1] != '/' ==> path_in(dir, name) == dir + seq!['/'] + name,
{
    reveal_strlit("/");
    assert("/"@ =~= seq!['/']);
    assert(dir.push('/') + name =~= dir + seq!['/'] + name);
}

/// A place may be written exactly if it was found free, or was found and may be overwritten.
pub proof fn law_free_places_may_be_written(
    overwrite: bool,
    path: Seq<char>,
    standing: Result<Standing, Error>,
    r: Result<(), Error>,
)
    requires
        may_write(overwrite, path, standing, r),
    ensures
        r is Ok <==> (standing matches Ok(found) && (overwrite || found is Nothing)),
        standing is Ok ==> (r matches Err(error) ==> error.kind == ErrorKind::Usage),
{
}

/// What an error of one file does: it is noted for that file where recovery is to do what it
/// can, and otherwise it ends the recovery.
pub proof fn law_errors_are_noted_or_end(
    best_effort: bool,
    before: Seq<FileResultView>,
    path: Seq<char>,
    fsoid: u64,
    error: ErrorView,
    after: Seq<FileResultView>,
    r: Result<(), Error>,
)
    requires
        child_failed(best_effort, before, path, fsoid, error, after, r),
    ensures
        r is Ok <==> best_effort,
        !best_effort ==> after == before && (r matches Err(e) && e@ == error),
        best_effort ==> {
            let n = before.len() as int;
            &&& after.len() == n + 1
            &&& after.take(n) == before
            &&& after[n].path == path
            &&& after[n].fsoid == fsoid
            &&& after[n].status == "error"@
            &&& after[n].bytes == 0
            &&& after[n].note == Some(error.message)
        },
{
    assert(best_effort ==> after.take(before.len() as int) =~= before);
}

impl<'a, D: ApfsImage, B: TreeReader, C: Codec> Recovery<'a, D, B, C> {
    /// The result of a file names the file and where it went: its output, or a dash for the
    /// output stream. Nothing but a dry run gives a forecast, and a dry run nothing else.
    pub proof fn law_result_names_the_file(
        &self,
        fsoid: u64,
        output: Option<Seq<char>>,
        inode: &Inode,
        inode_records: Seq<Record>,
        at: Seq<Event>,
        to: Seq<Event>,
        result: FileResult,
    )
        requires
            self.file_recovered(fsoid, output, inode, inode_records, at, to, Ok(result)),
        ensures
            result@.fsoid == fsoid,
            output matches Some(path) ==> result@.path == path,
            output is None ==> result@.path == "-"@,
            self.opts.dry_run <==> result@.status == "dry-run"@,
            !self.opts.dry_run ==> result@.status == "recovered"@ || result@.status == "partial"@,
            self.opts.dry_run && !(inode.kind is Symlink) ==> result@.bytes == inode.spec_size()
                && result@.note is None,
    {
        reveal_strlit("dry-run");
        reveal_strlit("recovered");
        reveal_strlit("partial");
        assert("dry-run"@.len() == 7 && "recovered"@.len() == 9);
        assert("dry-run"@[0] != "partial"@[0]);
        let r: Result<FileResult, Error> = Ok(result);
        if inode.kind is Symlink {
            let target = choose|target: Result<Option<String>, Error>| #[trigger]
                Volume::<D>::symlink_read(inode_records, target) && match target {
                    Err(error) => to == at && is_failed(r, error@),
                    Ok(target) => if target is Some && output is Some {
                        self.link_recovered(fsoid, target->Some_0@, output->Some_0, at, to, r)
                    } else {
                        self.content_recovered(fsoid, output, inode, inode_records, at, to, r)
                    },
                };
            if !(target->Ok_0 is Some && output is Some) {
                self.lemma_content_result(fsoid, output, inode, inode_records, at, to, result);
            }
        } else {
            self.lemma_content_result(fsoid, output, inode, inode_records, at, to, result);
        }
    }

    proof fn lemma_content_result(
        &self,
        fsoid: u64,
        output: Option<Seq<char>>,
        inode: &Inode,
        records: Seq<Record>,
        at: Seq<Event>,
        to: Seq<Event>,
        result: FileResult,
    )
        requires
            self.content_recovered(fsoid, output, inode, records, at, to, Ok(result)),
        ensures
            result@.fsoid == fsoid,
            output matches Some(path) ==> result@.path == path,
            output is None ==> result@.path == "-"@,
            self.opts.dry_run ==> result@.status == "dry-run"@ && result@.bytes
                == inode.spec_size() && result@.note is None,
            !self.opts.dry_run ==> result@.status == "recovered"@ || result@.status == "partial"@,
    {
        let r: Result<FileResult, Error> = Ok(result);
        if self.opts.dry_run {
        } else if inode.kind is Regular && inode.compressed {
            let size = inode.spec_size();
            let found = choose|found: Result<Option<Xattr>, Error>| #[trigger]
                Volume::<D>::xattr_found(records, DECMPFS_XATTR_NAME@, false, found)
                    && self.found_recovered(fsoid, output, found, size, records, at, to, r);
            let x = found->Ok_0->Some_0;
            let data = choose|data: Result<Vec<u8>, Error>| #[trigger]
                self.vol.xattr_read(self.bt, &x, data) && self.attribute_recovered(
                    fsoid,
                    output,
                    data,
                    size,
                    records,
                    at,
                    to,
                    r,
                );
            let header = header_of(data->Ok_0@)->Ok_0;
            assert(self.header_recovered(
                fsoid,
                output,
                header,
                data->Ok_0@,
                size,
                records,
                at,
                to,
                r,
            ));
        }
    }

    /// A compressed file whose header and inode disagree on its size is refused as corrupt,
    /// and so is one that says that its bytes are in a resource fork which it does not have.
    /// What only the kernel decodes needs a place to be written to.
    pub proof fn law_compressed_file_must_agree(
        &self,
        fsoid: u64,
        output: Option<Seq<char>>,
        attribute: Vec<u8>,
        size: u64,
        records: Seq<Record>,
        at: Seq<Event>,
        to: Seq<Event>,
        r: Result<FileResult, Error>,
    )
        requires
            self.attribute_recovered(fsoid, output, Ok(attribute), size, records, at, to, r),
        ensures
            header_of(attribute@) matches Ok(header) ==> {
                &&& header.uncompressed_size != size ==> to == at && (r matches Err(error)
                    && error.kind == ErrorKind::Corrupt)
                &&& header.uncompressed_size == size && output is None && header.compression_type
                    != 1 && header.compression_type != 3 && header.compression_type != 7 ==> to
                    == at && (r matches Err(error) && error.kind == ErrorKind::UnsupportedFeature)
                &&& header.uncompressed_size == size && output is Some && (header.compression_type
                    == 4 || header.compression_type == 8) ==> exists|
                    fork: Result<Option<Vec<u8>>, Error>,
                | #[trigger] self.fork_read(records, fork) && (fork == Ok::<Option<Vec<u8>>, Error>(
                        None,
                    ) ==> to == at && (r matches Err(error) && error.kind == ErrorKind::Corrupt))
                &&& header.uncompressed_size == size && output is None && (header.compression_type
                    == 1 || header.compression_type == 3 || header.compression_type == 7)
                    ==> exists|decoded: Result<Vec<u8>, Error>| #[trigger]
                    embedded_decoded(self.codec, attribute@, decoded) && (decoded matches Ok(bytes)
                        ==> exists|sent: Result<(), Error>| #[trigger]
                        did(at, Event::Stream { bytes: bytes@, reply: sent }, to))
            },
            header_of(attribute@) is Err ==> to == at && r is Err,
    {
        if let Ok(header) = header_of(attribute@) {
            if header.uncompressed_size == size && output is Some && (header.compression_type == 4
                || header.compression_type == 8) {
                let path = output->Some_0;
                assert(header.spec_storage() == Storage::ResourceFork);
                let fork = choose|fork: Result<Option<Vec<u8>>, Error>| #[trigger]
                    self.fork_read(records, fork) && match fork {
                        Err(error) => to == at && is_failed(r, error@),
                        Ok(fork) => if header.spec_storage() == Storage::ResourceFork && fork
                            is None {
                            to == at && is_failed(r, no_resource_fork(header))
                        } else {
                            self.kernel_recovered(
                                fsoid,
                                path,
                                attribute@,
                                fork_view(fork),
                                size,
                                if header.spec_storage() == Storage::ResourceFork {
                                    compression_note(header)
                                } else {
                                    kernel_note(header)
                                },
                                at,
                                to,
                                r,
                            )
                        },
                    };
                assert(self.fork_read(records, fork));
            }
        }
    }

    /// A plain file that is recovered to a place holds the data that its own records
    /// describe, or those of the object that its inode names; it is told with as many bytes.
    /// Holes are left out only where the inode is sparse.
    pub proof fn law_plain_file_holds_its_data(
        &self,
        fsoid: u64,
        path: Seq<char>,
        inode: &Inode,
        inode_records: Seq<Record>,
        at: Seq<Event>,
        to: Seq<Event>,
        result: FileResult,
    ) -> (told: (Seq<Record>, Written))
        requires
            !self.opts.dry_run,
            inode.kind is Regular,
            !inode.compressed,
            self.file_recovered(fsoid, Some(path), inode, inode_records, at, to, Ok(result)),
        ensures
            inode.private_id == fsoid ==> told.0 == inode_records,
            inode.private_id != fsoid ==> exists|loaded: Vec<Record>|
                loaded@ == told.0 && #[trigger] self.vol.asked(
                    self.bt,
                    inode.private_id,
                    Ok(loaded),
                ),
            self.vol.data_written(
                told.0,
                inode.spec_size(),
                Ok(told.1),
                Seq::empty(),
                left_by(to, at.len()).bytes,
            ),
            result@.bytes == told.1.bytes,
            to.len() >= at.len() + 5,
            to[at.len() as int] matches Event::Standing { path: place, reply } && place == path
                && reply is Ok && (self.opts.overwrite || reply->Ok_0 is Nothing),
            to[to.len() - 1] matches Event::Install { path: place, .. } && place == path,
            inode.sparse <==> to[to.len() - 3] is SetLen,
    {
        let r: Result<FileResult, Error> = Ok(result);
        let given = choose|given: Result<Cow<[Record]>, Error>| #[trigger]
            self.vol.data_records_given(
                self.bt,
                fsoid,
                inode.private_id,
                inode_records,
                given,
            ) && match given {
                Err(error) => to == at && is_failed(r, error@),
                Ok(data) => self.data_recovered(
                    fsoid,
                    Some(path),
                    inode,
                    records_in(data),
                    at,
                    to,
                    r,
                ),
            };
        let records = records_in(given->Ok_0);
        let (free, mid) = choose|free: Result<(), Error>, mid: Seq<Event>| #[trigger]
            self.guarded(path, at, mid, free) && match free {
                Err(error) => to == mid && is_failed(r, error@),
                Ok(_) => self.data_placed(fsoid, path, inode, records, mid, to, r),
            };
        let written = choose|written: Result<Written, Error>| #[trigger]
            data_installed(
                self.vol,
                records,
                inode.spec_size(),
                inode.sparse,
                path,
                mid,
                to,
                written,
            ) && match written {
                Err(error) => is_failed(r, error@),
                Ok(account) => is_result(r, extracted_as(path, fsoid, *inode, account)),
            };
        let account = written->Ok_0;
        assert(written == Ok::<Written, Error>(account));
        law_placed_file_holds_its_data(
            self.vol,
            records,
            inode.spec_size(),
            inode.sparse,
            path,
            mid,
            to,
            account,
        );
        law_file_is_filled_before_it_is_moved(
            self.vol,
            records,
            inode.spec_size(),
            inode.sparse,
            path,
            mid,
            to,
            account,
        );
        let standing = choose|standing: Result<Standing, Error>| #[trigger]
            did(at, Event::Standing { path, reply: standing }, mid) && may_write(
                self.opts.overwrite,
                path,
                standing,
                free,
            );
        assert(mid[at.len() as int] == (Event::Standing { path, reply: standing }));
        assert(to[at.len() as int] == to.take(mid.len() as int)[at.len() as int]);
        assert forall|i: int, sheet: Sheet| at.len() <= i < mid.len() implies
            #[trigger] after_request(sheet, to[i]) == sheet by {
            assert(i == at.len());
        }
        lemma_left_by_later(to, at.len(), mid.len());
        (records, account)
    }

    /// The second name of a file is made a link to the first, and told as such; where only a
    /// forecast is wanted, nothing is asked. A file is written anew exactly if it has one
    /// name, or none was recovered before.
    pub proof fn law_second_name_is_linked_to_the_first(
        &self,
        fsoid: u64,
        inode: &Inode,
        records: Seq<Record>,
        path: Seq<char>,
        before: ProgressView,
        after: ProgressView,
        r: Result<(), Error>,
    )
        requires
            self.leaf_written(fsoid, inode, records, path, before, after, r),
        ensures
            inode.nchildren_or_nlink > 1 && before.links.contains_key(fsoid) ==> {
                let n = before.results.len() as int;
                let told = after.results[n];
                let last = after.log[after.log.len() - 1];
                &&& r is Ok
                &&& after.links == before.links
                &&& after.results.len() == n + 1
                &&& after.results.take(n) == before.results
                &&& told.path == path
                &&& told.fsoid == fsoid
                &&& told.bytes == 0
                &&& self.opts.dry_run ==> after.log == before.log && told.status == "recovered"@
                    && told.note == Some("hardlink"@)
                &&& !self.opts.dry_run ==> {
                    &&& after.log.len() == before.log.len() + (if self.opts.overwrite {
                        2int
                    } else {
                        1
                    })
                    &&& last matches Event::HardLink { first, path: place, reply } && first
                        == before.links[fsoid] && place == path && (reply is Ok ==> told.status
                        == "recovered"@ && told.note == Some("hardlink"@)) && (reply is Err
                        ==> told.status == "error"@)
                }
            },
            !(inode.nchildren_or_nlink > 1 && before.links.contains_key(fsoid)) ==> exists|
                done: Result<FileResult, Error>,
                mid: Seq<Event>,
            |
                {
                    &&& #[trigger] self.file_recovered(
                        fsoid,
                        Some(path),
                        inode,
                        records,
                        before.log,
                        mid,
                        done,
                    )
                    &&& after.log == mid
                    &&& done is Ok ==> r is Ok && after.results.len() == before.results.len() + 1
                    &&& after.links != before.links ==> done is Ok && inode.nchildren_or_nlink > 1
                        && !self.opts.dry_run
                    &&& done is Ok && inode.nchildren_or_nlink > 1 && !self.opts.dry_run
                        ==> after.links == before.links.insert(fsoid, path)
                    &&& done is Err ==> (r is Ok <==> self.opts.best_effort)
                },
    {
        let several = inode.nchildren_or_nlink > 1;
        if several && before.links.contains_key(fsoid) {
            assert(after.results.take(before.results.len() as int) =~= before.results);
        } else {
            let (done, mid) = choose|done: Result<FileResult, Error>, mid: Seq<Event>| #[trigger]
                self.file_recovered(fsoid, Some(path), inode, records, before.log, mid, done)
                    && match done {
                    Err(error) => self.error_noted(
                        ProgressView { log: mid, ..before },
                        path,
                        fsoid,
                        error@,
                        after,
                        r,
                    ),
                    Ok(result) => r is Ok && after == (ProgressView {
                        results: before.results.push(FileResultView { path, ..result@ }),
                        links: if several && !self.opts.dry_run {
                            first_kept(before.links, fsoid, path)
                        } else {
                            before.links
                        },
                        log: mid,
                    }),
                };
            assert(self.file_recovered(
                fsoid,
                Some(path),
                inode,
                records,
                before.log,
                mid,
                done,
            ));
        }
    }

    /// A leaf whose place is occupied is skipped, and nothing is written for it, unless it
    /// may be replaced or only a forecast is wanted.
    pub proof fn law_occupied_leaf_is_skipped(
        &self,
        fsoid: u64,
        inode: &Inode,
        records: Seq<Record>,
        path: Seq<char>,
        before: ProgressView,
        after: ProgressView,
        r: Result<(), Error>,
    )
        requires
            self.leaf_recovered(fsoid, inode, records, path, before, after, r),
        ensures
            self.opts.overwrite || self.opts.dry_run ==> self.leaf_written(
                fsoid,
                inode,
                records,
                path,
                before,
                after,
                r,
            ),
            !self.opts.overwrite && !self.opts.dry_run ==> exists|found: bool, mid: Seq<Event>|
                #[trigger] did(before.log, Event::Reaches { path, reply: found }, mid) && (found
                    ==> {
                    let n = before.results.len() as int;
                    let told = after.results[n];
                    &&& r is Ok
                    &&& after.log == mid
                    &&& after.links == before.links
                    &&& after.results.len() == n + 1
                    &&& after.results.take(n) == before.results
                    &&& told.path == path
                    &&& told.fsoid == fsoid
                    &&& told.status == "skipped-exists"@
                    &&& told.bytes == 0
                    &&& told.note is None
                }) && (!found ==> self.leaf_written(
                    fsoid,
                    inode,
                    records,
                    path,
                    ProgressView { log: mid, ..before },
                    after,
                    r,
                )),
    {
        if !self.opts.overwrite && !self.opts.dry_run {
            let (found, mid) = choose|found: bool, mid: Seq<Event>| #[trigger]
                did(before.log, Event::Reaches { path, reply: found }, mid) && if found {
                    r is Ok && after == noted(
                        ProgressView { log: mid, ..before },
                        FileResultView {
                            path,
                            fsoid,
                            status: "skipped-exists"@,
                            bytes: 0,
                            note: None,
                        },
                    )
                } else {
                    self.leaf_written(
                        fsoid,
                        inode,
                        records,
                        path,
                        ProgressView { log: mid, ..before },
                        after,
                        r,
                    )
                };
            if found {
                assert(after.results.take(before.results.len() as int) =~= before.results);
            }
            assert(did(before.log, Event::Reaches { path, reply: found }, mid));
        }
    }

    /// A compressed file that is recovered to a place: what only the kernel decodes, and
    /// what it can decode anyway, is handed to it with its resource fork and told with its
    /// size; only where there is no such kernel are embedded bytes decoded here, and then
    /// they are the file.
    pub proof fn law_compressed_file_is_placed_by_its_type(
        &self,
        fsoid: u64,
        path: Seq<char>,
        header: Header,
        attribute: Seq<u8>,
        size: u64,
        records: Seq<Record>,
        at: Seq<Event>,
        to: Seq<Event>,
        result: FileResult,
    )
        requires
            self.header_recovered(
                fsoid,
                Some(path),
                header,
                attribute,
                size,
                records,
                at,
                to,
                Ok(result),
            ),
        ensures
            result@.path == path,
            result@.fsoid == fsoid,
            result@.status == "recovered"@,
            to.len() >= at.len() + 3,
            to[to.len() - 1] matches Event::Install { path: place, reply, .. } && place == path
                && reply is Ok,
            header.compression_type != 1 && header.compression_type != 3 && header.compression_type
                != 7 ==> result@.bytes == size && exists|fork: Option<Vec<u8>>| #[trigger]
                self.fork_read(records, Ok(fork)) && (to[to.len() - 2]
                    matches Event::FillCompressed {
                    attribute: given,
                    resource_fork,
                    ..
                } && given == attribute && resource_fork == fork_view(fork)),
            header.compression_type == 1 || header.compression_type == 3 || header.compression_type
                == 7 ==> (to[at.len() as int] matches Event::HasKernelCodec { reply: able } && (
            able ==> result@.bytes == size && (to[to.len() - 2] matches Event::FillCompressed {
                attribute: given,
                resource_fork,
                ..
            } && given == attribute && resource_fork is None)) && (!able ==> exists|
                decoded: Vec<u8>,
            | #[trigger] embedded_decoded(self.codec, attribute, Ok(decoded)) && (
                to[to.len() - 3] matches Event::Fill { bytes, .. } && bytes == decoded@)
                && result@.bytes == decoded@.len() as u64)),
    {
        let r: Result<FileResult, Error> = Ok(result);
        if header.spec_storage() == Storage::Embedded {
            let (able, mid) = choose|able: bool, mid: Seq<Event>| #[trigger]
                did(at, Event::HasKernelCodec { reply: able }, mid) && if able {
                    self.kernel_recovered(
                        fsoid,
                        path,
                        attribute,
                        None,
                        size,
                        kernel_note(header),
                        mid,
                        to,
                        r,
                    )
                } else {
                    self.decoded_recovered(fsoid, path, header, attribute, mid, to, r)
                };
            if able {
                self.lemma_kernel_result(
                    fsoid,
                    path,
                    attribute,
                    None,
                    size,
                    kernel_note(header),
                    mid,
                    to,
                    result,
                );
            } else {
                self.lemma_decoded_result(fsoid, path, header, attribute, mid, to, result);
            }
            assert(to[at.len() as int] == to.take(mid.len() as int)[at.len() as int]);
        } else {
            let fork = choose|fork: Result<Option<Vec<u8>>, Error>| #[trigger]
                self.fork_read(records, fork) && match fork {
                    Err(error) => to == at && is_failed(r, error@),
                    Ok(fork) => if header.spec_storage() == Storage::ResourceFork && fork is None {
                        to == at && is_failed(r, no_resource_fork(header))
                    } else {
                        self.kernel_recovered(
                            fsoid,
                            path,
                            attribute,
                            fork_view(fork),
                            size,
                            if header.spec_storage() == Storage::ResourceFork {
                                compression_note(header)
                            } else {
                                kernel_note(header)
                            },
                            at,
                            to,
                            r,
                        )
                    },
                };
            let held = fork->Ok_0;
            assert(fork == Ok::<Option<Vec<u8>>, Error>(held));
            self.lemma_kernel_result(
                fsoid,
                path,
                attribute,
                fork_view(held),
                size,
                if header.spec_storage() == Storage::ResourceFork {
                    compression_note(header)
                } else {
                    kernel_note(header)
                },
                at,
                to,
                result,
            );
            assert(self.fork_read(records, Ok(held)));
        }
    }

    proof fn lemma_kernel_result(
        &self,
        fsoid: u64,
        path: Seq<char>,
        attribute: Seq<u8>,
        resource_fork: Option<Seq<u8>>,
        size: u64,
        note: Seq<char>,
        at: Seq<Event>,
        to: Seq<Event>,
        result: FileResult,
    )
        requires
            self.kernel_recovered(
                fsoid,
                path,
                attribute,
                resource_fork,
                size,
                note,
                at,
                to,
                Ok(result),
            ),
        ensures
            result@ == recovered_as(path, fsoid, size, Some(note)),
            to.len() >= at.len() + 4,
            to.take(at.len() as int) == at,
            to[to.len() - 1] matches Event::Install { path: place, reply, .. } && place == path
                && reply is Ok,
            to[to.len() - 2] matches Event::FillCompressed {
                attribute: given,
                resource_fork: fork,
                ..
            } && given == attribute && fork == resource_fork,
    {
        let r: Result<FileResult, Error> = Ok(result);
        let (free, mid) = choose|free: Result<(), Error>, mid: Seq<Event>| #[trigger]
            self.guarded(path, at, mid, free) && match free {
                Err(error) => to == mid && is_failed(r, error@),
                Ok(_) => self.kernel_written(
                    fsoid,
                    path,
                    attribute,
                    resource_fork,
                    size,
                    note,
                    mid,
                    to,
                    r,
                ),
            };
        let done = choose|done: Result<(), Error>| #[trigger]
            compressed_installed(path, attribute, resource_fork, size, mid, to, done)
                && match done {
                Err(error) => is_failed(r, error@),
                Ok(_) => is_result(r, recovered_as(path, fsoid, size, Some(note))),
            };
        assert(done->Ok_0 == ());
        law_compressed_file_is_filled_with_its_attribute(
            path,
            attribute,
            resource_fork,
            size,
            mid,
            to,
        );
        law_compressed_file_is_placed_whole(path, attribute, resource_fork, size, mid, to, done);
        assert(mid.is_prefix_of(to));
        assert(to.take(at.len() as int) =~= at);
    }

    proof fn lemma_decoded_result(
        &self,
        fsoid: u64,
        path: Seq<char>,
        header: Header,
        attribute: Seq<u8>,
        at: Seq<Event>,
        to: Seq<Event>,
        result: FileResult,
    )
        requires
            self.decoded_recovered(fsoid, path, header, attribute, at, to, Ok(result)),
        ensures
            result@.path == path,
            result@.fsoid == fsoid,
            result@.status == "recovered"@,
            to.len() >= at.len() + 5,
            to.take(at.len() as int) == at,
            to[to.len() - 1] matches Event::Install { path: place, reply, .. } && place == path
                && reply is Ok,
            exists|decoded: Vec<u8>| #[trigger]
                embedded_decoded(self.codec, attribute, Ok(decoded)) && (to[to.len() - 3]
                    matches Event::Fill { bytes, .. } && bytes == decoded@) && result@.bytes
                    == decoded@.len() as u64,
    {
        let r: Result<FileResult, Error> = Ok(result);
        let (free, mid) = choose|free: Result<(), Error>, mid: Seq<Event>| #[trigger]
            self.guarded(path, at, mid, free) && match free {
                Err(error) => to == mid && is_failed(r, error@),
                Ok(_) => self.decoded_written(fsoid, path, header, attribute, mid, to, r),
            };
        let (decoded, given, done) = choose|
            decoded: Result<Vec<u8>, Error>,
            given: Result<Vec<u8>, Error>,
            done: Result<u64, Error>,
        |
            {
                &&& #[trigger] embedded_decoded(self.codec, attribute, decoded)
                &&& same_bytes(decoded, given)
                &&& #[trigger] bytes_installed(path, given, mid, to, done)
                &&& match done {
                    Err(error) => is_failed(r, error@),
                    Ok(bytes) => is_result(
                        r,
                        recovered_as(path, fsoid, bytes, Some(compression_note(header))),
                    ),
                }
            };
        let n = done->Ok_0;
        assert(done == Ok::<u64, Error>(n));
        law_bytes_are_filled_before_they_are_moved(path, given, mid, to, n);
        law_bytes_are_placed_whole(path, given, mid, to, done);
        assert(mid.is_prefix_of(to));
        assert(to.take(at.len() as int) =~= at);
        let bytes = decoded->Ok_0;
        assert(decoded == Ok::<Vec<u8>, Error>(bytes));
        assert(embedded_decoded(self.codec, attribute, Ok(bytes)));
    }

    /// A compressed file is what the attribute of that name says, and its resource fork the
    /// attribute of that name; both are read whole.
    pub proof fn law_compressed_data_comes_from_its_attributes(
        &self,
        fsoid: u64,
        output: Option<Seq<char>>,
        size: u64,
        records: Seq<Record>,
        at: Seq<Event>,
        to: Seq<Event>,
        result: FileResult,
        fork: Vec<u8>,
    )
        requires
            self.compressed_recovered(fsoid, output, size, records, at, to, Ok(result)),
            self.fork_read(records, Ok(Some(fork))),
        ensures
            exists|x: Xattr, data: Vec<u8>|
                {
                    &&& #[trigger] is_called(x, "com.apple.decmpfs"@)
                    &&& #[trigger] self.vol.xattr_read(self.bt, &x, Ok(data))
                    &&& header_of(data@) is Ok
                    &&& header_of(data@)->Ok_0.uncompressed_size == size
                },
            exists|x: Xattr|
                #[trigger] is_called(x, "com.apple.ResourceFork"@) && self.vol.xattr_read(
                    self.bt,
                    &x,
                    Ok(fork),
                ),
    {
        let r: Result<FileResult, Error> = Ok(result);
        let found = choose|found: Result<Option<Xattr>, Error>| #[trigger]
            Volume::<D>::xattr_found(records, DECMPFS_XATTR_NAME@, false, found)
                && self.found_recovered(fsoid, output, found, size, records, at, to, r);
        law_attribute_found_is_the_one_asked_for::<D>(records, DECMPFS_XATTR_NAME@, false, found);
        let x = found->Ok_0->Some_0;
        let data = choose|data: Result<Vec<u8>, Error>| #[trigger]
            self.vol.xattr_read(self.bt, &x, data) && self.attribute_recovered(
                fsoid,
                output,
                data,
                size,
                records,
                at,
                to,
                r,
            );
        let bytes = data->Ok_0;
        assert(data == Ok::<Vec<u8>, Error>(bytes));
        assert(is_called(x, "com.apple.decmpfs"@));
        assert(self.vol.xattr_read(self.bt, &x, Ok(bytes)));
        let held = choose|held: Result<Option<Xattr>, Error>| #[trigger]
            Volume::<D>::xattr_found(records, RESOURCE_FORK_XATTR_NAME@, false, held)
                && match held {
                Err(error) => false,
                Ok(None) => false,
                Ok(Some(x)) => exists|data: Result<Vec<u8>, Error>| #[trigger]
                    self.vol.xattr_read(self.bt, &x, data) && match data {
                        Err(error) => false,
                        Ok(bytes) => fork == bytes,
                    },
            };
        law_attribute_found_is_the_one_asked_for::<D>(
            records,
            RESOURCE_FORK_XATTR_NAME@,
            false,
            held,
        );
        let y = held->Ok_0->Some_0;
        let whole = choose|data: Result<Vec<u8>, Error>| #[trigger]
            self.vol.xattr_read(self.bt, &y, data) && match data {
                Err(error) => false,
                Ok(bytes) => fork == bytes,
            };
        assert(whole == Ok::<Vec<u8>, Error>(fork));
        assert(is_called(y, "com.apple.ResourceFork"@));
    }

    /// A symbolic link is made where its output is, with the target that its attribute
    /// names; what stood there is removed first, and only where it may be overwritten.
    pub proof fn law_link_is_made_anew(
        &self,
        fsoid: u64,
        target: Seq<char>,
        path: Seq<char>,
        at: Seq<Event>,
        to: Seq<Event>,
        r: Result<FileResult, Error>,
    )
        requires
            self.link_recovered(fsoid, target, path, at, to, r),
        ensures
            self.opts.dry_run ==> to == at && r is Ok,
            r matches Ok(result) ==> result@.path == path && result@.fsoid == fsoid
                && result@.bytes == vstd::utf8::encode_utf8(target).len() as u64 && result@.note
                == Some("symlink -> "@ + target),
            !self.opts.dry_run && r is Ok ==> {
                let n = at.len() as int;
                &&& to.len() == n + 3
                &&& to[n] matches Event::Standing { path: place, reply } && place == path
                    && reply is Ok && (self.opts.overwrite || reply->Ok_0 is Nothing)
                &&& to[n + 1] matches Event::Remove { path: place, .. } && place == path
                &&& to[n + 2] matches Event::Symlink { target: kept, path: place, reply } && kept
                    == target && place == path && reply is Ok
            },
    {
        if !self.opts.dry_run && r is Ok {
            let (free, mid) = choose|free: Result<(), Error>, mid: Seq<Event>| #[trigger]
                self.guarded(path, at, mid, free) && match free {
                    Err(error) => to == mid && is_failed(r, error@),
                    Ok(_) => self.link_made(fsoid, target, path, mid, to, r),
                };
            let (gone, next, made) = choose|
                gone: Result<(), Error>,
                next: Seq<Event>,
                made: Result<(), Error>,
            |
                {
                    &&& #[trigger] did(mid, Event::Remove { path, reply: gone }, next)
                    &&& #[trigger] did(next, Event::Symlink { target, path, reply: made }, to)
                    &&& match made {
                        Err(error) => is_failed(r, error@),
                        Ok(_) => is_result(
                            r,
                            recovered_as(
                                path,
                                fsoid,
                                vstd::utf8::encode_utf8(target).len() as u64,
                                Some("symlink -> "@ + target),
                            ),
                        ),
                    }
                };
            assert(to[at.len() as int + 2] == (Event::Symlink { target, path, reply: made }));
        }
    }
}

// ---------------------------------------------------------------------------
// What a folder recovery reaches
// ---------------------------------------------------------------------------

/// One of `results` is about `fsoid` at `path`.
pub open spec fn is_told_of(results: Seq<FileResultView>, path: Seq<char>, fsoid: u64) -> bool {
    exists|k: int|
        0 <= k < results.len() && (#[trigger] results[k]).path == path && results[k].fsoid == fsoid
}

/// One of `results` says that `fsoid` could not be recovered to `path`.
pub open spec fn is_told_failed(
    results: Seq<FileResultView>,
    path: Seq<char>,
    fsoid: u64,
) -> bool {
    exists|k: int|
        0 <= k < results.len() && (#[trigger] results[k]).path == path && results[k].fsoid == fsoid
            && results[k].status == "error"@
}

proof fn lemma_told_stays(
    a: Seq<FileResultView>,
    b: Seq<FileResultView>,
    path: Seq<char>,
    fsoid: u64,
)
    requires
        a.is_prefix_of(b),
    ensures
        is_told_of(a, path, fsoid) ==> is_told_of(b, path, fsoid),
        is_told_failed(a, path, fsoid) ==> is_told_failed(b, path, fsoid),
{
    assert forall|k: int| 0 <= k < a.len() implies #[trigger] a[k] == b[k] by {
        assert(b.subrange(0, a.len() as int)[k] == b[k]);
    }
    if is_told_of(a, path, fsoid) {
        let k = choose|k: int|
            0 <= k < a.len() && (#[trigger] a[k]).path == path && a[k].fsoid == fsoid;
        assert(b[k].path == path && b[k].fsoid == fsoid);
    }
    if is_told_failed(a, path, fsoid) {
        let k = choose|k: int|
            0 <= k < a.len() && (#[trigger] a[k]).path == path && a[k].fsoid == fsoid
                && a[k].status == "error"@;
        assert(b[k].path == path && b[k].fsoid == fsoid && b[k].status == "error"@);
    }
}

proof fn lemma_pushed(a: Seq<FileResultView>, x: FileResultView)
    ensures
        a.is_prefix_of(a.push(x)),
        is_told_of(a.push(x), x.path, x.fsoid),
        x.status == "error"@ ==> is_told_failed(a.push(x), x.path, x.fsoid),
{
    let b = a.push(x);
    assert(b.subrange(0, a.len() as int) =~= a);
    assert(b[a.len() as int] == x);
}

impl<'a, D: ApfsImage, B: TreeReader, C: Codec> Recovery<'a, D, B, C> {
    /// The folder `fsoid` at `dir` is accounted for: it is told that it failed, or it has a
    /// listing every entry of which is accounted for.
    pub open spec fn folder_accounted_for(
        &self,
        fsoid: u64,
        dir: Seq<char>,
        depth: int,
        results: Seq<FileResultView>,
    ) -> bool
        decreases 300 - depth, 1int,
    {
        ||| is_told_failed(results, dir, fsoid)
        ||| depth <= 256 && exists|entries: Vec<DirRec>| #[trigger]
            self.vol.dir_listed(self.bt, fsoid, Ok(entries)) && forall|i: int|
                0 <= i < entries@.len() ==> self.entry_accounted_for(
                    #[trigger] entries@[i],
                    dir,
                    depth,
                    results,
                )
    }

    /// An entry of the folder at `dir` is accounted for: a result is about it, or it is a
    /// folder that is accounted for itself.
    pub open spec fn entry_accounted_for(
        &self,
        entry: DirRec,
        dir: Seq<char>,
        depth: int,
        results: Seq<FileResultView>,
    ) -> bool
        decreases 300 - depth, 0int,
    {
        let path = path_in(dir, entry.name@);
        ||| is_told_of(results, path, entry.file_id)
        ||| is_told_failed(results, dir + "/"@ + entry.name@, entry.file_id)
        ||| depth <= 256 && exists|records: Vec<Record>, inode: Inode|
            {
                &&& #[trigger] self.vol.asked(self.bt, entry.file_id, Ok(records))
                &&& #[trigger] Volume::<D>::inode_found(records@, Ok(Some(inode)))
                &&& inode.kind is Dir
                &&& self.folder_accounted_for(entry.file_id, path, depth + 1, results)
            }
    }

    proof fn lemma_folder_stays(
        &self,
        fsoid: u64,
        dir: Seq<char>,
        depth: int,
        a: Seq<FileResultView>,
        b: Seq<FileResultView>,
    )
        requires
            a.is_prefix_of(b),
            self.folder_accounted_for(fsoid, dir, depth, a),
        ensures
            self.folder_accounted_for(fsoid, dir, depth, b),
        decreases 300 - depth, 1int,
    {
        lemma_told_stays(a, b, dir, fsoid);
        if !is_told_failed(a, dir, fsoid) {
            let entries = choose|entries: Vec<DirRec>| #[trigger]
                self.vol.dir_listed(self.bt, fsoid, Ok(entries)) && forall|i: int|
                    0 <= i < entries@.len() ==> self.entry_accounted_for(
                        #[trigger] entries@[i],
                        dir,
                        depth,
                        a,
                    );
            assert forall|i: int| 0 <= i < entries@.len() implies self.entry_accounted_for(
                #[trigger] entries@[i],
                dir,
                depth,
                b,
            ) by {
                self.lemma_entry_stays(entries@[i], dir, depth, a, b);
            }
            assert(self.vol.dir_listed(self.bt, fsoid, Ok(entries)));
        }
    }

    proof fn lemma_entry_stays(
        &self,
        entry: DirRec,
        dir: Seq<char>,
        depth: int,
        a: Seq<FileResultView>,
        b: Seq<FileResultView>,
    )
        requires
            a.is_prefix_of(b),
            self.entry_accounted_for(entry, dir, depth, a),
        ensures
            self.entry_accounted_for(entry, dir, depth, b),
        decreases 300 - depth, 0int,
    {
        let path = path_in(dir, entry.name@);
        let other = dir + "/"@ + entry.name@;
        lemma_told_stays(a, b, path, entry.file_id);
        lemma_told_stays(a, b, other, entry.file_id);
        if !is_told_of(a, path, entry.file_id) && !is_told_failed(a, other, entry.file_id) {
            let (records, inode) = choose|records: Vec<Record>, inode: Inode|
                {
                    &&& #[trigger] self.vol.asked(self.bt, entry.file_id, Ok(records))
                    &&& #[trigger] Volume::<D>::inode_found(records@, Ok(Some(inode)))
                    &&& inode.kind is Dir
                    &&& self.folder_accounted_for(entry.file_id, path, depth + 1, a)
                };
            self.lemma_folder_stays(entry.file_id, path, depth + 1, a, b);
            assert(self.vol.asked(self.bt, entry.file_id, Ok(records)));
            assert(Volume::<D>::inode_found(records@, Ok(Some(inode))));
        }
    }

    proof fn lemma_noted(
        &self,
        before: ProgressView,
        path: Seq<char>,
        fsoid: u64,
        error: ErrorView,
        after: ProgressView,
        r: Result<(), Error>,
    )
        requires
            self.error_noted(before, path, fsoid, error, after, r),
        ensures
            before.results.is_prefix_of(after.results),
            r is Ok ==> is_told_failed(after.results, path, fsoid) && is_told_of(
                after.results,
                path,
                fsoid,
            ),
    {
        lemma_pushed(before.results, failed_as(path, fsoid, error.message));
        assert(before.results.subrange(0, before.results.len() as int) =~= before.results);
    }

    proof fn lemma_leaf_told(
        &self,
        fsoid: u64,
        inode: &Inode,
        records: Seq<Record>,
        path: Seq<char>,
        before: ProgressView,
        after: ProgressView,
        r: Result<(), Error>,
    )
        requires
            self.leaf_recovered(fsoid, inode, records, path, before, after, r),
        ensures
            before.results.is_prefix_of(after.results),
            r is Ok ==> is_told_of(after.results, path, fsoid),
    {
        if !self.opts.overwrite && !self.opts.dry_run {
            let (found, mid) = choose|found: bool, mid: Seq<Event>| #[trigger]
                did(before.log, Event::Reaches { path, reply: found }, mid) && if found {
                    r is Ok && after == noted(
                        ProgressView { log: mid, ..before },
                        FileResultView {
                            path,
                            fsoid,
                            status: "skipped-exists"@,
                            bytes: 0,
                            note: None,
                        },
                    )
                } else {
                    self.leaf_written(
                        fsoid,
                        inode,
                        records,
                        path,
                        ProgressView { log: mid, ..before },
                        after,
                        r,
                    )
                };
            if found {
                lemma_pushed(
                    before.results,
                    FileResultView {
                        path,
                        fsoid,
                        status: "skipped-exists"@,
                        bytes: 0,
                        note: None,
                    },
                );
            } else {
                self.lemma_written_told(
                    fsoid,
                    inode,
                    records,
                    path,
                    ProgressView { log: mid, ..before },
                    after,
                    r,
                );
            }
        } else {
            self.lemma_written_told(fsoid, inode, records, path, before, after, r);
        }
    }

    proof fn lemma_written_told(
        &self,
        fsoid: u64,
        inode: &Inode,
        records: Seq<Record>,
        path: Seq<char>,
        before: ProgressView,
        after: ProgressView,
        r: Result<(), Error>,
    )
        requires
            self.leaf_written(fsoid, inode, records, path, before, after, r),
        ensures
            before.results.is_prefix_of(after.results),
            r is Ok ==> is_told_of(after.results, path, fsoid),
    {
        let several = inode.nchildren_or_nlink > 1;
        if several && before.links.contains_key(fsoid) {
            assert(self.second_name_given(fsoid, before.links[fsoid], path, before, after));
            let x = after.results.last();
            assert(after.results == before.results.push(x) && x.path == path && x.fsoid == fsoid);
            lemma_pushed(before.results, x);
        } else {
            let (done, mid) = choose|done: Result<FileResult, Error>, mid: Seq<Event>| #[trigger]
                self.file_recovered(fsoid, Some(path), inode, records, before.log, mid, done)
                    && match done {
                    Err(error) => self.error_noted(
                        ProgressView { log: mid, ..before },
                        path,
                        fsoid,
                        error@,
                        after,
                        r,
                    ),
                    Ok(result) => r is Ok && after == ProgressView {
                        results: before.results.push(FileResultView { path, ..result@ }),
                        links: if several && !self.opts.dry_run {
                            first_kept(before.links, fsoid, path)
                        } else {
                            before.links
                        },
                        log: mid,
                    },
                };
            match done {
                Err(error) => {
                    self.lemma_noted(
                        ProgressView { log: mid, ..before },
                        path,
                        fsoid,
                        error@,
                        after,
                        r,
                    );
                },
                Ok(result) => {
                    self.law_result_names_the_file(
                        fsoid,
                        Some(path),
                        inode,
                        records,
                        before.log,
                        mid,
                        result,
                    );
                    lemma_pushed(before.results, FileResultView { path, ..result@ });
                },
            }
        }
    }

    /// A folder recovery that comes to its end has accounted for everything that can be
    /// reached from the folder: each entry of each listing has a result, or is a folder of
    /// which the same holds. Results that were there before stay.
    pub proof fn law_folder_recovery_reaches_everything(
        &self,
        dir_fsoid: u64,
        dir: Seq<char>,
        depth: int,
        before: ProgressView,
        after: ProgressView,
        r: Result<(), Error>,
    )
        requires
            0 <= depth,
            self.folder_recovered(dir_fsoid, dir, depth, before, after, r),
        ensures
            before.results.is_prefix_of(after.results),
            r is Ok ==> self.folder_accounted_for(dir_fsoid, dir, depth, after.results),
        decreases levels_left(depth), 3int, 0int,
    {
        if depth > MAX_DIR_DEPTH {
            lemma_pushed(
                before.results,
                failed_as(dir, dir_fsoid, "max directory depth exceeded"@),
            );
        } else {
            let (made, mid) = choose|made: Result<(), Error>, mid: Seq<Event>| #[trigger]
                self.dir_made(dir, before.log, mid, made) && match made {
                    Err(error) => after == (ProgressView { log: mid, ..before }) && is_failed(
                        r,
                        error@,
                    ),
                    Ok(_) => self.folder_filled(
                        dir_fsoid,
                        dir,
                        depth,
                        ProgressView { log: mid, ..before },
                        after,
                        r,
                    ),
                };
            assert(before.results.subrange(0, before.results.len() as int) =~= before.results);
            if made is Ok {
                let start = ProgressView { log: mid, ..before };
                let listing = choose|listing: Result<Vec<DirRec>, Error>| #[trigger]
                    self.vol.dir_listed(self.bt, dir_fsoid, listing) && match listing {
                        Err(error) => after == start && is_failed(r, error@),
                        Ok(entries) => self.entries_recovered(
                            entries@,
                            0,
                            dir,
                            depth,
                            start,
                            after,
                            r,
                        ),
                    };
                if let Ok(entries) = listing {
                    self.lemma_entries_told(entries@, 0, dir, depth, start, after, r);
                    assert(listing == Ok::<Vec<DirRec>, Error>(entries));
                    assert(self.vol.dir_listed(self.bt, dir_fsoid, Ok(entries)));
                }
            }
        }
    }

    proof fn lemma_entries_told(
        &self,
        entries: Seq<DirRec>,
        i: int,
        dir: Seq<char>,
        depth: int,
        before: ProgressView,
        after: ProgressView,
        r: Result<(), Error>,
    )
        requires
            0 <= depth,
            0 <= i <= entries.len(),
            self.entries_recovered(entries, i, dir, depth, before, after, r),
        ensures
            before.results.is_prefix_of(after.results),
            r is Ok ==> forall|j: int|
                i <= j < entries.len() ==> self.entry_accounted_for(
                    #[trigger] entries[j],
                    dir,
                    depth,
                    after.results,
                ),
        decreases levels_left(depth), 1int, entries.len() - i,
    {
        assert(before.results.subrange(0, before.results.len() as int) =~= before.results);
        if i < entries.len() {
            let (mid, step) = choose|mid: ProgressView, step: Result<(), Error>| #[trigger]
                on_the_way(mid, step) && self.entry_recovered(
                    entries[i],
                    dir,
                    depth,
                    before,
                    mid,
                    step,
                ) && match step {
                    Err(error) => after == mid && is_failed(r, error@),
                    Ok(_) => self.entries_recovered(entries, i + 1, dir, depth, mid, after, r),
                };
            self.lemma_entry_told(entries[i], dir, depth, before, mid, step);
            if step is Ok {
                self.lemma_entries_told(entries, i + 1, dir, depth, mid, after, r);
                lemma_prefix(before.results, mid.results, after.results);
                if r is Ok {
                    self.lemma_entry_stays(entries[i], dir, depth, mid.results, after.results);
                }
            }
        }
    }

    proof fn lemma_entry_told(
        &self,
        entry: DirRec,
        dir: Seq<char>,
        depth: int,
        before: ProgressView,
        after: ProgressView,
        r: Result<(), Error>,
    )
        requires
            0 <= depth,
            self.entry_recovered(entry, dir, depth, before, after, r),
        ensures
            before.results.is_prefix_of(after.results),
            r is Ok ==> self.entry_accounted_for(entry, dir, depth, after.results),
        decreases levels_left(depth), 0int, 2int,
    {
        let path = path_in(dir, entry.name@);
        let id = entry.file_id;
        if !is_safe(entry.name@) {
            lemma_pushed(
                before.results,
                failed_as(dir + "/"@ + entry.name@, id, "unsafe entry name; skipped"@),
            );
        } else {
            let reply = choose|reply: Result<Vec<Record>, Error>| #[trigger]
                self.vol.asked(self.bt, id, reply) && match reply {
                    Err(error) => self.error_noted(before, path, id, error@, after, r),
                    Ok(records) => exists|found: Result<Option<Inode>, Error>| #[trigger]
                        Volume::<D>::inode_found(records@, found) && match found {
                            Err(error) => self.error_noted(before, path, id, error@, after, r),
                            Ok(None) => r is Ok && after == noted(
                                before,
                                failed_as(path, id, "no inode"@),
                            ),
                            Ok(Some(inode)) => self.child_recovered(
                                id,
                                inode,
                                records@,
                                path,
                                depth,
                                before,
                                after,
                                r,
                            ),
                        },
                };
            match reply {
                Err(error) => self.lemma_noted(before, path, id, error@, after, r),
                Ok(records) => {
                    let found = choose|found: Result<Option<Inode>, Error>| #[trigger]
                        Volume::<D>::inode_found(records@, found) && match found {
                            Err(error) => self.error_noted(before, path, id, error@, after, r),
                            Ok(None) => r is Ok && after == noted(
                                before,
                                failed_as(path, id, "no inode"@),
                            ),
                            Ok(Some(inode)) => self.child_recovered(
                                id,
                                inode,
                                records@,
                                path,
                                depth,
                                before,
                                after,
                                r,
                            ),
                        };
                    match found {
                        Err(error) => self.lemma_noted(before, path, id, error@, after, r),
                        Ok(None) => lemma_pushed(before.results, failed_as(path, id, "no inode"@)),
                        Ok(Some(inode)) => {
                            self.lemma_child_told(
                                id,
                                inode,
                                records@,
                                path,
                                depth,
                                before,
                                after,
                                r,
                            );
                            if inode.kind is Dir {
                                assert(self.vol.asked(self.bt, id, Ok(records)));
                                assert(Volume::<D>::inode_found(records@, Ok(Some(inode))));
                            }
                        },
                    }
                },
            }
        }
    }

    proof fn lemma_child_told(
        &self,
        fsoid: u64,
        inode: Inode,
        records: Seq<Record>,
        path: Seq<char>,
        depth: int,
        before: ProgressView,
        after: ProgressView,
        r: Result<(), Error>,
    )
        requires
            0 <= depth,
            self.child_recovered(fsoid, inode, records, path, depth, before, after, r),
        ensures
            before.results.is_prefix_of(after.results),
            r is Ok && inode.kind is Dir ==> depth <= 256 && (is_told_of(
                after.results,
                path,
                fsoid,
            ) || self.folder_accounted_for(fsoid, path, depth + 1, after.results)),
            r is Ok && !(inode.kind is Dir) ==> is_told_of(after.results, path, fsoid),
        decreases levels_left(depth), 0int, 1int,
    {
        if inode.kind is Dir {
            let (mid, done) = choose|mid: ProgressView, done: Result<(), Error>|
                {
                    &&& #[trigger] on_the_way(mid, done)
                    &&& self.folder_recovered(fsoid, path, depth + 1, before, mid, done)
                    &&& match done {
                        Ok(_) => after == mid && r is Ok,
                        Err(error) => self.error_noted(mid, path, fsoid, error@, after, r),
                    }
                };
            self.law_folder_recovery_reaches_everything(fsoid, path, depth + 1, before, mid, done);
            if let Err(error) = done {
                self.lemma_noted(mid, path, fsoid, error@, after, r);
                lemma_prefix(before.results, mid.results, after.results);
            }
        } else {
            self.lemma_leaf_told(fsoid, &inode, records, path, before, after, r);
        }
    }
}

proof fn lemma_prefix(a: Seq<FileResultView>, b: Seq<FileResultView>, c: Seq<FileResultView>)
    requires
        a.is_prefix_of(b),
        b.is_prefix_of(c),
    ensures
        a.is_prefix_of(c),
{
    assert forall|k: int| 0 <= k < a.len() implies a[k] == c[k] by {
        assert(b.subrange(0, a.len() as int)[k] == b[k]);
        assert(c.subrange(0, b.len() as int)[k] == c[k]);
    }
    assert(c.subrange(0, a.len() as int) =~= a);
}

impl<'a, D: ApfsImage, C: Codec> Recovery<'a, D, D::Reader, C> {
    /// What is recovered goes by the kind of the inode: a directory as a folder, anything else
    /// as a file. Without an inode there is nothing to recover.
    pub proof fn law_object_is_recovered_by_its_kind(
        &self,
        fsoid: u64,
        output: Option<Seq<char>>,
        records: Seq<Record>,
        at: Seq<Event>,
        to: Seq<Event>,
        r: Result<Recovered, Error>,
    )
        requires
            self.object_recovered(fsoid, output, records, at, to, r),
        ensures
            exists|found: Result<Option<Inode>, Error>|
                {
                    &&& #[trigger] Volume::<D>::inode_found(records, found)
                    &&& found is Err ==> to == at && r is Err
                    &&& found matches Ok(None) ==> to == at && (r matches Err(error) && error.kind
                        == ErrorKind::ObjectNotFound)
                    &&& found matches Ok(Some(inode)) ==> (inode.kind is Dir
                        ==> self.whole_folder_recovered(fsoid, output, at, to, r))
                    &&& found matches Ok(Some(inode)) ==> (!(inode.kind is Dir)
                        ==> self.whole_file_recovered(fsoid, output, &inode, records, at, to, r))
                },
    {
    }

    /// A folder needs an output. It is recovered from nothing on, with every level still
    /// ahead, and what it comes to is told as a folder, with every result.
    pub proof fn law_folder_is_recovered_from_its_top(
        &self,
        fsoid: u64,
        output: Option<Seq<char>>,
        at: Seq<Event>,
        to: Seq<Event>,
        r: Result<Recovered, Error>,
    )
        requires
            self.whole_folder_recovered(fsoid, output, at, to, r),
        ensures
            output is None ==> to == at && (r matches Err(error) && error.kind
                == ErrorKind::Usage),
            output is Some ==> exists|after: ProgressView, done: Result<(), Error>|
                {
                    &&& #[trigger] self.folder_recovered(
                        fsoid,
                        output->Some_0,
                        0,
                        ProgressView { results: Seq::empty(), links: Map::empty(), log: at },
                        after,
                        done,
                    )
                    &&& after.log == to
                    &&& done is Ok <==> r is Ok
                    &&& r matches Ok(all) ==> all.folder && result_views(all.results@)
                        == after.results
                },
    {
        if output is Some {
            let (after, done) = choose|after: ProgressView, done: Result<(), Error>| #[trigger]
                self.folder_recovered(fsoid, output->Some_0, 0, no_progress(at), after, done)
                    && after.log == to && match done {
                    Err(error) => is_failed(r, error@),
                    Ok(_) => has_results(r, true, after.results),
                };
            assert(self.folder_recovered(
                fsoid,
                output->Some_0,
                0,
                ProgressView { results: Seq::empty(), links: Map::empty(), log: at },
                after,
                done,
            ));
        }
    }

    /// A file gives one result: its own, or where errors are made do with, the error that it
    /// ended with. Otherwise its error is that of the recovery.
    pub proof fn law_file_gives_one_result(
        &self,
        fsoid: u64,
        output: Option<Seq<char>>,
        inode: &Inode,
        records: Seq<Record>,
        at: Seq<Event>,
        to: Seq<Event>,
        r: Result<Recovered, Error>,
    )
        requires
            self.whole_file_recovered(fsoid, output, inode, records, at, to, r),
        ensures
            exists|done: Result<FileResult, Error>|
                {
                    &&& #[trigger] self.file_recovered(
                        fsoid,
                        output,
                        inode,
                        records,
                        at,
                        to,
                        done,
                    )
                    &&& r is Ok <==> done is Ok || self.opts.best_effort
                    &&& r matches Ok(one) ==> !one.folder && one.results@.len() == 1 && (if done
                        is Ok {
                        one.results@[0]@ == done->Ok_0@
                    } else {
                        one.results@[0]@.status == "error"@ && one.results@[0]@.fsoid == fsoid
                            && one.results@[0]@.bytes == 0 && one.results@[0]@.note == Some(
                            done->Err_0@.message,
                        )
                    })
                },
    {
        let done = choose|done: Result<FileResult, Error>| #[trigger]
            self.file_recovered(fsoid, output, inode, records, at, to, done) && match done {
                Ok(result) => has_results(r, false, seq![result@]),
                Err(error) => if self.opts.best_effort {
                    has_results(
                        r,
                        false,
                        seq![failed_as(
                            match output {
                                Some(path) => path,
                                None => "-"@,
                            },
                            fsoid,
                            error@.message,
                        )],
                    )
                } else {
                    is_failed(r, error@)
                },
            };
        if let Ok(one) = r {
            assert(result_views(one.results@).len() == 1);
            assert(result_views(one.results@)[0] == one.results@[0]@);
        }
        assert(self.file_recovered(fsoid, output, inode, records, at, to, done));
    }
}

} // verus!
