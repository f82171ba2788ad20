//! Where recovered files go, and how a file gets there in one step.
//!
//! The file system belongs to the destination. Nothing is assumed of what it
//! answers. Contracts say what it is asked to do, in which order and that nothing else
//! is, and what follows from each answer.
use crate::error::{failure, is_failed, Error, ErrorKind, ErrorView};
use crate::extract::Written;
use crate::image::ApfsImage;
use crate::journal::{
    did, fork_view, touches_at_most, Event, Journal, Made, TempFile, TempView,
};
use crate::jrec::Record;
use crate::output::{
    after_request, data_sent, law_only_its_place_is_written, law_sent_data_is_the_file,
    law_sparse_file_gets_its_length, left_by, lemma_left_by_later, send_file_data, writes_to,
    Output, Place, Sheet,
};
use crate::text::{dec, law_written_numbers_read_back, push_dec};
use crate::vol::Volume;
use vstd::prelude::*;

verus! {

/// What stands at a path. A link counts as itself, wherever it leads.
#[derive(Debug, Clone, Copy, PartialEq, Eq, Structural)]
pub enum Standing {
    Nothing,
    Link,
    Dir,
    Other,
}

/// What became of an attempt to create a file that must be new.
#[derive(Debug)]
pub enum Creation<T> {
    Created(T),
    /// The name is taken.
    Taken,
    Failed(Error),
}

/// What reading a transparently compressed file back gave.
#[derive(Debug, Clone, Copy, PartialEq, Eq, Structural)]
pub struct ReadBack {
    /// How many bytes there were up to the end of the file.
    pub bytes: u64,
    /// More could be read behind the end.
    pub more: bool,
}

/// A file system to which files are recovered.
pub trait Destination {
    /// A file that is not yet at its place.
    type Temp;

    /// The number of this process.
    fn process_id(&self) -> (r: u32);

    /// Transparently compressed files can be made here.
    fn has_kernel_codec(&self) -> (r: bool);

    /// What stands at `path`.
    fn standing(&self, path: &str) -> (r: Result<Standing, Error>);

    /// Something is found at `path`, links followed.
    fn reaches(&self, path: &str) -> (r: bool);

    /// The absolute form of a path; a relative one starts at the current directory.
    fn absolute(&self, path: &str) -> (r: Result<String, Error>);

    /// The absolute path, without links, of what stands at `path`.
    fn canonical(&self, path: &str) -> (r: Result<String, Error>);

    /// The path of `name` in the directory that holds `path`, if one does.
    fn beside(&self, path: &str, name: &str) -> (r: Option<String>);

    /// Creates one directory.
    fn make_dir(&self, path: &str) -> (r: Result<(), Error>);

    /// Creates a directory and all that lead to it, where they are missing.
    fn make_dirs(&self, path: &str) -> (r: Result<(), Error>);

    /// Creates the directories that lead to `path`, where they are missing.
    fn make_parents(&self, path: &str) -> (r: Result<(), Error>);

    /// Creates the new file `name` beside `path`. What has that name already is
    /// neither opened nor followed.
    fn create_beside(&self, path: &str, name: &str) -> (r: Creation<Self::Temp>);

    /// Writes bytes to a file, behind what was written or passed over before.
    fn fill(&self, temp: &Self::Temp, bytes: &Vec<u8>) -> (r: Result<(), Error>);

    /// Passes over the bytes of a file up to `to`, so that the next ones are written
    /// there.
    fn skip(&self, temp: &Self::Temp, to: u64) -> (r: Result<(), Error>);

    /// Gives a file its length.
    fn set_len(&self, temp: &Self::Temp, len: u64) -> (r: Result<(), Error>);

    /// Sees to it that nothing written to a file is held back.
    fn flush(&self, temp: &Self::Temp) -> (r: Result<(), Error>);

    /// Turns a file into a transparently compressed one, and reads it back.
    fn fill_compressed(
        &self,
        temp: &Self::Temp,
        attribute: &Vec<u8>,
        resource_fork: &Option<Vec<u8>>,
    ) -> (r: Result<ReadBack, Error>);

    /// Moves a file to `path` in one step.
    fn install(&self, temp: &Self::Temp, path: &str) -> (r: Result<(), Error>);

    /// Removes a file that will not be installed.
    fn discard(&self, temp: &Self::Temp);

    /// Writes bytes to the output stream.
    fn stream(&self, bytes: &Vec<u8>) -> (r: Result<(), Error>);

    /// Removes what stands at `path`.
    fn remove(&self, path: &str) -> (r: Result<(), Error>);

    /// Moves what stands at `from` to `to` in one step.
    fn rename(&self, from: &str, to: &str) -> (r: Result<(), Error>);

    /// Makes a symbolic link at `path` that leads to `target`.
    fn symlink(&self, target: &str, path: &str) -> (r: Result<(), Error>);

    /// Makes a symbolic link at `to` that leads where the one at `from` does.
    fn copy_link(&self, from: &str, to: &str) -> (r: Result<(), Error>);

    /// Gives the file at `first` the second name `path`.
    fn hard_link(&self, first: &str, path: &str) -> (r: Result<(), Error>);

    /// Writes text to the report.
    fn report(&self, text: &str) -> (r: Result<(), Error>);

    /// Tells a person how the work goes.
    fn notice(&self, text: &str);
}

// ---------------------------------------------------------------------------
// Temporary files
// ---------------------------------------------------------------------------

/// How many names are tried for a temporary file.
pub const MAX_COLLISIONS: u32 = 1024;

/// The name of temporary file `n`.
pub open spec fn temp_name(process: u32, n: int) -> Seq<char> {
    "_com.apfsrelic.recover_"@ + dec(process as nat) + "_"@ + dec(n as nat)
}

fn temp_name_text(process: u32, n: u32) -> (r: String)
    ensures
        r@ == temp_name(process, n as int),
{
    let mut name = "_com.apfsrelic.recover_".to_owned();
    push_dec(&mut name, process as u64);
    name.append("_");
    push_dec(&mut name, n as u64);
    name
}

/// The error of a place beside which all names are taken.
pub open spec fn no_temp_name(path: Seq<char>) -> ErrorView {
    failure(
        ErrorKind::Io,
        "could not allocate a temporary file beside `"@ + path + "`"@,
    )
}

/// A temporary file that was made, or why none was.
pub open spec fn temp_of<T>(r: Result<TempFile<T>, Error>) -> Result<TempView, Error> {
    match r {
        Ok(file) => Ok(file.id()),
        Err(error) => Err(error),
    }
}

/// `r` is what trying one name after the other from name `n` on gives: the first
/// file that could be created, or the first failure other than a name that is taken.
pub open spec fn temp_tried(
    path: Seq<char>,
    process: u32,
    n: int,
    at: Seq<Event>,
    to: Seq<Event>,
    r: Result<TempView, Error>,
) -> bool
    decreases MAX_COLLISIONS - n,
{
    if n >= MAX_COLLISIONS {
        to == at && is_failed(r, no_temp_name(path))
    } else {
        let temp = TempView { path, name: temp_name(process, n) };
        exists|reply: Made, mid: Seq<Event>| #[trigger]
            did(at, Event::Create { temp, reply }, mid) && match reply {
                Made::Created => to == mid && r == Ok::<TempView, Error>(temp),
                Made::Failed(error) => to == mid && r == Err::<TempView, Error>(error),
                Made::Taken => temp_tried(path, process, n + 1, mid, to, r),
            }
    }
}

/// `r` is what making a temporary file beside `path` gives.
pub open spec fn temp_made(
    path: Seq<char>,
    at: Seq<Event>,
    to: Seq<Event>,
    r: Result<TempView, Error>,
) -> bool {
    exists|parents: Result<(), Error>, mid: Seq<Event>| #[trigger]
        did(at, Event::MakeParents { path, reply: parents }, mid) && match parents {
            Err(error) => to == mid && r == Err::<TempView, Error>(error),
            Ok(_) => exists|process: u32, known: Seq<Event>| #[trigger]
                did(mid, Event::ProcessId { reply: process }, known) && temp_tried(
                    path,
                    process,
                    0,
                    known,
                    to,
                    r,
                ),
        }
}

fn try_temp<O: Destination>(dest: &mut Journal<O>, path: &str, process: u32, n: u32) -> (r: Result<
    TempFile<O::Temp>,
    Error,
>)
    requires
        n <= MAX_COLLISIONS,
    ensures
        final(dest).dest() == old(dest).dest(),
        temp_tried(path@, process, n as int, old(dest)@, final(dest)@, temp_of(r)),
    decreases MAX_COLLISIONS - n,
{
    if n >= MAX_COLLISIONS {
        let mut message = "could not allocate a temporary file beside `".to_owned();
        message.append(path);
        message.append("`");
        return Err(Error::new(ErrorKind::Io, message));
    }
    let text = temp_name_text(process, n);
    match dest.create_beside(path, text.as_str()) {
        Creation::Created(temp) => Ok(temp),
        Creation::Failed(error) => Err(error),
        Creation::Taken => try_temp(dest, path, process, n + 1),
    }
}

/// Makes a temporary file beside `path`. The file is new: neither a file that is
/// left over nor a link is ever written through.
pub fn create_temp_file<O: Destination>(dest: &mut Journal<O>, path: &str) -> (r: Result<
    TempFile<O::Temp>,
    Error,
>)
    ensures
        final(dest).dest() == old(dest).dest(),
        temp_made(path@, old(dest)@, final(dest)@, temp_of(r)),
{
    match dest.make_parents(path) {
        Err(error) => Err(error),
        Ok(_) => {
            let process: u32 = dest.process_id();
            try_temp(dest, path, process, 0)
        },
    }
}

// ---------------------------------------------------------------------------
// Installing
// ---------------------------------------------------------------------------

/// `r` is what comes of a temporary file that was filled with result `filled`: it
/// is moved to `path`, or removed where filling or moving it failed.
pub open spec fn installed<T>(
    temp: TempView,
    path: Seq<char>,
    filled: Result<T, Error>,
    at: Seq<Event>,
    to: Seq<Event>,
    r: Result<T, Error>,
) -> bool {
    match filled {
        Err(_) => did(at, Event::Discard { temp }, to) && r == filled,
        Ok(_) => exists|moved: Result<(), Error>, mid: Seq<Event>| #[trigger]
            did(at, Event::Install { temp, path, reply: moved }, mid) && match moved {
                Ok(_) => to == mid && r == filled,
                Err(error) => did(mid, Event::Discard { temp }, to) && r == Err::<T, Error>(error),
            },
    }
}

fn install_filled<O: Destination, T>(
    dest: &mut Journal<O>,
    temp: TempFile<O::Temp>,
    path: &str,
    filled: Result<T, Error>,
) -> (r: Result<T, Error>)
    ensures
        final(dest).dest() == old(dest).dest(),
        installed(temp.id(), path@, filled, old(dest)@, final(dest)@, r),
{
    match filled {
        Err(error) => {
            dest.discard(&temp);
            Err(error)
        },
        Ok(value) => match dest.install(&temp, path) {
            Ok(_) => Ok(value),
            Err(error) => {
                dest.discard(&temp);
                Err(error)
            },
        },
    }
}

/// `filled` is what comes of a temporary file once writing to it ended with `written`:
/// what was written must not be held back.
pub open spec fn filled_up<T>(
    temp: TempView,
    written: Result<T, Error>,
    at: Seq<Event>,
    to: Seq<Event>,
    filled: Result<T, Error>,
) -> bool {
    match written {
        Err(_) => to == at && filled == written,
        Ok(_) => exists|reply: Result<(), Error>| #[trigger]
            did(at, Event::Flush { temp, reply }, to) && match reply {
                Ok(_) => filled == written,
                Err(error) => filled == Err::<T, Error>(error),
            },
    }
}

fn fill_up<O: Destination, T>(
    dest: &mut Journal<O>,
    temp: &TempFile<O::Temp>,
    written: Result<T, Error>,
) -> (r: Result<T, Error>)
    ensures
        final(dest).dest() == old(dest).dest(),
        filled_up(temp.id(), written, old(dest)@, final(dest)@, r),
{
    match written {
        Err(error) => Err(error),
        Ok(value) => match dest.flush(temp) {
            Ok(_) => Ok(value),
            Err(error) => Err(error),
        },
    }
}

/// `filled` is what filling a temporary file with `bytes` gives, where these come
/// with `value`.
pub open spec fn bytes_filled<T>(
    temp: TempView,
    bytes: Seq<u8>,
    value: T,
    at: Seq<Event>,
    to: Seq<Event>,
    filled: Result<T, Error>,
) -> bool {
    exists|sent: Result<(), Error>, mid: Seq<Event>| #[trigger]
        did(at, Event::Fill { temp, bytes, reply: sent }, mid) && match sent {
            Ok(_) => filled_up(temp, Ok(value), mid, to, filled),
            Err(error) => to == mid && filled == Err::<T, Error>(error),
        }
}

fn fill_bytes<O: Destination, T>(
    dest: &mut Journal<O>,
    temp: &TempFile<O::Temp>,
    bytes: &Vec<u8>,
    value: T,
) -> (r: Result<T, Error>)
    ensures
        final(dest).dest() == old(dest).dest(),
        bytes_filled(temp.id(), bytes@, value, old(dest)@, final(dest)@, r),
{
    match dest.fill(temp, bytes) {
        Ok(_) => fill_up(dest, temp, Ok(value)),
        Err(error) => Err(error),
    }
}

/// Where a file's data goes when it is written to a temporary file.
pub open spec fn place_in(temp: TempView, sparse: bool) -> Place {
    if sparse {
        Place::Sparse(temp)
    } else {
        Place::Dense(temp)
    }
}

/// `filled` is what filling a temporary file with the data of `size` bytes that
/// `records` describe gives. A sparse file keeps its holes.
pub open spec fn data_filled<D: ApfsImage>(
    temp: TempView,
    vol: &Volume<D>,
    records: Seq<Record>,
    size: u64,
    sparse: bool,
    at: Seq<Event>,
    to: Seq<Event>,
    filled: Result<Written, Error>,
) -> bool {
    exists|written: Result<Written, Error>, mid: Seq<Event>| #[trigger]
        data_sent(vol, records, size, place_in(temp, sparse), at, mid, written) && filled_up(
            temp,
            written,
            mid,
            to,
            filled,
        )
}

fn fill_data<O: Destination, D: ApfsImage>(
    dest: &mut Journal<O>,
    temp: &TempFile<O::Temp>,
    vol: &Volume<D>,
    records: &[Record],
    size: u64,
    sparse: bool,
) -> (r: Result<Written, Error>)
    ensures
        final(dest).dest() == old(dest).dest(),
        data_filled(temp.id(), vol, records@, size, sparse, old(dest)@, final(dest)@, r),
{
    let out: Output<O::Temp> = if sparse {
        Output::Sparse(temp)
    } else {
        Output::Dense(temp)
    };
    let written = send_file_data(dest, vol, records, size, &out);
    let ghost given = written;
    let ghost mid = dest@;
    proof {
        assert(data_sent(
            vol,
            records@,
            size,
            place_in(temp.id(), sparse),
            old(dest)@,
            mid,
            given,
        ));
    }
    fill_up(dest, temp, written)
}

/// `r` is what filling a temporary file with a file's data and moving it to `path`
/// gives.
pub open spec fn data_moved<D: ApfsImage>(
    vol: &Volume<D>,
    records: Seq<Record>,
    size: u64,
    sparse: bool,
    path: Seq<char>,
    temp: TempView,
    at: Seq<Event>,
    to: Seq<Event>,
    r: Result<Written, Error>,
) -> bool {
    exists|filled: Result<Written, Error>, full: Seq<Event>| #[trigger]
        data_filled(temp, vol, records, size, sparse, at, full, filled) && installed(
            temp,
            path,
            filled,
            full,
            to,
            r,
        )
}

/// `r` is what writing a file of `size` bytes to `path` in one step gives: the
/// temporary file is made, then filled, and only then moved to `path`.
pub open spec fn data_installed<D: ApfsImage>(
    vol: &Volume<D>,
    records: Seq<Record>,
    size: u64,
    sparse: bool,
    path: Seq<char>,
    at: Seq<Event>,
    to: Seq<Event>,
    r: Result<Written, Error>,
) -> bool {
    exists|made: Result<TempView, Error>, mid: Seq<Event>| #[trigger]
        temp_made(path, at, mid, made) && match made {
            Err(error) => to == mid && r == Err::<Written, Error>(error),
            Ok(temp) => data_moved(vol, records, size, sparse, path, temp, mid, to, r),
        }
}

/// Writes `size` bytes to `path` by way of a temporary file, so that `path` never
/// holds part of them. A failure removes the temporary file.
pub fn write_file_atomic<O: Destination, D: ApfsImage>(
    dest: &mut Journal<O>,
    vol: &Volume<D>,
    records: &[Record],
    size: u64,
    sparse: bool,
    path: &str,
) -> (r: Result<Written, Error>)
    ensures
        final(dest).dest() == old(dest).dest(),
        data_installed(vol, records@, size, sparse, path@, old(dest)@, final(dest)@, r),
{
    let made = create_temp_file(dest, path);
    let ghost mid = dest@;
    let ghost given = temp_of(made);
    proof {
        assert(temp_made(path@, old(dest)@, mid, given));
    }
    let temp = match made {
        Err(error) => return Err(error),
        Ok(temp) => temp,
    };
    proof {
        assert(given == Ok::<TempView, Error>(temp.id()));
    }
    let filled = fill_data(dest, &temp, vol, records, size, sparse);
    let ghost content = filled;
    let ghost full = dest@;
    let r = install_filled(dest, temp, path, filled);
    proof {
        assert(data_filled(temp.id(), vol, records@, size, sparse, mid, full, content));
        assert(data_moved(
            vol,
            records@,
            size,
            sparse,
            path@,
            temp.id(),
            mid,
            dest@,
            r,
        ));
    }
    r
}

/// `r` is what filling a temporary file with `bytes` and moving it to `path` gives.
pub open spec fn bytes_moved(
    path: Seq<char>,
    bytes: Result<Vec<u8>, Error>,
    temp: TempView,
    at: Seq<Event>,
    to: Seq<Event>,
    r: Result<u64, Error>,
) -> bool {
    exists|filled: Result<u64, Error>, full: Seq<Event>|
        {
            &&& match bytes {
                Err(error) => full == at && filled == Err::<u64, Error>(error),
                Ok(data) => bytes_filled(temp, data@, data@.len() as u64, at, full, filled),
            }
            &&& #[trigger] installed(temp, path, filled, full, to, r)
        }
}

/// `r` is what writing `bytes` to `path` in one step gives, or `error` where they
/// could not be had.
pub open spec fn bytes_installed(
    path: Seq<char>,
    bytes: Result<Vec<u8>, Error>,
    at: Seq<Event>,
    to: Seq<Event>,
    r: Result<u64, Error>,
) -> bool {
    exists|made: Result<TempView, Error>, mid: Seq<Event>| #[trigger]
        temp_made(path, at, mid, made) && match made {
            Err(error) => to == mid && r == Err::<u64, Error>(error),
            Ok(temp) => bytes_moved(path, bytes, temp, mid, to, r),
        }
}

/// Writes `bytes` to `path` by way of a temporary file.
pub fn write_bytes_atomic<O: Destination>(
    dest: &mut Journal<O>,
    path: &str,
    bytes: Result<Vec<u8>, Error>,
) -> (r: Result<u64, Error>)
    ensures
        final(dest).dest() == old(dest).dest(),
        bytes_installed(path@, bytes, old(dest)@, final(dest)@, r),
{
    let made = create_temp_file(dest, path);
    let ghost mid = dest@;
    let ghost given = temp_of(made);
    proof {
        assert(temp_made(path@, old(dest)@, mid, given));
    }
    let temp = match made {
        Err(error) => return Err(error),
        Ok(temp) => temp,
    };
    proof {
        assert(given == Ok::<TempView, Error>(temp.id()));
    }
    let ghost given_bytes = bytes;
    let filled = match bytes {
        Err(error) => Err(error),
        Ok(data) => fill_bytes(dest, &temp, &data, data.len() as u64),
    };
    let ghost content = filled;
    let ghost full = dest@;
    let r = install_filled(dest, temp, path, filled);
    proof {
        assert(installed(temp.id(), path@, content, full, dest@, r));
        assert(bytes_moved(path@, given_bytes, temp.id(), mid, dest@, r));
    }
    r
}

// ---------------------------------------------------------------------------
// Transparently compressed files
// ---------------------------------------------------------------------------

/// What is made of a compressed file that reads back as `back` and should have
/// `size` bytes.
pub open spec fn read_back_checked(back: ReadBack, size: u64) -> Result<(), ErrorView> {
    if back.bytes != size {
        Err(
            failure(
                ErrorKind::Corrupt,
                "kernel decoded decmpfs to "@ + dec(back.bytes as nat) + " bytes, expected "@ + dec(
                    size as nat,
                ),
            ),
        )
    } else if back.more {
        Err(failure(ErrorKind::Corrupt, "kernel decoded decmpfs beyond its declared size"@))
    } else {
        Ok(())
    }
}

/// Accepts a compressed file only where it reads back with exactly its size.
pub fn check_read_back(back: ReadBack, size: u64) -> (r: Result<(), Error>)
    ensures
        match read_back_checked(back, size) {
            Ok(_) => r is Ok,
            Err(error) => is_failed(r, error),
        },
{
    if back.bytes != size {
        let mut message = "kernel decoded decmpfs to ".to_owned();
        push_dec(&mut message, back.bytes);
        message.append(" bytes, expected ");
        push_dec(&mut message, size);
        return Err(Error::new(ErrorKind::Corrupt, message));
    }
    if back.more {
        return Err(
            Error::fixed(ErrorKind::Corrupt, "kernel decoded decmpfs beyond its declared size"),
        );
    }
    Ok(())
}

/// The error of a destination that cannot hold transparently compressed files.
pub open spec fn no_kernel_codec() -> ErrorView {
    failure(ErrorKind::UnsupportedFeature, "kernel-verified decmpfs recovery requires macOS"@)
}

/// `filled` is what turning a temporary file into a compressed one of `size` bytes
/// gives.
pub open spec fn compressed_filled(
    temp: TempView,
    attribute: Seq<u8>,
    resource_fork: Option<Seq<u8>>,
    size: u64,
    at: Seq<Event>,
    to: Seq<Event>,
    filled: Result<(), Error>,
) -> bool {
    exists|reply: Result<ReadBack, Error>| #[trigger]
        did(at, Event::FillCompressed { temp, attribute, resource_fork, reply }, to)
            && match reply {
            Err(error) => is_failed(filled, error@),
            Ok(back) => match read_back_checked(back, size) {
                Ok(_) => filled is Ok,
                Err(error) => is_failed(filled, error),
            },
        }
}

fn fill_compressed<O: Destination>(
    dest: &mut Journal<O>,
    temp: &TempFile<O::Temp>,
    attribute: &Vec<u8>,
    resource_fork: &Option<Vec<u8>>,
    size: u64,
) -> (r: Result<(), Error>)
    ensures
        final(dest).dest() == old(dest).dest(),
        compressed_filled(
            temp.id(),
            attribute@,
            fork_view(*resource_fork),
            size,
            old(dest)@,
            final(dest)@,
            r,
        ),
{
    let reply = dest.fill_compressed(temp, attribute, resource_fork);
    match reply {
        Err(error) => Err(error),
        Ok(back) => check_read_back(back, size),
    }
}

/// `r` is what making a compressed file of `size` bytes of a temporary one and moving
/// it to `path` gives.
pub open spec fn compressed_moved(
    path: Seq<char>,
    attribute: Seq<u8>,
    resource_fork: Option<Seq<u8>>,
    size: u64,
    temp: TempView,
    at: Seq<Event>,
    to: Seq<Event>,
    r: Result<(), Error>,
) -> bool {
    exists|filled: Result<(), Error>, full: Seq<Event>| #[trigger]
        compressed_filled(temp, attribute, resource_fork, size, at, full, filled) && installed(
            temp,
            path,
            filled,
            full,
            to,
            r,
        )
}

/// `r` is what writing a compressed file of `size` bytes to `path` gives, on a
/// destination that can hold one: it is moved there only once it was read back.
pub open spec fn compressed_made(
    path: Seq<char>,
    attribute: Seq<u8>,
    resource_fork: Option<Seq<u8>>,
    size: u64,
    at: Seq<Event>,
    to: Seq<Event>,
    r: Result<(), Error>,
) -> bool {
    exists|made: Result<TempView, Error>, mid: Seq<Event>| #[trigger]
        temp_made(path, at, mid, made) && match made {
            Err(error) => to == mid && is_failed(r, error@),
            Ok(temp) => compressed_moved(
                path,
                attribute,
                resource_fork,
                size,
                temp,
                mid,
                to,
                r,
            ),
        }
}

/// `r` is what writing a compressed file of `size` bytes to `path` gives.
pub open spec fn compressed_installed(
    path: Seq<char>,
    attribute: Seq<u8>,
    resource_fork: Option<Seq<u8>>,
    size: u64,
    at: Seq<Event>,
    to: Seq<Event>,
    r: Result<(), Error>,
) -> bool {
    exists|able: bool, known: Seq<Event>| #[trigger]
        did(at, Event::HasKernelCodec { reply: able }, known) && if !able {
            to == known && is_failed(r, no_kernel_codec())
        } else {
            compressed_made(path, attribute, resource_fork, size, known, to, r)
        }
}

/// Writes a transparently compressed file to `path` by way of a temporary file. It
/// is installed only where its whole content reads back with the size it should
/// have.
pub fn write_kernel_compressed_atomic<O: Destination>(
    dest: &mut Journal<O>,
    path: &str,
    attribute: &Vec<u8>,
    resource_fork: &Option<Vec<u8>>,
    size: u64,
) -> (r: Result<(), Error>)
    ensures
        final(dest).dest() == old(dest).dest(),
        compressed_installed(
            path@,
            attribute@,
            fork_view(*resource_fork),
            size,
            old(dest)@,
            final(dest)@,
            r,
        ),
{
    let able = dest.has_kernel_codec();
    let ghost known = dest@;
    if !able {
        return Err(
            Error::fixed(
                ErrorKind::UnsupportedFeature,
                "kernel-verified decmpfs recovery requires macOS",
            ),
        );
    }
    let made = create_temp_file(dest, path);
    let ghost mid = dest@;
    let ghost given = temp_of(made);
    proof {
        assert(temp_made(path@, known, mid, given));
    }
    let temp = match made {
        Err(error) => {
            let r: Result<(), Error> = Err(error);
            proof {
                assert(compressed_made(
                    path@,
                    attribute@,
                    fork_view(*resource_fork),
                    size,
                    known,
                    dest@,
                    r,
                ));
            }
            return r;
        },
        Ok(temp) => temp,
    };
    proof {
        assert(given == Ok::<TempView, Error>(temp.id()));
    }
    let filled = fill_compressed(dest, &temp, attribute, resource_fork, size);
    let ghost content = filled;
    let ghost full = dest@;
    let r = install_filled(dest, temp, path, filled);
    proof {
        assert(compressed_filled(
            temp.id(),
            attribute@,
            fork_view(*resource_fork),
            size,
            mid,
            full,
            content,
        ));
        assert(compressed_moved(
            path@,
            attribute@,
            fork_view(*resource_fork),
            size,
            temp.id(),
            mid,
            dest@,
            r,
        ));
        assert(compressed_made(
            path@,
            attribute@,
            fork_view(*resource_fork),
            size,
            known,
            dest@,
            r,
        ));
    }
    r
}

// ---------------------------------------------------------------------------
// Laws
// ---------------------------------------------------------------------------

/// The event was the last that a temporary file needs before it is moved to its place,
/// and it succeeded.
pub open spec fn filled_whole(event: Event, temp: TempView) -> bool {
    match event {
        Event::Flush { temp: t, reply } => t == temp && reply is Ok,
        Event::FillCompressed { temp: t, reply, .. } => t == temp && reply is Ok,
        _ => false,
    }
}

/// The event filled a temporary file, or tried to.
pub open spec fn fills(event: Event, temp: TempView) -> bool {
    match event {
        Event::Fill { temp: t, .. } => t == temp,
        Event::Skip { temp: t, .. } => t == temp,
        Event::SetLen { temp: t, .. } => t == temp,
        Event::Flush { temp: t, .. } => t == temp,
        Event::FillCompressed { temp: t, .. } => t == temp,
        _ => false,
    }
}

/// The event tried to fill a temporary file, and failed.
pub open spec fn fill_failed(event: Event) -> bool {
    match event {
        Event::Fill { reply, .. } => reply is Err,
        Event::Skip { reply, .. } => reply is Err,
        Event::SetLen { reply, .. } => reply is Err,
        Event::Flush { reply, .. } => reply is Err,
        Event::FillCompressed { reply, .. } => reply is Err,
        _ => false,
    }
}

/// What was asked between `at` and `to` puts a file at `path` whole or not at all, and
/// touches nothing else. The one request that touches `path` moves a temporary file
/// there, which the requests before have filled without one that failed. Where the file
/// is there at the end, that was the last request. Otherwise it was refused, and no
/// temporary file that was created is left: the last request removes it.
pub open spec fn placed_whole(
    path: Seq<char>,
    at: Seq<Event>,
    to: Seq<Event>,
    placed: bool,
) -> bool {
    &&& touches_at_most(at, to, Some(path))
    &&& forall|i: int|
        at.len() <= i < to.len() && (#[trigger] to[i]).touches(path) ==> {
            &&& to[i] matches Event::Install { temp, reply, .. }
            &&& i > at.len() && filled_whole(to[i - 1], temp)
            &&& forall|j: int| at.len() <= j < i ==> !fill_failed(#[trigger] to[j])
            &&& reply is Ok <==> placed
        }
    &&& placed ==> at.len() < to.len() && to.last().touches(path)
    &&& !placed ==> forall|i: int|
        at.len() <= i < to.len() ==> (#[trigger] to[i] matches Event::Create {
            temp,
            reply: Made::Created,
        } ==> to.last() == (Event::Discard { temp }))
}

/// The event only makes ready for a file at `path`.
spec fn makes_ready(event: Event, path: Seq<char>) -> bool {
    match event {
        Event::MakeParents { path: p, .. } => p == path,
        Event::ProcessId { .. } => true,
        Event::Create { temp, .. } => temp.path == path,
        _ => false,
    }
}

/// All that was asked between `at` and `to` only made ready for a file at `path`, and
/// the one temporary file that was created, if any, is `made`.
spec fn made_ready(
    path: Seq<char>,
    at: Seq<Event>,
    to: Seq<Event>,
    made: Result<TempView, Error>,
) -> bool {
    &&& at.is_prefix_of(to)
    &&& forall|i: int|
        at.len() <= i < to.len() ==> {
            &&& #[trigger] makes_ready(to[i], path)
            &&& to[i] matches Event::Create { temp, reply: Made::Created } ==> made == Ok::<
                TempView,
                Error,
            >(temp)
        }
}

proof fn lemma_temp_tried(
    path: Seq<char>,
    process: u32,
    n: int,
    at: Seq<Event>,
    to: Seq<Event>,
    r: Result<TempView, Error>,
)
    requires
        temp_tried(path, process, n, at, to, r),
    ensures
        made_ready(path, at, to, r),
    decreases MAX_COLLISIONS - n,
{
    if n < MAX_COLLISIONS {
        let temp = TempView { path, name: temp_name(process, n) };
        let (reply, mid) = choose|reply: Made, mid: Seq<Event>| #[trigger]
            did(at, Event::Create { temp, reply }, mid) && match reply {
                Made::Created => to == mid && r == Ok::<TempView, Error>(temp),
                Made::Failed(error) => to == mid && r == Err::<TempView, Error>(error),
                Made::Taken => temp_tried(path, process, n + 1, mid, to, r),
            };
        if reply is Taken {
            lemma_temp_tried(path, process, n + 1, mid, to, r);
            assert forall|i: int| at.len() <= i < to.len() implies {
                &&& #[trigger] makes_ready(to[i], path)
                &&& to[i] matches Event::Create { temp, reply: Made::Created } ==> r == Ok::<
                    TempView,
                    Error,
                >(temp)
            } by {
                if i == at.len() {
                    assert(to[i] == mid[i]);
                } else {
                    assert(makes_ready(to[i], path));
                }
            }
            assert(at.is_prefix_of(to)) by {
                assert(to.take(at.len() as int) =~= at);
            }
        } else {
            assert(to == at.push(Event::Create { temp, reply }));
        }
    }
}

proof fn lemma_temp_made(
    path: Seq<char>,
    at: Seq<Event>,
    to: Seq<Event>,
    r: Result<TempView, Error>,
)
    requires
        temp_made(path, at, to, r),
    ensures
        made_ready(path, at, to, r),
{
    let (parents, mid) = choose|parents: Result<(), Error>, mid: Seq<Event>| #[trigger]
        did(at, Event::MakeParents { path, reply: parents }, mid) && match parents {
            Err(error) => to == mid && r == Err::<TempView, Error>(error),
            Ok(_) => exists|process: u32, known: Seq<Event>| #[trigger]
                did(mid, Event::ProcessId { reply: process }, known) && temp_tried(
                    path,
                    process,
                    0,
                    known,
                    to,
                    r,
                ),
        };
    if parents is Ok {
        let (process, known) = choose|process: u32, known: Seq<Event>| #[trigger]
            did(mid, Event::ProcessId { reply: process }, known) && temp_tried(
                path,
                process,
                0,
                known,
                to,
                r,
            );
        lemma_temp_tried(path, process, 0, known, to, r);
        assert forall|i: int| at.len() <= i < to.len() implies {
            &&& #[trigger] makes_ready(to[i], path)
            &&& to[i] matches Event::Create { temp, reply: Made::Created } ==> r == Ok::<
                TempView,
                Error,
            >(temp)
        } by {
            if i < known.len() {
                assert(to[i] == known[i]);
            } else {
                assert(makes_ready(to[i], path));
            }
        }
    }
}

/// Where no temporary file was made, nothing was placed.
proof fn lemma_ready_is_no_file(
    path: Seq<char>,
    at: Seq<Event>,
    to: Seq<Event>,
    made: Result<TempView, Error>,
)
    requires
        made_ready(path, at, to, made),
        made is Err,
    ensures
        placed_whole(path, at, to, false),
{
    assert forall|i: int, place: Seq<char>| at.len() <= i < to.len() implies !(
    #[trigger] to[i].touches(place)) by {
        assert(makes_ready(to[i], path));
    }
    assert forall|i: int| at.len() <= i < to.len() implies !(#[trigger] to[i]
        matches Event::Create { temp, reply: Made::Created }) by {
        assert(makes_ready(to[i], path));
    }
}

/// All that was asked between `at` and `to` filled a temporary file; where that ended
/// well, no request failed and the last one completed the file.
spec fn only_fills<T>(
    temp: TempView,
    at: Seq<Event>,
    to: Seq<Event>,
    filled: Result<T, Error>,
) -> bool {
    &&& at.is_prefix_of(to)
    &&& forall|i: int| at.len() <= i < to.len() ==> fills(#[trigger] to[i], temp)
    &&& filled is Ok ==> {
        &&& at.len() < to.len()
        &&& filled_whole(to.last(), temp)
        &&& forall|i: int| at.len() <= i < to.len() ==> !fill_failed(#[trigger] to[i])
    }
}

/// What follows once the temporary file was made: requests fill it, and where they
/// succeeded it is moved.
proof fn lemma_placed_whole<T>(
    path: Seq<char>,
    temp: TempView,
    filled: Result<T, Error>,
    at: Seq<Event>,
    mid: Seq<Event>,
    full: Seq<Event>,
    to: Seq<Event>,
    r: Result<T, Error>,
)
    requires
        made_ready(path, at, mid, Ok(temp)),
        only_fills(temp, mid, full, filled),
        installed(temp, path, filled, full, to, r),
    ensures
        placed_whole(path, at, to, r is Ok),
{
    assert forall|i: int| at.len() <= i < mid.len() implies #[trigger] to[i] == mid[i]
        && makes_ready(to[i], path) by {
        assert(makes_ready(mid[i], path));
        assert(full[i] == mid[i]);
    }
    assert forall|i: int| mid.len() <= i < full.len() implies #[trigger] to[i] == full[i]
        && fills(to[i], temp) by {
        assert(fills(full[i], temp));
    }
    assert(at.is_prefix_of(full)) by {
        assert(full.take(at.len() as int) =~= mid.take(at.len() as int));
    }
    if filled is Ok {
        let (moved, then) = choose|moved: Result<(), Error>, then: Seq<Event>| #[trigger]
            did(full, Event::Install { temp, path, reply: moved }, then) && match moved {
                Ok(_) => to == then && r == filled,
                Err(error) => did(then, Event::Discard { temp }, to) && r == Err::<T, Error>(
                    error,
                ),
            };
        assert(to[full.len() as int] == then.last());
        assert(to[full.len() - 1] == full.last());
        assert forall|j: int| at.len() <= j < full.len() implies !fill_failed(#[trigger] to[j]) by {
            if j < mid.len() {
                assert(makes_ready(mid[j], path));
                assert(to[j] == mid[j]);
            } else {
                assert(to[j] == full[j]);
            }
        }
    }
}

proof fn lemma_filled_up<T>(
    temp: TempView,
    written: Result<T, Error>,
    at: Seq<Event>,
    mid: Seq<Event>,
    to: Seq<Event>,
    filled: Result<T, Error>,
)
    requires
        filled_up(temp, written, mid, to, filled),
        at.is_prefix_of(mid),
        forall|i: int| at.len() <= i < mid.len() ==> fills(#[trigger] mid[i], temp),
        written is Ok ==> forall|i: int|
            at.len() <= i < mid.len() ==> !fill_failed(#[trigger] mid[i]),
    ensures
        only_fills(temp, at, to, filled),
{
    assert forall|i: int| at.len() <= i < to.len() implies fills(#[trigger] to[i], temp) by {
        if i < mid.len() {
            assert(to[i] == mid[i]);
        }
    }
    if filled is Ok {
        assert forall|i: int| at.len() <= i < to.len() implies !fill_failed(#[trigger] to[i]) by {
            if i < mid.len() {
                assert(to[i] == mid[i]);
            }
        }
    }
    assert(to.take(at.len() as int) =~= mid.take(at.len() as int));
}

proof fn lemma_bytes_only_fill<T>(
    temp: TempView,
    bytes: Seq<u8>,
    value: T,
    at: Seq<Event>,
    to: Seq<Event>,
    filled: Result<T, Error>,
)
    requires
        bytes_filled(temp, bytes, value, at, to, filled),
    ensures
        only_fills(temp, at, to, filled),
{
    let (sent, mid) = choose|sent: Result<(), Error>, mid: Seq<Event>| #[trigger]
        did(at, Event::Fill { temp, bytes, reply: sent }, mid) && match sent {
            Ok(_) => filled_up(temp, Ok(value), mid, to, filled),
            Err(error) => to == mid && filled == Err::<T, Error>(error),
        };
    if sent is Ok {
        let written: Result<T, Error> = Ok(value);
        lemma_filled_up(temp, written, at, mid, to, filled);
    }
}

/// A file of the image is put at its place whole or not at all.
pub proof fn law_data_is_placed_whole<D: ApfsImage>(
    vol: &Volume<D>,
    records: Seq<Record>,
    size: u64,
    sparse: bool,
    path: Seq<char>,
    at: Seq<Event>,
    to: Seq<Event>,
    r: Result<Written, Error>,
)
    requires
        data_installed(vol, records, size, sparse, path, at, to, r),
    ensures
        placed_whole(path, at, to, r is Ok),
{
    let (made, mid) = choose|made: Result<TempView, Error>, mid: Seq<Event>| #[trigger]
        temp_made(path, at, mid, made) && match made {
            Err(error) => to == mid && r == Err::<Written, Error>(error),
            Ok(temp) => data_moved(vol, records, size, sparse, path, temp, mid, to, r),
        };
    lemma_temp_made(path, at, mid, made);
    match made {
        Err(_) => {
            lemma_ready_is_no_file(path, at, to, made);
        },
        Ok(temp) => {
            let (filled, full) = choose|filled: Result<Written, Error>, full: Seq<Event>| #[trigger]
                data_filled(temp, vol, records, size, sparse, mid, full, filled) && installed(
                    temp,
                    path,
                    filled,
                    full,
                    to,
                    r,
                );
            let place = place_in(temp, sparse);
            let (written, then) = choose|written: Result<Written, Error>, then: Seq<Event>|
                #[trigger]
                data_sent(vol, records, size, place, mid, then, written) && filled_up(
                    temp,
                    written,
                    then,
                    full,
                    filled,
                );
            law_only_its_place_is_written(vol, records, size, place, mid, then, written);
            assert forall|i: int| mid.len() <= i < then.len() implies fills(
                #[trigger] then[i],
                temp,
            ) && (written is Ok ==> !fill_failed(then[i])) by {
                assert(writes_to(then[i], place));
            }
            lemma_filled_up(temp, written, mid, then, full, filled);
            lemma_placed_whole(path, temp, filled, at, mid, full, to, r);
        },
    }
}

/// A file of the image that is put at its place holds its data: the requests leave of a
/// new file exactly what [`Volume::write_file_data`] writes.
pub proof fn law_placed_file_holds_its_data<D: ApfsImage>(
    vol: &Volume<D>,
    records: Seq<Record>,
    size: u64,
    sparse: bool,
    path: Seq<char>,
    at: Seq<Event>,
    to: Seq<Event>,
    written: Written,
)
    requires
        data_installed(vol, records, size, sparse, path, at, to, Ok(written)),
    ensures
        vol.data_written(
            records,
            size,
            Ok(written),
            Seq::empty(),
            left_by(to, at.len()).bytes,
        ),
{
    let r: Result<Written, Error> = Ok(written);
    let (made, mid) = choose|made: Result<TempView, Error>, mid: Seq<Event>| #[trigger]
        temp_made(path, at, mid, made) && match made {
            Err(error) => to == mid && r == Err::<Written, Error>(error),
            Ok(temp) => data_moved(vol, records, size, sparse, path, temp, mid, to, r),
        };
    lemma_temp_made(path, at, mid, made);
    let temp = made->Ok_0;
    let (filled, full) = choose|filled: Result<Written, Error>, full: Seq<Event>| #[trigger]
        data_filled(temp, vol, records, size, sparse, mid, full, filled) && installed(
            temp,
            path,
            filled,
            full,
            to,
            r,
        );
    let place = place_in(temp, sparse);
    let (sent, then) = choose|sent: Result<Written, Error>, then: Seq<Event>| #[trigger]
        data_sent(vol, records, size, place, mid, then, sent) && filled_up(
            temp,
            sent,
            then,
            full,
            filled,
        );
    assert(filled == r && sent == r);
    law_sent_data_is_the_file(vol, records, size, place, mid, then, written);
    law_only_its_place_is_written(vol, records, size, place, mid, then, sent);
    assert(full.drop_last() =~= then);
    assert(full.last() is Flush);
    assert(left_by(full, at.len()) == left_by(then, at.len()));
    assert(to.drop_last() =~= full);
    assert(to.last() is Install);
    assert(left_by(to, at.len()) == left_by(full, at.len()));
    assert forall|i: int, sheet: Sheet| at.len() <= i < mid.len() implies
        #[trigger] after_request(sheet, then[i]) == sheet by {
        assert(makes_ready(mid[i], path));
        assert(then[i] == mid[i]);
    }
    lemma_left_by_later(then, at.len(), mid.len());
}

/// Bytes are put at their place whole or not at all.
pub proof fn law_bytes_are_placed_whole(
    path: Seq<char>,
    bytes: Result<Vec<u8>, Error>,
    at: Seq<Event>,
    to: Seq<Event>,
    r: Result<u64, Error>,
)
    requires
        bytes_installed(path, bytes, at, to, r),
    ensures
        placed_whole(path, at, to, r is Ok),
{
    let (made, mid) = choose|made: Result<TempView, Error>, mid: Seq<Event>| #[trigger]
        temp_made(path, at, mid, made) && match made {
            Err(error) => to == mid && r == Err::<u64, Error>(error),
            Ok(temp) => bytes_moved(path, bytes, temp, mid, to, r),
        };
    lemma_temp_made(path, at, mid, made);
    match made {
        Err(_) => {
            lemma_ready_is_no_file(path, at, to, made);
        },
        Ok(temp) => {
            let (filled, full) = choose|filled: Result<u64, Error>, full: Seq<Event>|
                {
                    &&& match bytes {
                        Err(error) => full == mid && filled == Err::<u64, Error>(error),
                        Ok(data) => bytes_filled(
                            temp,
                            data@,
                            data@.len() as u64,
                            mid,
                            full,
                            filled,
                        ),
                    }
                    &&& #[trigger] installed(temp, path, filled, full, to, r)
                };
            if let Ok(data) = bytes {
                lemma_bytes_only_fill(temp, data@, data@.len() as u64, mid, full, filled);
            }
            lemma_placed_whole(path, temp, filled, at, mid, full, to, r);
        },
    }
}

/// A transparently compressed file is put at its place whole or not at all.
pub proof fn law_compressed_file_is_placed_whole(
    path: Seq<char>,
    attribute: Seq<u8>,
    resource_fork: Option<Seq<u8>>,
    size: u64,
    at: Seq<Event>,
    to: Seq<Event>,
    r: Result<(), Error>,
)
    requires
        compressed_installed(path, attribute, resource_fork, size, at, to, r),
    ensures
        placed_whole(path, at, to, r is Ok),
{
    let (able, known) = choose|able: bool, known: Seq<Event>| #[trigger]
        did(at, Event::HasKernelCodec { reply: able }, known) && if !able {
            to == known && is_failed(r, no_kernel_codec())
        } else {
            compressed_made(path, attribute, resource_fork, size, known, to, r)
        };
    if able {
        let (made, mid) = choose|made: Result<TempView, Error>, mid: Seq<Event>| #[trigger]
            temp_made(path, known, mid, made) && match made {
                Err(error) => to == mid && is_failed(r, error@),
                Ok(temp) => compressed_moved(
                    path,
                    attribute,
                    resource_fork,
                    size,
                    temp,
                    mid,
                    to,
                    r,
                ),
            };
        lemma_temp_made(path, known, mid, made);
        match made {
            Err(_) => {
                lemma_ready_is_no_file(path, known, to, made);
            },
            Ok(temp) => {
                let (filled, full) = choose|filled: Result<(), Error>, full: Seq<Event>| #[trigger]
                    compressed_filled(
                        temp,
                        attribute,
                        resource_fork,
                        size,
                        mid,
                        full,
                        filled,
                    ) && installed(temp, path, filled, full, to, r);
                lemma_placed_whole(path, temp, filled, known, mid, full, to, r);
            },
        }
        assert(placed_whole(path, known, to, r is Ok));
        assert(to[at.len() as int] == known.last());
    }
}

/// The names that are tried for a temporary file all differ.
pub proof fn law_temporary_names_differ(process: u32, n: nat, m: nat)
    requires
        temp_name(process, n as int) == temp_name(process, m as int),
    ensures
        n == m,
{
    let head = "_com.apfsrelic.recover_"@ + dec(process as nat) + "_"@;
    assert(temp_name(process, n as int).skip(head.len() as int) =~= dec(n));
    assert(temp_name(process, m as int).skip(head.len() as int) =~= dec(m));
    law_written_numbers_read_back(n, 10);
    law_written_numbers_read_back(m, 10);
}

/// A compressed file is accepted exactly if it reads back with as many bytes as it should
/// have, and no more. Otherwise it is corrupt.
pub proof fn law_read_back_must_have_the_size(back: ReadBack, size: u64)
    ensures
        read_back_checked(back, size) is Ok <==> back.bytes == size && !back.more,
        read_back_checked(back, size) matches Err(error) ==> error.kind == ErrorKind::Corrupt,
{
}

/// Names for a temporary file are tried in turn, and each but the last was taken. A file is
/// given up for want of a name only once 1024 of them were taken.
proof fn lemma_names_tried(
    path: Seq<char>,
    process: u32,
    n: int,
    at: Seq<Event>,
    to: Seq<Event>,
    r: Result<TempView, Error>,
) -> (replies: Seq<Made>)
    requires
        0 <= n <= 1024,
        temp_tried(path, process, n, at, to, r),
    ensures
        to == at + names_asked(path, process, n, replies),
        forall|i: int| 0 <= i < replies.len() - 1 ==> #[trigger] replies[i] is Taken,
        n + replies.len() <= 1024,
        r is Ok <==> replies.len() > 0 && replies.last() is Created,
        r is Ok ==> r->Ok_0 == (TempView {
            path,
            name: temp_name(process, n + replies.len() - 1),
        }),
        r is Err ==> (replies.len() > 0 && replies.last() is Failed) || n + replies.len() == 1024,
    decreases 1024 - n,
{
    if n >= 1024 {
        let none: Seq<Made> = Seq::empty();
        assert(to =~= at + names_asked(path, process, n, none));
        none
    } else {
        let temp = TempView { path, name: temp_name(process, n) };
        let (reply, mid) = choose|reply: Made, mid: Seq<Event>| #[trigger]
            did(at, Event::Create { temp, reply }, mid) && match reply {
                Made::Created => to == mid && r == Ok::<TempView, Error>(temp),
                Made::Failed(error) => to == mid && r == Err::<TempView, Error>(error),
                Made::Taken => temp_tried(path, process, n + 1, mid, to, r),
            };
        if reply is Taken {
            let later = lemma_names_tried(path, process, n + 1, mid, to, r);
            let all = seq![reply] + later;
            assert forall|i: int| 0 <= i < all.len() - 1 implies #[trigger] all[i] is Taken by {
                if i > 0 {
                    assert(all[i] == later[i - 1]);
                }
            }
            assert(to =~= at + names_asked(path, process, n, all));
            all
        } else {
            let one = seq![reply];
            assert(to =~= at + names_asked(path, process, n, one));
            one
        }
    }
}

/// The events of trying names for a temporary file from number `n` on, with their replies.
pub open spec fn names_asked(
    path: Seq<char>,
    process: u32,
    n: int,
    replies: Seq<Made>,
) -> Seq<Event> {
    Seq::new(
        replies.len(),
        |i: int|
            Event::Create {
                temp: TempView { path, name: temp_name(process, n + i) },
                reply: replies[i],
            },
    )
}

/// A temporary file is made beside its place, once the directories on the way are there.
/// Names are tried from number zero on until one is free or cannot be had; each name before
/// it was taken. Only after 1024 taken names is the file given up.
pub proof fn law_names_are_tried_in_turn(
    path: Seq<char>,
    at: Seq<Event>,
    to: Seq<Event>,
    r: Result<TempView, Error>,
)
    requires
        temp_made(path, at, to, r),
    ensures
        to.len() > at.len(),
        to.take(at.len() as int) == at,
        to[at.len() as int] matches Event::MakeParents { path: p, reply } && p == path && (reply
            is Err ==> to.len() == at.len() + 1 && r is Err),
        to[at.len() as int]->MakeParents_reply is Ok ==> exists|process: u32, replies: Seq<Made>|
            {
                &&& to == at.push(to[at.len() as int]).push(
                    Event::ProcessId { reply: process },
                ) + #[trigger] names_asked(path, process, 0, replies)
                &&& replies.len() <= 1024
                &&& forall|i: int| 0 <= i < replies.len() - 1 ==> #[trigger] replies[i] is Taken
                &&& r is Ok <==> replies.len() > 0 && replies[replies.len() - 1] is Created
                &&& r is Ok ==> r->Ok_0.path == path && r->Ok_0.name == temp_name(
                    process,
                    replies.len() - 1,
                )
                &&& r is Err ==> (replies.len() > 0 && replies[replies.len() - 1] is Failed)
                    || replies.len() == 1024
            },
{
    let (parents, mid) = choose|parents: Result<(), Error>, mid: Seq<Event>| #[trigger]
        did(at, Event::MakeParents { path, reply: parents }, mid) && match parents {
            Err(error) => to == mid && r == Err::<TempView, Error>(error),
            Ok(_) => exists|process: u32, known: Seq<Event>| #[trigger]
                did(mid, Event::ProcessId { reply: process }, known) && temp_tried(
                    path,
                    process,
                    0,
                    known,
                    to,
                    r,
                ),
        };
    if parents is Ok {
        let (process, known) = choose|process: u32, known: Seq<Event>| #[trigger]
            did(mid, Event::ProcessId { reply: process }, known) && temp_tried(
                path,
                process,
                0,
                known,
                to,
                r,
            );
        let replies = lemma_names_tried(path, process, 0, known, to, r);
        let first = Event::MakeParents { path, reply: parents };
        assert(to[at.len() as int] == first);
        assert(to.take(at.len() as int) =~= at);
        assert(to == at.push(first).push(Event::ProcessId { reply: process }) + names_asked(
            path,
            process,
            0,
            replies,
        ));
    } else {
        assert(to.take(at.len() as int) =~= at);
    }
}

/// A file that was put at its place was filled, flushed and only then moved there. A sparse
/// file was given its length before; in no other file is anything passed over.
pub proof fn law_file_is_filled_before_it_is_moved<D: ApfsImage>(
    vol: &Volume<D>,
    records: Seq<Record>,
    size: u64,
    sparse: bool,
    path: Seq<char>,
    at: Seq<Event>,
    to: Seq<Event>,
    written: Written,
)
    requires
        data_installed(vol, records, size, sparse, path, at, to, Ok(written)),
    ensures
        to.len() >= at.len() + 4,
        to.take(at.len() as int) == at,
        to[to.len() - 1] matches Event::Install { path: place, reply, .. } && place == path
            && reply is Ok,
        to[to.len() - 2] matches Event::Flush { reply, .. } && reply is Ok,
        sparse ==> (to[to.len() - 3] matches Event::SetLen { len, .. } && len == size),
        !sparse ==> forall|i: int|
            at.len() <= i < to.len() ==> !(#[trigger] to[i] is Skip) && !(to[i] is SetLen),
{
    let r: Result<Written, Error> = Ok(written);
    let (made, mid) = choose|made: Result<TempView, Error>, mid: Seq<Event>| #[trigger]
        temp_made(path, at, mid, made) && match made {
            Err(error) => to == mid && r == Err::<Written, Error>(error),
            Ok(temp) => data_moved(vol, records, size, sparse, path, temp, mid, to, r),
        };
    lemma_temp_made(path, at, mid, made);
    law_names_are_tried_in_turn(path, at, mid, made);
    let temp = made->Ok_0;
    let (filled, full) = choose|filled: Result<Written, Error>, full: Seq<Event>| #[trigger]
        data_filled(temp, vol, records, size, sparse, mid, full, filled) && installed(
            temp,
            path,
            filled,
            full,
            to,
            r,
        );
    let place = place_in(temp, sparse);
    let (sent, then) = choose|sent: Result<Written, Error>, then: Seq<Event>| #[trigger]
        data_sent(vol, records, size, place, mid, then, sent) && filled_up(
            temp,
            sent,
            then,
            full,
            filled,
        );
    law_sparse_file_gets_its_length(vol, records, size, place, mid, then, written);
    law_only_its_place_is_written(vol, records, size, place, mid, then, sent);
    assert(full.drop_last() =~= then);
    assert(to.drop_last() =~= full);
    assert(to.take(at.len() as int) =~= at);
    assert forall|i: int| !sparse && at.len() <= i < to.len() implies !(#[trigger] to[i] is Skip)
        && !(to[i] is SetLen) by {
        if i < mid.len() {
            assert(makes_ready(mid[i], path));
            assert(to[i] == mid[i]);
        } else if i < then.len() {
            assert(to[i] == then[i]);
        }
    }
}

/// A compressed file that was put at its place was filled with the attribute and the resource
/// fork that were given, and read back with its size, right before it was moved there.
pub proof fn law_compressed_file_is_filled_with_its_attribute(
    path: Seq<char>,
    attribute: Seq<u8>,
    resource_fork: Option<Seq<u8>>,
    size: u64,
    at: Seq<Event>,
    to: Seq<Event>,
)
    requires
        compressed_installed(path, attribute, resource_fork, size, at, to, Ok(())),
    ensures
        to.len() >= at.len() + 3,
        to[to.len() - 1] matches Event::Install { path: place, reply, .. } && place == path
            && reply is Ok,
        to[to.len() - 2] matches Event::FillCompressed {
            attribute: given,
            resource_fork: fork,
            reply,
            ..
        } && given == attribute && fork == resource_fork && reply is Ok && reply->Ok_0.bytes
            == size && !reply->Ok_0.more,
{
    let r: Result<(), Error> = Ok(());
    let (able, known) = choose|able: bool, known: Seq<Event>| #[trigger]
        did(at, Event::HasKernelCodec { reply: able }, known) && if !able {
            to == known && is_failed(r, no_kernel_codec())
        } else {
            compressed_made(path, attribute, resource_fork, size, known, to, r)
        };
    let (made, mid) = choose|made: Result<TempView, Error>, mid: Seq<Event>| #[trigger]
        temp_made(path, known, mid, made) && match made {
            Err(error) => to == mid && is_failed(r, error@),
            Ok(temp) => compressed_moved(
                path,
                attribute,
                resource_fork,
                size,
                temp,
                mid,
                to,
                r,
            ),
        };
    law_names_are_tried_in_turn(path, known, mid, made);
    let temp = made->Ok_0;
    let (filled, full) = choose|filled: Result<(), Error>, full: Seq<Event>| #[trigger]
        compressed_filled(temp, attribute, resource_fork, size, mid, full, filled) && installed(
            temp,
            path,
            filled,
            full,
            to,
            r,
        );
    assert(to.drop_last() =~= full);
}

/// Bytes that were put at a place were filled in whole, flushed and only then moved there,
/// and are told with their number. Bytes that could not be had put nothing there.
pub proof fn law_bytes_are_filled_before_they_are_moved(
    path: Seq<char>,
    bytes: Result<Vec<u8>, Error>,
    at: Seq<Event>,
    to: Seq<Event>,
    n: u64,
)
    requires
        bytes_installed(path, bytes, at, to, Ok(n)),
    ensures
        bytes is Ok,
        n == bytes->Ok_0@.len() as u64,
        to.len() >= at.len() + 4,
        to[to.len() - 1] matches Event::Install { path: place, reply, .. } && place == path
            && reply is Ok,
        to[to.len() - 2] matches Event::Flush { reply, .. } && reply is Ok,
        to[to.len() - 3] matches Event::Fill { bytes: given, reply, .. } && given
            == bytes->Ok_0@ && reply is Ok,
{
    let r: Result<u64, Error> = Ok(n);
    let (made, mid) = choose|made: Result<TempView, Error>, mid: Seq<Event>| #[trigger]
        temp_made(path, at, mid, made) && match made {
            Err(error) => to == mid && r == Err::<u64, Error>(error),
            Ok(temp) => bytes_moved(path, bytes, temp, mid, to, r),
        };
    law_names_are_tried_in_turn(path, at, mid, made);
    let temp = made->Ok_0;
    let (filled, full) = choose|filled: Result<u64, Error>, full: Seq<Event>|
        {
            &&& match bytes {
                Err(error) => full == mid && filled == Err::<u64, Error>(error),
                Ok(data) => bytes_filled(temp, data@, data@.len() as u64, mid, full, filled),
            }
            &&& #[trigger] installed(temp, path, filled, full, to, r)
        };
    let data = bytes->Ok_0@;
    let (sent, then) = choose|sent: Result<(), Error>, then: Seq<Event>| #[trigger]
        did(mid, Event::Fill { temp, bytes: data, reply: sent }, then) && match sent {
            Ok(_) => filled_up(temp, Ok(data.len() as u64), then, full, filled),
            Err(error) => full == then && filled == Err::<u64, Error>(error),
        };
    assert(full.drop_last() =~= then);
    assert(to.drop_last() =~= full);
}

} // verus!
