//! A journal of everything that is asked of a destination.
//!
//! A destination can only be reached through its journal, and each request is put
//! down there with its reply. A contract over a journal therefore says not only what
//! was asked, but also in which order, and that nothing else was.
use crate::destination::{Creation, Destination, ReadBack, Standing};
use crate::error::Error;
use vstd::prelude::*;

verus! {

/// Which file a temporary one is: that with name `name` beside `path`.
pub struct TempView {
    pub path: Seq<char>,
    pub name: Seq<char>,
}

/// What became of an attempt to create a file.
pub enum Made {
    Created,
    Taken,
    Failed(Error),
}

/// One request to a destination, with its reply.
#[allow(inconsistent_fields)]
pub enum Event {
    ProcessId { reply: u32 },
    HasKernelCodec { reply: bool },
    Standing { path: Seq<char>, reply: Result<Standing, Error> },
    Reaches { path: Seq<char>, reply: bool },
    Absolute { path: Seq<char>, reply: Result<String, Error> },
    Canonical { path: Seq<char>, reply: Result<String, Error> },
    Beside { path: Seq<char>, name: Seq<char>, reply: Option<String> },
    MakeDir { path: Seq<char>, reply: Result<(), Error> },
    MakeDirs { path: Seq<char>, reply: Result<(), Error> },
    MakeParents { path: Seq<char>, reply: Result<(), Error> },
    Create { temp: TempView, reply: Made },
    Fill { temp: TempView, bytes: Seq<u8>, reply: Result<(), Error> },
    Skip { temp: TempView, to: u64, reply: Result<(), Error> },
    SetLen { temp: TempView, len: u64, reply: Result<(), Error> },
    Flush { temp: TempView, reply: Result<(), Error> },
    FillCompressed {
        temp: TempView,
        attribute: Seq<u8>,
        resource_fork: Option<Seq<u8>>,
        reply: Result<ReadBack, Error>,
    },
    Install { temp: TempView, path: Seq<char>, reply: Result<(), Error> },
    Discard { temp: TempView },
    Stream { bytes: Seq<u8>, reply: Result<(), Error> },
    Remove { path: Seq<char>, reply: Result<(), Error> },
    Rename { from: Seq<char>, to: Seq<char>, reply: Result<(), Error> },
    Symlink { target: Seq<char>, path: Seq<char>, reply: Result<(), Error> },
    CopyLink { from: Seq<char>, to: Seq<char>, reply: Result<(), Error> },
    HardLink { first: Seq<char>, path: Seq<char>, reply: Result<(), Error> },
    Report { text: Seq<char>, reply: Result<(), Error> },
    Notice { text: Seq<char> },
}

impl Event {
    /// The request changes neither a file system nor a stream.
    pub open spec fn is_question(self) -> bool {
        match self {
            Event::ProcessId { .. } => true,
            Event::HasKernelCodec { .. } => true,
            Event::Standing { .. } => true,
            Event::Reaches { .. } => true,
            Event::Absolute { .. } => true,
            Event::Canonical { .. } => true,
            Event::Beside { .. } => true,
            _ => false,
        }
    }

    /// The request can change what stands at `path`. A directory on the way to a
    /// file, and a temporary file, stand elsewhere.
    pub open spec fn touches(self, path: Seq<char>) -> bool {
        match self {
            Event::MakeDir { path: p, .. } => p == path,
            Event::MakeDirs { path: p, .. } => p == path,
            Event::Install { path: p, .. } => p == path,
            Event::Remove { path: p, .. } => p == path,
            Event::Rename { from, to, .. } => from == path || to == path,
            Event::Symlink { path: p, .. } => p == path,
            Event::CopyLink { to, .. } => to == path,
            Event::HardLink { path: p, .. } => p == path,
            _ => false,
        }
    }
}

/// The journal `before`, with one event more, is `after`.
pub open spec fn did(before: Seq<Event>, event: Event, after: Seq<Event>) -> bool {
    after == before.push(event)
}

/// The journal `after` is `before` with only such events behind it as `allowed`
/// admits.
pub open spec fn only_adds_events(
    before: Seq<Event>,
    after: Seq<Event>,
    allowed: spec_fn(Event) -> bool,
) -> bool {
    &&& before.is_prefix_of(after)
    &&& forall|i: int| before.len() <= i < after.len() ==> allowed(#[trigger] after[i])
}

/// The journal `after` is `before` with only such events behind it as touch nothing
/// but what stands at `path`, where there is one.
pub open spec fn touches_at_most(
    before: Seq<Event>,
    after: Seq<Event>,
    path: Option<Seq<char>>,
) -> bool {
    &&& before.is_prefix_of(after)
    &&& forall|i: int, place: Seq<char>|
        before.len() <= i < after.len() && #[trigger] after[i].touches(place) ==> path == Some(
            place,
        )
}

/// The events of telling a person the lines `lines`, one after the other.
pub open spec fn notices(lines: Seq<Seq<char>>) -> Seq<Event> {
    Seq::new(lines.len(), |i: int| Event::Notice { text: lines[i] })
}

/// What a creation came to.
pub open spec fn made_of<T>(creation: Creation<T>) -> Made {
    match creation {
        Creation::Created(_) => Made::Created,
        Creation::Taken => Made::Taken,
        Creation::Failed(error) => Made::Failed(error),
    }
}

/// The bytes of a resource fork, where there is one.
pub open spec fn fork_view(resource_fork: Option<Vec<u8>>) -> Option<Seq<u8>> {
    match resource_fork {
        Some(fork) => Some(fork@),
        None => None,
    }
}

/// A file that is not yet at its place.
pub struct TempFile<T> {
    temp: T,
    id: Ghost<TempView>,
}

impl<T> TempFile<T> {
    /// The file, as its destination knows it.
    pub closed spec fn handle(&self) -> T {
        self.temp
    }

    /// Which file it is.
    pub closed spec fn id(&self) -> TempView {
        self.id@
    }
}

/// A destination, with the journal of what was asked of it.
pub struct Journal<'a, O: Destination> {
    dest: &'a O,
    log: Ghost<Seq<Event>>,
}

impl<'a, O: Destination> View for Journal<'a, O> {
    type V = Seq<Event>;

    closed spec fn view(&self) -> Seq<Event> {
        self.log@
    }
}

impl<'a, O: Destination> Journal<'a, O> {
    /// The destination.
    pub closed spec fn dest(&self) -> &'a O {
        self.dest
    }

    /// The journal of a destination of which nothing was asked yet.
    pub fn new(dest: &'a O) -> (r: Journal<'a, O>)
        ensures
            r.dest() == dest,
            r@ == Seq::<Event>::empty(),
    {
        Journal { dest, log: Ghost(Seq::empty()) }
    }

    /// The number of this process.
    pub fn process_id(&mut self) -> (r: u32)
        ensures
            call_ensures(O::process_id, (old(self).dest(),), r),
            final(self).dest() == old(self).dest(),
            did(old(self)@, Event::ProcessId { reply: r }, final(self)@),
    {
        let r: u32 = self.dest.process_id();
        self.log = Ghost(self.log@.push(Event::ProcessId { reply: r }));
        r
    }

    /// Asks whether transparently compressed files can be made.
    pub fn has_kernel_codec(&mut self) -> (r: bool)
        ensures
            call_ensures(O::has_kernel_codec, (old(self).dest(),), r),
            final(self).dest() == old(self).dest(),
            did(old(self)@, Event::HasKernelCodec { reply: r }, final(self)@),
    {
        let r = self.dest.has_kernel_codec();
        self.log = Ghost(self.log@.push(Event::HasKernelCodec { reply: r }));
        r
    }

    /// Asks what stands at `path`.
    pub fn standing(&mut self, path: &str) -> (r: Result<Standing, Error>)
        ensures
            call_ensures(O::standing, (old(self).dest(), path), r),
            final(self).dest() == old(self).dest(),
            did(old(self)@, Event::Standing { path: path@, reply: r }, final(self)@),
    {
        let r = self.dest.standing(path);
        self.log = Ghost(self.log@.push(Event::Standing { path: path@, reply: r }));
        r
    }

    /// Asks whether something is found at `path`, links followed.
    pub fn reaches(&mut self, path: &str) -> (r: bool)
        ensures
            call_ensures(O::reaches, (old(self).dest(), path), r),
            final(self).dest() == old(self).dest(),
            did(old(self)@, Event::Reaches { path: path@, reply: r }, final(self)@),
    {
        let r = self.dest.reaches(path);
        self.log = Ghost(self.log@.push(Event::Reaches { path: path@, reply: r }));
        r
    }

    /// Asks for the absolute form of a path.
    pub fn absolute(&mut self, path: &str) -> (r: Result<String, Error>)
        ensures
            call_ensures(O::absolute, (old(self).dest(), path), r),
            final(self).dest() == old(self).dest(),
            did(old(self)@, Event::Absolute { path: path@, reply: r }, final(self)@),
    {
        let r = self.dest.absolute(path);
        self.log = Ghost(self.log@.push(Event::Absolute { path: path@, reply: r }));
        r
    }

    /// Asks for the absolute path, without links, of what stands at `path`.
    pub fn canonical(&mut self, path: &str) -> (r: Result<String, Error>)
        ensures
            call_ensures(O::canonical, (old(self).dest(), path), r),
            final(self).dest() == old(self).dest(),
            did(old(self)@, Event::Canonical { path: path@, reply: r }, final(self)@),
    {
        let r = self.dest.canonical(path);
        self.log = Ghost(self.log@.push(Event::Canonical { path: path@, reply: r }));
        r
    }

    /// Asks for the path of `name` in the directory that holds `path`.
    pub fn beside(&mut self, path: &str, name: &str) -> (r: Option<String>)
        ensures
            call_ensures(O::beside, (old(self).dest(), path, name), r),
            final(self).dest() == old(self).dest(),
            did(old(self)@, Event::Beside { path: path@, name: name@, reply: r }, final(self)@),
    {
        let r = self.dest.beside(path, name);
        self.log = Ghost(self.log@.push(Event::Beside { path: path@, name: name@, reply: r }));
        r
    }

    /// Creates one directory.
    pub fn make_dir(&mut self, path: &str) -> (r: Result<(), Error>)
        ensures
            call_ensures(O::make_dir, (old(self).dest(), path), r),
            final(self).dest() == old(self).dest(),
            did(old(self)@, Event::MakeDir { path: path@, reply: r }, final(self)@),
    {
        let r = self.dest.make_dir(path);
        self.log = Ghost(self.log@.push(Event::MakeDir { path: path@, reply: r }));
        r
    }

    /// Creates a directory and all that lead to it.
    pub fn make_dirs(&mut self, path: &str) -> (r: Result<(), Error>)
        ensures
            call_ensures(O::make_dirs, (old(self).dest(), path), r),
            final(self).dest() == old(self).dest(),
            did(old(self)@, Event::MakeDirs { path: path@, reply: r }, final(self)@),
    {
        let r = self.dest.make_dirs(path);
        self.log = Ghost(self.log@.push(Event::MakeDirs { path: path@, reply: r }));
        r
    }

    /// Creates the directories that lead to `path`.
    pub fn make_parents(&mut self, path: &str) -> (r: Result<(), Error>)
        ensures
            call_ensures(O::make_parents, (old(self).dest(), path), r),
            final(self).dest() == old(self).dest(),
            did(old(self)@, Event::MakeParents { path: path@, reply: r }, final(self)@),
    {
        let r = self.dest.make_parents(path);
        self.log = Ghost(self.log@.push(Event::MakeParents { path: path@, reply: r }));
        r
    }

    /// Writes bytes to the output stream.
    pub fn stream(&mut self, bytes: &Vec<u8>) -> (r: Result<(), Error>)
        ensures
            call_ensures(O::stream, (old(self).dest(), bytes), r),
            final(self).dest() == old(self).dest(),
            did(old(self)@, Event::Stream { bytes: bytes@, reply: r }, final(self)@),
    {
        let r = self.dest.stream(bytes);
        self.log = Ghost(self.log@.push(Event::Stream { bytes: bytes@, reply: r }));
        r
    }

    /// Removes what stands at `path`.
    pub fn remove(&mut self, path: &str) -> (r: Result<(), Error>)
        ensures
            call_ensures(O::remove, (old(self).dest(), path), r),
            final(self).dest() == old(self).dest(),
            did(old(self)@, Event::Remove { path: path@, reply: r }, final(self)@),
    {
        let r = self.dest.remove(path);
        self.log = Ghost(self.log@.push(Event::Remove { path: path@, reply: r }));
        r
    }

    /// Moves what stands at `from` to `to` in one step.
    pub fn rename(&mut self, from: &str, to: &str) -> (r: Result<(), Error>)
        ensures
            call_ensures(O::rename, (old(self).dest(), from, to), r),
            final(self).dest() == old(self).dest(),
            did(old(self)@, Event::Rename { from: from@, to: to@, reply: r }, final(self)@),
    {
        let r = self.dest.rename(from, to);
        self.log = Ghost(self.log@.push(Event::Rename { from: from@, to: to@, reply: r }));
        r
    }

    /// Makes a symbolic link at `path` that leads to `target`.
    pub fn symlink(&mut self, target: &str, path: &str) -> (r: Result<(), Error>)
        ensures
            call_ensures(O::symlink, (old(self).dest(), target, path), r),
            final(self).dest() == old(self).dest(),
            did(old(self)@, Event::Symlink { target: target@, path: path@, reply: r }, final(self)@),
    {
        let r = self.dest.symlink(target, path);
        self.log = Ghost(self.log@.push(Event::Symlink { target: target@, path: path@, reply: r }));
        r
    }

    /// Makes a symbolic link at `to` that leads where the one at `from` does.
    pub fn copy_link(&mut self, from: &str, to: &str) -> (r: Result<(), Error>)
        ensures
            call_ensures(O::copy_link, (old(self).dest(), from, to), r),
            final(self).dest() == old(self).dest(),
            did(old(self)@, Event::CopyLink { from: from@, to: to@, reply: r }, final(self)@),
    {
        let r = self.dest.copy_link(from, to);
        self.log = Ghost(self.log@.push(Event::CopyLink { from: from@, to: to@, reply: r }));
        r
    }

    /// Gives the file at `first` the second name `path`.
    pub fn hard_link(&mut self, first: &str, path: &str) -> (r: Result<(), Error>)
        ensures
            call_ensures(O::hard_link, (old(self).dest(), first, path), r),
            final(self).dest() == old(self).dest(),
            did(old(self)@, Event::HardLink { first: first@, path: path@, reply: r }, final(self)@),
    {
        let r = self.dest.hard_link(first, path);
        self.log = Ghost(self.log@.push(Event::HardLink { first: first@, path: path@, reply: r }));
        r
    }

    /// Writes text to the report.
    pub fn report(&mut self, text: &str) -> (r: Result<(), Error>)
        ensures
            call_ensures(O::report, (old(self).dest(), text), r),
            final(self).dest() == old(self).dest(),
            did(old(self)@, Event::Report { text: text@, reply: r }, final(self)@),
    {
        let r = self.dest.report(text);
        self.log = Ghost(self.log@.push(Event::Report { text: text@, reply: r }));
        r
    }

    /// Writes bytes to a file, behind what was written or passed over before.
    pub fn fill(&mut self, temp: &TempFile<O::Temp>, bytes: &Vec<u8>) -> (r: Result<(), Error>)
        ensures
            call_ensures(O::fill, (old(self).dest(), &temp.handle(), bytes), r),
            final(self).dest() == old(self).dest(),
            did(old(self)@, Event::Fill { temp: temp.id(), bytes: bytes@, reply: r }, final(self)@),
    {
        let r = self.dest.fill(&temp.temp, bytes);
        self.log = Ghost(self.log@.push(Event::Fill { temp: temp.id(), bytes: bytes@, reply: r }));
        r
    }

    /// Passes over the bytes of a file up to `to`.
    pub fn skip(&mut self, temp: &TempFile<O::Temp>, to: u64) -> (r: Result<(), Error>)
        ensures
            call_ensures(O::skip, (old(self).dest(), &temp.handle(), to), r),
            final(self).dest() == old(self).dest(),
            did(old(self)@, Event::Skip { temp: temp.id(), to, reply: r }, final(self)@),
    {
        let r = self.dest.skip(&temp.temp, to);
        self.log = Ghost(self.log@.push(Event::Skip { temp: temp.id(), to, reply: r }));
        r
    }

    /// Gives a file its length.
    pub fn set_len(&mut self, temp: &TempFile<O::Temp>, len: u64) -> (r: Result<(), Error>)
        ensures
            call_ensures(O::set_len, (old(self).dest(), &temp.handle(), len), r),
            final(self).dest() == old(self).dest(),
            did(old(self)@, Event::SetLen { temp: temp.id(), len, reply: r }, final(self)@),
    {
        let r = self.dest.set_len(&temp.temp, len);
        self.log = Ghost(self.log@.push(Event::SetLen { temp: temp.id(), len, reply: r }));
        r
    }

    /// Sees to it that nothing written to a file is held back.
    pub fn flush(&mut self, temp: &TempFile<O::Temp>) -> (r: Result<(), Error>)
        ensures
            call_ensures(O::flush, (old(self).dest(), &temp.handle()), r),
            final(self).dest() == old(self).dest(),
            did(old(self)@, Event::Flush { temp: temp.id(), reply: r }, final(self)@),
    {
        let r = self.dest.flush(&temp.temp);
        self.log = Ghost(self.log@.push(Event::Flush { temp: temp.id(), reply: r }));
        r
    }

    /// Turns a file into a transparently compressed one, and reads it back.
    pub fn fill_compressed(
        &mut self,
        temp: &TempFile<O::Temp>,
        attribute: &Vec<u8>,
        resource_fork: &Option<Vec<u8>>,
    ) -> (r: Result<ReadBack, Error>)
        ensures
            call_ensures(
                O::fill_compressed,
                (old(self).dest(), &temp.handle(), attribute, resource_fork),
                r,
            ),
            final(self).dest() == old(self).dest(),
            did(
                old(self)@,
                Event::FillCompressed {
                    temp: temp.id(),
                    attribute: attribute@,
                    resource_fork: fork_view(*resource_fork),
                    reply: r,
                },
                final(self)@,
            ),
    {
        let r = self.dest.fill_compressed(&temp.temp, attribute, resource_fork);
        self.log = Ghost(
            self.log@.push(
                Event::FillCompressed {
                    temp: temp.id(),
                    attribute: attribute@,
                    resource_fork: fork_view(*resource_fork),
                    reply: r,
                },
            ),
        );
        r
    }

    /// Moves a file to `path` in one step.
    pub fn install(&mut self, temp: &TempFile<O::Temp>, path: &str) -> (r: Result<(), Error>)
        ensures
            call_ensures(O::install, (old(self).dest(), &temp.handle(), path), r),
            final(self).dest() == old(self).dest(),
            did(old(self)@, Event::Install { temp: temp.id(), path: path@, reply: r }, final(self)@),
    {
        let r = self.dest.install(&temp.temp, path);
        self.log = Ghost(self.log@.push(Event::Install { temp: temp.id(), path: path@, reply: r }));
        r
    }

    /// Creates the new file `name` beside `path`.
    pub fn create_beside(&mut self, path: &str, name: &str) -> (r: Creation<TempFile<O::Temp>>)
        ensures
            final(self).dest() == old(self).dest(),
            did(
                old(self)@,
                Event::Create {
                    temp: TempView { path: path@, name: name@ },
                    reply: made_of(r),
                },
                final(self)@,
            ),
            exists|reply: Creation<O::Temp>| #[trigger]
                call_ensures(O::create_beside, (old(self).dest(), path, name), reply) && made_of(r)
                    == made_of(reply) && (r matches Creation::Created(file) ==> reply
                    == Creation::Created(file.handle())),
            r matches Creation::Created(file) ==> file.id() == (TempView {
                path: path@,
                name: name@,
            }),
    {
        let ghost id = TempView { path: path@, name: name@ };
        let reply = self.dest.create_beside(path, name);
        let ghost given = reply;
        proof {
            assert(call_ensures(O::create_beside, (self.dest, path, name), given));
        }
        let r = match reply {
            Creation::Created(temp) => Creation::Created(TempFile { temp, id: Ghost(id) }),
            Creation::Taken => Creation::Taken,
            Creation::Failed(error) => Creation::Failed(error),
        };
        self.log = Ghost(self.log@.push(Event::Create { temp: id, reply: made_of(r) }));
        r
    }

    /// Removes a file that will not be installed.
    pub fn discard(&mut self, temp: &TempFile<O::Temp>)
        ensures
            call_ensures(O::discard, (old(self).dest(), &temp.handle()), ()),
            final(self).dest() == old(self).dest(),
            did(old(self)@, Event::Discard { temp: temp.id() }, final(self)@),
    {
        self.dest.discard(&temp.temp);
        self.log = Ghost(self.log@.push(Event::Discard { temp: temp.id() }));
    }

    /// Tells a person how the work goes.
    pub fn notice(&mut self, text: &str)
        ensures
            call_ensures(O::notice, (old(self).dest(), text), ()),
            final(self).dest() == old(self).dest(),
            did(old(self)@, Event::Notice { text: text@ }, final(self)@),
    {
        self.dest.notice(text);
        self.log = Ghost(self.log@.push(Event::Notice { text: text@ }));
    }
}

} // verus!
