//! One attempt to recover a leaf from one snapshot.
use crate::decmpfs::Codec;
use crate::destination::{Destination, Standing};
use crate::error::{failure, is_failed, Error, ErrorKind, ErrorView};
use crate::image::{ApfsImage, Inode};
use crate::journal::{did, Event, Journal};
use crate::jrec::Record;
use crate::manifest::{ManifestRow, RowView};
use crate::options::Options;
use crate::recover::{
    first_kept, no_inode, no_inode_error, FileResult, FileResultView, HardlinkState, Recovery,
};
use crate::recover_manifest::{failed_attempt, is_success, Attempt, AttemptView};
use crate::staging::{
    install_staging, is_directory, law_installing_only_adds,
    law_occupied_target_is_never_replaced, law_staging_name_is_free,
    leaf_named, staging_found, staging_installed, staging_path, staging_removed, target_removed,
};
use crate::text::{copy_opt, hex_prefixed, octal_prefixed, opt_text, push_hex, push_octal, str_eq};
use crate::vol::{Resolved, SnapshotSource, Volume};
use vstd::prelude::*;

verus! {

/// What the attempts in one snapshot work with.
pub struct Attempting<'a, D: ApfsImage, S: SnapshotSource<D>, C: Codec> {
    pub source: &'a S,
    pub vol: &'a Volume<D>,
    pub bt: &'a D::Reader,
    pub codec: &'a C,
    pub opts: &'a Options,
    pub snapshot_xid: u64,
    pub snapshot_name: &'a Option<String>,
}

/// Where the attempts stand: for each leaf with several names the path at which it was
/// recovered first, and the journal of the destination.
pub struct LeafState {
    pub links: Map<u64, Seq<char>>,
    pub log: Seq<Event>,
}

/// The state with these links and this journal.
pub open spec fn leaf_state(links: Map<u64, Seq<char>>, log: Seq<Event>) -> LeafState {
    LeafState { links, log }
}

/// The options with which one leaf is written. Nothing is overwritten.
pub open spec fn leaf_options(dry_run: bool) -> Options {
    Options {
        path: None,
        path_template: None,
        fsoid: None,
        snapshot: None,
        snapshot_xid: None,
        format: None,
        output: None,
        manifest: None,
        output_root: None,
        best_effort: false,
        overwrite: false,
        dry_run,
        raw_extents: false,
        fallback_history: false,
        extents: false,
        xattrs: false,
        records: false,
        json: false,
    }
}

/// The error of a row that names another object than its path leads to.
pub open spec fn wrong_fsoid(expected: u64, found: u64) -> ErrorView {
    failure(
        ErrorKind::Corrupt,
        "manifest FSOID "@ + hex_prefixed(expected as nat) + " does not match resolved FSOID "@
            + hex_prefixed(found as nat),
    )
}

/// The type of a leaf, if it is one that can be recovered.
pub open spec fn leaf_type(inode: Inode) -> Option<Seq<char>> {
    if inode.kind is Regular {
        Some("file"@)
    } else if inode.kind is Symlink {
        Some("symlink"@)
    } else {
        None
    }
}

/// Why an object is not the leaf that a row expects, if it is not.
pub open spec fn leaf_error(inode: Inode, expected_type: Option<Seq<char>>) -> Option<ErrorView> {
    match leaf_type(inode) {
        None => Some(
            failure(
                ErrorKind::UnsupportedFeature,
                "manifest leaf resolved to unsupported inode mode "@ + octal_prefixed(
                    inode.mode as nat,
                ),
            ),
        ),
        Some(actual) => match expected_type {
            Some(expected) => if expected == actual {
                None
            } else {
                Some(
                    failure(
                        ErrorKind::Corrupt,
                        "manifest type `"@ + expected + "` resolved as `"@ + actual + "`"@,
                    ),
                )
            },
            None => None,
        },
    }
}

/// Accepts an object only where it is the leaf that a row expects.
pub fn check_leaf(inode: &Inode, expected_type: &Option<String>) -> (r: Result<(), Error>)
    ensures
        match leaf_error(*inode, opt_text(*expected_type)) {
            Some(error) => is_failed(r, error),
            None => r is Ok,
        },
{
    let actual = if inode.is_regular() {
        "file"
    } else if inode.is_symlink() {
        "symlink"
    } else {
        let mut message = "manifest leaf resolved to unsupported inode mode ".to_owned();
        push_octal(&mut message, inode.mode as u64);
        return Err(Error::new(ErrorKind::UnsupportedFeature, message));
    };
    match expected_type {
        Some(expected) => {
            if !str_eq(expected.as_str(), actual) {
                let mut message = "manifest type `".to_owned();
                message.append(expected.as_str());
                message.append("` resolved as `");
                message.append(actual);
                message.append("`");
                return Err(Error::new(ErrorKind::Corrupt, message));
            }
        },
        None => {},
    }
    Ok(())
}

/// The note of a leaf whose incomplete output was removed.
pub open spec fn removal_note(note: Option<Seq<char>>) -> Seq<char> {
    match note {
        Some(note) => note + "; partial staging output was removed"@,
        None => "partial staging output was removed"@,
    }
}

/// An older snapshot may still give the leaf after this error: all but those that
/// lie in the request or in the destination.
pub open spec fn may_fall_back(kind: ErrorKind) -> bool {
    kind != ErrorKind::Usage && kind != ErrorKind::PermissionDenied
}

impl<'a, D: ApfsImage, S: SnapshotSource<D>, C: Codec> Attempting<'a, D, S, C> {
    /// What recovers one leaf of this snapshot.
    pub open spec fn recovery(&self, opts: &'a Options) -> Recovery<'a, D, D::Reader, C> {
        Recovery { vol: self.vol, bt: self.bt, codec: self.codec, opts }
    }

    /// An attempt that ended with an error.
    pub open spec fn failed(
        &self,
        source_path: Seq<char>,
        fsoid: Option<u64>,
        error: ErrorView,
        fallback_eligible: bool,
    ) -> AttemptView {
        failed_attempt(
            self.snapshot_xid,
            opt_text(*self.snapshot_name),
            source_path,
            fsoid,
            error,
            fallback_eligible,
        )
    }

    /// An attempt that ended without an error.
    pub open spec fn ended(
        &self,
        source_path: Seq<char>,
        fsoid: u64,
        status: Seq<char>,
        bytes: u64,
        note: Option<Seq<char>>,
    ) -> AttemptView {
        AttemptView {
            snapshot_xid: self.snapshot_xid,
            snapshot_name: opt_text(*self.snapshot_name),
            source_path,
            fsoid: Some(fsoid),
            status,
            bytes,
            note,
            error_code: None,
            error_message: None,
            fallback_eligible: false,
        }
    }

    /// An attempt that gave only part of the leaf.
    pub open spec fn incomplete(
        &self,
        source_path: Seq<char>,
        fsoid: u64,
        status: Seq<char>,
        bytes: u64,
        note: Option<Seq<char>>,
    ) -> AttemptView {
        AttemptView {
            error_code: Some(ErrorKind::PartialRecovery.spec_code()),
            error_message: Some("file content was not fully recoverable"@),
            fallback_eligible: true,
            ..self.ended(source_path, fsoid, status, bytes, Some(removal_note(note)))
        }
    }

    fn failed_with(
        &self,
        source_path: &str,
        fsoid: Option<u64>,
        error: Error,
        fallback_eligible: bool,
    ) -> (r: Attempt)
        ensures
            r@ == self.failed(source_path@, fsoid, error@, fallback_eligible),
    {
        let mut attempt = Attempt::error(
            self.snapshot_xid,
            copy_opt(self.snapshot_name),
            source_path.to_owned(),
            error,
            fallback_eligible,
        );
        attempt.fsoid = fsoid;
        attempt
    }

    fn ended_with(
        &self,
        source_path: &str,
        fsoid: u64,
        status: &'static str,
        bytes: u64,
        note: Option<String>,
    ) -> (r: Attempt)
        ensures
            r@ == self.ended(source_path@, fsoid, status@, bytes, opt_text(note)),
    {
        Attempt {
            snapshot_xid: self.snapshot_xid,
            snapshot_name: copy_opt(self.snapshot_name),
            source_path: source_path.to_owned(),
            fsoid: Some(fsoid),
            status,
            bytes,
            note,
            error_code: None,
            error_message: None,
            fallback_eligible: false,
        }
    }

    fn incomplete_with(
        &self,
        source_path: &str,
        fsoid: u64,
        status: &'static str,
        bytes: u64,
        note: Option<String>,
    ) -> (r: Attempt)
        ensures
            r@ == self.incomplete(source_path@, fsoid, status@, bytes, opt_text(note)),
    {
        let removed = match note {
            Some(text) => {
                let mut full = text;
                full.append("; partial staging output was removed");
                full
            },
            None => "partial staging output was removed".to_owned(),
        };
        Attempt {
            snapshot_xid: self.snapshot_xid,
            snapshot_name: copy_opt(self.snapshot_name),
            source_path: source_path.to_owned(),
            fsoid: Some(fsoid),
            status,
            bytes,
            note: Some(removed),
            error_code: Some(ErrorKind::PartialRecovery.code()),
            error_message: Some("file content was not fully recoverable".to_owned()),
            fallback_eligible: true,
        }
    }

    /// The staging leaf was removed, or at least that was tried.
    pub open spec fn cleared(&self, staging: Seq<char>, at: Seq<Event>, to: Seq<Event>) -> bool {
        exists|gone: Result<(), Error>| #[trigger]
            did(at, Event::Remove { path: staging, reply: gone }, to)
    }

    fn clear<O: Destination>(&self, dest: &mut Journal<O>, staging: &str)
        ensures
            final(dest).dest() == old(dest).dest(),
            self.cleared(staging@, old(dest)@, final(dest)@),
    {
        let _gone = dest.remove(staging);
    }

    /// `attempt` is the outcome of putting a finished leaf in its place, which led from
    /// `before` to `after`.
    pub open spec fn put_in_place(
        &self,
        source_path: Seq<char>,
        fsoid: u64,
        several: bool,
        staging: Seq<char>,
        target: Seq<char>,
        bytes: u64,
        note: Option<Seq<char>>,
        before: LeafState,
        after: LeafState,
        attempt: AttemptView,
    ) -> bool {
        exists|placed: Result<(), Error>, mid: Seq<Event>| #[trigger]
            staging_installed(staging, target, self.opts.overwrite, before.log, mid, placed)
                && match placed {
                Err(error) => {
                    &&& self.cleared(staging, mid, after.log)
                    &&& after.links == before.links
                    &&& attempt == self.failed(source_path, Some(fsoid), error@, false)
                },
                Ok(_) => {
                    &&& after.log == mid
                    &&& after.links == if several {
                        first_kept(before.links, fsoid, target)
                    } else {
                        before.links
                    }
                    &&& attempt == self.ended(source_path, fsoid, "recovered"@, bytes, note)
                },
            }
    }

    fn put_leaf_in_place<O: Destination>(
        &self,
        dest: &mut Journal<O>,
        source_path: &str,
        fsoid: u64,
        several: bool,
        staging: &str,
        target: &str,
        bytes: u64,
        note: Option<String>,
        links: &mut HardlinkState,
    ) -> (r: Attempt)
        ensures
            final(dest).dest() == old(dest).dest(),
            self.put_in_place(
                source_path@,
                fsoid,
                several,
                staging@,
                target@,
                bytes,
                opt_text(note),
                leaf_state(old(links)@, old(dest)@),
                leaf_state(final(links)@, final(dest)@),
                r@,
            ),
    {
        let ghost before = leaf_state(links@, dest@);
        let placed = install_staging(dest, staging, target, self.opts.overwrite);
        let ghost given = placed;
        let ghost mid = dest@;
        proof {
            assert(staging_installed(
                staging@,
                target@,
                self.opts.overwrite,
                before.log,
                mid,
                given,
            ));
        }
        match placed {
            Err(error) => {
                self.clear(dest, staging);
                proof {
                    assert(self.cleared(staging@, mid, dest@));
                }
                self.failed_with(source_path, Some(fsoid), error, false)
            },
            Ok(_) => {
                if several {
                    links.insert(fsoid, target.to_owned());
                }
                self.ended_with(source_path, fsoid, "recovered", bytes, note)
            },
        }
    }

    /// The staging leaf is a symbolic link.
    pub open spec fn is_link(
        &self,
        staging: Seq<char>,
        at: Seq<Event>,
        to: Seq<Event>,
        r: bool,
    ) -> bool {
        exists|standing: Result<Standing, Error>| #[trigger]
            did(at, Event::Standing { path: staging, reply: standing }, to) && r == (standing
                == Ok::<Standing, Error>(Standing::Link))
    }

    fn check_link<O: Destination>(&self, dest: &mut Journal<O>, staging: &str) -> (r: bool)
        ensures
            final(dest).dest() == old(dest).dest(),
            self.is_link(staging@, old(dest)@, final(dest)@, r),
    {
        match dest.standing(staging) {
            Ok(found) => found == Standing::Link,
            Err(_) => false,
        }
    }

    /// `r` is the outcome of an attempt whose staging leaf was written with result
    /// `done`. Only a complete leaf is put in its place; what else was written is
    /// removed.
    pub open spec fn written(
        &self,
        source_path: Seq<char>,
        fsoid: u64,
        inode: &Inode,
        staging: Seq<char>,
        target: Seq<char>,
        done: Result<FileResult, Error>,
        before: LeafState,
        after: LeafState,
        r: Result<Attempt, Error>,
    ) -> bool {
        match done {
            Err(error) => {
                &&& self.cleared(staging, before.log, after.log)
                &&& after.links == before.links
                &&& r matches Ok(attempt) && attempt@ == self.failed(
                    source_path,
                    Some(fsoid),
                    error@,
                    may_fall_back(error@.kind),
                )
            },
            Ok(result) => if result@.status != "recovered"@ {
                &&& self.cleared(staging, before.log, after.log)
                &&& after.links == before.links
                &&& r matches Ok(attempt) && attempt@ == self.incomplete(
                    source_path,
                    fsoid,
                    result@.status,
                    result@.bytes,
                    result@.note,
                )
            } else if inode.kind is Symlink {
                self.link_placed(
                    source_path,
                    fsoid,
                    inode,
                    staging,
                    target,
                    result@,
                    before,
                    after,
                    r,
                )
            } else {
                self.placed(
                    source_path,
                    fsoid,
                    inode,
                    staging,
                    target,
                    result@,
                    before,
                    after,
                    r,
                )
            },
        }
    }

    /// `r` is the outcome of putting a complete symbolic link, written with `result`,
    /// in its place, once it was seen to be one.
    pub open spec fn link_placed(
        &self,
        source_path: Seq<char>,
        fsoid: u64,
        inode: &Inode,
        staging: Seq<char>,
        target: Seq<char>,
        result: FileResultView,
        before: LeafState,
        after: LeafState,
        r: Result<Attempt, Error>,
    ) -> bool {
        exists|linked: bool, mid: Seq<Event>| #[trigger]
            self.is_link(staging, before.log, mid, linked) && if linked {
                self.placed(
                    source_path,
                    fsoid,
                    inode,
                    staging,
                    target,
                    result,
                    leaf_state(before.links, mid),
                    after,
                    r,
                )
            } else {
                &&& self.cleared(staging, mid, after.log)
                &&& after.links == before.links
                &&& is_failed(r, not_a_link())
            }
    }

    /// `r` is the outcome of putting a complete leaf, written with `result`, in its
    /// place.
    pub open spec fn placed(
        &self,
        source_path: Seq<char>,
        fsoid: u64,
        inode: &Inode,
        staging: Seq<char>,
        target: Seq<char>,
        result: FileResultView,
        before: LeafState,
        after: LeafState,
        r: Result<Attempt, Error>,
    ) -> bool {
        r matches Ok(attempt) && self.put_in_place(
            source_path,
            fsoid,
            inode.nchildren_or_nlink > 1,
            staging,
            target,
            result.bytes,
            result.note,
            before,
            after,
            attempt@,
        )
    }

    fn place_complete<O: Destination>(
        &self,
        dest: &mut Journal<O>,
        source_path: &str,
        fsoid: u64,
        inode: &Inode,
        staging: &str,
        target: &str,
        result: FileResult,
        links: &mut HardlinkState,
    ) -> (r: Result<Attempt, Error>)
        ensures
            final(dest).dest() == old(dest).dest(),
            self.placed(
                source_path@,
                fsoid,
                inode,
                staging@,
                target@,
                result@,
                leaf_state(old(links)@, old(dest)@),
                leaf_state(final(links)@, final(dest)@),
                r,
            ),
    {
        Ok(
            self.put_leaf_in_place(
                dest,
                source_path,
                fsoid,
                inode.nchildren_or_nlink > 1,
                staging,
                target,
                result.bytes,
                result.note,
                links,
            ),
        )
    }

    fn place_link<O: Destination>(
        &self,
        dest: &mut Journal<O>,
        source_path: &str,
        fsoid: u64,
        inode: &Inode,
        staging: &str,
        target: &str,
        result: FileResult,
        links: &mut HardlinkState,
    ) -> (r: Result<Attempt, Error>)
        ensures
            final(dest).dest() == old(dest).dest(),
            self.link_placed(
                source_path@,
                fsoid,
                inode,
                staging@,
                target@,
                result@,
                leaf_state(old(links)@, old(dest)@),
                leaf_state(final(links)@, final(dest)@),
                r,
            ),
    {
        let ghost before = leaf_state(links@, dest@);
        let linked = self.check_link(dest, staging);
        let ghost mid = dest@;
        proof {
            assert(self.is_link(staging@, before.log, mid, linked));
        }
        if !linked {
            self.clear(dest, staging);
            proof {
                assert(self.cleared(staging@, mid, dest@));
            }
            return Err(
                Error::fixed(
                    ErrorKind::Corrupt,
                    "symlink recovery produced a non-symlink output",
                ),
            );
        }
        self.place_complete(dest, source_path, fsoid, inode, staging, target, result, links)
    }

    fn place_written<O: Destination>(
        &self,
        dest: &mut Journal<O>,
        source_path: &str,
        fsoid: u64,
        inode: &Inode,
        staging: &str,
        target: &str,
        done: Result<FileResult, Error>,
        links: &mut HardlinkState,
    ) -> (r: Result<Attempt, Error>)
        ensures
            final(dest).dest() == old(dest).dest(),
            self.written(
                source_path@,
                fsoid,
                inode,
                staging@,
                target@,
                done,
                leaf_state(old(links)@, old(dest)@),
                leaf_state(final(links)@, final(dest)@),
                r,
            ),
    {
        match done {
            Err(error) => {
                self.clear(dest, staging);
                let kind = error.kind();
                let eligible = kind != ErrorKind::Usage && kind != ErrorKind::PermissionDenied;
                Ok(self.failed_with(source_path, Some(fsoid), error, eligible))
            },
            Ok(result) => {
                if !str_eq(result.status, "recovered") {
                    self.clear(dest, staging);
                    return Ok(
                        self.incomplete_with(
                            source_path,
                            fsoid,
                            result.status,
                            result.bytes,
                            result.note,
                        ),
                    );
                }
                if inode.is_symlink() {
                    self.place_link(
                        dest,
                        source_path,
                        fsoid,
                        inode,
                        staging,
                        target,
                        result,
                        links,
                    )
                } else {
                    self.place_complete(
                        dest,
                        source_path,
                        fsoid,
                        inode,
                        staging,
                        target,
                        result,
                        links,
                    )
                }
            },
        }
    }

    /// `r` is the outcome of an attempt that writes its leaf to `staging` first.
    pub open spec fn staged(
        &self,
        source_path: Seq<char>,
        fsoid: u64,
        inode: &Inode,
        records: Seq<Record>,
        staging: Seq<char>,
        target: Seq<char>,
        before: LeafState,
        after: LeafState,
        r: Result<Attempt, Error>,
    ) -> bool {
        exists|done: Result<FileResult, Error>, mid: Seq<Event>| #[trigger]
            self.recovery(&leaf_options(false)).file_recovered(
                fsoid,
                Some(staging),
                inode,
                records,
                before.log,
                mid,
                done,
            ) && self.written(
                source_path,
                fsoid,
                inode,
                staging,
                target,
                done,
                leaf_state(before.links, mid),
                after,
                r,
            )
    }

    /// The leaf that was recovered before and stands at `first` got the second name
    /// `staging`, or not.
    pub open spec fn linked_again(
        &self,
        first: Seq<char>,
        staging: Seq<char>,
        at: Seq<Event>,
        to: Seq<Event>,
        made: bool,
    ) -> bool {
        exists|linked: Result<(), Error>| #[trigger]
            did(at, Event::HardLink { first, path: staging, reply: linked }, to) && made
                == linked is Ok
    }

    /// The leaf that was recovered before at `first` got the second name `staging`, or
    /// not.
    pub open spec fn second_name(
        &self,
        first: Seq<char>,
        staging: Seq<char>,
        at: Seq<Event>,
        to: Seq<Event>,
        made: bool,
    ) -> bool {
        exists|standing: Result<Standing, Error>, mid: Seq<Event>| #[trigger]
            did(at, Event::Standing { path: first, reply: standing }, mid) && if standing is Ok
                && standing->Ok_0 != Standing::Nothing {
                self.linked_again(first, staging, mid, to, made)
            } else {
                to == mid && !made
            }
    }

    fn give_second_name<O: Destination>(
        &self,
        dest: &mut Journal<O>,
        first: &str,
        staging: &str,
    ) -> (r: bool)
        ensures
            final(dest).dest() == old(dest).dest(),
            self.second_name(first@, staging@, old(dest)@, final(dest)@, r),
    {
        let standing = dest.standing(first);
        let ghost mid = dest@;
        let ghost given = standing;
        proof {
            assert(did(old(dest)@, Event::Standing { path: first@, reply: given }, mid));
        }
        let there = match standing {
            Ok(found) => found != Standing::Nothing,
            Err(_) => false,
        };
        if !there {
            return false;
        }
        let linked = dest.hard_link(first, staging);
        let r = linked.is_ok();
        proof {
            assert(self.linked_again(first@, staging@, mid, dest@, r));
        }
        r
    }

    /// `r` is the outcome of an attempt that clears its staging name and then writes
    /// its leaf there.
    pub open spec fn cleared_and_staged(
        &self,
        source_path: Seq<char>,
        fsoid: u64,
        inode: &Inode,
        records: Seq<Record>,
        staging: Seq<char>,
        target: Seq<char>,
        before: LeafState,
        after: LeafState,
        r: Result<Attempt, Error>,
    ) -> bool {
        exists|mid: Seq<Event>| #[trigger]
            self.cleared(staging, before.log, mid) && self.staged(
                source_path,
                fsoid,
                inode,
                records,
                staging,
                target,
                leaf_state(before.links, mid),
                after,
                r,
            )
    }

    /// `r` is the outcome of an attempt on a leaf that this snapshot gave before at
    /// `first`: it is linked to that where this can be done.
    pub open spec fn linked_or_written(
        &self,
        source_path: Seq<char>,
        fsoid: u64,
        inode: &Inode,
        records: Seq<Record>,
        first: Seq<char>,
        staging: Seq<char>,
        target: Seq<char>,
        before: LeafState,
        after: LeafState,
        r: Result<Attempt, Error>,
    ) -> bool {
        exists|made: bool, mid: Seq<Event>| #[trigger]
            self.second_name(first, staging, before.log, mid, made) && if made {
                r matches Ok(attempt) && self.put_in_place(
                    source_path,
                    fsoid,
                    false,
                    staging,
                    target,
                    0,
                    Some("hardlink to an earlier manifest output"@),
                    leaf_state(before.links, mid),
                    after,
                    attempt@,
                )
            } else {
                self.cleared_and_staged(
                    source_path,
                    fsoid,
                    inode,
                    records,
                    staging,
                    target,
                    leaf_state(before.links, mid),
                    after,
                    r,
                )
            }
    }

    /// `r` is the outcome of an attempt with a staging name. A leaf that this snapshot
    /// gave before under another name is linked to it where that can be done.
    pub open spec fn linked_or_staged(
        &self,
        source_path: Seq<char>,
        fsoid: u64,
        inode: &Inode,
        records: Seq<Record>,
        staging: Seq<char>,
        target: Seq<char>,
        before: LeafState,
        after: LeafState,
        r: Result<Attempt, Error>,
    ) -> bool {
        if inode.nchildren_or_nlink > 1 && before.links.contains_key(fsoid) {
            self.linked_or_written(
                source_path,
                fsoid,
                inode,
                records,
                before.links[fsoid],
                staging,
                target,
                before,
                after,
                r,
            )
        } else {
            self.staged(
                source_path,
                fsoid,
                inode,
                records,
                staging,
                target,
                before,
                after,
                r,
            )
        }
    }

    fn write_staged<O: Destination>(
        &self,
        dest: &mut Journal<O>,
        source_path: &str,
        fsoid: u64,
        inode: &Inode,
        records: &[Record],
        staging: &str,
        target: &str,
        links: &mut HardlinkState,
    ) -> (r: Result<Attempt, Error>)
        ensures
            final(dest).dest() == old(dest).dest(),
            self.staged(
                source_path@,
                fsoid,
                inode,
                records@,
                staging@,
                target@,
                leaf_state(old(links)@, old(dest)@),
                leaf_state(final(links)@, final(dest)@),
                r,
            ),
    {
        let file_opts = Options::default();
        let recovery = Recovery {
            vol: self.vol,
            bt: self.bt,
            codec: self.codec,
            opts: &file_opts,
        };
        let ghost before = leaf_state(links@, dest@);
        let done = recovery.recover_single_file(dest, fsoid, Some(staging), inode, records);
        let ghost given = done;
        proof {
            assert(file_opts == leaf_options(false));
            assert(recovery == self.recovery(&leaf_options(false)));
            assert(self.recovery(&leaf_options(false)).file_recovered(
                fsoid,
                Some(staging@),
                inode,
                records@,
                before.log,
                dest@,
                given,
            ));
        }
        self.place_written(dest, source_path, fsoid, inode, staging, target, done, links)
    }

    fn link_or_write<O: Destination>(
        &self,
        dest: &mut Journal<O>,
        source_path: &str,
        fsoid: u64,
        inode: &Inode,
        records: &[Record],
        first: &str,
        staging: &str,
        target: &str,
        links: &mut HardlinkState,
    ) -> (r: Result<Attempt, Error>)
        ensures
            final(dest).dest() == old(dest).dest(),
            self.linked_or_written(
                source_path@,
                fsoid,
                inode,
                records@,
                first@,
                staging@,
                target@,
                leaf_state(old(links)@, old(dest)@),
                leaf_state(final(links)@, final(dest)@),
                r,
            ),
    {
        let ghost before = leaf_state(links@, dest@);
        let made = self.give_second_name(dest, first, staging);
        let ghost mid = dest@;
        proof {
            assert(self.second_name(first@, staging@, before.log, mid, made));
        }
        if made {
            return Ok(
                self.put_leaf_in_place(
                    dest,
                    source_path,
                    fsoid,
                    false,
                    staging,
                    target,
                    0,
                    Some("hardlink to an earlier manifest output".to_owned()),
                    links,
                ),
            );
        }
        let ghost linked = leaf_state(before.links, mid);
        self.clear(dest, staging);
        let ghost clear = dest@;
        let r = self.write_staged(
            dest,
            source_path,
            fsoid,
            inode,
            records,
            staging,
            target,
            links,
        );
        proof {
            assert(self.cleared(staging@, linked.log, clear));
            assert(self.cleared_and_staged(
                source_path@,
                fsoid,
                inode,
                records@,
                staging@,
                target@,
                linked,
                leaf_state(links@, dest@),
                r,
            ));
        }
        r
    }

    fn link_or_stage<O: Destination>(
        &self,
        dest: &mut Journal<O>,
        source_path: &str,
        fsoid: u64,
        inode: &Inode,
        records: &[Record],
        staging: &str,
        target: &str,
        links: &mut HardlinkState,
    ) -> (r: Result<Attempt, Error>)
        ensures
            final(dest).dest() == old(dest).dest(),
            self.linked_or_staged(
                source_path@,
                fsoid,
                inode,
                records@,
                staging@,
                target@,
                leaf_state(old(links)@, old(dest)@),
                leaf_state(final(links)@, final(dest)@),
                r,
            ),
    {
        if inode.nchildren_or_nlink > 1 {
            let known = match links.get(fsoid) {
                Some(first) => Some(first.clone()),
                None => None,
            };
            match known {
                Some(first) => {
                    return self.link_or_write(
                        dest,
                        source_path,
                        fsoid,
                        inode,
                        records,
                        first.as_str(),
                        staging,
                        target,
                        links,
                    );
                },
                None => {},
            }
        }
        self.write_staged(dest, source_path, fsoid, inode, records, staging, target, links)
    }

    /// `r` is the outcome of an attempt that only forecasts what would become of its
    /// leaf.
    pub open spec fn forecast(
        &self,
        source_path: Seq<char>,
        fsoid: u64,
        inode: &Inode,
        records: Seq<Record>,
        target: Seq<char>,
        before: LeafState,
        after: LeafState,
        r: Result<Attempt, Error>,
    ) -> bool {
        &&& after.links == before.links
        &&& exists|done: Result<FileResult, Error>| #[trigger]
            self.recovery(&leaf_options(true)).file_recovered(
                fsoid,
                Some(target),
                inode,
                records,
                before.log,
                after.log,
                done,
            ) && match done {
                Err(error) => is_failed(r, error@),
                Ok(result) => r matches Ok(attempt) && attempt@ == self.ended(
                    source_path,
                    fsoid,
                    result@.status,
                    result@.bytes,
                    result@.note,
                ),
            }
    }

    /// `r` is the outcome of an attempt that looks for a staging name first.
    pub open spec fn named_and_staged(
        &self,
        row: RowView,
        number: u64,
        source_path: Seq<char>,
        fsoid: u64,
        inode: &Inode,
        records: Seq<Record>,
        target: Seq<char>,
        before: LeafState,
        after: LeafState,
        r: Result<Attempt, Error>,
    ) -> bool {
        exists|found: Result<String, Error>, mid: Seq<Event>| #[trigger]
            staging_found(target, row.line, number, before.log, mid, found) && match found {
                Err(error) => after == leaf_state(before.links, mid) && (r matches Ok(attempt)
                    && attempt@ == self.failed(source_path, Some(fsoid), error@, false)),
                Ok(staging) => self.linked_or_staged(
                    source_path,
                    fsoid,
                    inode,
                    records,
                    staging@,
                    target,
                    leaf_state(before.links, mid),
                    after,
                    r,
                ),
            }
    }

    /// `r` is the outcome of an attempt on a leaf that is what its row expects.
    pub open spec fn leaf_attempted(
        &self,
        row: RowView,
        number: u64,
        source_path: Seq<char>,
        fsoid: u64,
        inode: &Inode,
        records: Seq<Record>,
        target: Seq<char>,
        before: LeafState,
        after: LeafState,
        r: Result<Attempt, Error>,
    ) -> bool {
        if self.opts.dry_run {
            self.forecast(source_path, fsoid, inode, records, target, before, after, r)
        } else {
            self.named_and_staged(
                row,
                number,
                source_path,
                fsoid,
                inode,
                records,
                target,
                before,
                after,
                r,
            )
        }
    }

    fn forecast_leaf<O: Destination>(
        &self,
        dest: &mut Journal<O>,
        source_path: &str,
        fsoid: u64,
        inode: &Inode,
        records: &[Record],
        target: &str,
        links: &mut HardlinkState,
    ) -> (r: Result<Attempt, Error>)
        ensures
            final(dest).dest() == old(dest).dest(),
            self.forecast(
                source_path@,
                fsoid,
                inode,
                records@,
                target@,
                leaf_state(old(links)@, old(dest)@),
                leaf_state(final(links)@, final(dest)@),
                r,
            ),
    {
        let mut file_opts = Options::default();
        file_opts.dry_run = true;
        let recovery = Recovery {
            vol: self.vol,
            bt: self.bt,
            codec: self.codec,
            opts: &file_opts,
        };
        let ghost before = leaf_state(links@, dest@);
        let done = recovery.recover_single_file(dest, fsoid, Some(target), inode, records);
        let ghost given = done;
        proof {
            let after = leaf_state(links@, dest@);
            assert(file_opts == leaf_options(true));
            assert(recovery == self.recovery(&leaf_options(true)));
            assert(self.recovery(&leaf_options(true)).file_recovered(
                fsoid,
                Some(target@),
                inode,
                records@,
                before.log,
                after.log,
                given,
            ));
        }
        match done {
            Err(error) => Err(error),
            Ok(result) => Ok(
                self.ended_with(source_path, fsoid, result.status, result.bytes, result.note),
            ),
        }
    }

    fn attempt_leaf<O: Destination>(
        &self,
        dest: &mut Journal<O>,
        row: &ManifestRow,
        number: u64,
        source_path: &str,
        fsoid: u64,
        inode: &Inode,
        records: &[Record],
        target: &str,
        links: &mut HardlinkState,
    ) -> (r: Result<Attempt, Error>)
        ensures
            final(dest).dest() == old(dest).dest(),
            self.leaf_attempted(
                row@,
                number,
                source_path@,
                fsoid,
                inode,
                records@,
                target@,
                leaf_state(old(links)@, old(dest)@),
                leaf_state(final(links)@, final(dest)@),
                r,
            ),
    {
        if self.opts.dry_run {
            return self.forecast_leaf(dest, source_path, fsoid, inode, records, target, links);
        }
        let ghost before = leaf_state(links@, dest@);
        let found = staging_path(dest, target, row.line, number);
        let ghost given = found;
        let ghost mid = dest@;
        proof {
            assert(staging_found(target@, row@.line, number, before.log, mid, given));
        }
        let r = match found {
            Err(error) => Ok(self.failed_with(source_path, Some(fsoid), error, false)),
            Ok(path) => self.link_or_stage(
                dest,
                source_path,
                fsoid,
                inode,
                records,
                path.as_str(),
                target,
                links,
            ),
        };
        proof {
            assert(self.named_and_staged(
                row@,
                number,
                source_path@,
                fsoid,
                inode,
                records@,
                target@,
                before,
                leaf_state(links@, dest@),
                r,
            ));
        }
        r
    }

    /// `r` is the outcome of an attempt on object `fsoid`, in whose records looking for
    /// an inode gave `found`.
    pub open spec fn object_attempted(
        &self,
        row: RowView,
        number: u64,
        source_path: Seq<char>,
        fsoid: u64,
        records: Seq<Record>,
        found: Result<Option<Inode>, Error>,
        target: Seq<char>,
        before: LeafState,
        after: LeafState,
        r: Result<Attempt, Error>,
    ) -> bool {
        match found {
            Err(error) => after == before && is_failed(r, error@),
            Ok(None) => after == before && is_failed(r, no_inode(fsoid)),
            Ok(Some(inode)) => match leaf_error(inode, row.expected_type) {
                Some(error) => after == before && is_failed(r, error),
                None => self.leaf_attempted(
                    row,
                    number,
                    source_path,
                    fsoid,
                    &inode,
                    records,
                    target,
                    before,
                    after,
                    r,
                ),
            },
        }
    }

    /// `r` is the outcome of an attempt on the object that its path leads to.
    pub open spec fn resolved_attempted(
        &self,
        row: RowView,
        primary: bool,
        number: u64,
        source_path: Seq<char>,
        fsoid: u64,
        target: Seq<char>,
        before: LeafState,
        after: LeafState,
        r: Result<Attempt, Error>,
    ) -> bool {
        if primary && (row.expected_fsoid matches Some(expected) && expected != fsoid) {
            after == before && is_failed(r, wrong_fsoid(row.expected_fsoid->Some_0, fsoid))
        } else {
            exists|reply: Result<Vec<Record>, Error>| #[trigger]
                self.vol.asked(self.bt, fsoid, reply) && match reply {
                    Err(error) => after == before && is_failed(r, error@),
                    Ok(records) => exists|found: Result<Option<Inode>, Error>| #[trigger]
                        Volume::<D>::inode_found(records@, found) && self.object_attempted(
                            row,
                            number,
                            source_path,
                            fsoid,
                            records@,
                            found,
                            target,
                            before,
                            after,
                            r,
                        ),
                }
        }
    }

    /// `r` is the outcome of an attempt on the leaf at `source_path`.
    pub open spec fn path_attempted(
        &self,
        row: RowView,
        primary: bool,
        number: u64,
        source_path: &str,
        target: Seq<char>,
        before: LeafState,
        after: LeafState,
        r: Result<Attempt, Error>,
    ) -> bool {
        exists|resolved: Result<Resolved, Error>| #[trigger]
            call_ensures(S::resolve, (self.source, self.vol, self.bt, source_path), resolved)
                && match resolved {
                Err(error) => after == before && is_failed(r, error@),
                Ok(found) => self.resolved_attempted(
                    row,
                    primary,
                    number,
                    source_path@,
                    found.fsoid,
                    target,
                    before,
                    after,
                    r,
                ),
            }
    }

    fn attempt_object<O: Destination>(
        &self,
        dest: &mut Journal<O>,
        row: &ManifestRow,
        number: u64,
        source_path: &str,
        fsoid: u64,
        records: &[Record],
        found: &Result<Option<Inode>, Error>,
        target: &str,
        links: &mut HardlinkState,
    ) -> (r: Result<Attempt, Error>)
        ensures
            final(dest).dest() == old(dest).dest(),
            self.object_attempted(
                row@,
                number,
                source_path@,
                fsoid,
                records@,
                *found,
                target@,
                leaf_state(old(links)@, old(dest)@),
                leaf_state(final(links)@, final(dest)@),
                r,
            ),
    {
        match found {
            Err(error) => Err(error.clone()),
            Ok(None) => Err(no_inode_error(fsoid)),
            Ok(Some(inode)) => match check_leaf(inode, &row.expected_type) {
                Err(error) => Err(error),
                Ok(_) => self.attempt_leaf(
                    dest,
                    row,
                    number,
                    source_path,
                    fsoid,
                    inode,
                    records,
                    target,
                    links,
                ),
            },
        }
    }

    fn attempt_resolved<O: Destination>(
        &self,
        dest: &mut Journal<O>,
        row: &ManifestRow,
        primary: bool,
        number: u64,
        source_path: &str,
        fsoid: u64,
        target: &str,
        links: &mut HardlinkState,
    ) -> (r: Result<Attempt, Error>)
        ensures
            final(dest).dest() == old(dest).dest(),
            self.resolved_attempted(
                row@,
                primary,
                number,
                source_path@,
                fsoid,
                target@,
                leaf_state(old(links)@, old(dest)@),
                leaf_state(final(links)@, final(dest)@),
                r,
            ),
    {
        if primary {
            match row.expected_fsoid {
                Some(expected) => {
                    if fsoid != expected {
                        let mut message = "manifest FSOID ".to_owned();
                        push_hex(&mut message, expected);
                        message.append(" does not match resolved FSOID ");
                        push_hex(&mut message, fsoid);
                        return Err(Error::new(ErrorKind::Corrupt, message));
                    }
                },
                None => {},
            }
        }
        let reply = self.vol.records(self.bt, fsoid);
        proof {
            assert(self.vol.asked(self.bt, fsoid, reply));
        }
        match &reply {
            Err(error) => Err(error.clone()),
            Ok(records) => {
                let found = Volume::<D>::inode_from_records(records.as_slice());
                proof {
                    assert(Volume::<D>::inode_found(records@, found));
                }
                self.attempt_object(
                    dest,
                    row,
                    number,
                    source_path,
                    fsoid,
                    records.as_slice(),
                    &found,
                    target,
                    links,
                )
            },
        }
    }

    /// An attempt on the leaf at `source_path` came to `attempt`. An error on the way
    /// leaves older snapshots open.
    pub open spec fn attempted(
        &self,
        row: RowView,
        primary: bool,
        number: u64,
        source_path: &str,
        target: Seq<char>,
        before: LeafState,
        after: LeafState,
        attempt: AttemptView,
    ) -> bool {
        exists|r: Result<Attempt, Error>| #[trigger]
            self.path_attempted(
                row,
                primary,
                number,
                source_path,
                target,
                before,
                after,
                r,
            ) && match r {
                Ok(made) => attempt == made@,
                Err(error) => attempt == self.failed(source_path@, None, error@, true),
            }
    }

    /// Tries to recover the leaf at `source_path` to `target`.
    pub fn recover_attempt<O: Destination>(
        &self,
        dest: &mut Journal<O>,
        row: &ManifestRow,
        primary: bool,
        number: u64,
        source_path: &str,
        target: &str,
        links: &mut HardlinkState,
    ) -> (r: Attempt)
        ensures
            final(dest).dest() == old(dest).dest(),
            self.attempted(
                row@,
                primary,
                number,
                source_path,
                target@,
                leaf_state(old(links)@, old(dest)@),
                leaf_state(final(links)@, final(dest)@),
                r@,
            ),
    {
        let resolved = self.source.resolve(self.vol, self.bt, source_path);
        let ghost given = resolved;
        proof {
            assert(call_ensures(
                S::resolve,
                (self.source, self.vol, self.bt, source_path),
                given,
            ));
        }
        let r = match resolved {
            Err(error) => Err(error),
            Ok(found) => self.attempt_resolved(
                dest,
                row,
                primary,
                number,
                source_path,
                found.fsoid,
                target,
                links,
            ),
        };
        let ghost outcome = r;
        proof {
            assert(self.path_attempted(
                row@,
                primary,
                number,
                source_path,
                target@,
                leaf_state(old(links)@, old(dest)@),
                leaf_state(links@, dest@),
                outcome,
            ));
        }
        match r {
            Ok(attempt) => attempt,
            Err(error) => self.failed_with(source_path, None, error, true),
        }
    }
}

/// The error of a symbolic link that was not written as one.
pub open spec fn not_a_link() -> ErrorView {
    failure(ErrorKind::Corrupt, "symlink recovery produced a non-symlink output"@)
}

impl<'a, D: ApfsImage, S: SnapshotSource<D>, C: Codec> Attempting<'a, D, S, C> {
    /// A leaf that was written only in part is never put in its place: all that is
    /// asked of the destination from then on is to remove the staging output, the
    /// attempt is no success, and an older snapshot may still be tried.
    pub proof fn law_partial_leaf_is_never_placed(
        &self,
        source_path: Seq<char>,
        fsoid: u64,
        inode: &Inode,
        staging: Seq<char>,
        target: Seq<char>,
        result: FileResult,
        before: LeafState,
        after: LeafState,
        r: Result<Attempt, Error>,
    )
        requires
            result@.status == "partial"@,
            self.written(
                source_path,
                fsoid,
                inode,
                staging,
                target,
                Ok(result),
                before,
                after,
                r,
            ),
        ensures
            after.log.len() == before.log.len() + 1,
            after.log.drop_last() == before.log,
            after.log.last() matches Event::Remove { path, .. } && path == staging,
            after.links == before.links,
            r matches Ok(attempt) && !is_success(attempt@.status)
                && attempt@.fallback_eligible,
    {
        reveal_strlit("partial");
        reveal_strlit("recovered");
        reveal_strlit("dry-run");
        assert("partial"@.len() != "recovered"@.len());
        assert("partial"@[0] != "dry-run"@[0]);
        assert(after.log.drop_last() =~= before.log);
    }

    /// A leaf that could not be written may still be looked for in older snapshots,
    /// unless the fault lies in the request or in what the destination permits.
    pub proof fn law_errors_leave_older_snapshots_open(
        &self,
        source_path: Seq<char>,
        fsoid: u64,
        inode: &Inode,
        staging: Seq<char>,
        target: Seq<char>,
        error: Error,
        before: LeafState,
        after: LeafState,
        r: Result<Attempt, Error>,
    )
        requires
            self.written(
                source_path,
                fsoid,
                inode,
                staging,
                target,
                Err(error),
                before,
                after,
                r,
            ),
        ensures
            r matches Ok(attempt) && attempt@.fallback_eligible == (error@.kind
                != ErrorKind::Usage && error@.kind != ErrorKind::PermissionDenied),
    {
    }

    /// An attempt in a dry run asks nothing of the destination and leaves the known
    /// links as they are.
    pub proof fn law_dry_attempt_asks_nothing(
        &self,
        row: RowView,
        primary: bool,
        number: u64,
        source_path: &str,
        target: Seq<char>,
        before: LeafState,
        after: LeafState,
        attempt: AttemptView,
    )
        requires
            self.attempted(row, primary, number, source_path, target, before, after, attempt),
            self.opts.dry_run,
        ensures
            after == before,
    {
        let r = self.lemma_outcome(
            row,
            primary,
            number,
            source_path,
            target,
            before,
            after,
            attempt,
        );
        if after != before {
            let (fsoid, inode, records) = self.lemma_leaf(
                row,
                primary,
                number,
                source_path,
                target,
                before,
                after,
                r,
            );
            let opts = leaf_options(true);
            let done = choose|done: Result<FileResult, Error>| #[trigger]
                self.recovery(&leaf_options(true)).file_recovered(
                    fsoid,
                    Some(target),
                    &inode,
                    records,
                    before.log,
                    after.log,
                    done,
                );
            self.recovery(&opts).law_dry_run_only_forecasts(
                fsoid,
                Some(target),
                &inode,
                records,
                before.log,
                after.log,
                done,
            );
        }
    }

    /// The result behind an attempt.
    proof fn lemma_outcome(
        &self,
        row: RowView,
        primary: bool,
        number: u64,
        source_path: &str,
        target: Seq<char>,
        before: LeafState,
        after: LeafState,
        attempt: AttemptView,
    ) -> (r: Result<Attempt, Error>)
        requires
            self.attempted(row, primary, number, source_path, target, before, after, attempt),
        ensures
            self.path_attempted(row, primary, number, source_path, target, before, after, r),
            r is Err ==> attempt.status == "error"@,
            r matches Ok(made) ==> attempt == made@,
    {
        choose|r: Result<Attempt, Error>| #[trigger]
            self.path_attempted(
                row,
                primary,
                number,
                source_path,
                target,
                before,
                after,
                r,
            ) && match r {
                Ok(made) => attempt == made@,
                Err(error) => attempt == self.failed(source_path@, None, error@, true),
            }
    }

    /// An attempt that changed anything, or that came to a result, was made on a leaf.
    proof fn lemma_leaf(
        &self,
        row: RowView,
        primary: bool,
        number: u64,
        source_path: &str,
        target: Seq<char>,
        before: LeafState,
        after: LeafState,
        r: Result<Attempt, Error>,
    ) -> (leaf: (u64, Inode, Seq<Record>))
        requires
            self.path_attempted(row, primary, number, source_path, target, before, after, r),
            after != before,
        ensures
            self.leaf_attempted(
                row,
                number,
                source_path@,
                leaf.0,
                &leaf.1,
                leaf.2,
                target,
                before,
                after,
                r,
            ),
    {
        let resolved = choose|resolved: Result<Resolved, Error>| #[trigger]
            call_ensures(S::resolve, (self.source, self.vol, self.bt, source_path), resolved)
                && match resolved {
                Err(error) => after == before && is_failed(r, error@),
                Ok(found) => self.resolved_attempted(
                    row,
                    primary,
                    number,
                    source_path@,
                    found.fsoid,
                    target,
                    before,
                    after,
                    r,
                ),
            };
        let fsoid = resolved->Ok_0.fsoid;
        let reply = choose|reply: Result<Vec<Record>, Error>| #[trigger]
            self.vol.asked(self.bt, fsoid, reply) && match reply {
                Err(error) => after == before && is_failed(r, error@),
                Ok(records) => exists|found: Result<Option<Inode>, Error>| #[trigger]
                    Volume::<D>::inode_found(records@, found) && self.object_attempted(
                        row,
                        number,
                        source_path@,
                        fsoid,
                        records@,
                        found,
                        target,
                        before,
                        after,
                        r,
                    ),
            };
        let records = reply->Ok_0@;
        let found = choose|found: Result<Option<Inode>, Error>| #[trigger]
            Volume::<D>::inode_found(records, found) && self.object_attempted(
                row,
                number,
                source_path@,
                fsoid,
                records,
                found,
                target,
                before,
                after,
                r,
            );
        (fsoid, found->Ok_0->Some_0, records)
    }
}

/// The request at place `j` of a journal did not change what stands at `target` for
/// good: it was refused, or it took a name away again that was given just before, or
/// such a request follows.
pub open spec fn undone(log: Seq<Event>, j: int, target: Seq<char>) -> bool {
    ||| match log[j] {
        Event::Rename { reply, .. } => reply is Err,
        Event::CopyLink { reply, .. } => reply is Err,
        Event::HardLink { reply, .. } => reply is Err,
        Event::Remove { path, .. } => path == target,
        _ => false,
    }
    ||| exists|k: int|
        j < k < log.len() && (#[trigger] log[k] matches Event::Remove { path, .. } && path
            == target)
}

/// All that was asked between `at` and `to` leaves `target` alone.
pub open spec fn left_alone(at: Seq<Event>, to: Seq<Event>, target: Seq<char>) -> bool {
    &&& at.is_prefix_of(to)
    &&& forall|j: int|
        at.len() <= j < to.len() && (#[trigger] to[j]).touches(target) ==> undone(to, j, target)
}

/// No leaf was recovered.
spec fn unrecovered(r: Result<Attempt, Error>) -> bool {
    r matches Ok(attempt) ==> attempt@.status != "recovered"@
}

proof fn lemma_install_adds(
    staging: Seq<char>,
    target: Seq<char>,
    overwrite: bool,
    at: Seq<Event>,
    to: Seq<Event>,
    placed: Result<(), Error>,
)
    requires
        staging_installed(staging, target, overwrite, at, to, placed),
    ensures
        at.is_prefix_of(to),
{
}

proof fn lemma_left_alone_from_before(
    at: Seq<Event>,
    mid: Seq<Event>,
    to: Seq<Event>,
    target: Seq<char>,
)
    requires
        at.is_prefix_of(mid),
        forall|j: int| at.len() <= j < mid.len() ==> !(#[trigger] mid[j]).touches(target),
        left_alone(mid, to, target),
    ensures
        left_alone(at, to, target),
{
    assert forall|j: int| at.len() <= j < to.len() && (#[trigger] to[j]).touches(
        target,
    ) implies undone(to, j, target) by {
        if j < mid.len() {
            assert(to[j] == mid[j]);
        }
    }
}

proof fn lemma_install_left_alone(
    staging: Seq<char>,
    target: Seq<char>,
    overwrite: bool,
    at: Seq<Event>,
    mid: Seq<Event>,
    to: Seq<Event>,
    placed: Result<(), Error>,
    gone: Result<(), Error>,
)
    requires
        staging_installed(staging, target, overwrite, at, mid, placed),
        placed is Err,
        staging != target,
        did(mid, Event::Remove { path: staging, reply: gone }, to),
    ensures
        left_alone(at, to, target),
{
    if overwrite {
        let (standing, looked) = choose|standing: Result<Standing, Error>, looked: Seq<Event>| #[trigger]
            did(at, Event::Standing { path: target, reply: standing }, looked) && if standing
                == Ok::<Standing, Error>(Standing::Dir) {
                mid == looked && is_failed(placed, is_directory(target))
            } else {
                did(looked, Event::Rename { from: staging, to: target, reply: placed }, mid)
            };
        assert forall|j: int| at.len() <= j < to.len() && (#[trigger] to[j]).touches(
            target,
        ) implies undone(to, j, target) by {
            if j < mid.len() {
                assert(to[j] == mid[j]);
            }
        }
    } else {
        law_occupied_target_is_never_replaced(staging, target, at, mid, placed);
        assert forall|j: int| at.len() <= j < to.len() && (#[trigger] to[j]).touches(
            target,
        ) implies undone(to, j, target) by {
            assert(j < mid.len());
            assert(to[j] == mid[j]);
            lemma_naming_is_refused_or_undone(staging, target, at, mid, placed, j);
            if !(mid[j] is Remove) {
                let k = choose|k: int|
                    j < k < mid.len() && (#[trigger] mid[k] matches Event::Remove { path, .. }
                        && path == target);
                if undone(mid, j, target) && j < k < mid.len() {
                    assert(to[k] == mid[k]);
                }
            }
        }
    }
}

proof fn lemma_naming_is_refused_or_undone(
    staging: Seq<char>,
    target: Seq<char>,
    at: Seq<Event>,
    to: Seq<Event>,
    placed: Result<(), Error>,
    j: int,
)
    requires
        staging_installed(staging, target, false, at, to, placed),
        placed is Err,
        staging != target,
        at.len() <= j < to.len(),
        to[j].touches(target),
    ensures
        undone(to, j, target),
{
    let (named, mid) = choose|named: Result<(), Error>, mid: Seq<Event>| #[trigger]
        leaf_named(staging, target, at, mid, named) && match named {
            Err(error) => to == mid && is_failed(placed, error@),
            Ok(_) => staging_removed(staging, target, mid, to, placed),
        };
    let (standing, looked) = choose|standing: Result<Standing, Error>, looked: Seq<Event>| #[trigger]
        did(at, Event::Standing { path: staging, reply: standing }, looked) && match standing {
            Err(error) => mid == looked && is_failed(named, error@),
            Ok(Standing::Link) => did(
                looked,
                Event::CopyLink { from: staging, to: target, reply: named },
                mid,
            ),
            Ok(_) => did(
                looked,
                Event::HardLink { first: staging, path: target, reply: named },
                mid,
            ),
        };
    if named is Ok {
        let (gone, then) = choose|gone: Result<(), Error>, then: Seq<Event>| #[trigger]
            did(mid, Event::Remove { path: staging, reply: gone }, then) && match gone {
                Ok(_) => to == then && placed is Ok,
                Err(error) => is_failed(placed, error@) && target_removed(target, then, to),
            };
        assert(to.last() matches Event::Remove { path, .. } && path == target);
        assert(to[to.len() - 1] == to.last());
    }
}

impl<'a, D: ApfsImage, S: SnapshotSource<D>, C: Codec> Attempting<'a, D, S, C> {
    /// An attempt that does not recover its leaf leaves the leaf's place alone: what
    /// was asked there was refused, or taken back. A staging name is taken to be
    /// another than that place.
    pub proof fn law_failed_attempt_leaves_its_target_alone(
        &self,
        row: RowView,
        primary: bool,
        number: u64,
        source_path: &str,
        target: Seq<char>,
        before: LeafState,
        after: LeafState,
        attempt: AttemptView,
    )
        requires
            self.attempted(row, primary, number, source_path, target, before, after, attempt),
            attempt.status != "recovered"@,
            forall|j: int|
                before.log.len() <= j < after.log.len() ==> (#[trigger] after.log[j]
                    matches Event::Beside { reply: Some(name), .. } ==> name@ != target),
        ensures
            left_alone(before.log, after.log, target),
    {
        let r = self.lemma_outcome(
            row,
            primary,
            number,
            source_path,
            target,
            before,
            after,
            attempt,
        );
        if after != before {
            if self.opts.dry_run {
                self.law_dry_attempt_asks_nothing(
                    row,
                    primary,
                    number,
                    source_path,
                    target,
                    before,
                    after,
                    attempt,
                );
            } else {
                let (fsoid, inode, records) = self.lemma_leaf(
                    row,
                    primary,
                    number,
                    source_path,
                    target,
                    before,
                    after,
                    r,
                );
                self.lemma_named_left_alone(
                    row,
                    number,
                    source_path@,
                    fsoid,
                    &inode,
                    records,
                    target,
                    before,
                    after,
                    r,
                );
            }
        }
    }

    proof fn lemma_named_left_alone(
        &self,
        row: RowView,
        number: u64,
        source_path: Seq<char>,
        fsoid: u64,
        inode: &Inode,
        records: Seq<Record>,
        target: Seq<char>,
        before: LeafState,
        after: LeafState,
        r: Result<Attempt, Error>,
    )
        requires
            self.named_and_staged(
                row,
                number,
                source_path,
                fsoid,
                inode,
                records,
                target,
                before,
                after,
                r,
            ),
            unrecovered(r),
            forall|j: int|
                before.log.len() <= j < after.log.len() ==> (#[trigger] after.log[j]
                    matches Event::Beside { reply: Some(name), .. } ==> name@ != target),
        ensures
            left_alone(before.log, after.log, target),
    {
        let (found, mid) = choose|found: Result<String, Error>, mid: Seq<Event>| #[trigger]
            staging_found(target, row.line, number, before.log, mid, found) && match found {
                Err(error) => after == leaf_state(before.links, mid) && (r matches Ok(attempt)
                    && attempt@ == self.failed(source_path, Some(fsoid), error@, false)),
                Ok(staging) => self.linked_or_staged(
                    source_path,
                    fsoid,
                    inode,
                    records,
                    staging@,
                    target,
                    leaf_state(before.links, mid),
                    after,
                    r,
                ),
            };
        law_staging_name_is_free(target, row.line, number, before.log, mid, found);
        assert forall|j: int| before.log.len() <= j < mid.len() implies !(
        #[trigger] mid[j]).touches(target) by {
            assert(mid[j].is_question());
        }
        if found is Ok {
            let staging = found->Ok_0@;
            let named = leaf_state(before.links, mid);
            self.lemma_linked_left_alone(
                source_path,
                fsoid,
                inode,
                records,
                staging,
                target,
                named,
                after,
                r,
            );
            assert(after.log[mid.len() - 2] == mid[mid.len() - 2]);
            assert(staging != target);
            lemma_left_alone_from_before(before.log, mid, after.log, target);
        }
    }

    /// Putting a leaf in its place only adds to the journal; and where it does not end
    /// with the leaf recovered, its place is left alone.
    proof fn lemma_put_left_alone(
        &self,
        source_path: Seq<char>,
        fsoid: u64,
        several: bool,
        staging: Seq<char>,
        target: Seq<char>,
        bytes: u64,
        note: Option<Seq<char>>,
        before: LeafState,
        after: LeafState,
        attempt: AttemptView,
    )
        requires
            self.put_in_place(
                source_path,
                fsoid,
                several,
                staging,
                target,
                bytes,
                note,
                before,
                after,
                attempt,
            ),
        ensures
            before.log.is_prefix_of(after.log),
            staging != target && attempt.status != "recovered"@ ==> left_alone(
                before.log,
                after.log,
                target,
            ),
    {
        let (placed, mid) = choose|placed: Result<(), Error>, mid: Seq<Event>| #[trigger]
            staging_installed(staging, target, self.opts.overwrite, before.log, mid, placed)
                && match placed {
                Err(error) => {
                    &&& self.cleared(staging, mid, after.log)
                    &&& after.links == before.links
                    &&& attempt == self.failed(source_path, Some(fsoid), error@, false)
                },
                Ok(_) => {
                    &&& after.log == mid
                    &&& after.links == if several {
                        first_kept(before.links, fsoid, target)
                    } else {
                        before.links
                    }
                    &&& attempt == self.ended(source_path, fsoid, "recovered"@, bytes, note)
                },
            };
        lemma_install_adds(staging, target, self.opts.overwrite, before.log, mid, placed);
        if placed is Err {
            let gone = choose|gone: Result<(), Error>| #[trigger]
                did(mid, Event::Remove { path: staging, reply: gone }, after.log);
            if staging != target {
                lemma_install_left_alone(
                    staging,
                    target,
                    self.opts.overwrite,
                    before.log,
                    mid,
                    after.log,
                    placed,
                    gone,
                );
            }
        }
    }

    proof fn lemma_placed_left_alone(
        &self,
        source_path: Seq<char>,
        fsoid: u64,
        inode: &Inode,
        staging: Seq<char>,
        target: Seq<char>,
        result: FileResultView,
        before: LeafState,
        after: LeafState,
        r: Result<Attempt, Error>,
    )
        requires
            self.placed(
                source_path,
                fsoid,
                inode,
                staging,
                target,
                result,
                before,
                after,
                r,
            ),
        ensures
            before.log.is_prefix_of(after.log),
            staging != target && unrecovered(r) ==> left_alone(before.log, after.log, target),
    {
        self.lemma_put_left_alone(
            source_path,
            fsoid,
            inode.nchildren_or_nlink > 1,
            staging,
            target,
            result.bytes,
            result.note,
            before,
            after,
            r->Ok_0@,
        );
    }

    proof fn lemma_written_left_alone(
        &self,
        source_path: Seq<char>,
        fsoid: u64,
        inode: &Inode,
        staging: Seq<char>,
        target: Seq<char>,
        done: Result<FileResult, Error>,
        before: LeafState,
        after: LeafState,
        r: Result<Attempt, Error>,
    )
        requires
            self.written(
                source_path,
                fsoid,
                inode,
                staging,
                target,
                done,
                before,
                after,
                r,
            ),
        ensures
            before.log.is_prefix_of(after.log),
            staging != target && unrecovered(r) ==> left_alone(before.log, after.log, target),
    {
        if done is Ok && done->Ok_0@.status == "recovered"@ {
            let result = done->Ok_0@;
            if inode.kind is Symlink {
                let (linked, mid) = choose|linked: bool, mid: Seq<Event>| #[trigger]
                    self.is_link(staging, before.log, mid, linked) && if linked {
                        self.placed(
                            source_path,
                            fsoid,
                            inode,
                            staging,
                            target,
                            result,
                            leaf_state(before.links, mid),
                            after,
                            r,
                        )
                    } else {
                        &&& self.cleared(staging, mid, after.log)
                        &&& after.links == before.links
                        &&& is_failed(r, not_a_link())
                    };
                if linked {
                    self.lemma_placed_left_alone(
                        source_path,
                        fsoid,
                        inode,
                        staging,
                        target,
                        result,
                        leaf_state(before.links, mid),
                        after,
                        r,
                    );
                    if staging != target && unrecovered(r) {
                        lemma_left_alone_from_before(before.log, mid, after.log, target);
                    }
                }
            } else {
                self.lemma_placed_left_alone(
                    source_path,
                    fsoid,
                    inode,
                    staging,
                    target,
                    result,
                    before,
                    after,
                    r,
                );
            }
        }
    }

    proof fn lemma_staged_left_alone(
        &self,
        source_path: Seq<char>,
        fsoid: u64,
        inode: &Inode,
        records: Seq<Record>,
        staging: Seq<char>,
        target: Seq<char>,
        before: LeafState,
        after: LeafState,
        r: Result<Attempt, Error>,
    )
        requires
            self.staged(
                source_path,
                fsoid,
                inode,
                records,
                staging,
                target,
                before,
                after,
                r,
            ),
        ensures
            before.log.is_prefix_of(after.log),
            staging != target && unrecovered(r) ==> left_alone(before.log, after.log, target),
    {
        let opts = leaf_options(false);
        let (done, mid) = choose|done: Result<FileResult, Error>, mid: Seq<Event>| #[trigger]
            self.recovery(&leaf_options(false)).file_recovered(
                fsoid,
                Some(staging),
                inode,
                records,
                before.log,
                mid,
                done,
            ) && self.written(
                source_path,
                fsoid,
                inode,
                staging,
                target,
                done,
                leaf_state(before.links, mid),
                after,
                r,
            );
        self.recovery(&opts).law_only_the_output_is_touched(
            fsoid,
            Some(staging),
            inode,
            records,
            before.log,
            mid,
            done,
        );
        self.lemma_written_left_alone(
            source_path,
            fsoid,
            inode,
            staging,
            target,
            done,
            leaf_state(before.links, mid),
            after,
            r,
        );
        if staging != target && unrecovered(r) {
            lemma_left_alone_from_before(before.log, mid, after.log, target);
        }
    }

    proof fn lemma_linked_left_alone(
        &self,
        source_path: Seq<char>,
        fsoid: u64,
        inode: &Inode,
        records: Seq<Record>,
        staging: Seq<char>,
        target: Seq<char>,
        before: LeafState,
        after: LeafState,
        r: Result<Attempt, Error>,
    )
        requires
            self.linked_or_staged(
                source_path,
                fsoid,
                inode,
                records,
                staging,
                target,
                before,
                after,
                r,
            ),
        ensures
            before.log.is_prefix_of(after.log),
            staging != target && unrecovered(r) ==> left_alone(before.log, after.log, target),
    {
        if inode.nchildren_or_nlink > 1 && before.links.contains_key(fsoid) {
            let first = before.links[fsoid];
            let (made, mid) = choose|made: bool, mid: Seq<Event>| #[trigger]
                self.second_name(first, staging, before.log, mid, made) && if made {
                    r matches Ok(attempt) && self.put_in_place(
                        source_path,
                        fsoid,
                        false,
                        staging,
                        target,
                        0,
                        Some("hardlink to an earlier manifest output"@),
                        leaf_state(before.links, mid),
                        after,
                        attempt@,
                    )
                } else {
                    self.cleared_and_staged(
                        source_path,
                        fsoid,
                        inode,
                        records,
                        staging,
                        target,
                        leaf_state(before.links, mid),
                        after,
                        r,
                    )
                };
            let linked = leaf_state(before.links, mid);
            if made {
                self.lemma_put_left_alone(
                    source_path,
                    fsoid,
                    false,
                    staging,
                    target,
                    0,
                    Some("hardlink to an earlier manifest output"@),
                    linked,
                    after,
                    r->Ok_0@,
                );
                if staging != target && unrecovered(r) {
                    lemma_left_alone_from_before(before.log, mid, after.log, target);
                }
            } else {
                let clear = choose|clear: Seq<Event>| #[trigger]
                    self.cleared(staging, linked.log, clear) && self.staged(
                        source_path,
                        fsoid,
                        inode,
                        records,
                        staging,
                        target,
                        leaf_state(linked.links, clear),
                        after,
                        r,
                    );
                self.lemma_staged_left_alone(
                    source_path,
                    fsoid,
                    inode,
                    records,
                    staging,
                    target,
                    leaf_state(linked.links, clear),
                    after,
                    r,
                );
                if staging != target && unrecovered(r) {
                    lemma_left_alone_from_before(mid, clear, after.log, target);
                    lemma_left_alone_from_before(before.log, mid, after.log, target);
                }
            }
        } else {
            self.lemma_staged_left_alone(
                source_path,
                fsoid,
                inode,
                records,
                staging,
                target,
                before,
                after,
                r,
            );
        }
    }
}

// ---------------------------------------------------------------------------
// Laws on leaves
// ---------------------------------------------------------------------------

/// A leaf is a file or a symbolic link, and the one that its row expects where it expects
/// any. Anything else is refused: as unsupported where it is no leaf, as corrupt where it is
/// another one.
pub proof fn law_leaf_is_what_its_row_expects(inode: Inode, expected: Option<Seq<char>>)
    ensures
        leaf_error(inode, expected) is None <==> ({
            ||| inode.kind is Regular && (expected is None || expected == Some("file"@))
            ||| inode.kind is Symlink && (expected is None || expected == Some("symlink"@))
        }),
        leaf_error(inode, expected) matches Some(error) ==> error.kind == if inode.kind is Regular
            || inode.kind is Symlink {
            ErrorKind::Corrupt
        } else {
            ErrorKind::UnsupportedFeature
        },
{
}

/// An older snapshot may be tried after every error but two: one in the request, and one in
/// what the destination permits.
pub proof fn law_most_errors_leave_older_snapshots()
    ensures
        may_fall_back(ErrorKind::Io),
        may_fall_back(ErrorKind::Corrupt),
        may_fall_back(ErrorKind::UnsupportedFeature),
        may_fall_back(ErrorKind::EncryptedUnsupported),
        may_fall_back(ErrorKind::ObjectNotFound),
        may_fall_back(ErrorKind::PathNotFound),
        may_fall_back(ErrorKind::NotADirectory),
        may_fall_back(ErrorKind::PartialRecovery),
        may_fall_back(ErrorKind::Internal),
        !may_fall_back(ErrorKind::Usage),
        !may_fall_back(ErrorKind::PermissionDenied),
{
}

/// A leaf is written without leave to overwrite, without making do with errors and as what
/// it decodes to.
pub proof fn law_leaves_are_written_with_care(dry_run: bool)
    ensures
        !leaf_options(dry_run).overwrite,
        !leaf_options(dry_run).best_effort,
        !leaf_options(dry_run).raw_extents,
        leaf_options(dry_run).dry_run == dry_run,
{
}

impl<'a, D: ApfsImage, S: SnapshotSource<D>, C: Codec> Attempting<'a, D, S, C> {
    /// An attempt is recorded with its snapshot, its path and its object: one that failed
    /// with the code and the message of its error and no bytes, one that was incomplete as
    /// such and with what was removed, one that ended well without any error.
    pub proof fn law_attempts_are_recorded(
        &self,
        source_path: Seq<char>,
        fsoid: u64,
        status: Seq<char>,
        bytes: u64,
        note: Option<Seq<char>>,
        error: ErrorView,
        eligible: bool,
    )
        ensures
            ({
                let a = self.failed(source_path, Some(fsoid), error, eligible);
                &&& a.snapshot_xid == self.snapshot_xid
                &&& a.snapshot_name == opt_text(*self.snapshot_name)
                &&& a.source_path == source_path
                &&& a.fsoid == Some(fsoid)
                &&& a.status == "error"@
                &&& a.bytes == 0
                &&& a.note is None
                &&& a.error_code == Some(error.kind.spec_code())
                &&& a.error_message == Some(error.message)
                &&& a.fallback_eligible == eligible
            }),
            ({
                let a = self.ended(source_path, fsoid, status, bytes, note);
                &&& a.snapshot_xid == self.snapshot_xid
                &&& a.snapshot_name == opt_text(*self.snapshot_name)
                &&& a.source_path == source_path
                &&& a.fsoid == Some(fsoid)
                &&& a.status == status
                &&& a.bytes == bytes
                &&& a.note == note
                &&& a.error_code is None
                &&& a.error_message is None
                &&& !a.fallback_eligible
            }),
            ({
                let a = self.incomplete(source_path, fsoid, status, bytes, note);
                &&& a.snapshot_xid == self.snapshot_xid
                &&& a.snapshot_name == opt_text(*self.snapshot_name)
                &&& a.source_path == source_path
                &&& a.fsoid == Some(fsoid)
                &&& a.status == status
                &&& a.bytes == bytes
                &&& note is None ==> a.note == Some("partial staging output was removed"@)
                &&& note matches Some(text) ==> a.note == Some(
                    text + "; partial staging output was removed"@,
                )
                &&& a.error_code == Some("partial-recovery"@)
                &&& a.fallback_eligible
            }),
    {
    }

    /// A leaf that was put in its place is recorded as recovered; where it has more than one
    /// name and is the first of its object, its place is kept for the others. One that could
    /// not be put there is an error that no older snapshot can mend.
    pub proof fn law_placed_leaf_is_recovered(
        &self,
        source_path: Seq<char>,
        fsoid: u64,
        inode: &Inode,
        staging: Seq<char>,
        target: Seq<char>,
        result: FileResultView,
        before: LeafState,
        after: LeafState,
        r: Result<Attempt, Error>,
    )
        requires
            self.placed(source_path, fsoid, inode, staging, target, result, before, after, r),
        ensures
            r matches Ok(attempt) && {
                let a = attempt@;
                ||| {
                    &&& a.status == "recovered"@
                    &&& a.bytes == result.bytes
                    &&& a.note == result.note
                    &&& a.fsoid == Some(fsoid)
                    &&& a.source_path == source_path
                    &&& inode.nchildren_or_nlink >= 2 && !before.links.contains_key(fsoid)
                        ==> after.links == before.links.insert(fsoid, target)
                    &&& inode.nchildren_or_nlink <= 1 || before.links.contains_key(fsoid)
                        ==> after.links == before.links
                }
                ||| {
                    &&& a.status == "error"@
                    &&& !a.fallback_eligible
                    &&& after.links == before.links
                    &&& after.log.len() > before.log.len()
                    &&& after.log[after.log.len() - 1] matches Event::Remove { path, .. } && path
                        == staging
                }
            },
    {
        let attempt = r->Ok_0@;
        let (placed, mid) = choose|placed: Result<(), Error>, mid: Seq<Event>| #[trigger]
            staging_installed(staging, target, self.opts.overwrite, before.log, mid, placed)
                && match placed {
                Err(error) => {
                    &&& self.cleared(staging, mid, after.log)
                    &&& after.links == before.links
                    &&& attempt == self.failed(source_path, Some(fsoid), error@, false)
                },
                Ok(_) => {
                    &&& after.log == mid
                    &&& after.links == if inode.nchildren_or_nlink > 1 {
                        first_kept(before.links, fsoid, target)
                    } else {
                        before.links
                    }
                    &&& attempt == self.ended(
                        source_path,
                        fsoid,
                        "recovered"@,
                        result.bytes,
                        result.note,
                    )
                },
            };
        if placed is Err {
            law_installing_only_adds(staging, target, self.opts.overwrite, before.log, mid, placed);
        }
    }

    /// A leaf with more than one name that was put somewhere before is given a second name
    /// there, if it still stands; any other is written anew.
    pub proof fn law_second_name_is_tried_first(
        &self,
        source_path: Seq<char>,
        fsoid: u64,
        inode: &Inode,
        records: Seq<Record>,
        staging: Seq<char>,
        target: Seq<char>,
        before: LeafState,
        after: LeafState,
        r: Result<Attempt, Error>,
    )
        requires
            self.linked_or_staged(
                source_path,
                fsoid,
                inode,
                records,
                staging,
                target,
                before,
                after,
                r,
            ),
        ensures
            inode.nchildren_or_nlink <= 1 || !before.links.contains_key(fsoid) ==> self.staged(
                source_path,
                fsoid,
                inode,
                records,
                staging,
                target,
                before,
                after,
                r,
            ),
            inode.nchildren_or_nlink >= 2 && before.links.contains_key(fsoid) ==> exists|
                standing: Result<Standing, Error>,
                mid: Seq<Event>,
            |
                {
                    &&& #[trigger] did(
                        before.log,
                        Event::Standing { path: before.links[fsoid], reply: standing },
                        mid,
                    )
                    &&& standing is Err || standing == Ok::<Standing, Error>(Standing::Nothing)
                        || exists|linked: Result<(), Error>, to: Seq<Event>| #[trigger]
                        did(
                            mid,
                            Event::HardLink {
                                first: before.links[fsoid],
                                path: staging,
                                reply: linked,
                            },
                            to,
                        ) && (linked is Ok ==> r is Ok && (r->Ok_0@.status == "recovered"@
                            ==> r->Ok_0@.bytes == 0 && r->Ok_0@.note == Some(
                            "hardlink to an earlier manifest output"@,
                        )))
                },
    {
        if inode.nchildren_or_nlink >= 2 && before.links.contains_key(fsoid) {
            let first = before.links[fsoid];
            let (made, to) = choose|made: bool, mid: Seq<Event>| #[trigger]
                self.second_name(first, staging, before.log, mid, made) && if made {
                    r matches Ok(attempt) && self.put_in_place(
                        source_path,
                        fsoid,
                        false,
                        staging,
                        target,
                        0,
                        Some("hardlink to an earlier manifest output"@),
                        leaf_state(before.links, mid),
                        after,
                        attempt@,
                    )
                } else {
                    self.cleared_and_staged(
                        source_path,
                        fsoid,
                        inode,
                        records,
                        staging,
                        target,
                        leaf_state(before.links, mid),
                        after,
                        r,
                    )
                };
            let (standing, mid) = choose|standing: Result<Standing, Error>, mid: Seq<Event>|
                #[trigger]
                did(before.log, Event::Standing { path: first, reply: standing }, mid)
                    && if standing is Ok && standing->Ok_0 != Standing::Nothing {
                    self.linked_again(first, staging, mid, to, made)
                } else {
                    to == mid && !made
                };
            if standing is Ok && standing->Ok_0 != Standing::Nothing {
                let linked = choose|linked: Result<(), Error>| #[trigger]
                    did(mid, Event::HardLink { first, path: staging, reply: linked }, to) && made
                        == linked is Ok;
                reveal_strlit("recovered");
                reveal_strlit("error");
                assert("recovered"@.len() != "error"@.len());
                assert(did(mid, Event::HardLink { first, path: staging, reply: linked }, to));
            }
        }
    }

    /// Where the path leads to another object than the row names, a first attempt ends with
    /// an error and asks nothing of the destination; older snapshots stay open. A later
    /// attempt does not compare them.
    pub proof fn law_first_attempt_is_held_to_its_object(
        &self,
        row: RowView,
        primary: bool,
        number: u64,
        source_path: Seq<char>,
        fsoid: u64,
        target: Seq<char>,
        before: LeafState,
        after: LeafState,
        r: Result<Attempt, Error>,
    )
        requires
            self.resolved_attempted(
                row,
                primary,
                number,
                source_path,
                fsoid,
                target,
                before,
                after,
                r,
            ),
        ensures
            primary && row.expected_fsoid is Some && row.expected_fsoid->Some_0 != fsoid ==> after
                == before && (r matches Err(error) && error.kind == ErrorKind::Corrupt),
            !primary || row.expected_fsoid is None || row.expected_fsoid->Some_0 == fsoid
                ==> exists|reply: Result<Vec<Record>, Error>| #[trigger]
                self.vol.asked(self.bt, fsoid, reply) && (reply matches Err(error) ==> after
                    == before && is_failed(r, error@)),
    {
    }
}

impl<'a, D: ApfsImage, S: SnapshotSource<D>, C: Codec> Attempting<'a, D, S, C> {
    /// What was written for a symbolic link is looked at. Only a link is put in its place;
    /// anything else is removed again, and the attempt is corrupt.
    pub proof fn law_only_a_link_is_placed_for_a_link(
        &self,
        source_path: Seq<char>,
        fsoid: u64,
        inode: &Inode,
        staging: Seq<char>,
        target: Seq<char>,
        result: FileResultView,
        before: LeafState,
        after: LeafState,
        r: Result<Attempt, Error>,
    )
        requires
            self.link_placed(
                source_path,
                fsoid,
                inode,
                staging,
                target,
                result,
                before,
                after,
                r,
            ),
        ensures
            exists|standing: Result<Standing, Error>, mid: Seq<Event>|
                {
                    &&& #[trigger] did(
                        before.log,
                        Event::Standing { path: staging, reply: standing },
                        mid,
                    )
                    &&& standing is Ok && standing->Ok_0 is Link ==> self.placed(
                        source_path,
                        fsoid,
                        inode,
                        staging,
                        target,
                        result,
                        LeafState { links: before.links, log: mid },
                        after,
                        r,
                    )
                    &&& !(standing is Ok && standing->Ok_0 is Link) ==> after.links == before.links
                        && after.log.len() == before.log.len() + 2 && (
                    after.log[before.log.len() as int + 1] matches Event::Remove { path, .. }
                        && path == staging) && (r matches Err(error) && error.kind
                        == ErrorKind::Corrupt)
                },
    {
        let (linked, mid) = choose|linked: bool, mid: Seq<Event>| #[trigger]
            self.is_link(staging, before.log, mid, linked) && if linked {
                self.placed(
                    source_path,
                    fsoid,
                    inode,
                    staging,
                    target,
                    result,
                    leaf_state(before.links, mid),
                    after,
                    r,
                )
            } else {
                &&& self.cleared(staging, mid, after.log)
                &&& after.links == before.links
                &&& is_failed(r, not_a_link())
            };
        let standing = choose|standing: Result<Standing, Error>| #[trigger]
            did(before.log, Event::Standing { path: staging, reply: standing }, mid) && linked == (
            standing == Ok::<Standing, Error>(Standing::Link));
        assert(did(before.log, Event::Standing { path: staging, reply: standing }, mid));
    }

    /// A leaf for which no name can be had next to its target ends in an error that no older
    /// snapshot can mend.
    pub proof fn law_leaf_without_a_staging_name_fails(
        &self,
        row: RowView,
        number: u64,
        source_path: Seq<char>,
        fsoid: u64,
        inode: &Inode,
        records: Seq<Record>,
        target: Seq<char>,
        before: LeafState,
        after: LeafState,
        r: Result<Attempt, Error>,
    )
        requires
            !self.opts.dry_run,
            self.leaf_attempted(
                row,
                number,
                source_path,
                fsoid,
                inode,
                records,
                target,
                before,
                after,
                r,
            ),
        ensures
            exists|found: Result<String, Error>, mid: Seq<Event>|
                {
                    &&& #[trigger] staging_found(target, row.line, number, before.log, mid, found)
                    &&& found is Err ==> after.log == mid && after.links == before.links && (r
                        matches Ok(attempt) && attempt@.status == "error"@ && attempt@.fsoid
                        == Some(fsoid) && !attempt@.fallback_eligible && attempt@.error_message
                        == Some(found->Err_0@.message))
                    &&& found is Ok ==> self.linked_or_staged(
                        source_path,
                        fsoid,
                        inode,
                        records,
                        found->Ok_0@,
                        target,
                        LeafState { links: before.links, log: mid },
                        after,
                        r,
                    )
                },
    {
        let (found, mid) = choose|found: Result<String, Error>, mid: Seq<Event>| #[trigger]
            staging_found(target, row.line, number, before.log, mid, found) && match found {
                Err(error) => after == leaf_state(before.links, mid) && (r matches Ok(attempt)
                    && attempt@ == self.failed(source_path, Some(fsoid), error@, false)),
                Ok(staging) => self.linked_or_staged(
                    source_path,
                    fsoid,
                    inode,
                    records,
                    staging@,
                    target,
                    leaf_state(before.links, mid),
                    after,
                    r,
                ),
            };
        assert(staging_found(target, row.line, number, before.log, mid, found));
    }

    /// An object is attempted only as a file or a symbolic link, and as what its row expects.
    /// Otherwise nothing is asked of the destination: without an inode it is not found, of
    /// another kind it is not supported, and of another type than expected it is corrupt.
    pub proof fn law_only_expected_leaves_are_attempted(
        &self,
        row: RowView,
        number: u64,
        source_path: Seq<char>,
        fsoid: u64,
        records: Seq<Record>,
        found: Option<Inode>,
        target: Seq<char>,
        before: LeafState,
        after: LeafState,
        r: Result<Attempt, Error>,
    )
        requires
            self.object_attempted(
                row,
                number,
                source_path,
                fsoid,
                records,
                Ok(found),
                target,
                before,
                after,
                r,
            ),
        ensures
            found is None ==> after == before && (r matches Err(error) && error.kind
                == ErrorKind::ObjectNotFound),
            found matches Some(inode) ==> {
                let wanted = row.expected_type;
                let fits = wanted is None || (inode.kind is Regular && wanted == Some("file"@)) || (
                inode.kind is Symlink && wanted == Some("symlink"@));
                let leaf = inode.kind is Regular || inode.kind is Symlink;
                &&& !leaf ==> after == before && (r matches Err(error) && error.kind
                    == ErrorKind::UnsupportedFeature)
                &&& leaf && !fits ==> after == before && (r matches Err(error) && error.kind
                    == ErrorKind::Corrupt)
                &&& leaf && fits ==> self.leaf_attempted(
                    row,
                    number,
                    source_path,
                    fsoid,
                    &inode,
                    records,
                    target,
                    before,
                    after,
                    r,
                )
            },
    {
    }
}

} // verus!
