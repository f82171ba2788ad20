//! Where the leaves of a run go, and how a finished leaf is put in its place.
use crate::destination::{Destination, Standing, MAX_COLLISIONS};
use crate::error::{failure, is_failed, Error, ErrorKind, ErrorView};
use crate::journal::{did, only_adds_events, Event, Journal};
use crate::recover::{join_path, path_in};
use crate::text::{
    dec, law_parts_make_up_the_text, law_written_numbers_read_back, parts, push_dec,
    split_at_slashes, starts_with, str_eq, texts,
};
use vstd::prelude::*;

verus! {

// ---------------------------------------------------------------------------
// Staging names
// ---------------------------------------------------------------------------

/// Name `n` for the staging leaf of attempt `attempt` on line `line`.
pub open spec fn staging_name(process: u32, line: u64, attempt: u64, n: int) -> Seq<char> {
    "_com.apfsrelic.recover_manifest_"@ + dec(process as nat) + "_"@ + dec(line as nat) + "_"@
        + dec(attempt as nat) + "_"@ + dec(n as nat)
}

fn staging_name_text(process: u32, line: u64, attempt: u64, n: u32) -> (r: String)
    ensures
        r@ == staging_name(process, line, attempt, n as int),
{
    let mut name = "_com.apfsrelic.recover_manifest_".to_owned();
    push_dec(&mut name, process as u64);
    name.append("_");
    push_dec(&mut name, line);
    name.append("_");
    push_dec(&mut name, attempt);
    name.append("_");
    push_dec(&mut name, n as u64);
    name
}

/// The error of a target that no directory holds.
pub open spec fn no_parent(target: Seq<char>) -> ErrorView {
    failure(ErrorKind::Usage, "output target `"@ + target + "` has no parent"@)
}

/// The error of a target beside which all names are taken.
pub open spec fn no_staging_name(target: Seq<char>) -> ErrorView {
    failure(ErrorKind::Io, "could not allocate a staging name beside `"@ + target + "`"@)
}

/// `r` is what looking at the candidate path `path` gives: the path where it is free,
/// nothing where it is taken.
pub open spec fn candidate_seen(
    path: Seq<char>,
    at: Seq<Event>,
    to: Seq<Event>,
    r: Result<Option<String>, Error>,
) -> bool {
    exists|standing: Result<Standing, Error>| #[trigger]
        did(at, Event::Standing { path, reply: standing }, to) && match standing {
            Err(error) => is_failed(r, error@),
            Ok(Standing::Nothing) => r matches Ok(Some(free)) && free@ == path,
            Ok(_) => r matches Ok(free) && free is None,
        }
}

fn look_at_candidate<O: Destination>(dest: &mut Journal<O>, path: String) -> (r: Result<
    Option<String>,
    Error,
>)
    ensures
        final(dest).dest() == old(dest).dest(),
        candidate_seen(path@, old(dest)@, final(dest)@, r),
{
    let standing = dest.standing(path.as_str());
    match standing {
        Err(error) => Err(error),
        Ok(Standing::Nothing) => Ok(Some(path)),
        Ok(_) => Ok(None),
    }
}

/// `r` is what trying one staging name after the other from name `n` on gives.
pub open spec fn staging_tried(
    target: Seq<char>,
    process: u32,
    line: u64,
    attempt: u64,
    n: int,
    at: Seq<Event>,
    to: Seq<Event>,
    r: Result<String, Error>,
) -> bool
    decreases MAX_COLLISIONS - n, 1int,
{
    if n >= MAX_COLLISIONS {
        to == at && is_failed(r, no_staging_name(target))
    } else {
        exists|candidate: Option<String>, mid: Seq<Event>| #[trigger]
            did(
                at,
                Event::Beside {
                    path: target,
                    name: staging_name(process, line, attempt, n),
                    reply: candidate,
                },
                mid,
            ) && match candidate {
                None => to == mid && is_failed(r, no_parent(target)),
                Some(path) => candidate_tried(
                    target,
                    process,
                    line,
                    attempt,
                    n,
                    path@,
                    mid,
                    to,
                    r,
                ),
            }
    }
}

/// `r` is what trying the staging names from name `n` on gives, which stands for
/// `path`.
pub open spec fn candidate_tried(
    target: Seq<char>,
    process: u32,
    line: u64,
    attempt: u64,
    n: int,
    path: Seq<char>,
    at: Seq<Event>,
    to: Seq<Event>,
    r: Result<String, Error>,
) -> bool
    decreases MAX_COLLISIONS - n, 0int,
{
    exists|free: Result<Option<String>, Error>, mid: Seq<Event>| #[trigger]
        candidate_seen(path, at, mid, free) && match free {
            Err(error) => to == mid && is_failed(r, error@),
            Ok(Some(free)) => to == mid && r == Ok::<String, Error>(free),
            Ok(None) => n < MAX_COLLISIONS && staging_tried(
                target,
                process,
                line,
                attempt,
                n + 1,
                mid,
                to,
                r,
            ),
        }
}

fn try_staging<O: Destination>(
    dest: &mut Journal<O>,
    target: &str,
    process: u32,
    line: u64,
    attempt: u64,
    n: u32,
) -> (r: Result<String, Error>)
    requires
        n <= MAX_COLLISIONS,
    ensures
        final(dest).dest() == old(dest).dest(),
        staging_tried(
            target@,
            process,
            line,
            attempt,
            n as int,
            old(dest)@,
            final(dest)@,
            r,
        ),
    decreases MAX_COLLISIONS - n,
{
    if n >= MAX_COLLISIONS {
        let mut message = "could not allocate a staging name beside `".to_owned();
        message.append(target);
        message.append("`");
        return Err(Error::new(ErrorKind::Io, message));
    }
    let text = staging_name_text(process, line, attempt, n);
    let candidate = dest.beside(target, text.as_str());
    let ghost given = candidate;
    let ghost mid = dest@;
    proof {
        assert(did(
            old(dest)@,
            Event::Beside {
                path: target@,
                name: staging_name(process, line, attempt, n as int),
                reply: given,
            },
            mid,
        ));
    }
    let path = match candidate {
        None => {
            let mut message = "output target `".to_owned();
            message.append(target);
            message.append("` has no parent");
            return Err(Error::new(ErrorKind::Usage, message));
        },
        Some(path) => path,
    };
    let ghost place = path@;
    let free = look_at_candidate(dest, path);
    let ghost seen = free;
    let ghost looked = dest@;
    let r = match free {
        Err(error) => Err(error),
        Ok(Some(free)) => Ok(free),
        Ok(None) => try_staging(dest, target, process, line, attempt, n + 1),
    };
    proof {
        assert(candidate_seen(place, mid, looked, seen));
        assert(candidate_tried(
            target@,
            process,
            line,
            attempt,
            n as int,
            place,
            mid,
            dest@,
            r,
        ));
    }
    r
}

/// `r` is a free name beside `target` for an attempt on a line.
pub open spec fn staging_found(
    target: Seq<char>,
    line: u64,
    attempt: u64,
    at: Seq<Event>,
    to: Seq<Event>,
    r: Result<String, Error>,
) -> bool {
    exists|process: u32, mid: Seq<Event>| #[trigger]
        did(at, Event::ProcessId { reply: process }, mid) && staging_tried(
            target,
            process,
            line,
            attempt,
            0,
            mid,
            to,
            r,
        )
}

/// Finds a free name beside `target` for an attempt on a line.
pub fn staging_path<O: Destination>(
    dest: &mut Journal<O>,
    target: &str,
    line: u64,
    attempt: u64,
) -> (r: Result<String, Error>)
    ensures
        final(dest).dest() == old(dest).dest(),
        staging_found(target@, line, attempt, old(dest)@, final(dest)@, r),
{
    let process: u32 = dest.process_id();
    try_staging(dest, target, process, line, attempt, 0)
}

// ---------------------------------------------------------------------------
// Putting a leaf in its place
// ---------------------------------------------------------------------------

/// The error of a directory in the place of a leaf.
pub open spec fn is_directory(target: Seq<char>) -> ErrorView {
    failure(ErrorKind::Usage, "refusing to replace directory `"@ + target + "`"@)
}

/// `r` is the result of moving a finished leaf over whatever stands at `target`, but
/// for a directory.
pub open spec fn leaf_moved(
    staging: Seq<char>,
    target: Seq<char>,
    at: Seq<Event>,
    to: Seq<Event>,
    r: Result<(), Error>,
) -> bool {
    exists|standing: Result<Standing, Error>, mid: Seq<Event>| #[trigger]
        did(at, Event::Standing { path: target, reply: standing }, mid) && if standing == Ok::<
            Standing,
            Error,
        >(Standing::Dir) {
            to == mid && is_failed(r, is_directory(target))
        } else {
            did(mid, Event::Rename { from: staging, to: target, reply: r }, to)
        }
}

/// `named` is the result of giving a finished leaf the name `target`, which must be
/// free.
pub open spec fn leaf_named(
    staging: Seq<char>,
    target: Seq<char>,
    at: Seq<Event>,
    to: Seq<Event>,
    named: Result<(), Error>,
) -> bool {
    exists|standing: Result<Standing, Error>, mid: Seq<Event>| #[trigger]
        did(at, Event::Standing { path: staging, reply: standing }, mid) && match standing {
            Err(error) => to == mid && is_failed(named, error@),
            Ok(Standing::Link) => did(
                mid,
                Event::CopyLink { from: staging, to: target, reply: named },
                to,
            ),
            Ok(_) => did(mid, Event::HardLink { first: staging, path: target, reply: named }, to),
        }
}

/// `r` is the result of taking the staging name from a leaf that has the name
/// `target` by now. Where it stays, `target` is taken away again.
pub open spec fn staging_removed(
    staging: Seq<char>,
    target: Seq<char>,
    at: Seq<Event>,
    to: Seq<Event>,
    r: Result<(), Error>,
) -> bool {
    exists|gone: Result<(), Error>, mid: Seq<Event>| #[trigger]
        did(at, Event::Remove { path: staging, reply: gone }, mid) && match gone {
            Ok(_) => to == mid && r is Ok,
            Err(error) => is_failed(r, error@) && target_removed(target, mid, to),
        }
}

/// `target` was taken away again, whatever came of that.
pub open spec fn target_removed(target: Seq<char>, at: Seq<Event>, to: Seq<Event>) -> bool {
    exists|undone: Result<(), Error>| #[trigger]
        did(at, Event::Remove { path: target, reply: undone }, to)
}

/// `r` is the result of putting a finished leaf at `target`. Without leave to
/// overwrite, the name is made anew, so that nothing that came to stand there is
/// ever replaced; and it is taken away again where the staging name stays.
pub open spec fn staging_installed(
    staging: Seq<char>,
    target: Seq<char>,
    overwrite: bool,
    at: Seq<Event>,
    to: Seq<Event>,
    r: Result<(), Error>,
) -> bool {
    if overwrite {
        leaf_moved(staging, target, at, to, r)
    } else {
        exists|named: Result<(), Error>, mid: Seq<Event>| #[trigger]
            leaf_named(staging, target, at, mid, named) && match named {
                Err(error) => to == mid && is_failed(r, error@),
                Ok(_) => staging_removed(staging, target, mid, to, r),
            }
    }
}

fn move_leaf<O: Destination>(dest: &mut Journal<O>, staging: &str, target: &str) -> (r: Result<
    (),
    Error,
>)
    ensures
        final(dest).dest() == old(dest).dest(),
        leaf_moved(staging@, target@, old(dest)@, final(dest)@, r),
{
    let standing = dest.standing(target);
    let is_dir = match &standing {
        Ok(found) => *found == Standing::Dir,
        Err(_) => false,
    };
    if is_dir {
        let mut message = "refusing to replace directory `".to_owned();
        message.append(target);
        message.append("`");
        return Err(Error::new(ErrorKind::Usage, message));
    }
    dest.rename(staging, target)
}

fn name_leaf<O: Destination>(dest: &mut Journal<O>, staging: &str, target: &str) -> (r: Result<
    (),
    Error,
>)
    ensures
        final(dest).dest() == old(dest).dest(),
        leaf_named(staging@, target@, old(dest)@, final(dest)@, r),
{
    let standing = dest.standing(staging);
    match standing {
        Err(error) => Err(error),
        Ok(Standing::Link) => dest.copy_link(staging, target),
        Ok(_) => dest.hard_link(staging, target),
    }
}

fn remove_staging<O: Destination>(dest: &mut Journal<O>, staging: &str, target: &str) -> (r: Result<
    (),
    Error,
>)
    ensures
        final(dest).dest() == old(dest).dest(),
        staging_removed(staging@, target@, old(dest)@, final(dest)@, r),
{
    let gone = dest.remove(staging);
    match gone {
        Ok(_) => Ok(()),
        Err(error) => {
            let ghost mid = dest@;
            let _undone = dest.remove(target);
            proof {
                assert(target_removed(target@, mid, dest@));
            }
            Err(error)
        },
    }
}

/// Puts a finished leaf at `target`.
pub fn install_staging<O: Destination>(
    dest: &mut Journal<O>,
    staging: &str,
    target: &str,
    overwrite: bool,
) -> (r: Result<(), Error>)
    ensures
        final(dest).dest() == old(dest).dest(),
        staging_installed(staging@, target@, overwrite, old(dest)@, final(dest)@, r),
{
    if overwrite {
        return move_leaf(dest, staging, target);
    }
    let named = name_leaf(dest, staging, target);
    let ghost given = named;
    proof {
        assert(leaf_named(staging@, target@, old(dest)@, dest@, given));
    }
    match named {
        Err(error) => Err(error),
        Ok(_) => remove_staging(dest, staging, target),
    }
}

// ---------------------------------------------------------------------------
// The output root
// ---------------------------------------------------------------------------

/// What is made of the output root, by what stands there.
pub open spec fn root_error(standing: Standing) -> Option<ErrorView> {
    match standing {
        Standing::Link => Some(
            failure(ErrorKind::Usage, "output root must not itself be a symbolic link"@),
        ),
        Standing::Other => Some(
            failure(ErrorKind::Usage, "output root exists but is not a directory"@),
        ),
        _ => None,
    }
}

/// `r` is the output root at the absolute path `path`, which was just made.
pub open spec fn root_entered(
    path: Seq<char>,
    at: Seq<Event>,
    to: Seq<Event>,
    r: Result<String, Error>,
) -> bool {
    exists|standing: Result<Standing, Error>, mid: Seq<Event>| #[trigger]
        did(at, Event::Standing { path, reply: standing }, mid) && match standing {
            Err(error) => to == mid && is_failed(r, error@),
            Ok(Standing::Dir) => did(mid, Event::Canonical { path, reply: r }, to),
            Ok(_) => to == mid && is_failed(
                r,
                failure(ErrorKind::Usage, "created output root is not a real directory"@),
            ),
        }
}

/// `r` is the output root at the absolute path `path`, made where it is missing.
pub open spec fn root_made(
    path: Seq<char>,
    at: Seq<Event>,
    to: Seq<Event>,
    r: Result<String, Error>,
) -> bool {
    exists|made: Result<(), Error>, mid: Seq<Event>| #[trigger]
        did(at, Event::MakeDirs { path, reply: made }, mid) && match made {
            Err(error) => to == mid && is_failed(r, error@),
            Ok(_) => root_entered(path, mid, to, r),
        }
}

/// `r` is the output root at the absolute path `path`.
pub open spec fn root_found(
    path: Seq<char>,
    dry_run: bool,
    at: Seq<Event>,
    to: Seq<Event>,
    r: Result<String, Error>,
) -> bool {
    exists|standing: Result<Standing, Error>, mid: Seq<Event>| #[trigger]
        did(at, Event::Standing { path, reply: standing }, mid) && match standing {
            Err(error) => to == mid && is_failed(r, error@),
            Ok(found) => match root_error(found) {
                Some(error) => to == mid && is_failed(r, error),
                None => if found == Standing::Dir {
                    did(mid, Event::Canonical { path, reply: r }, to)
                } else if dry_run {
                    to == mid && (r matches Ok(root) && root@ == path)
                } else {
                    root_made(path, mid, to, r)
                },
            },
        }
}

/// `r` is the output root that `path` names.
pub open spec fn root_prepared(
    path: Seq<char>,
    dry_run: bool,
    at: Seq<Event>,
    to: Seq<Event>,
    r: Result<String, Error>,
) -> bool {
    if path.len() == 0 {
        to == at && is_failed(r, failure(ErrorKind::Usage, "output root is empty"@))
    } else {
        exists|absolute: Result<String, Error>, mid: Seq<Event>| #[trigger]
            did(at, Event::Absolute { path, reply: absolute }, mid) && match absolute {
                Err(error) => to == mid && is_failed(r, error@),
                Ok(full) => root_found(full@, dry_run, mid, to, r),
            }
    }
}

fn make_root<O: Destination>(dest: &mut Journal<O>, path: &str) -> (r: Result<String, Error>)
    ensures
        final(dest).dest() == old(dest).dest(),
        root_made(path@, old(dest)@, final(dest)@, r),
{
    let made = dest.make_dirs(path);
    match made {
        Err(error) => return Err(error),
        Ok(_) => {},
    }
    let ghost mid = dest@;
    let standing = dest.standing(path);
    let r = match standing {
        Err(error) => Err(error),
        Ok(Standing::Dir) => dest.canonical(path),
        Ok(_) => Err(
            Error::fixed(ErrorKind::Usage, "created output root is not a real directory"),
        ),
    };
    proof {
        assert(root_entered(path@, mid, dest@, r));
    }
    r
}

fn find_root<O: Destination>(dest: &mut Journal<O>, path: &str, dry_run: bool) -> (r: Result<
    String,
    Error,
>)
    ensures
        final(dest).dest() == old(dest).dest(),
        root_found(path@, dry_run, old(dest)@, final(dest)@, r),
{
    let standing = dest.standing(path);
    match standing {
        Err(error) => Err(error),
        Ok(Standing::Link) => Err(
            Error::fixed(ErrorKind::Usage, "output root must not itself be a symbolic link"),
        ),
        Ok(Standing::Other) => Err(
            Error::fixed(ErrorKind::Usage, "output root exists but is not a directory"),
        ),
        Ok(Standing::Dir) => dest.canonical(path),
        Ok(Standing::Nothing) => {
            if dry_run {
                Ok(path.to_owned())
            } else {
                make_root(dest, path)
            }
        },
    }
}

/// Finds the output root, and makes it unless nothing is to be written. A link is
/// refused.
pub fn prepare_output_root<O: Destination>(dest: &mut Journal<O>, path: &str, dry_run: bool) -> (r:
    Result<String, Error>)
    ensures
        final(dest).dest() == old(dest).dest(),
        root_prepared(path@, dry_run, old(dest)@, final(dest)@, r),
{
    proof {
        reveal_strlit("");
        if path@.len() == 0 {
            assert(path@ =~= ""@);
        }
    }
    if str_eq(path, "") {
        return Err(Error::fixed(ErrorKind::Usage, "output root is empty"));
    }
    match dest.absolute(path) {
        Err(error) => Err(error),
        Ok(full) => find_root(dest, full.as_str(), dry_run),
    }
}

// ---------------------------------------------------------------------------
// Targets
// ---------------------------------------------------------------------------

/// One step along a path: a name, or something else (the root, the directory
/// itself or the one above).
#[derive(Debug)]
pub enum Component {
    Normal(String),
    Other,
}

/// The content of a step: its name, if it has one.
pub open spec fn component_view(component: Component) -> Option<Seq<char>> {
    match component {
        Component::Normal(name) => Some(name@),
        Component::Other => None,
    }
}

/// The contents of a list of steps.
pub open spec fn component_views(list: Seq<Component>) -> Seq<Option<Seq<char>>> {
    Seq::new(list.len(), |i: int| component_view(list[i]))
}

/// The step that part `i` of `n` stands for, if it is one. Empty parts and the
/// directory itself are none, but at the start of a path.
pub open spec fn step_of(part: Seq<char>, i: int, n: int) -> Option<Option<Seq<char>>> {
    if part.len() == 0 {
        if i == 0 && n > 1 {
            Some(None)
        } else {
            None
        }
    } else if part == "."@ {
        if i == 0 {
            Some(None)
        } else {
            None
        }
    } else if part == ".."@ {
        Some(None)
    } else {
        Some(Some(part))
    }
}

/// The steps that the first `i` parts of a path stand for.
pub open spec fn steps(list: Seq<Seq<char>>, i: int) -> Seq<Option<Seq<char>>>
    decreases i,
{
    if i <= 0 {
        Seq::empty()
    } else {
        match step_of(list[i - 1], i - 1, list.len() as int) {
            Some(step) => steps(list, i - 1).push(step),
            None => steps(list, i - 1),
        }
    }
}

/// The steps along a path.
pub open spec fn components_of(path: Seq<char>) -> Seq<Option<Seq<char>>> {
    steps(parts(path), parts(path).len() as int)
}

/// Splits a path into its steps.
pub fn components(path: &str) -> (r: Vec<Component>)
    ensures
        component_views(r@) == components_of(path@),
{
    let list = split_at_slashes(path);
    let mut out: Vec<Component> = Vec::new();
    let mut i: usize = 0;
    proof {
        assert(component_views(out@) =~= Seq::empty());
    }
    while i < list.len()
        invariant
            i <= list@.len(),
            texts(list@) == parts(path@),
            component_views(out@) == steps(parts(path@), i as int),
        decreases list@.len() - i,
    {
        let part = list[i].as_str();
        let ghost before = out@;
        proof {
            assert(texts(list@)[i as int] == part@);
            reveal_strlit("");
            if part@.len() == 0 {
                assert(part@ =~= ""@);
            }
        }
        if str_eq(part, "") {
            if i == 0 && list.len() > 1 {
                out.push(Component::Other);
                proof {
                    assert(component_views(out@) =~= component_views(before).push(None));
                }
            }
        } else if str_eq(part, ".") {
            if i == 0 {
                out.push(Component::Other);
                proof {
                    assert(component_views(out@) =~= component_views(before).push(None));
                }
            }
        } else if str_eq(part, "..") {
            out.push(Component::Other);
            proof {
                assert(component_views(out@) =~= component_views(before).push(None));
            }
        } else {
            out.push(Component::Normal(part.to_owned()));
            proof {
                assert(component_views(out@) =~= component_views(before).push(Some(part@)));
            }
        }
        i += 1;
    }
    out
}

/// The error of a path with a step that is no name.
pub open spec fn not_relative() -> ErrorView {
    failure(
        ErrorKind::Usage,
        "output path must be relative and contain no `.` or `..` components"@,
    )
}

/// Why a directory on the way cannot be used, if it cannot.
pub open spec fn parent_error(path: Seq<char>, standing: Standing) -> Option<ErrorView> {
    match standing {
        Standing::Link => Some(
            failure(
                ErrorKind::Usage,
                "output parent `"@ + path + "` is a symbolic link; refusing boundary escape"@,
            ),
        ),
        Standing::Other => Some(
            failure(ErrorKind::Usage, "output parent `"@ + path + "` is not a directory"@),
        ),
        _ => None,
    }
}

/// `r` is the result of using `path` as a directory on the way: it is there, or it is
/// made, unless nothing is to be written.
pub open spec fn parent_entered(
    path: Seq<char>,
    dry_run: bool,
    at: Seq<Event>,
    to: Seq<Event>,
    r: Result<(), Error>,
) -> bool {
    exists|standing: Result<Standing, Error>, mid: Seq<Event>| #[trigger]
        did(at, Event::Standing { path, reply: standing }, mid) && match standing {
            Err(error) => to == mid && is_failed(r, error@),
            Ok(found) => match parent_error(path, found) {
                Some(error) => to == mid && is_failed(r, error),
                None => if found == Standing::Nothing && !dry_run {
                    did(mid, Event::MakeDir { path, reply: r }, to)
                } else {
                    to == mid && r is Ok
                },
            },
        }
}

fn enter_parent<O: Destination>(dest: &mut Journal<O>, path: &str, dry_run: bool) -> (r: Result<
    (),
    Error,
>)
    ensures
        final(dest).dest() == old(dest).dest(),
        parent_entered(path@, dry_run, old(dest)@, final(dest)@, r),
{
    let standing = dest.standing(path);
    match standing {
        Err(error) => Err(error),
        Ok(Standing::Link) => {
            let mut message = "output parent `".to_owned();
            message.append(path);
            message.append("` is a symbolic link; refusing boundary escape");
            Err(Error::new(ErrorKind::Usage, message))
        },
        Ok(Standing::Other) => {
            let mut message = "output parent `".to_owned();
            message.append(path);
            message.append("` is not a directory");
            Err(Error::new(ErrorKind::Usage, message))
        },
        Ok(Standing::Dir) => Ok(()),
        Ok(Standing::Nothing) => {
            if dry_run {
                Ok(())
            } else {
                dest.make_dir(path)
            }
        },
    }
}

/// `r` is where walking from `base` along the steps from `i` on leads. Every directory
/// on the way is entered before the next step.
pub open spec fn walked(
    list: Seq<Option<Seq<char>>>,
    i: int,
    base: Seq<char>,
    dry_run: bool,
    at: Seq<Event>,
    to: Seq<Event>,
    r: Result<String, Error>,
) -> bool
    decreases list.len() - i, 1int,
{
    if !(0 <= i < list.len()) {
        to == at && is_failed(r, failure(ErrorKind::Usage, "output relative path is empty"@))
    } else {
        match list[i] {
            None => to == at && is_failed(r, not_relative()),
            Some(name) => if i + 1 == list.len() {
                to == at && (r matches Ok(target) && target@ == path_in(base, name))
            } else {
                walked_on(list, i, path_in(base, name), dry_run, at, to, r)
            },
        }
    }
}

/// `r` is where walking along the steps behind step `i` leads, where that step led to
/// the directory `place`.
pub open spec fn walked_on(
    list: Seq<Option<Seq<char>>>,
    i: int,
    place: Seq<char>,
    dry_run: bool,
    at: Seq<Event>,
    to: Seq<Event>,
    r: Result<String, Error>,
) -> bool
    decreases list.len() - i, 0int,
{
    exists|entered: Result<(), Error>, mid: Seq<Event>| #[trigger]
        parent_entered(place, dry_run, at, mid, entered) && match entered {
            Err(error) => to == mid && is_failed(r, error@),
            Ok(_) => i < list.len() && walked(list, i + 1, place, dry_run, mid, to, r),
        }
}

fn walk<O: Destination>(
    dest: &mut Journal<O>,
    list: &Vec<Component>,
    i: usize,
    base: &str,
    dry_run: bool,
) -> (r: Result<String, Error>)
    requires
        i <= list@.len(),
    ensures
        final(dest).dest() == old(dest).dest(),
        walked(
            component_views(list@),
            i as int,
            base@,
            dry_run,
            old(dest)@,
            final(dest)@,
            r,
        ),
    decreases list@.len() - i,
{
    if i == list.len() {
        return Err(Error::fixed(ErrorKind::Usage, "output relative path is empty"));
    }
    proof {
        assert(component_views(list@)[i as int] == component_view(list@[i as int]));
    }
    match &list[i] {
        Component::Other => Err(
            Error::fixed(
                ErrorKind::Usage,
                "output path must be relative and contain no `.` or `..` components",
            ),
        ),
        Component::Normal(name) => {
            let path = join_path(base, name.as_str());
            if i + 1 == list.len() {
                return Ok(path);
            }
            let place = path.as_str();
            let entered = enter_parent(dest, place, dry_run);
            let ghost given = entered;
            let ghost mid = dest@;
            let r = match entered {
                Err(error) => Err(error),
                Ok(_) => walk(dest, list, i + 1, place, dry_run),
            };
            proof {
                assert(parent_entered(place@, dry_run, old(dest)@, mid, given));
                assert(walked_on(
                    component_views(list@),
                    i as int,
                    place@,
                    dry_run,
                    old(dest)@,
                    dest@,
                    r,
                ));
            }
            r
        },
    }
}

/// Finds the place of a leaf below the output root, and makes the directories that
/// lead there. No link is followed on the way.
pub fn secure_target<O: Destination>(
    dest: &mut Journal<O>,
    root: &str,
    relative: &str,
    dry_run: bool,
) -> (r: Result<String, Error>)
    ensures
        final(dest).dest() == old(dest).dest(),
        walked(components_of(relative@), 0, root@, dry_run, old(dest)@, final(dest)@, r),
{
    let list = components(relative);
    walk(dest, &list, 0, root, dry_run)
}

/// The path that starts at `base` and takes the steps from `i` on, up to `end`.
pub open spec fn path_along(
    base: Seq<char>,
    list: Seq<Option<Seq<char>>>,
    i: int,
    end: int,
) -> Seq<char>
    decreases end - i,
{
    if i >= end {
        base
    } else {
        path_along(path_in(base, list[i]->Some_0), list, i + 1, end)
    }
}

proof fn lemma_walked(
    list: Seq<Option<Seq<char>>>,
    i: int,
    base: Seq<char>,
    dry_run: bool,
    at: Seq<Event>,
    to: Seq<Event>,
    r: Result<String, Error>,
)
    requires
        0 <= i,
        walked(list, i, base, dry_run, at, to, r),
        r is Ok,
    ensures
        r->Ok_0@ == path_along(base, list, i, list.len() as int),
        starts_with(r->Ok_0@, base),
        forall|k: int| i <= k < list.len() ==> (#[trigger] list[k]) is Some,
    decreases list.len() - i,
{
    let name = list[i]->Some_0;
    let next = path_in(base, name);
    reveal_strlit("/");
    assert(next.take(base.len() as int) =~= base);
    if i + 1 == list.len() {
        assert(path_along(next, list, i + 1, list.len() as int) == next);
    } else {
        let (entered, mid) = choose|entered: Result<(), Error>, mid: Seq<Event>| #[trigger]
            parent_entered(next, dry_run, at, mid, entered) && match entered {
                Err(error) => to == mid && is_failed(r, error@),
                Ok(_) => i < list.len() && walked(list, i + 1, next, dry_run, mid, to, r),
            };
        lemma_walked(list, i + 1, next, dry_run, mid, to, r);
        let target = r->Ok_0@;
        assert(target.take(base.len() as int) =~= target.take(next.len() as int).take(
            base.len() as int,
        ));
    }
}

proof fn lemma_steps_are_safe(path: Seq<char>, i: int, k: int)
    requires
        0 <= i <= parts(path).len(),
        0 <= k < steps(parts(path), i).len(),
        steps(parts(path), i)[k] is Some,
    ensures
        ({
            let name = steps(parts(path), i)[k]->Some_0;
            name.len() > 0 && name != "."@ && name != ".."@ && !name.contains('/')
        }),
    decreases i,
{
    if i > 0 {
        let before = steps(parts(path), i - 1);
        if k < before.len() {
            lemma_steps_are_safe(path, i - 1, k);
        } else {
            law_parts_make_up_the_text(path);
            let name = parts(path)[i - 1];
            if name.contains('/') {
                let at = choose|at: int| 0 <= at < name.len() && name[at] == '/';
                assert(parts(path)[i - 1][at] != '/');
            }
        }
    }
}

/// A leaf always goes below the output root: its path is the root's, followed by
/// names only, none of which leads up or has a separator.
pub proof fn law_targets_stay_below_the_root(
    root: Seq<char>,
    relative: Seq<char>,
    dry_run: bool,
    at: Seq<Event>,
    to: Seq<Event>,
    r: Result<String, Error>,
    k: int,
)
    requires
        walked(components_of(relative), 0, root, dry_run, at, to, r),
        r is Ok,
        0 <= k < components_of(relative).len(),
    ensures
        r->Ok_0@ == path_along(
            root,
            components_of(relative),
            0,
            components_of(relative).len() as int,
        ),
        starts_with(r->Ok_0@, root),
        components_of(relative)[k] matches Some(name) && name.len() > 0 && name != "."@ && name
            != ".."@ && !name.contains('/'),
{
    lemma_walked(components_of(relative), 0, root, dry_run, at, to, r);
    lemma_steps_are_safe(relative, parts(relative).len() as int, k);
}

/// `path` is a directory on the way from `base` along the steps from `i` on: behind
/// at least one step, and before the last.
pub open spec fn on_the_path(
    path: Seq<char>,
    base: Seq<char>,
    list: Seq<Option<Seq<char>>>,
    i: int,
) -> bool {
    exists|k: int| i < k < list.len() && path == #[trigger] path_along(base, list, i, k)
}

/// What is asked at place `j` of a journal while a target is sought: what stands at a
/// directory on the way, or, behind the answer that nothing does, to make it. A link
/// ends the search at once.
pub open spec fn asked_on_the_way(
    base: Seq<char>,
    list: Seq<Option<Seq<char>>>,
    i: int,
    dry_run: bool,
    log: Seq<Event>,
    j: int,
    found: bool,
) -> bool {
    match log[j] {
        Event::Standing { path, reply } => {
            &&& on_the_path(path, base, list, i)
            &&& reply == Ok::<Standing, Error>(Standing::Link) ==> j == log.len() - 1 && !found
        },
        Event::MakeDir { path, .. } => {
            &&& on_the_path(path, base, list, i)
            &&& !dry_run
            &&& j > 0 && log[j - 1] == (Event::Standing { path, reply: Ok(Standing::Nothing) })
        },
        _ => false,
    }
}

proof fn lemma_asked_on_the_way(
    list: Seq<Option<Seq<char>>>,
    i: int,
    base: Seq<char>,
    dry_run: bool,
    at: Seq<Event>,
    to: Seq<Event>,
    r: Result<String, Error>,
)
    requires
        0 <= i,
        walked(list, i, base, dry_run, at, to, r),
    ensures
        at.is_prefix_of(to),
        forall|j: int|
            at.len() <= j < to.len() ==> #[trigger] asked_on_the_way(
                base,
                list,
                i,
                dry_run,
                to,
                j,
                r is Ok,
            ),
    decreases list.len() - i,
{
    if i + 1 < list.len() && list[i] is Some {
        let next = path_in(base, list[i]->Some_0);
        let (entered, mid) = choose|entered: Result<(), Error>, mid: Seq<Event>| #[trigger]
            parent_entered(next, dry_run, at, mid, entered) && match entered {
                Err(error) => to == mid && is_failed(r, error@),
                Ok(_) => i < list.len() && walked(list, i + 1, next, dry_run, mid, to, r),
            };
        assert(path_along(next, list, i + 1, i + 1) == next);
        assert(path_along(base, list, i, i + 1) == next);
        assert(on_the_path(next, base, list, i));
        if entered is Ok {
            lemma_asked_on_the_way(list, i + 1, next, dry_run, mid, to, r);
        }
        assert forall|j: int| at.len() <= j < to.len() implies #[trigger] asked_on_the_way(
            base,
            list,
            i,
            dry_run,
            to,
            j,
            r is Ok,
        ) by {
            if j < mid.len() {
                assert(to[j] == mid[j]);
                if j > at.len() {
                    assert(to[j - 1] == mid[j - 1]);
                }
            } else {
                assert(asked_on_the_way(next, list, i + 1, dry_run, to, j, r is Ok));
                let path = match to[j] {
                    Event::Standing { path, .. } => path,
                    Event::MakeDir { path, .. } => path,
                    _ => next,
                };
                let k = choose|k: int|
                    i + 1 < k < list.len() && path == #[trigger] path_along(
                        next,
                        list,
                        i + 1,
                        k,
                    );
                assert(path_along(base, list, i, k) == path);
            }
        }
    }
}

/// Seeking a target asks only what stands at the directories on the way, and makes
/// only those of them of which the answer said that nothing stands there. The target
/// itself is not touched, a link on the way ends the search, and a dry run makes
/// nothing.
pub proof fn law_only_missing_parents_are_made(
    root: Seq<char>,
    relative: Seq<char>,
    dry_run: bool,
    at: Seq<Event>,
    to: Seq<Event>,
    r: Result<String, Error>,
)
    requires
        walked(components_of(relative), 0, root, dry_run, at, to, r),
    ensures
        at.is_prefix_of(to),
        forall|j: int|
            at.len() <= j < to.len() ==> #[trigger] asked_on_the_way(
                root,
                components_of(relative),
                0,
                dry_run,
                to,
                j,
                r is Ok,
            ),
        dry_run ==> only_adds_events(at, to, |event: Event| event.is_question()),
{
    lemma_asked_on_the_way(components_of(relative), 0, root, dry_run, at, to, r);
    assert forall|j: int| at.len() <= j < to.len() && dry_run implies (
    #[trigger] to[j]).is_question() by {
        assert(asked_on_the_way(
            root,
            components_of(relative),
            0,
            dry_run,
            to,
            j,
            r is Ok,
        ));
    }
}

/// In a dry run the output root is only asked about.
pub proof fn law_dry_run_makes_no_root(
    path: Seq<char>,
    at: Seq<Event>,
    to: Seq<Event>,
    r: Result<String, Error>,
)
    requires
        root_prepared(path, true, at, to, r),
    ensures
        only_adds_events(at, to, |event: Event| event.is_question()),
{
}

proof fn lemma_staging_tried(
    target: Seq<char>,
    process: u32,
    line: u64,
    attempt: u64,
    n: int,
    at: Seq<Event>,
    to: Seq<Event>,
    r: Result<String, Error>,
)
    requires
        staging_tried(target, process, line, attempt, n, at, to, r),
    ensures
        only_adds_events(at, to, |event: Event| event.is_question()),
        r matches Ok(free) ==> at.len() + 2 <= to.len() && to.last() == (Event::Standing {
            path: free@,
            reply: Ok(Standing::Nothing),
        }) && (to[to.len() - 2] matches Event::Beside { path, reply: Some(name), .. } && path
            == target && name@ == free@),
    decreases MAX_COLLISIONS - n,
{
    if n < MAX_COLLISIONS {
        let (candidate, mid) = choose|candidate: Option<String>, mid: Seq<Event>| #[trigger]
            did(
                at,
                Event::Beside {
                    path: target,
                    name: staging_name(process, line, attempt, n),
                    reply: candidate,
                },
                mid,
            ) && match candidate {
                None => to == mid && is_failed(r, no_parent(target)),
                Some(path) => candidate_tried(
                    target,
                    process,
                    line,
                    attempt,
                    n,
                    path@,
                    mid,
                    to,
                    r,
                ),
            };
        if candidate is Some {
            let path = candidate->Some_0@;
            let (free, seen) = choose|free: Result<Option<String>, Error>, seen: Seq<Event>| #[trigger]
                candidate_seen(path, mid, seen, free) && match free {
                    Err(error) => to == seen && is_failed(r, error@),
                    Ok(Some(free)) => to == seen && r == Ok::<String, Error>(free),
                    Ok(None) => n < MAX_COLLISIONS && staging_tried(
                        target,
                        process,
                        line,
                        attempt,
                        n + 1,
                        seen,
                        to,
                        r,
                    ),
                };
            if free is Ok && free->Ok_0 is None {
                lemma_staging_tried(target, process, line, attempt, n + 1, seen, to, r);
                assert forall|j: int| at.len() <= j < to.len() implies (
                #[trigger] to[j]).is_question() by {
                    if j < seen.len() {
                        assert(to[j] == seen[j]);
                    }
                }
            }
        }
    }
}

/// Seeking a staging name only asks questions, and the name that is found is one that
/// the destination gave and that was free.
pub proof fn law_staging_name_is_free(
    target: Seq<char>,
    line: u64,
    attempt: u64,
    at: Seq<Event>,
    to: Seq<Event>,
    r: Result<String, Error>,
)
    requires
        staging_found(target, line, attempt, at, to, r),
    ensures
        only_adds_events(at, to, |event: Event| event.is_question()),
        r matches Ok(free) ==> at.len() + 2 <= to.len() && to.last() == (Event::Standing {
            path: free@,
            reply: Ok(Standing::Nothing),
        }) && (to[to.len() - 2] matches Event::Beside { path, reply: Some(name), .. } && path
            == target && name@ == free@),
{
    let (process, mid) = choose|process: u32, mid: Seq<Event>| #[trigger]
        did(at, Event::ProcessId { reply: process }, mid) && staging_tried(
            target,
            process,
            line,
            attempt,
            0,
            mid,
            to,
            r,
        );
    lemma_staging_tried(target, process, line, attempt, 0, mid, to, r);
    assert forall|j: int| at.len() <= j < to.len() implies (#[trigger] to[j]).is_question() by {
        if j < mid.len() {
            assert(to[j] == mid[j]);
        }
    }
}

/// The event gave the leaf at `staging` the new name `target`, or tried to.
pub open spec fn names_anew(event: Event, staging: Seq<char>, target: Seq<char>) -> bool {
    match event {
        Event::CopyLink { from, to, .. } => from == staging && to == target,
        Event::HardLink { first, path, .. } => first == staging && path == target,
        _ => false,
    }
}

/// The event gave the leaf at `staging` the new name `target`.
pub open spec fn named_anew(event: Event, staging: Seq<char>, target: Seq<char>) -> bool {
    &&& names_anew(event, staging, target)
    &&& match event {
        Event::CopyLink { reply, .. } => reply is Ok,
        Event::HardLink { reply, .. } => reply is Ok,
        _ => false,
    }
}

/// Without leave to overwrite, what stands at the target of a leaf is never replaced:
/// all that touches the target is to give the leaf that name anew, and to take the
/// name away again which the leaf got just before.
pub proof fn law_occupied_target_is_never_replaced(
    staging: Seq<char>,
    target: Seq<char>,
    at: Seq<Event>,
    to: Seq<Event>,
    r: Result<(), Error>,
)
    requires
        staging_installed(staging, target, false, at, to, r),
        staging != target,
    ensures
        at.is_prefix_of(to),
        forall|j: int|
            at.len() <= j < to.len() && (#[trigger] to[j]).touches(target) ==> {
                ||| names_anew(to[j], staging, target)
                ||| to[j] is Remove && r is Err && j >= at.len() + 2 && named_anew(
                    to[j - 2],
                    staging,
                    target,
                )
            },
        r is Ok ==> at.len() + 3 == to.len() && named_anew(
            to[at.len() as int + 1],
            staging,
            target,
        ),
{
    let (named, mid) = choose|named: Result<(), Error>, mid: Seq<Event>| #[trigger]
        leaf_named(staging, target, at, mid, named) && match named {
            Err(error) => to == mid && is_failed(r, error@),
            Ok(_) => staging_removed(staging, target, mid, to, r),
        };
    let (standing, looked) = choose|standing: Result<Standing, Error>, looked: Seq<Event>| #[trigger]
        did(at, Event::Standing { path: staging, reply: standing }, looked) && match standing {
            Err(error) => mid == looked && is_failed(named, error@),
            Ok(Standing::Link) => did(
                looked,
                Event::CopyLink { from: staging, to: target, reply: named },
                mid,
            ),
            Ok(_) => did(
                looked,
                Event::HardLink { first: staging, path: target, reply: named },
                mid,
            ),
        };
    if named is Ok {
        let (gone, then) = choose|gone: Result<(), Error>, then: Seq<Event>| #[trigger]
            did(mid, Event::Remove { path: staging, reply: gone }, then) && match gone {
                Ok(_) => to == then && r is Ok,
                Err(error) => is_failed(r, error@) && target_removed(target, then, to),
            };
        assert(to[at.len() as int] == at.push(
            Event::Standing { path: staging, reply: standing },
        ).last());
        assert(to[at.len() as int + 1] == mid.last());
        assert(to[at.len() as int + 2] == then.last());
    }
}

// ---------------------------------------------------------------------------
// Laws on names and places
// ---------------------------------------------------------------------------

/// The staging names of one attempt all differ.
pub proof fn law_staging_names_differ(process: u32, line: u64, attempt: u64, n: nat, m: nat)
    requires
        staging_name(process, line, attempt, n as int) == staging_name(
            process,
            line,
            attempt,
            m as int,
        ),
    ensures
        n == m,
{
    let head = "_com.apfsrelic.recover_manifest_"@ + dec(process as nat) + "_"@ + dec(line as nat)
        + "_"@ + dec(attempt as nat) + "_"@;
    let a = staging_name(process, line, attempt, n as int);
    let b = staging_name(process, line, attempt, m as int);
    assert(a.skip(head.len() as int) =~= dec(n));
    assert(b.skip(head.len() as int) =~= dec(m));
    law_written_numbers_read_back(n, 10);
    law_written_numbers_read_back(m, 10);
}

/// A directory may be used, and a free place; a link and anything else may not, neither as
/// the root of the output nor on the way to a leaf.
pub proof fn law_only_directories_are_entered(path: Seq<char>)
    ensures
        root_error(Standing::Nothing) is None,
        root_error(Standing::Dir) is None,
        root_error(Standing::Link) matches Some(error) && error.kind == ErrorKind::Usage,
        root_error(Standing::Other) matches Some(error) && error.kind == ErrorKind::Usage,
        parent_error(path, Standing::Nothing) is None,
        parent_error(path, Standing::Dir) is None,
        parent_error(path, Standing::Link) matches Some(error) && error.kind == ErrorKind::Usage,
        parent_error(path, Standing::Other) matches Some(error) && error.kind == ErrorKind::Usage,
{
}

/// A directory on the way that is missing is made, unless nothing is to be written; one that
/// is there is left as it is.
pub proof fn law_missing_parents_are_made(
    path: Seq<char>,
    dry_run: bool,
    at: Seq<Event>,
    to: Seq<Event>,
    r: Result<(), Error>,
)
    requires
        parent_entered(path, dry_run, at, to, r),
    ensures
        to.len() > at.len(),
        to[at.len() as int] matches Event::Standing { path: seen, reply } && seen == path && ({
            &&& reply == Ok::<Standing, Error>(Standing::Dir) ==> to.len() == at.len() + 1
                && r is Ok
            &&& reply == Ok::<Standing, Error>(Standing::Nothing) && dry_run ==> to.len()
                == at.len() + 1 && r is Ok
            &&& reply == Ok::<Standing, Error>(Standing::Nothing) && !dry_run ==> to.len()
                == at.len() + 2 && (to[at.len() as int + 1] matches Event::MakeDir {
                path: made,
                reply: result,
            } && made == path && result == r)
            &&& reply == Ok::<Standing, Error>(Standing::Link) || reply == Ok::<Standing, Error>(
                Standing::Other,
            ) || reply is Err ==> to.len() == at.len() + 1 && r is Err
        }),
{
}

/// Putting a leaf in its place only adds to the journal.
pub proof fn law_installing_only_adds(
    staging: Seq<char>,
    target: Seq<char>,
    overwrite: bool,
    at: Seq<Event>,
    to: Seq<Event>,
    r: Result<(), Error>,
)
    requires
        staging_installed(staging, target, overwrite, at, to, r),
    ensures
        at.len() < to.len() <= at.len() + 4,
        to.take(at.len() as int) == at,
{
    if overwrite {
        let (standing, mid) = choose|standing: Result<Standing, Error>, mid: Seq<Event>| #[trigger]
            did(at, Event::Standing { path: target, reply: standing }, mid) && if standing == Ok::<
                Standing,
                Error,
            >(Standing::Dir) {
                to == mid && is_failed(r, is_directory(target))
            } else {
                did(mid, Event::Rename { from: staging, to: target, reply: r }, to)
            };
        assert(to.take(at.len() as int) =~= at);
    } else {
        let (named, mid) = choose|named: Result<(), Error>, mid: Seq<Event>| #[trigger]
            leaf_named(staging, target, at, mid, named) && match named {
                Err(error) => to == mid && is_failed(r, error@),
                Ok(_) => staging_removed(staging, target, mid, to, r),
            };
        assert(at.len() < mid.len() <= at.len() + 2 && mid.take(at.len() as int) =~= at);
        if named is Ok {
            assert(mid.len() < to.len() <= mid.len() + 2 && to.take(mid.len() as int) =~= mid);
        }
        assert(to.take(at.len() as int) =~= to.take(mid.len() as int).take(at.len() as int));
    }
}

/// A leaf that is in its place was moved there where that may replace something. Otherwise
/// it was given that name anew, as a link of its own kind, and its staging name was taken
/// away.
pub proof fn law_leaf_in_place_was_moved_or_named(
    staging: Seq<char>,
    target: Seq<char>,
    overwrite: bool,
    at: Seq<Event>,
    to: Seq<Event>,
)
    requires
        staging_installed(staging, target, overwrite, at, to, Ok(())),
    ensures
        overwrite ==> to.len() == at.len() + 2 && (to[at.len() as int + 1] matches Event::Rename {
            from,
            to: place,
            reply,
        } && from == staging && place == target && reply is Ok),
        !overwrite ==> {
            &&& to.len() == at.len() + 3
            &&& to[at.len() as int] matches Event::Standing { path, reply } && path == staging
                && if reply == Ok::<Standing, Error>(Standing::Link) {
                to[at.len() as int + 1] matches Event::CopyLink { from, to: place, reply: linked } && from
                    == staging && place == target && linked is Ok
            } else {
                to[at.len() as int + 1] matches Event::HardLink { first, path: place, reply: linked }
                    && first == staging && place == target && linked is Ok
            }
            &&& to[at.len() as int + 2] matches Event::Remove { path, reply } && path == staging && reply
                is Ok
        },
{
    let r: Result<(), Error> = Ok(());
    if overwrite {
        let (standing, mid) = choose|standing: Result<Standing, Error>, mid: Seq<Event>| #[trigger]
            did(at, Event::Standing { path: target, reply: standing }, mid) && if standing == Ok::<
                Standing,
                Error,
            >(Standing::Dir) {
                to == mid && is_failed(r, is_directory(target))
            } else {
                did(mid, Event::Rename { from: staging, to: target, reply: r }, to)
            };
        assert(to[at.len() as int + 1] == (Event::Rename { from: staging, to: target, reply: r }));
    } else {
        let (named, mid) = choose|named: Result<(), Error>, mid: Seq<Event>| #[trigger]
            leaf_named(staging, target, at, mid, named) && match named {
                Err(error) => to == mid && is_failed(r, error@),
                Ok(_) => staging_removed(staging, target, mid, to, r),
            };
        let gone = choose|gone: Result<(), Error>| #[trigger]
            did(mid, Event::Remove { path: staging, reply: gone }, to) && gone is Ok;
        assert(to == mid.push(Event::Remove { path: staging, reply: gone }));
    }
}

/// An output root is an absolute path that is named. What stands there must be a directory,
/// or nothing; then it is made, unless only a forecast is wanted, and looked at again.
pub proof fn law_root_is_a_directory(
    path: Seq<char>,
    dry_run: bool,
    at: Seq<Event>,
    to: Seq<Event>,
    r: Result<String, Error>,
)
    requires
        root_prepared(path, dry_run, at, to, r),
    ensures
        path.len() == 0 ==> to == at && (r matches Err(error) && error.kind == ErrorKind::Usage),
        path.len() > 0 ==> at.len() < to.len() && (to[at.len() as int] matches Event::Absolute {
            path: asked,
            reply,
        } && asked == path && (reply is Err ==> r is Err && to.len() == at.len() + 1)
            && (reply is Ok ==> {
            let n = at.len() as int;
            let full = reply->Ok_0@;
            &&& n + 1 < to.len()
            &&& to[n + 1] matches Event::Standing { path: place, reply: standing } && place == full
                && (standing is Err ==> r is Err && to.len() == n + 2) && (standing is Ok ==> {
                let found = standing->Ok_0;
                &&& found is Link || found is Other ==> to.len() == n + 2 && (r matches Err(error)
                    && error.kind == ErrorKind::Usage)
                &&& found is Dir ==> to.len() == n + 3 && to[n + 2] == (Event::Canonical {
                    path: full,
                    reply: r,
                })
                &&& found is Nothing && dry_run ==> to.len() == n + 2 && (r matches Ok(root)
                    && root@ == full)
                &&& found is Nothing && !dry_run ==> n + 2 < to.len() && (
                to[n + 2] matches Event::MakeDirs { path: made, reply: done } && made == full && (
                done is Err ==> r is Err && to.len() == n + 3) && (done is Ok ==> n + 3 < to.len()
                    && (to[n + 3] matches Event::Standing { path: seen, reply: again } && seen
                    == full && (r is Ok ==> again == Ok::<Standing, Error>(Standing::Dir)
                    && to.len() == n + 5 && to[n + 4] == (Event::Canonical {
                    path: full,
                    reply: r,
                })))))
            })
        })),
{
    if path.len() > 0 {
        let (absolute, mid) = choose|absolute: Result<String, Error>, mid: Seq<Event>| #[trigger]
            did(at, Event::Absolute { path, reply: absolute }, mid) && match absolute {
                Err(error) => to == mid && is_failed(r, error@),
                Ok(full) => root_found(full@, dry_run, mid, to, r),
            };
        if let Ok(full) = absolute {
            let (standing, seen) = choose|standing: Result<Standing, Error>, seen: Seq<Event>|
                #[trigger]
                did(mid, Event::Standing { path: full@, reply: standing }, seen) && match standing {
                    Err(error) => to == seen && is_failed(r, error@),
                    Ok(found) => match root_error(found) {
                        Some(error) => to == seen && is_failed(r, error),
                        None => if found == Standing::Dir {
                            did(seen, Event::Canonical { path: full@, reply: r }, to)
                        } else if dry_run {
                            to == seen && (r matches Ok(root) && root@ == full@)
                        } else {
                            root_made(full@, seen, to, r)
                        },
                    },
                };
            if standing == Ok::<Standing, Error>(Standing::Nothing) && !dry_run {
                let (made, then) = choose|made: Result<(), Error>, then: Seq<Event>| #[trigger]
                    did(seen, Event::MakeDirs { path: full@, reply: made }, then) && match made {
                        Err(error) => to == then && is_failed(r, error@),
                        Ok(_) => root_entered(full@, then, to, r),
                    };
                assert(then[at.len() as int + 2] == (Event::MakeDirs { path: full@, reply: made }));
            }
        }
    }
}

/// A leaf is moved to its target, unless a directory stands there.
pub proof fn law_directory_is_never_replaced(
    staging: Seq<char>,
    target: Seq<char>,
    at: Seq<Event>,
    to: Seq<Event>,
    r: Result<(), Error>,
)
    requires
        leaf_moved(staging, target, at, to, r),
    ensures
        exists|standing: Result<Standing, Error>, mid: Seq<Event>|
            {
                &&& #[trigger] did(at, Event::Standing { path: target, reply: standing }, mid)
                &&& standing is Ok && standing->Ok_0 is Dir ==> to == mid && r is Err
                &&& !(standing is Ok && standing->Ok_0 is Dir) ==> to == mid.push(
                    Event::Rename { from: staging, to: target, reply: r },
                )
            },
{
}

} // verus!
