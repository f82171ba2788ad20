//! Scanning one snapshot: a walk over its directories that records what it sees
//! and what it could not read.
use crate::destination::Destination;
use crate::error::{failure, in_context, Error, ErrorKind, ErrorView};
use crate::history::{
    law_types_are_known_by_name, observed, EntryType, HistoryUnion, Observation, PathRecord,
};
use crate::image::{ApfsImage, DirRec, DirRecView, TreeReader};
use crate::journal::{notices, Event, Journal};
use crate::options::Options;
use crate::snapshots::{root_in, snapshot_root, SnapshotInfo};
use crate::text::{
    contains_char, debug_of, debug_text, dec, hex_prefixed, join, joined,
    law_text_order_is_strict_and_total, push_dec_len, push_hex, str_eq, str_less, text_lt, texts,
};
use crate::vol::{Resolved, SnapshotSource, Volume};
use vstd::arithmetic::power::pow;
use vstd::prelude::*;

verus! {

/// How deep a scan goes.
pub const MAX_SCAN_DEPTH: u32 = 4096;

// ---------------------------------------------------------------------------
// Paths
// ---------------------------------------------------------------------------

/// `name` is one component of a path: not empty, not `.` or `..`, and without a
/// slash.
pub open spec fn is_component(name: Seq<char>) -> bool {
    name.len() > 0 && name != "."@ && name != ".."@ && !name.contains('/')
}

/// Whether `name` is one component of a path.
pub fn safe_component(name: &str) -> (r: bool)
    ensures
        r == is_component(name@),
{
    !is_empty_text(name) && !str_eq(name, ".") && !str_eq(name, "..") && !contains_char(name, '/')
}

/// Whether `text` has no characters.
pub fn is_empty_text(text: &str) -> (r: bool)
    ensures
        r == (text@.len() == 0),
{
    proof {
        reveal_strlit("");
        assert(text@.len() == 0 <==> text@ =~= ""@);
    }
    str_eq(text, "")
}

/// `name` below the relative path `parent`.
pub open spec fn below(parent: Seq<char>, name: Seq<char>) -> Seq<char> {
    if parent.len() == 0 {
        name
    } else {
        parent + "/"@ + name
    }
}

/// `name` below the absolute path `parent`.
pub open spec fn below_absolute(parent: Seq<char>, name: Seq<char>) -> Seq<char> {
    if parent == "/"@ {
        "/"@ + name
    } else {
        parent + "/"@ + name
    }
}

/// The relative path of `name` in the directory `parent`.
pub fn join_relative(parent: &str, name: &str) -> (r: String)
    ensures
        r@ == below(parent@, name@),
{
    if is_empty_text(parent) {
        name.to_owned()
    } else {
        let mut path = parent.to_owned();
        path.append("/");
        path.append(name);
        path
    }
}

/// The absolute path of `name` in the directory `parent`.
pub fn join_absolute(parent: &str, name: &str) -> (r: String)
    ensures
        r@ == below_absolute(parent@, name@),
{
    if str_eq(parent, "/") {
        let mut path = "/".to_owned();
        path.append(name);
        path
    } else {
        let mut path = parent.to_owned();
        path.append("/");
        path.append(name);
        path
    }
}

// ---------------------------------------------------------------------------
// State
// ---------------------------------------------------------------------------

/// Something that a scan could not read.
#[derive(Debug)]
pub struct ScanError {
    pub snapshot_xid: u64,
    pub snapshot_name: String,
    pub source_path: String,
    pub relative_prefix: String,
    pub error: Error,
}

/// The mathematical content of a [`ScanError`].
pub struct ScanErrorView {
    pub snapshot_xid: u64,
    pub snapshot_name: Seq<char>,
    pub source_path: Seq<char>,
    pub relative_prefix: Seq<char>,
    pub error: ErrorView,
}

impl View for ScanError {
    type V = ScanErrorView;

    open spec fn view(&self) -> ScanErrorView {
        ScanErrorView {
            snapshot_xid: self.snapshot_xid,
            snapshot_name: self.snapshot_name@,
            source_path: self.source_path@,
            relative_prefix: self.relative_prefix@,
            error: self.error@,
        }
    }
}

/// A directory that is still to be looked at.
pub struct ScanDir {
    pub fsoid: u64,
    pub source_path: String,
    pub relative_path: String,
    pub depth: u32,
    pub ancestors: Vec<u64>,
}

/// The mathematical content of a [`ScanDir`].
pub struct ScanDirView {
    pub fsoid: u64,
    pub source_path: Seq<char>,
    pub relative_path: Seq<char>,
    pub depth: u32,
    pub ancestors: Seq<u64>,
}

impl View for ScanDir {
    type V = ScanDirView;

    open spec fn view(&self) -> ScanDirView {
        ScanDirView {
            fsoid: self.fsoid,
            source_path: self.source_path@,
            relative_path: self.relative_path@,
            depth: self.depth,
            ancestors: self.ancestors@,
        }
    }
}

/// The views of a list of directories.
pub open spec fn dir_views(dirs: Seq<ScanDir>) -> Seq<ScanDirView> {
    Seq::new(dirs.len(), |i: int| dirs[i]@)
}

/// What a scan has found so far.
pub struct Scan {
    pub union: HistoryUnion,
    pub errors: Vec<ScanError>,
    pub latest_incomplete: Vec<String>,
}

/// The mathematical content of a [`Scan`].
pub struct ScanView {
    pub known: Map<Seq<char>, PathRecord>,
    pub errors: Seq<ScanErrorView>,
    pub incomplete: Seq<Seq<char>>,
}

impl View for Scan {
    type V = ScanView;

    open spec fn view(&self) -> ScanView {
        ScanView {
            known: self.union@,
            errors: Seq::new(self.errors@.len(), |i: int| self.errors@[i]@),
            incomplete: texts(self.latest_incomplete@),
        }
    }
}

/// The snapshot that is scanned, and how errors are taken.
pub struct ScanFrame {
    pub best_effort: bool,
    pub latest_xid: u64,
    pub xid: u64,
    pub name: Seq<char>,
}

/// The frame of scanning `snap`, where `latest` is the newest snapshot.
pub open spec fn frame_of(opts: &Options, latest: &SnapshotInfo, snap: &SnapshotInfo) -> ScanFrame {
    ScanFrame {
        best_effort: opts.best_effort,
        latest_xid: latest.xid,
        xid: snap.xid,
        name: snap.name@,
    }
}

/// What the context of an error that ends a scan says.
pub open spec fn scan_context(name: Seq<char>, source: Seq<char>) -> Seq<char> {
    "snapshot "@ + debug_of(name) + " path "@ + debug_of(source)
}

/// A scan that an error ended, with what it had found until then.
pub struct Ended {
    pub error: ErrorView,
    pub scan: ScanView,
}

/// What an error at `source` does to a scan: it ends the scan, unless the scan
/// does its best. Then it is noted, and in the latest snapshot the prefix counts
/// as unreadable.
pub open spec fn recorded(
    frame: ScanFrame,
    scan: ScanView,
    source: Seq<char>,
    prefix: Seq<char>,
    error: ErrorView,
) -> Result<ScanView, Ended> {
    if !frame.best_effort {
        Err(Ended { error: in_context(error, scan_context(frame.name, source)), scan })
    } else {
        Ok(
            ScanView {
                known: scan.known,
                errors: scan.errors.push(
                    ScanErrorView {
                        snapshot_xid: frame.xid,
                        snapshot_name: frame.name,
                        source_path: source,
                        relative_prefix: prefix,
                        error,
                    },
                ),
                incomplete: if frame.xid == frame.latest_xid {
                    scan.incomplete.push(prefix)
                } else {
                    scan.incomplete
                },
            },
        )
    }
}

impl Scan {
    /// Nothing found yet.
    pub fn new() -> (r: Scan)
        ensures
            r.union.well_formed(),
            r@.known == Map::<Seq<char>, PathRecord>::empty(),
            r@.errors == Seq::<ScanErrorView>::empty(),
            r@.incomplete == Seq::<Seq<char>>::empty(),
    {
        let r = Scan {
            union: HistoryUnion::new(),
            errors: Vec::new(),
            latest_incomplete: Vec::new(),
        };
        proof {
            assert(r@.errors =~= Seq::empty());
            assert(r@.incomplete =~= Seq::empty());
        }
        r
    }

    /// Takes an error at `source_path` into account.
    pub fn record_scan_error(
        &mut self,
        opts: &Options,
        latest: &SnapshotInfo,
        snap: &SnapshotInfo,
        source_path: &str,
        relative_prefix: &str,
        error: Error,
    ) -> (r: Result<(), Error>)
        ensures
            final(self).union == old(self).union,
            match r {
                Ok(_) => recorded(
                    frame_of(opts, latest, snap),
                    old(self)@,
                    source_path@,
                    relative_prefix@,
                    error@,
                ) == Ok::<ScanView, Ended>(final(self)@),
                Err(e) => final(self)@ == old(self)@ && recorded(
                    frame_of(opts, latest, snap),
                    old(self)@,
                    source_path@,
                    relative_prefix@,
                    error@,
                ) == Err::<ScanView, Ended>(
                    Ended { error: e@, scan: final(self)@ },
                ),
            },
    {
        if !opts.best_effort {
            let mut context = "snapshot ".to_owned();
            context.append(debug_text(snap.name.as_str()).as_str());
            context.append(" path ");
            context.append(debug_text(source_path).as_str());
            return Err(error.with_context(context));
        }
        let ghost before = self@;
        let ghost noted = ScanErrorView {
            snapshot_xid: snap.xid,
            snapshot_name: snap.name@,
            source_path: source_path@,
            relative_prefix: relative_prefix@,
            error: error@,
        };
        if snap.xid == latest.xid {
            self.latest_incomplete.push(relative_prefix.to_owned());
        }
        self.errors.push(
            ScanError {
                snapshot_xid: snap.xid,
                snapshot_name: snap.name.clone(),
                source_path: source_path.to_owned(),
                relative_prefix: relative_prefix.to_owned(),
                error,
            },
        );
        proof {
            assert(self@.errors =~= before.errors.push(noted));
            if snap.xid == latest.xid {
                assert(self@.incomplete =~= before.incomplete.push(relative_prefix@));
            } else {
                assert(self@.incomplete =~= before.incomplete);
            }
        }
        Ok(())
    }
}

// ---------------------------------------------------------------------------
// Order of entries
// ---------------------------------------------------------------------------

/// `a` goes before `b`: by name, then by identity, flags and type.
pub open spec fn entry_lt(a: DirRecView, b: DirRecView) -> bool {
    text_lt(a.name, b.name) || (a.name == b.name && (a.file_id < b.file_id || (a.file_id
        == b.file_id && (a.flags < b.flags || (a.flags == b.flags && text_lt(
        a.type_label,
        b.type_label,
    ))))))
}

proof fn lemma_entry_order(a: DirRecView, b: DirRecView, c: DirRecView)
    ensures
        !entry_lt(a, a),
        entry_lt(a, b) && entry_lt(b, c) ==> entry_lt(a, c),
        a == b || entry_lt(a, b) || entry_lt(b, a),
        !(entry_lt(a, b) && entry_lt(b, a)),
{
    law_text_order_is_strict_and_total(a.name, b.name, c.name);
    law_text_order_is_strict_and_total(a.type_label, b.type_label, c.type_label);
}

fn entry_less(a: &DirRec, b: &DirRec) -> (r: bool)
    ensures
        r == entry_lt(a@, b@),
{
    if str_less(a.name.as_str(), b.name.as_str()) {
        true
    } else if !str_eq(a.name.as_str(), b.name.as_str()) {
        false
    } else if a.file_id != b.file_id {
        a.file_id < b.file_id
    } else if a.flags != b.flags {
        a.flags < b.flags
    } else {
        str_less(a.type_label.as_str(), b.type_label.as_str())
    }
}

/// `a` may stand before `b`, going up or down.
pub open spec fn entry_ok(a: DirRecView, b: DirRecView, up: bool) -> bool {
    if up {
        !entry_lt(b, a)
    } else {
        !entry_lt(a, b)
    }
}

/// The entries stand in order, going up or down.
pub open spec fn entries_sorted(s: Seq<DirRec>, up: bool) -> bool {
    forall|i: int, j: int|
        0 <= i < j < s.len() ==> entry_ok((#[trigger] s[i])@, (#[trigger] s[j])@, up)
}

/// Everything in `front` may stand before everything in `back`.
spec fn all_ok(front: Seq<DirRec>, back: Seq<DirRec>, up: bool) -> bool {
    forall|i: int, j: int|
        0 <= i < front.len() && 0 <= j < back.len() ==> entry_ok(
            (#[trigger] front[i])@,
            (#[trigger] back[j])@,
            up,
        )
}

proof fn lemma_ok_chain(a: DirRecView, b: DirRecView, c: DirRecView, up: bool)
    requires
        entry_ok(a, b, up),
        entry_ok(b, c, up),
    ensures
        entry_ok(a, c, up),
{
    lemma_entry_order(a, b, c);
    lemma_entry_order(c, b, a);
    lemma_entry_order(b, c, a);
    lemma_entry_order(c, a, b);
    lemma_entry_order(a, c, b);
    lemma_entry_order(b, a, c);
}

fn merge_entries(a: Vec<DirRec>, b: Vec<DirRec>, up: bool) -> (r: Vec<DirRec>)
    requires
        entries_sorted(a@, !up),
        entries_sorted(b@, !up),
    ensures
        entries_sorted(r@, up),
        r@.to_multiset() == a@.to_multiset().add(b@.to_multiset()),
{
    broadcast use vstd::seq_lib::group_to_multiset_ensures;

    let ghost total = a@.to_multiset().add(b@.to_multiset());
    let mut a = a;
    let mut b = b;
    let mut out: Vec<DirRec> = Vec::new();
    proof {
        assert(out@.to_multiset().add(a@.to_multiset()).add(b@.to_multiset()) =~= total);
    }
    while a.len() > 0 || b.len() > 0
        invariant
            entries_sorted(a@, !up),
            entries_sorted(b@, !up),
            entries_sorted(out@, up),
            all_ok(out@, a@, up),
            all_ok(out@, b@, up),
            out@.to_multiset().add(a@.to_multiset()).add(b@.to_multiset()) == total,
        decreases a@.len() + b@.len(),
    {
        broadcast use vstd::seq_lib::group_to_multiset_ensures;

        let n: usize = a.len();
        let m: usize = b.len();
        let from_a = if n == 0 {
            false
        } else if m == 0 {
            true
        } else if up {
            !entry_less(&b[m - 1], &a[n - 1])
        } else {
            !entry_less(&a[n - 1], &b[m - 1])
        };
        let ghost old_a = a@;
        let ghost old_b = b@;
        let ghost old_out = out@;
        proof {
            if n > 0 && m > 0 {
                lemma_entry_order(old_a[n - 1]@, old_b[m - 1]@, old_a[n - 1]@);
            }
        }
        let taken = if from_a {
            a.pop()
        } else {
            b.pop()
        };
        match taken {
            None => {},
            Some(x) => {
                proof {
                    if from_a {
                        assert(x == old_a[n - 1]);
                        assert(old_a =~= a@.push(x));
                        assert forall|j: int| 0 <= j < b@.len() implies entry_ok(
                            x@,
                            (#[trigger] b@[j])@,
                            up,
                        ) by {
                            if j < m - 1 {
                                assert(entry_ok(old_b[j]@, old_b[m - 1]@, !up));
                                lemma_ok_chain(x@, old_b[m - 1]@, old_b[j]@, up);
                            }
                        }
                        assert forall|j: int| 0 <= j < a@.len() implies entry_ok(
                            x@,
                            (#[trigger] a@[j])@,
                            up,
                        ) by {
                            assert(entry_ok(old_a[j]@, old_a[n - 1]@, !up));
                        }
                    } else {
                        assert(x == old_b[m - 1]);
                        assert(old_b =~= b@.push(x));
                        assert forall|j: int| 0 <= j < a@.len() implies entry_ok(
                            x@,
                            (#[trigger] a@[j])@,
                            up,
                        ) by {
                            lemma_entry_order(old_a[n - 1]@, old_b[m - 1]@, x@);
                            if j < n - 1 {
                                assert(entry_ok(old_a[j]@, old_a[n - 1]@, !up));
                                lemma_ok_chain(x@, old_a[n - 1]@, old_a[j]@, up);
                            }
                        }
                        assert forall|j: int| 0 <= j < b@.len() implies entry_ok(
                            x@,
                            (#[trigger] b@[j])@,
                            up,
                        ) by {
                            assert(entry_ok(old_b[j]@, old_b[m - 1]@, !up));
                        }
                    }
                    let next = old_out.push(x);
                    assert forall|i: int, j: int| 0 <= i < j < next.len() implies entry_ok(
                        (#[trigger] next[i])@,
                        (#[trigger] next[j])@,
                        up,
                    ) by {
                        if j == old_out.len() {
                            if from_a {
                                assert(entry_ok(old_out[i]@, old_a[n - 1]@, up));
                            } else {
                                assert(entry_ok(old_out[i]@, old_b[m - 1]@, up));
                            }
                        }
                    }
                    assert forall|i: int, j: int|
                        0 <= i < next.len() && 0 <= j < a@.len() implies entry_ok(
                        (#[trigger] next[i])@,
                        (#[trigger] a@[j])@,
                        up,
                    ) by {
                        if i < old_out.len() {
                            assert(a@[j] == old_a[j]);
                            assert(entry_ok(old_out[i]@, old_a[j]@, up));
                        }
                    }
                    assert forall|i: int, j: int|
                        0 <= i < next.len() && 0 <= j < b@.len() implies entry_ok(
                        (#[trigger] next[i])@,
                        (#[trigger] b@[j])@,
                        up,
                    ) by {
                        if i < old_out.len() {
                            assert(b@[j] == old_b[j]);
                            assert(entry_ok(old_out[i]@, old_b[j]@, up));
                        }
                    }
                    assert(next.to_multiset().add(a@.to_multiset()).add(b@.to_multiset()) =~= total);
                }
                out.push(x);
            },
        }
    }
    proof {
        assert(a@ =~= Seq::empty());
        assert(b@ =~= Seq::empty());
        assert(out@.to_multiset() =~= total);
    }
    out
}

/// The entries in order, going up or down.
fn sort_entries(entries: Vec<DirRec>, up: bool) -> (r: Vec<DirRec>)
    ensures
        entries_sorted(r@, up),
        r@.to_multiset() == entries@.to_multiset(),
    decreases entries@.len(),
{
    broadcast use vstd::seq_lib::group_to_multiset_ensures;

    if entries.len() <= 1 {
        return entries;
    }
    let mut left = entries;
    let half: usize = left.len() / 2;
    let right = left.split_off(half);
    proof {
        assert(entries@ =~= left@ + right@);
        vstd::seq_lib::lemma_multiset_commutative(left@, right@);
    }
    let a = sort_entries(left, !up);
    let b = sort_entries(right, !up);
    merge_entries(a, b, up)
}

// ---------------------------------------------------------------------------
// One directory
// ---------------------------------------------------------------------------

/// What asking for one directory gave: an error, or its entries in descending
/// order and the warnings of reading them.
pub enum Listing {
    Failed(ErrorView),
    Read { warnings: Seq<Seq<char>>, entries: Seq<DirRecView> },
}

/// A scan, and the directories that it still has to look at.
pub struct Walk {
    pub scan: ScanView,
    pub pending: Seq<ScanDirView>,
}

/// A scan after an error that it survived.
pub open spec fn walk_on(
    noted: Result<ScanView, Ended>,
    pending: Seq<ScanDirView>,
) -> Result<Walk, Ended> {
    match noted {
        Ok(scan) => Ok(Walk { scan, pending }),
        Err(error) => Err(error),
    }
}

/// What one warning does to a scan.
pub open spec fn warned(frame: ScanFrame, dir: ScanDirView, scan: ScanView, warning: Seq<char>) -> Result<
    ScanView,
    Ended,
> {
    recorded(
        frame,
        scan,
        dir.source_path,
        dir.relative_path,
        failure(ErrorKind::Corrupt, "B-tree warning: "@ + warning),
    )
}

/// What the warnings from `i` on do to a scan.
pub open spec fn all_warned(
    frame: ScanFrame,
    dir: ScanDirView,
    warnings: Seq<Seq<char>>,
    i: int,
    scan: ScanView,
) -> Result<ScanView, Ended>
    decreases warnings.len() - i,
{
    if !(0 <= i < warnings.len()) {
        Ok(scan)
    } else {
        match warned(frame, dir, scan, warnings[i]) {
            Err(error) => Err(error),
            Ok(next) => all_warned(frame, dir, warnings, i + 1, next),
        }
    }
}

/// The directory `child` of `dir`.
pub open spec fn subdirectory(dir: ScanDirView, child: DirRecView) -> ScanDirView {
    ScanDirView {
        fsoid: child.file_id,
        source_path: below_absolute(dir.source_path, child.name),
        relative_path: below(dir.relative_path, child.name),
        depth: (dir.depth + 1) as u32,
        ancestors: dir.ancestors.push(child.file_id),
    }
}

/// What one entry of `dir` does to a scan: an unsafe name is an error; any other
/// entry is observed. A directory is looked at later, unless it lies too deep or
/// is one of its own ancestors.
pub open spec fn entered(frame: ScanFrame, dir: ScanDirView, child: DirRecView, walk: Walk) -> Result<
    Walk,
    Ended,
> {
    let source = below_absolute(dir.source_path, child.name);
    let relative = below(dir.relative_path, child.name);
    let entry_type = EntryType::named(child.type_label);
    if !is_component(child.name) {
        walk_on(
            recorded(
                frame,
                walk.scan,
                source,
                relative,
                failure(ErrorKind::Corrupt, "unsafe directory-entry name"@),
            ),
            walk.pending,
        )
    } else {
        let seen = ScanView {
            known: observed(
                walk.scan.known,
                Observation {
                    relative_path: relative,
                    source_path: source,
                    entry_type,
                    fsoid: child.file_id,
                    snapshot_xid: frame.xid,
                },
            ),
            ..walk.scan
        };
        if entry_type != EntryType::Dir {
            Ok(Walk { scan: seen, pending: walk.pending })
        } else if dir.depth >= MAX_SCAN_DEPTH {
            walk_on(
                recorded(
                    frame,
                    seen,
                    source,
                    relative,
                    failure(
                        ErrorKind::Corrupt,
                        "history scan exceeded directory depth cap"@,
                    ),
                ),
                walk.pending,
            )
        } else if dir.ancestors.contains(child.file_id) {
            walk_on(
                recorded(
                    frame,
                    seen,
                    source,
                    relative,
                    failure(ErrorKind::Corrupt, "directory cycle detected"@),
                ),
                walk.pending,
            )
        } else {
            Ok(Walk { scan: seen, pending: walk.pending.push(subdirectory(dir, child)) })
        }
    }
}

/// What the entries from `i` on do to a scan.
pub open spec fn all_entered(
    frame: ScanFrame,
    dir: ScanDirView,
    entries: Seq<DirRecView>,
    i: int,
    walk: Walk,
) -> Result<Walk, Ended>
    decreases entries.len() - i,
{
    if !(0 <= i < entries.len()) {
        Ok(walk)
    } else {
        match entered(frame, dir, entries[i], walk) {
            Err(error) => Err(error),
            Ok(next) => all_entered(frame, dir, entries, i + 1, next),
        }
    }
}

/// What looking at `dir` does to a scan, where asking for it gave `listing`.
pub open spec fn visited(frame: ScanFrame, dir: ScanDirView, listing: Listing, walk: Walk) -> Result<
    Walk,
    Ended,
> {
    match listing {
        Listing::Failed(error) => walk_on(
            recorded(frame, walk.scan, dir.source_path, dir.relative_path, error),
            walk.pending,
        ),
        Listing::Read { warnings, entries } => match all_warned(
            frame,
            dir,
            warnings,
            0,
            walk.scan,
        ) {
            Err(error) => Err(error),
            Ok(scan) => all_entered(frame, dir, entries, 0, Walk { scan, pending: walk.pending }),
        },
    }
}

/// The views of a list of entries.
pub open spec fn entry_views(entries: Seq<DirRec>) -> Seq<DirRecView> {
    Seq::new(entries.len(), |i: int| entries[i]@)
}

/// `entries` are the entries `children` in descending order.
pub open spec fn is_arranged(children: Seq<DirRec>, entries: Seq<DirRecView>) -> bool {
    exists|sorted: Seq<DirRec>|
        {
            &&& #[trigger] entries_sorted(sorted, false)
            &&& sorted.to_multiset() == children.to_multiset()
            &&& entries == entry_views(sorted)
        }
}

/// Asking for directory `oid` gave `listing`.
pub open spec fn listing_given<D: ApfsImage>(
    vol: &Volume<D>,
    bt: &D::Reader,
    oid: u64,
    listing: Listing,
) -> bool {
    match listing {
        Listing::Failed(error) => exists|e: Error| #[trigger]
            vol.dir_listed(bt, oid, Err(e)) && e@ == error,
        Listing::Read { warnings, entries } => exists|children: Vec<DirRec>, more: Vec<String>|
            {
                &&& #[trigger] vol.dir_listed(bt, oid, Ok(children))
                &&& #[trigger] call_ensures(
                    <D::Reader as TreeReader>::take_warnings,
                    (bt,),
                    more,
                )
                &&& warnings == texts(more@)
                &&& is_arranged(children@, entries)
            },
    }
}

impl Scan {
    /// Takes one entry of `dir` into account.
    fn enter(
        &mut self,
        opts: &Options,
        latest: &SnapshotInfo,
        snap: &SnapshotInfo,
        dir: &ScanDir,
        child: &DirRec,
        pending: &mut Vec<ScanDir>,
    ) -> (r: Result<(), Error>)
        requires
            old(self).union.well_formed(),
            dir.depth <= MAX_SCAN_DEPTH,
        ensures
            final(self).union.well_formed(),
            !opts.best_effort ==> final(self)@.errors == old(self)@.errors
                && final(self)@.incomplete == old(self)@.incomplete,
            opts.best_effort ==> r is Ok,
            ({
                let walk = Walk { scan: old(self)@, pending: dir_views(old(pending)@) };
                let after = entered(frame_of(opts, latest, snap), dir@, child@, walk);
                match r {
                    Ok(_) => after == Ok::<Walk, Ended>(
                        Walk { scan: final(self)@, pending: dir_views(final(pending)@) },
                    ),
                    Err(e) => after == Err::<Walk, Ended>(
                        Ended { error: e@, scan: final(self)@ },
                    ),
                }
            }),
    {
        let ghost before = dir_views(pending@);
        let relative_path = join_relative(dir.relative_path.as_str(), child.name.as_str());
        let source_path = join_absolute(dir.source_path.as_str(), child.name.as_str());
        if !safe_component(child.name.as_str()) {
            return self.record_scan_error(
                opts,
                latest,
                snap,
                source_path.as_str(),
                relative_path.as_str(),
                Error::fixed(ErrorKind::Corrupt, "unsafe directory-entry name"),
            );
        }
        let entry_type = EntryType::from_name(child.type_label.as_str());
        let ghost scan = self@;
        self.union.observe(
            relative_path.as_str(),
            source_path.as_str(),
            entry_type,
            child.file_id,
            snap.xid,
        );
        proof {
            assert(self@.errors =~= scan.errors);
            assert(self@.incomplete =~= scan.incomplete);
        }
        if entry_type != EntryType::Dir {
            return Ok(());
        }
        if dir.depth >= MAX_SCAN_DEPTH {
            return self.record_scan_error(
                opts,
                latest,
                snap,
                source_path.as_str(),
                relative_path.as_str(),
                Error::fixed(ErrorKind::Corrupt, "history scan exceeded directory depth cap"),
            );
        }
        if contains_id(&dir.ancestors, child.file_id) {
            return self.record_scan_error(
                opts,
                latest,
                snap,
                source_path.as_str(),
                relative_path.as_str(),
                Error::fixed(ErrorKind::Corrupt, "directory cycle detected"),
            );
        }
        let mut ancestors = dir.ancestors.clone();
        proof {
            assert(ancestors@ =~= dir.ancestors@);
        }
        ancestors.push(child.file_id);
        pending.push(
            ScanDir {
                fsoid: child.file_id,
                source_path,
                relative_path,
                depth: dir.depth + 1,
                ancestors,
            },
        );
        proof {
            assert(dir_views(pending@) =~= before.push(subdirectory(dir@, child@)));
        }
        Ok(())
    }

    /// Looks at one directory, for which the image gave `listing`.
    fn visit(
        &mut self,
        opts: &Options,
        latest: &SnapshotInfo,
        snap: &SnapshotInfo,
        dir: &ScanDir,
        warnings: &Vec<String>,
        entries: &Vec<DirRec>,
        pending: &mut Vec<ScanDir>,
    ) -> (r: Result<(), Error>)
        requires
            old(self).union.well_formed(),
            dir.depth <= MAX_SCAN_DEPTH,
        ensures
            final(self).union.well_formed(),
            !opts.best_effort ==> final(self)@.errors == old(self)@.errors
                && final(self)@.incomplete == old(self)@.incomplete,
            opts.best_effort ==> r is Ok,
            ({
                let walk = Walk { scan: old(self)@, pending: dir_views(old(pending)@) };
                let listing = Listing::Read {
                    warnings: texts(warnings@),
                    entries: entry_views(entries@),
                };
                let after = visited(frame_of(opts, latest, snap), dir@, listing, walk);
                match r {
                    Ok(_) => after == Ok::<Walk, Ended>(
                        Walk { scan: final(self)@, pending: dir_views(final(pending)@) },
                    ),
                    Err(e) => after == Err::<Walk, Ended>(
                        Ended { error: e@, scan: final(self)@ },
                    ),
                }
            }),
    {
        let ghost frame = frame_of(opts, latest, snap);
        let ghost said = texts(warnings@);
        let ghost seen = entry_views(entries@);
        let mut i: usize = 0;
        while i < warnings.len()
            invariant
                self.union.well_formed(),
                !opts.best_effort ==> self@.errors == old(self)@.errors && self@.incomplete
                    == old(self)@.incomplete,
                frame == frame_of(opts, latest, snap),
                said == texts(warnings@),
                pending@ == old(pending)@,
                i <= warnings@.len(),
                all_warned(frame, dir@, said, 0, old(self)@) == all_warned(
                    frame,
                    dir@,
                    said,
                    i as int,
                    self@,
                ),
            decreases warnings@.len() - i,
        {
            let mut message = "B-tree warning: ".to_owned();
            message.append(warnings[i].as_str());
            match self.record_scan_error(
                opts,
                latest,
                snap,
                dir.source_path.as_str(),
                dir.relative_path.as_str(),
                Error::new(ErrorKind::Corrupt, message),
            ) {
                Ok(_) => {},
                Err(error) => return Err(error),
            }
            i += 1;
        }
        let ghost whole = visited(
            frame,
            dir@,
            Listing::Read { warnings: said, entries: seen },
            Walk { scan: old(self)@, pending: dir_views(old(pending)@) },
        );
        let mut k: usize = 0;
        while k < entries.len()
            invariant
                self.union.well_formed(),
                !opts.best_effort ==> self@.errors == old(self)@.errors && self@.incomplete
                    == old(self)@.incomplete,
                dir.depth <= MAX_SCAN_DEPTH,
                frame == frame_of(opts, latest, snap),
                seen == entry_views(entries@),
                said == texts(warnings@),
                k <= entries@.len(),
                whole == visited(
                    frame,
                    dir@,
                    Listing::Read { warnings: said, entries: seen },
                    Walk { scan: old(self)@, pending: dir_views(old(pending)@) },
                ),
                whole == all_entered(
                    frame,
                    dir@,
                    seen,
                    k as int,
                    Walk { scan: self@, pending: dir_views(pending@) },
                ),
            decreases entries@.len() - k,
        {
            match self.enter(opts, latest, snap, dir, &entries[k], pending) {
                Ok(_) => {},
                Err(error) => {
                    return Err(error);
                },
            }
            k += 1;
        }
        Ok(())
    }
}

fn contains_id(ids: &Vec<u64>, id: u64) -> (r: bool)
    ensures
        r == ids@.contains(id),
{
    let mut i: usize = 0;
    while i < ids.len()
        invariant
            i <= ids@.len(),
            forall|k: int| 0 <= k < i ==> ids@[k] != id,
        decreases ids@.len() - i,
    {
        if ids[i] == id {
            proof {
                assert(ids@[i as int] == id);
            }
            return true;
        }
        i += 1;
    }
    false
}

// ---------------------------------------------------------------------------
// The walk
// ---------------------------------------------------------------------------

/// How a walk ended: its result, the directories it asked for, in order, and how
/// many it still had to look at.
pub struct WalkEnd {
    pub result: Result<ScanView, Ended>,
    pub asked: Seq<u64>,
    pub left: int,
}

/// The walk from `walk` on, where asking for one directory after another gives
/// `listings`. The directory that was found last is looked at first.
pub open spec fn walk_all(frame: ScanFrame, walk: Walk, listings: Seq<Listing>) -> WalkEnd
    decreases listings.len(),
{
    if walk.pending.len() == 0 || listings.len() == 0 {
        WalkEnd {
            result: Ok(walk.scan),
            asked: Seq::empty(),
            left: walk.pending.len() as int,
        }
    } else {
        let dir = walk.pending.last();
        match visited(
            frame,
            dir,
            listings[0],
            Walk { scan: walk.scan, pending: walk.pending.drop_last() },
        ) {
            Err(error) => WalkEnd { result: Err(error), asked: seq![dir.fsoid], left: 0 },
            Ok(next) => after_asking(
                seq![dir.fsoid],
                walk_all(frame, next, listings.drop_first()),
            ),
        }
    }
}

/// The end of a walk that asked for `asked` before.
pub open spec fn after_asking(asked: Seq<u64>, end: WalkEnd) -> WalkEnd {
    WalkEnd { result: end.result, asked: asked + end.asked, left: end.left }
}

/// A complete walk from `walk` on came to `result`: the image answered each
/// question for a directory, and the answers lead to that result.
pub open spec fn walked<D: ApfsImage>(
    vol: &Volume<D>,
    bt: &D::Reader,
    frame: ScanFrame,
    walk: Walk,
    result: Result<ScanView, Ended>,
) -> bool {
    exists|listings: Seq<Listing>|
        {
            let end = #[trigger] walk_all(frame, walk, listings);
            &&& end.left == 0
            &&& end.result == result
            &&& end.asked.len() == listings.len()
            &&& forall|i: int|
                0 <= i < listings.len() ==> listing_given(
                    vol,
                    bt,
                    end.asked[i],
                    #[trigger] listings[i],
                )
        }
}

spec fn weight(dirs: Seq<ScanDirView>) -> int
    decreases dirs.len(),
{
    if dirs.len() == 0 {
        0
    } else {
        weight(dirs.drop_last()) + pow(
            0x1_0000_0000_0000_0000,
            (MAX_SCAN_DEPTH + 1 - dirs.last().depth) as nat,
        )
    }
}

spec fn within_depth(dirs: Seq<ScanDirView>) -> bool {
    forall|i: int| 0 <= i < dirs.len() ==> (#[trigger] dirs[i]).depth <= MAX_SCAN_DEPTH
}

proof fn lemma_weight_positive(dirs: Seq<ScanDirView>)
    ensures
        weight(dirs) >= 0,
    decreases dirs.len(),
{
    if dirs.len() > 0 {
        lemma_weight_positive(dirs.drop_last());
        vstd::arithmetic::power::lemma_pow_positive(
            0x1_0000_0000_0000_0000,
            (MAX_SCAN_DEPTH + 1 - dirs.last().depth) as nat,
        );
    }
}

proof fn lemma_entries_weigh_less(
    frame: ScanFrame,
    dir: ScanDirView,
    entries: Seq<DirRecView>,
    i: int,
    walk: Walk,
)
    requires
        0 <= i <= entries.len(),
        dir.depth <= MAX_SCAN_DEPTH,
        within_depth(walk.pending),
    ensures
        all_entered(frame, dir, entries, i, walk) matches Ok(next) ==> within_depth(next.pending)
            && weight(next.pending) <= weight(walk.pending) + (entries.len() - i) * pow(
            0x1_0000_0000_0000_0000,
            (MAX_SCAN_DEPTH - dir.depth) as nat,
        ),
    decreases entries.len() - i,
{
    let unit = pow(0x1_0000_0000_0000_0000, (MAX_SCAN_DEPTH - dir.depth) as nat);
    vstd::arithmetic::power::lemma_pow_positive(
        0x1_0000_0000_0000_0000,
        (MAX_SCAN_DEPTH - dir.depth) as nat,
    );
    if i < entries.len() {
        match entered(frame, dir, entries[i], walk) {
            Err(_) => {},
            Ok(next) => {
                if next.pending != walk.pending {
                    assert(next.pending.drop_last() =~= walk.pending);
                    assert(next.pending.last().depth == dir.depth + 1);
                }
                assert(weight(next.pending) <= weight(walk.pending) + unit);
                assert(within_depth(next.pending));
                lemma_entries_weigh_less(frame, dir, entries, i + 1, next);
                assert((entries.len() - i) * unit == unit + (entries.len() - i - 1) * unit)
                    by (nonlinear_arith);
            },
        }
    } else {
        assert((entries.len() - i) * unit == 0) by (nonlinear_arith)
            requires
                i == entries.len(),
        ;
    }
}

proof fn lemma_visit_weighs_less(
    frame: ScanFrame,
    dir: ScanDirView,
    listing: Listing,
    walk: Walk,
)
    requires
        dir.depth <= MAX_SCAN_DEPTH,
        within_depth(walk.pending),
        listing is Read ==> listing->entries.len() < 0x1_0000_0000_0000_0000,
    ensures
        visited(frame, dir, listing, walk) matches Ok(next) ==> within_depth(next.pending) && 0
            <= weight(next.pending) < weight(walk.pending) + pow(
            0x1_0000_0000_0000_0000,
            (MAX_SCAN_DEPTH + 1 - dir.depth) as nat,
        ),
{
    let b: int = 0x1_0000_0000_0000_0000;
    let e = (MAX_SCAN_DEPTH - dir.depth) as nat;
    let unit = pow(b, e);
    vstd::arithmetic::power::lemma_pow_positive(b, e);
    assert(pow(b, e + 1) == b * unit) by {
        reveal(pow);
    }
    match visited(frame, dir, listing, walk) {
        Err(_) => {},
        Ok(next) => {
            lemma_weight_positive(next.pending);
            match listing {
                Listing::Failed(_) => {
                    assert(b * unit > 0) by (nonlinear_arith)
                        requires
                            unit > 0,
                            b > 0,
                    ;
                },
                Listing::Read { warnings, entries } => {
                    let scan = all_warned(frame, dir, warnings, 0, walk.scan)->Ok_0;
                    lemma_entries_weigh_less(
                        frame,
                        dir,
                        entries,
                        0,
                        Walk { scan, pending: walk.pending },
                    );
                    let n = entries.len() as int;
                    assert(n * unit < b * unit) by (nonlinear_arith)
                        requires
                            n < b,
                            unit > 0,
                    ;
                },
            }
        },
    }
}

impl Scan {
    /// Looks at all directories in `pending` and at those found on the way.
    fn walk<D: ApfsImage>(
        &mut self,
        vol: &Volume<D>,
        bt: &D::Reader,
        opts: &Options,
        latest: &SnapshotInfo,
        snap: &SnapshotInfo,
        pending: Vec<ScanDir>,
    ) -> (r: Result<(), Error>)
        requires
            old(self).union.well_formed(),
            within_depth(dir_views(pending@)),
        ensures
            final(self).union.well_formed(),
            !opts.best_effort ==> final(self)@.errors == old(self)@.errors
                && final(self)@.incomplete == old(self)@.incomplete,
            opts.best_effort ==> r is Ok,
            walked(
                vol,
                bt,
                frame_of(opts, latest, snap),
                Walk { scan: old(self)@, pending: dir_views(pending@) },
                match r {
                    Ok(_) => Ok(final(self)@),
                    Err(e) => Err(Ended { error: e@, scan: final(self)@ }),
                },
            ),
    {
        let ghost frame = frame_of(opts, latest, snap);
        let ghost first = Walk { scan: self@, pending: dir_views(pending@) };
        let ghost mut done: Seq<Listing> = Seq::empty();
        let ghost mut asked: Seq<u64> = Seq::empty();
        let mut stack = pending;
        proof {
            assert forall|future: Seq<Listing>| #[trigger]
                walk_all(frame, first, done + future) == after_asking(
                    asked,
                    walk_all(frame, first, future),
                ) by {
                assert(done + future =~= future);
                let end = walk_all(frame, first, future);
                assert(asked + end.asked =~= end.asked);
            }
        }
        while stack.len() > 0
            invariant
                self.union.well_formed(),
                !opts.best_effort ==> self@.errors == old(self)@.errors && self@.incomplete
                    == old(self)@.incomplete,
                within_depth(dir_views(stack@)),
                frame == frame_of(opts, latest, snap),
                first == (Walk { scan: old(self)@, pending: dir_views(pending@) }),
                asked.len() == done.len(),
                forall|i: int|
                    0 <= i < done.len() ==> listing_given(vol, bt, asked[i], #[trigger] done[i]),
                forall|future: Seq<Listing>| #[trigger]
                    walk_all(frame, first, done + future) == after_asking(
                        asked,
                        walk_all(
                            frame,
                            Walk { scan: self@, pending: dir_views(stack@) },
                            future,
                        ),
                    ),
            decreases weight(dir_views(stack@)),
        {
            let ghost before = Walk { scan: self@, pending: dir_views(stack@) };
            let dir = match stack.pop() {
                Some(dir) => dir,
                None => return Ok(()),
            };
            let ghost popped = Walk { scan: self@, pending: dir_views(stack@) };
            proof {
                assert(before.pending.last() == dir@);
                assert(before.pending.drop_last() =~= popped.pending);
                lemma_weight_positive(popped.pending);
            }
            let reply = vol.list_dir(bt, dir.fsoid);
            let ghost listing;
            let r = match reply {
                Err(error) => {
                    proof {
                        listing = Listing::Failed(error@);
                        assert(vol.dir_listed(bt, dir.fsoid, Err(error)));
                    }
                    self.record_scan_error(
                        opts,
                        latest,
                        snap,
                        dir.source_path.as_str(),
                        dir.relative_path.as_str(),
                        error,
                    )
                },
                Ok(children) => {
                    let warnings = bt.take_warnings();
                    let ghost given = children;
                    let entries = sort_entries(children, false);
                    let count: usize = entries.len();
                    proof {
                        assert(count < 0x1_0000_0000_0000_0000);
                        listing = Listing::Read {
                            warnings: texts(warnings@),
                            entries: entry_views(entries@),
                        };
                        assert(is_arranged(given@, entry_views(entries@)));
                        assert(call_ensures(
                            <D::Reader as TreeReader>::take_warnings,
                            (bt,),
                            warnings,
                        ));
                    }
                    self.visit(opts, latest, snap, &dir, &warnings, &entries, &mut stack)
                },
            };
            proof {
                assert(listing_given(vol, bt, dir.fsoid, listing));
                lemma_visit_weighs_less(frame, dir@, listing, popped);
                let now = Walk { scan: self@, pending: dir_views(stack@) };
                let next_done = done.push(listing);
                let next_asked = asked.push(dir.fsoid);
                assert forall|future: Seq<Listing>| r is Ok implies #[trigger] walk_all(
                    frame,
                    first,
                    next_done + future,
                ) == after_asking(next_asked, walk_all(frame, now, future)) by {
                    let more = seq![listing] + future;
                    assert(next_done + future =~= done + more);
                    assert(more.drop_first() =~= future);
                    let end = walk_all(frame, now, future);
                    assert(walk_all(frame, before, more) == after_asking(seq![dir.fsoid], end));
                    assert(asked + (seq![dir.fsoid] + end.asked) =~= next_asked + end.asked);
                }
                if r is Err {
                    let one = seq![listing];
                    assert(next_done =~= done + one);
                    assert(walk_all(frame, first, done + one) == after_asking(
                        asked,
                        walk_all(frame, before, one),
                    ));
                    assert(walk_all(frame, before, one).asked == seq![dir.fsoid]);
                    let end = walk_all(frame, first, next_done);
                    assert(end.asked =~= next_asked);
                }
                done = next_done;
                asked = next_asked;
            }
            match r {
                Ok(_) => {},
                Err(error) => return Err(error),
            }
        }
        proof {
            let now = Walk { scan: self@, pending: dir_views(stack@) };
            let none = Seq::<Listing>::empty();
            assert(done + none =~= done);
            assert(walk_all(frame, first, done + none) == after_asking(
                asked,
                walk_all(frame, now, none),
            ));
            assert(asked + Seq::<u64>::empty() =~= asked);
            assert(walk_all(frame, first, done).left == 0);
        }
        Ok(())
    }
}

// ---------------------------------------------------------------------------
// Snapshots
// ---------------------------------------------------------------------------

/// The directory at which a scan begins.
pub open spec fn root_dir(root: Seq<char>, fsoid: u64) -> ScanDirView {
    ScanDirView {
        fsoid,
        source_path: root,
        relative_path: Seq::empty(),
        depth: 0,
        ancestors: seq![fsoid],
    }
}

/// The message of a root that was not found, with the warnings of the look-up.
pub open spec fn missing_root(message: Seq<char>, warnings: Seq<Seq<char>>) -> ErrorView {
    failure(
        ErrorKind::PathNotFound,
        if warnings.len() == 0 {
            message
        } else {
            message + "; B-tree warnings: "@ + joined(warnings, "; "@)
        },
    )
}

/// What scanning one view from `root` on comes to, where the root was resolved as
/// `resolved`.
///
/// A root that an older snapshot does not have is a valid empty observation. In the
/// latest snapshot, or where the look-up gave warnings, it cannot prove that
/// everything below it was deleted, and is an error.
pub open spec fn view_scanned<D: ApfsImage>(
    vol: &Volume<D>,
    bt: &D::Reader,
    frame: ScanFrame,
    root: Seq<char>,
    resolved: Result<Resolved, Error>,
    scan: ScanView,
    result: Result<ScanView, Ended>,
) -> bool {
    match resolved {
        Err(error) => if error.kind == ErrorKind::PathNotFound {
            exists|warnings: Vec<String>|
                {
                    &&& #[trigger] call_ensures(
                        <D::Reader as TreeReader>::take_warnings,
                        (bt,),
                        warnings,
                    )
                    &&& result == if frame.xid == frame.latest_xid || warnings@.len() > 0 {
                        recorded(
                            frame,
                            scan,
                            root,
                            Seq::empty(),
                            missing_root(error@.message, texts(warnings@)),
                        )
                    } else {
                        Ok(scan)
                    }
                }
        } else {
            result == recorded(frame, scan, root, Seq::empty(), error@)
        },
        Ok(found) => if found.type_label@ != "dir"@ {
            result == recorded(
                frame,
                scan,
                root,
                Seq::empty(),
                failure(
                    ErrorKind::NotADirectory,
                    "history root is a "@ + found.type_label@ + ", not a directory"@,
                ),
            )
        } else {
            walked(
                vol,
                bt,
                frame,
                Walk { scan, pending: seq![root_dir(root, found.fsoid)] },
                result,
            )
        },
    }
}

/// The result of a step that changes a scan. Where an error ends the scan, `after` is
/// what it had found until then.
pub open spec fn scan_result(r: Result<(), Error>, after: ScanView) -> Result<ScanView, Ended> {
    match r {
        Ok(_) => Ok(after),
        Err(e) => Err(Ended { error: e@, scan: after }),
    }
}

impl Scan {
    /// Scans one view from `root` on, where the root was resolved as `resolved`.
    pub fn scan_view<D: ApfsImage>(
        &mut self,
        vol: &Volume<D>,
        bt: &D::Reader,
        resolved: Result<Resolved, Error>,
        snap: &SnapshotInfo,
        latest: &SnapshotInfo,
        root: &str,
        opts: &Options,
    ) -> (r: Result<(), Error>)
        requires
            old(self).union.well_formed(),
        ensures
            final(self).union.well_formed(),
            !opts.best_effort ==> final(self)@.errors == old(self)@.errors
                && final(self)@.incomplete == old(self)@.incomplete,
            opts.best_effort ==> r is Ok,
            r is Err && !(resolved matches Ok(found) && found.type_label@ == "dir"@)
                ==> final(self)@ == old(self)@,
            view_scanned(
                vol,
                bt,
                frame_of(opts, latest, snap),
                root@,
                resolved,
                old(self)@,
                scan_result(r, final(self)@),
            ),
    {
        proof {
            reveal_strlit("");
            assert(""@ =~= Seq::<char>::empty());
        }
        match resolved {
            Err(error) => {
                if error.kind == ErrorKind::PathNotFound {
                    let warnings = bt.take_warnings();
                    proof {
                        assert(call_ensures(
                            <D::Reader as TreeReader>::take_warnings,
                            (bt,),
                            warnings,
                        ));
                    }
                    if snap.xid == latest.xid || warnings.len() > 0 {
                        let mut message = error.text();
                        if warnings.len() > 0 {
                            message.append("; B-tree warnings: ");
                            message.append(join(&warnings, "; ").as_str());
                        }
                        return self.record_scan_error(
                            opts,
                            latest,
                            snap,
                            root,
                            "",
                            Error::new(ErrorKind::PathNotFound, message),
                        );
                    }
                    return Ok(());
                }
                self.record_scan_error(opts, latest, snap, root, "", error)
            },
            Ok(found) => {
                if !str_eq(found.type_label.as_str(), "dir") {
                    let mut message = "history root is a ".to_owned();
                    message.append(found.type_label.as_str());
                    message.append(", not a directory");
                    return self.record_scan_error(
                        opts,
                        latest,
                        snap,
                        root,
                        "",
                        Error::new(ErrorKind::NotADirectory, message),
                    );
                }
                let mut ancestors: Vec<u64> = Vec::new();
                ancestors.push(found.fsoid);
                let mut pending: Vec<ScanDir> = Vec::new();
                pending.push(
                    ScanDir {
                        fsoid: found.fsoid,
                        source_path: root.to_owned(),
                        relative_path: String::new(),
                        depth: 0,
                        ancestors,
                    },
                );
                proof {
                    assert(pending@[0]@.relative_path =~= Seq::empty());
                    assert(pending@[0]@.ancestors =~= seq![found.fsoid]);
                    assert(dir_views(pending@) =~= seq![root_dir(root@, found.fsoid)]);
                }
                self.walk(vol, bt, opts, latest, snap, pending)
            },
        }
    }
}

/// What scanning one snapshot comes to: its view is opened, the root that the
/// template means in it is resolved, and the view is scanned from there.
pub open spec fn snapshot_scanned<D: ApfsImage, S: SnapshotSource<D>>(
    source: &S,
    frame: ScanFrame,
    template: Seq<char>,
    snap: &SnapshotInfo,
    scan: ScanView,
    result: Result<ScanView, Ended>,
) -> bool {
    let root = root_in(template, snap.name@);
    exists|view: Result<Volume<D>, Error>|
        {
            &&& #[trigger] call_ensures(S::open_snapshot, (source, snap), view)
            &&& match view {
                Err(error) => result == recorded(frame, scan, root, Seq::empty(), error@),
                Ok(vol) => exists|bt: D::Reader, path: &str, resolved: Result<Resolved, Error>|
                    {
                        &&& #[trigger] call_ensures(D::tree_reader, (&vol.dev, vol.block_size), bt)
                        &&& path@ == root
                        &&& #[trigger] call_ensures(
                            S::resolve,
                            (source, &vol, &bt, path),
                            resolved,
                        )
                        &&& view_scanned(&vol, &bt, frame, root, resolved, scan, result)
                    },
            }
        }
}

impl Scan {
    /// Scans one snapshot.
    pub fn scan_snapshot<D: ApfsImage, S: SnapshotSource<D>>(
        &mut self,
        source: &S,
        snap: &SnapshotInfo,
        latest: &SnapshotInfo,
        template: &str,
        opts: &Options,
    ) -> (r: Result<(), Error>)
        requires
            old(self).union.well_formed(),
        ensures
            final(self).union.well_formed(),
            !opts.best_effort ==> final(self)@.errors == old(self)@.errors
                && final(self)@.incomplete == old(self)@.incomplete,
            opts.best_effort ==> r is Ok,
            snapshot_scanned::<D, S>(
                source,
                frame_of(opts, latest, snap),
                template@,
                snap,
                old(self)@,
                scan_result(r, final(self)@),
            ),
    {
        let root = snapshot_root(template, snap.name.as_str());
        let view = source.open_snapshot(snap);
        match view {
            Err(error) => {
                proof {
                    reveal_strlit("");
                    assert(""@ =~= Seq::<char>::empty());
                }
                self.record_scan_error(opts, latest, snap, root.as_str(), "", error)
            },
            Ok(vol) => {
                let bt = vol.btree();
                let path = root.as_str();
                let resolved = source.resolve(&vol, &bt, path);
                proof {
                    assert(call_ensures(S::resolve, (source, &vol, &bt, path), resolved));
                    assert(call_ensures(D::tree_reader, (&vol.dev, vol.block_size), bt));
                }
                self.scan_view(&vol, &bt, resolved, snap, latest, path, opts)
            },
        }
    }
}

/// A scan that has found nothing yet.
pub open spec fn empty_scan() -> ScanView {
    ScanView { known: Map::empty(), errors: Seq::empty(), incomplete: Seq::empty() }
}

/// Snapshot `i` of `snapshots` was scanned, which took the scan from `before` to
/// `after`. The last of the snapshots is the latest.
pub open spec fn step_scanned<D: ApfsImage, S: SnapshotSource<D>>(
    source: &S,
    opts: &Options,
    template: Seq<char>,
    snapshots: Seq<SnapshotInfo>,
    i: int,
    before: ScanView,
    after: Result<ScanView, Ended>,
) -> bool {
    snapshot_scanned::<D, S>(
        source,
        frame_of(opts, &snapshots.last(), &snapshots[i]),
        template,
        &snapshots[i],
        before,
        after,
    )
}

/// `stages` are what a scan had found before each of the snapshots that it went
/// through, one after another.
pub open spec fn went_through<D: ApfsImage, S: SnapshotSource<D>>(
    source: &S,
    opts: &Options,
    template: Seq<char>,
    snapshots: Seq<SnapshotInfo>,
    stages: Seq<ScanView>,
) -> bool {
    &&& 0 < stages.len() <= snapshots.len() + 1
    &&& stages[0] == empty_scan()
    &&& forall|i: int|
        0 <= i < stages.len() - 1 ==> step_scanned::<D, S>(
            source,
            opts,
            template,
            snapshots,
            i,
            #[trigger] stages[i],
            Ok(stages[i + 1]),
        )
}

/// What a person is told when the scan of snapshot `i` of `snapshots` begins.
pub open spec fn scanning_line(
    template: Seq<char>,
    snapshots: Seq<SnapshotInfo>,
    i: int,
) -> Seq<char> {
    let name = snapshots[i].name@;
    "history-union: scanning "@ + dec((i + 1) as nat) + "/"@ + dec(snapshots.len())
        + " snapshot "@ + debug_of(name) + " xid="@ + hex_prefixed(snapshots[i].xid as nat)
        + " root="@ + debug_of(root_in(template, name))
}

/// What a person is told of the scans of the first `n` snapshots.
pub open spec fn scanning_lines(
    template: Seq<char>,
    snapshots: Seq<SnapshotInfo>,
    n: nat,
) -> Seq<Seq<char>> {
    Seq::new(n, |i: int| scanning_line(template, snapshots, i))
}

fn scanning_text(template: &str, snapshots: &Vec<SnapshotInfo>, i: usize) -> (r: String)
    requires
        i < snapshots@.len(),
    ensures
        r@ == scanning_line(template@, snapshots@, i as int),
{
    let count: usize = snapshots.len();
    let snap = &snapshots[i];
    let root = snapshot_root(template, snap.name.as_str());
    let mut text = "history-union: scanning ".to_owned();
    push_dec_len(&mut text, i + 1);
    text.append("/");
    push_dec_len(&mut text, count);
    text.append(" snapshot ");
    text.append(debug_text(snap.name.as_str()).as_str());
    text.append(" xid=");
    push_hex(&mut text, snap.xid);
    text.append(" root=");
    text.append(debug_text(root.as_str()).as_str());
    text
}

/// `r` is what scanning all snapshots gives: either all are scanned, or the first
/// error of one ends the command. A person is told of each before it is scanned.
pub open spec fn all_scanned<D: ApfsImage, S: SnapshotSource<D>>(
    source: &S,
    opts: &Options,
    template: Seq<char>,
    snapshots: Seq<SnapshotInfo>,
    at: Seq<Event>,
    to: Seq<Event>,
    r: Result<Scan, Error>,
) -> bool {
    exists|stages: Seq<ScanView>|
        {
            &&& #[trigger] went_through::<D, S>(source, opts, template, snapshots, stages)
            &&& match r {
                Ok(scan) => {
                    &&& scan.union.well_formed()
                    &&& stages.len() == snapshots.len() + 1
                    &&& scan@ == stages.last()
                    &&& to == at + notices(scanning_lines(template, snapshots, snapshots.len()))
                },
                Err(e) => {
                    &&& stages.len() <= snapshots.len()
                    &&& step_failed::<D, S>(
                        source,
                        opts,
                        template,
                        snapshots,
                        stages.len() - 1,
                        stages.last(),
                        e@,
                    )
                    &&& to == at + notices(scanning_lines(template, snapshots, stages.len()))
                },
            }
        }
}

/// Scanning snapshot `i` of `snapshots` ended with `error`.
pub open spec fn step_failed<D: ApfsImage, S: SnapshotSource<D>>(
    source: &S,
    opts: &Options,
    template: Seq<char>,
    snapshots: Seq<SnapshotInfo>,
    i: int,
    before: ScanView,
    error: ErrorView,
) -> bool {
    exists|scan: ScanView| #[trigger]
        step_scanned::<D, S>(
            source,
            opts,
            template,
            snapshots,
            i,
            before,
            Err(Ended { error, scan }),
        )
}

/// Scans all snapshots, oldest first.
pub fn scan_all<D: ApfsImage, S: SnapshotSource<D>, O: Destination>(
    source: &S,
    dest: &mut Journal<O>,
    snapshots: &Vec<SnapshotInfo>,
    template: &str,
    opts: &Options,
) -> (r: Result<Scan, Error>)
    ensures
        final(dest).dest() == old(dest).dest(),
        all_scanned::<D, S>(
            source,
            opts,
            template@,
            snapshots@,
            old(dest)@,
            final(dest)@,
            r,
        ),
{
    let mut scan = Scan::new();
    let ghost mut stages: Seq<ScanView> = seq![scan@];
    let mut i: usize = 0;
    while i < snapshots.len()
        invariant
            scan.union.well_formed(),
            i <= snapshots@.len(),
            dest.dest() == old(dest).dest(),
            dest@ =~= old(dest)@ + notices(scanning_lines(template@, snapshots@, i as nat)),
            stages.len() == i + 1,
            stages.last() == scan@,
            went_through::<D, S>(source, opts, template@, snapshots@, stages),
        decreases snapshots@.len() - i,
    {
        let latest = &snapshots[snapshots.len() - 1];
        let snap = &snapshots[i];
        let ghost before = scan@;
        let text = scanning_text(template, snapshots, i);
        dest.notice(text.as_str());
        let r = scan.scan_snapshot(source, snap, latest, template, opts);
        proof {
            assert(dest@ =~= old(dest)@ + notices(
                scanning_lines(template@, snapshots@, (i + 1) as nat),
            ));
            assert(step_scanned::<D, S>(
                source,
                opts,
                template@,
                snapshots@,
                i as int,
                before,
                scan_result(r, scan@),
            ));
        }
        match r {
            Err(e) => {
                return Err(e);
            },
            Ok(_) => {},
        }
        proof {
            let next = stages.push(scan@);
            assert forall|k: int| 0 <= k < next.len() - 1 implies step_scanned::<D, S>(
                source,
                opts,
                template@,
                snapshots@,
                k,
                #[trigger] next[k],
                Ok(next[k + 1]),
            ) by {
                if k < stages.len() - 1 {
                    assert(next[k] == stages[k]);
                    assert(next[k + 1] == stages[k + 1]);
                }
            }
            stages = next;
        }
        i += 1;
    }
    Ok(scan)
}

// ---------------------------------------------------------------------------
// Laws
// ---------------------------------------------------------------------------

/// Every error of the latest snapshot made its prefix unreadable.
pub open spec fn errors_are_marked(scan: ScanView, latest: u64) -> bool {
    forall|i: int|
        0 <= i < scan.errors.len() && (#[trigger] scan.errors[i]).snapshot_xid == latest
            ==> scan.incomplete.contains(scan.errors[i].relative_prefix)
}

/// A directory that is still to be looked at lies within the depth of the scan and
/// is not its own ancestor.
pub open spec fn is_sound_dir(dir: ScanDirView) -> bool {
    &&& dir.depth <= MAX_SCAN_DEPTH
    &&& dir.ancestors.len() == dir.depth + 1
    &&& dir.ancestors.last() == dir.fsoid
    &&& dir.ancestors.no_duplicates()
}

/// All directories that are still to be looked at are sound.
pub open spec fn all_sound(pending: Seq<ScanDirView>) -> bool {
    forall|i: int| 0 <= i < pending.len() ==> is_sound_dir(#[trigger] pending[i])
}

proof fn lemma_recorded_marks(
    frame: ScanFrame,
    scan: ScanView,
    source: Seq<char>,
    prefix: Seq<char>,
    error: ErrorView,
)
    ensures
        frame.best_effort ==> recorded(frame, scan, source, prefix, error) is Ok,
        recorded(frame, scan, source, prefix, error) matches Ok(next) ==> errors_are_marked(
            scan,
            frame.latest_xid,
        ) ==> errors_are_marked(next, frame.latest_xid),
{
    if frame.best_effort && errors_are_marked(scan, frame.latest_xid) {
        let next = recorded(frame, scan, source, prefix, error)->Ok_0;
        assert forall|i: int|
            0 <= i < next.errors.len() && (#[trigger] next.errors[i]).snapshot_xid
                == frame.latest_xid implies next.incomplete.contains(
            next.errors[i].relative_prefix,
        ) by {
            if i < scan.errors.len() {
                assert(next.errors[i] == scan.errors[i]);
                let k = choose|k: int|
                    0 <= k < scan.incomplete.len() && scan.incomplete[k]
                        == scan.errors[i].relative_prefix;
                assert(next.incomplete[k] == scan.incomplete[k]);
            } else {
                assert(next.incomplete.last() == prefix);
                assert(next.incomplete[next.incomplete.len() - 1] == prefix);
            }
        }
    }
}

proof fn lemma_entered_sound(frame: ScanFrame, dir: ScanDirView, child: DirRecView, walk: Walk)
    requires
        is_sound_dir(dir),
        all_sound(walk.pending),
    ensures
        frame.best_effort ==> entered(frame, dir, child, walk) is Ok,
        entered(frame, dir, child, walk) matches Ok(next) ==> (errors_are_marked(
            walk.scan,
            frame.latest_xid,
        ) ==> errors_are_marked(next.scan, frame.latest_xid)) && all_sound(next.pending),
{
    let source = below_absolute(dir.source_path, child.name);
    let relative = below(dir.relative_path, child.name);
    let entry_type = EntryType::named(child.type_label);
    let seen = ScanView {
        known: observed(
            walk.scan.known,
            Observation {
                relative_path: relative,
                source_path: source,
                entry_type,
                fsoid: child.file_id,
                snapshot_xid: frame.xid,
            },
        ),
        ..walk.scan
    };
    assert(errors_are_marked(seen, frame.latest_xid) == errors_are_marked(
        walk.scan,
        frame.latest_xid,
    ));
    lemma_recorded_marks(
        frame,
        walk.scan,
        source,
        relative,
        failure(ErrorKind::Corrupt, "unsafe directory-entry name"@),
    );
    lemma_recorded_marks(
        frame,
        seen,
        source,
        relative,
        failure(ErrorKind::Corrupt, "history scan exceeded directory depth cap"@),
    );
    lemma_recorded_marks(
        frame,
        seen,
        source,
        relative,
        failure(ErrorKind::Corrupt, "directory cycle detected"@),
    );
    if dir.depth < MAX_SCAN_DEPTH && !dir.ancestors.contains(child.file_id) {
        let sub = subdirectory(dir, child);
        assert(sub.ancestors.no_duplicates()) by {
            assert forall|i: int, j: int|
                0 <= i < sub.ancestors.len() && 0 <= j < sub.ancestors.len() && i
                    != j implies sub.ancestors[i] != sub.ancestors[j] by {
                if i == dir.ancestors.len() {
                    assert(dir.ancestors[j] == sub.ancestors[j]);
                }
                if j == dir.ancestors.len() {
                    assert(dir.ancestors[i] == sub.ancestors[i]);
                }
            }
        }
        assert(is_sound_dir(sub));
    }
}

proof fn lemma_all_entered_sound(
    frame: ScanFrame,
    dir: ScanDirView,
    entries: Seq<DirRecView>,
    i: int,
    walk: Walk,
)
    requires
        0 <= i <= entries.len(),
        is_sound_dir(dir),
        all_sound(walk.pending),
    ensures
        frame.best_effort ==> all_entered(frame, dir, entries, i, walk) is Ok,
        all_entered(frame, dir, entries, i, walk) matches Ok(next) ==> (errors_are_marked(
            walk.scan,
            frame.latest_xid,
        ) ==> errors_are_marked(next.scan, frame.latest_xid)) && all_sound(next.pending),
    decreases entries.len() - i,
{
    if i < entries.len() {
        lemma_entered_sound(frame, dir, entries[i], walk);
        match entered(frame, dir, entries[i], walk) {
            Err(_) => {},
            Ok(next) => lemma_all_entered_sound(frame, dir, entries, i + 1, next),
        }
    }
}

proof fn lemma_all_warned_sound(
    frame: ScanFrame,
    dir: ScanDirView,
    warnings: Seq<Seq<char>>,
    i: int,
    scan: ScanView,
)
    requires
        0 <= i <= warnings.len(),
    ensures
        frame.best_effort ==> all_warned(frame, dir, warnings, i, scan) is Ok,
        all_warned(frame, dir, warnings, i, scan) matches Ok(next) ==> errors_are_marked(
            scan,
            frame.latest_xid,
        ) ==> errors_are_marked(next, frame.latest_xid),
    decreases warnings.len() - i,
{
    if i < warnings.len() {
        lemma_recorded_marks(
            frame,
            scan,
            dir.source_path,
            dir.relative_path,
            failure(ErrorKind::Corrupt, "B-tree warning: "@ + warnings[i]),
        );
        match warned(frame, dir, scan, warnings[i]) {
            Err(_) => {},
            Ok(next) => lemma_all_warned_sound(frame, dir, warnings, i + 1, next),
        }
    }
}

proof fn lemma_visited_sound(frame: ScanFrame, dir: ScanDirView, listing: Listing, walk: Walk)
    requires
        is_sound_dir(dir),
        all_sound(walk.pending),
    ensures
        frame.best_effort ==> visited(frame, dir, listing, walk) is Ok,
        visited(frame, dir, listing, walk) matches Ok(next) ==> (errors_are_marked(
            walk.scan,
            frame.latest_xid,
        ) ==> errors_are_marked(next.scan, frame.latest_xid)) && all_sound(next.pending),
{
    match listing {
        Listing::Failed(error) => lemma_recorded_marks(
            frame,
            walk.scan,
            dir.source_path,
            dir.relative_path,
            error,
        ),
        Listing::Read { warnings, entries } => {
            lemma_all_warned_sound(frame, dir, warnings, 0, walk.scan);
            match all_warned(frame, dir, warnings, 0, walk.scan) {
                Err(_) => {},
                Ok(scan) => lemma_all_entered_sound(
                    frame,
                    dir,
                    entries,
                    0,
                    Walk { scan, pending: walk.pending },
                ),
            }
        },
    }
}

/// Whatever the image answers: a walk that does its best never fails, and every
/// error in the latest snapshot makes its prefix unreadable, so that nothing below
/// it can be taken for deleted.
pub proof fn law_walk_marks_what_it_could_not_read(
    frame: ScanFrame,
    walk: Walk,
    listings: Seq<Listing>,
)
    requires
        errors_are_marked(walk.scan, frame.latest_xid),
        all_sound(walk.pending),
    ensures
        ({
            let end = walk_all(frame, walk, listings);
            &&& frame.best_effort ==> end.result is Ok
            &&& end.result matches Ok(scan) ==> errors_are_marked(scan, frame.latest_xid)
        }),
    decreases listings.len(),
{
    if walk.pending.len() > 0 && listings.len() > 0 {
        let dir = walk.pending.last();
        let rest = Walk { scan: walk.scan, pending: walk.pending.drop_last() };
        assert(is_sound_dir(walk.pending[walk.pending.len() - 1]));
        assert forall|i: int| 0 <= i < rest.pending.len() implies is_sound_dir(
            #[trigger] rest.pending[i],
        ) by {
            assert(rest.pending[i] == walk.pending[i]);
        }
        lemma_visited_sound(frame, dir, listings[0], rest);
        match visited(frame, dir, listings[0], rest) {
            Err(_) => {},
            Ok(next) => law_walk_marks_what_it_could_not_read(
                frame,
                next,
                listings.drop_first(),
            ),
        }
    }
}

/// A walk never follows a directory into itself: what it adds to the directories
/// still to be looked at lies within the depth of the scan, and no directory stands
/// twice on the way to one.
pub proof fn law_walk_never_follows_a_cycle(
    frame: ScanFrame,
    dir: ScanDirView,
    listing: Listing,
    walk: Walk,
)
    requires
        is_sound_dir(dir),
        all_sound(walk.pending),
    ensures
        visited(frame, dir, listing, walk) matches Ok(next) ==> all_sound(next.pending),
{
    lemma_visited_sound(frame, dir, listing, walk);
}

/// A scan begins with a sound directory.
pub proof fn law_scan_root_is_sound(root: Seq<char>, fsoid: u64)
    ensures
        is_sound_dir(root_dir(root, fsoid)),
{
}

// ---------------------------------------------------------------------------
// What a walk sees
// ---------------------------------------------------------------------------

/// The path of `name` in the directory `parent`, both relative to the root.
pub open spec fn path_in(parent: Seq<char>, name: Seq<char>) -> Seq<char> {
    if parent.len() == 0 {
        name
    } else {
        parent + seq!['/'] + name
    }
}

/// The absolute path of `name` in the directory `parent`.
pub open spec fn source_in(parent: Seq<char>, name: Seq<char>) -> Seq<char> {
    if parent == seq!['/'] {
        parent + name
    } else {
        parent + seq!['/'] + name
    }
}

/// A name that can stand for one entry of a directory.
pub open spec fn names_an_entry(name: Seq<char>) -> bool {
    name.len() > 0 && name != seq!['.'] && name != seq!['.', '.'] && forall|i: int|
        0 <= i < name.len() ==> name[i] != '/'
}

/// What `known` becomes by the observations `seen`, one after another.
pub open spec fn after_seeing(known: Map<Seq<char>, PathRecord>, seen: Seq<Observation>) -> Map<
    Seq<char>,
    PathRecord,
>
    decreases seen.len(),
{
    if seen.len() == 0 {
        known
    } else {
        observed(after_seeing(known, seen.drop_last()), seen.last())
    }
}

/// Among the errors from `from` on is one for `path` in snapshot `xid`.
pub open spec fn is_noted(
    errors: Seq<ScanErrorView>,
    from: int,
    xid: u64,
    path: Seq<char>,
) -> bool {
    exists|k: int|
        from <= k < errors.len() && (#[trigger] errors[k]).relative_prefix == path
            && errors[k].snapshot_xid == xid
}

/// The directories that a walk looked at, and what it saw in them.
pub struct Tour {
    pub dirs: Seq<ScanDirView>,
    pub seen: Seq<Observation>,
}

/// What is seen of `child` in `dir`.
pub open spec fn seen_in(dir: ScanDirView, child: DirRecView, xid: u64) -> Observation {
    Observation {
        relative_path: path_in(dir.relative_path, child.name),
        source_path: source_in(dir.source_path, child.name),
        entry_type: EntryType::named(child.type_label),
        fsoid: child.file_id,
        snapshot_xid: xid,
    }
}

/// The directory that `child` in `dir` is.
pub open spec fn dir_in(dir: ScanDirView, child: DirRecView) -> ScanDirView {
    ScanDirView {
        fsoid: child.file_id,
        source_path: source_in(dir.source_path, child.name),
        relative_path: path_in(dir.relative_path, child.name),
        depth: (dir.depth + 1) as u32,
        ancestors: dir.ancestors.push(child.file_id),
    }
}

/// An entry of a directory that was looked at is accounted for: it was seen, and a
/// directory among them was looked at in its turn, unless an error says why not. An error
/// says so only of a name that stands for no entry, and of a directory that lies too deep
/// or inside itself.
pub open spec fn entry_accounted_for(
    dir: ScanDirView,
    child: DirRecView,
    xid: u64,
    tour: Tour,
    errors: Seq<ScanErrorView>,
    from: int,
) -> bool {
    let path = path_in(dir.relative_path, child.name);
    if names_an_entry(child.name) {
        &&& tour.seen.contains(seen_in(dir, child, xid))
        &&& child.type_label == "dir"@ ==> if dir.depth < 4096 && forall|i: int|
            0 <= i < dir.ancestors.len() ==> dir.ancestors[i] != child.file_id {
            tour.dirs.contains(dir_in(dir, child))
        } else {
            is_noted(errors, from, xid, path)
        }
    } else {
        is_noted(errors, from, xid, path)
    }
}

/// A directory that was looked at is accounted for: an error says that it could not be
/// read, or with what warnings, and each of its entries is accounted for.
pub open spec fn dir_accounted_for(
    dir: ScanDirView,
    listing: Listing,
    xid: u64,
    tour: Tour,
    errors: Seq<ScanErrorView>,
    from: int,
) -> bool {
    match listing {
        Listing::Failed(_) => is_noted(errors, from, xid, dir.relative_path),
        Listing::Read { warnings, entries } => {
            &&& warnings.len() > 0 ==> is_noted(errors, from, xid, dir.relative_path)
            &&& forall|c: int|
                0 <= c < entries.len() ==> entry_accounted_for(
                    dir,
                    #[trigger] entries[c],
                    xid,
                    tour,
                    errors,
                    from,
                )
        },
    }
}

/// An observation comes from an entry of a directory that was looked at.
pub open spec fn is_from(
    o: Observation,
    dir: ScanDirView,
    listing: Listing,
    xid: u64,
) -> bool {
    listing matches Listing::Read { entries, .. } && exists|c: int|
        0 <= c < entries.len() && o == seen_in(dir, #[trigger] entries[c], xid)
}

proof fn lemma_noted_stays(
    errors: Seq<ScanErrorView>,
    more: Seq<ScanErrorView>,
    from: int,
    xid: u64,
    path: Seq<char>,
)
    requires
        is_noted(errors, from, xid, path),
        errors.is_prefix_of(more),
        0 <= from,
    ensures
        is_noted(more, from, xid, path),
{
    let k = choose|k: int|
        from <= k < errors.len() && (#[trigger] errors[k]).relative_prefix == path
            && errors[k].snapshot_xid == xid;
    assert(more[k] == errors[k]);
}

proof fn lemma_entry_stays_accounted_for(
    dir: ScanDirView,
    child: DirRecView,
    xid: u64,
    tour: Tour,
    errors: Seq<ScanErrorView>,
    later: Tour,
    more: Seq<ScanErrorView>,
    from: int,
)
    requires
        entry_accounted_for(dir, child, xid, tour, errors, from),
        errors.is_prefix_of(more),
        0 <= from,
        forall|d: ScanDirView| #[trigger] tour.dirs.contains(d) ==> later.dirs.contains(d),
        forall|o: Observation| #[trigger] tour.seen.contains(o) ==> later.seen.contains(o),
    ensures
        entry_accounted_for(dir, child, xid, later, more, from),
{
    let path = path_in(dir.relative_path, child.name);
    if is_noted(errors, from, xid, path) {
        lemma_noted_stays(errors, more, from, xid, path);
    }
    if names_an_entry(child.name) {
        assert(tour.seen.contains(seen_in(dir, child, xid)));
        if tour.dirs.contains(dir_in(dir, child)) {
            assert(later.dirs.contains(dir_in(dir, child)));
        }
    }
}

proof fn lemma_paths_agree(parent: Seq<char>, name: Seq<char>)
    ensures
        below(parent, name) == path_in(parent, name),
        below_absolute(parent, name) == source_in(parent, name),
        is_component(name) == names_an_entry(name),
{
    reveal_strlit("/");
    reveal_strlit(".");
    reveal_strlit("..");
    assert("/"@ =~= seq!['/']);
    assert("."@ =~= seq!['.']);
    assert(".."@ =~= seq!['.', '.']);
    if name.contains('/') {
        let i = choose|i: int| 0 <= i < name.len() && name[i] == '/';
        assert(name[i] == '/');
    }
    if !names_an_entry(name) && name.len() > 0 && name != seq!['.'] && name != seq!['.', '.'] {
        let i = choose|i: int| 0 <= i < name.len() && name[i] == '/';
        assert(name.contains('/'));
    }
}

/// What one entry does to a walk, told by itself.
proof fn lemma_entry_told(
    frame: ScanFrame,
    dir: ScanDirView,
    child: DirRecView,
    walk: Walk,
    from: int,
) -> (news: (Seq<Observation>, Seq<ScanDirView>))
    requires
        0 <= from <= walk.scan.errors.len(),
        entered(frame, dir, child, walk) is Ok,
    ensures
        ({
            let next = entered(frame, dir, child, walk)->Ok_0;
            let told = Tour { dirs: news.1, seen: news.0 };
            &&& next.scan.known == after_seeing(walk.scan.known, news.0)
            &&& next.pending == walk.pending + news.1
            &&& walk.scan.errors.is_prefix_of(next.scan.errors)
            &&& entry_accounted_for(dir, child, frame.xid, told, next.scan.errors, from)
            &&& forall|o: Observation| #[trigger]
                news.0.contains(o) ==> o == seen_in(dir, child, frame.xid)
        }),
{
    lemma_paths_agree(dir.relative_path, child.name);
    lemma_paths_agree(dir.source_path, child.name);
    let next = entered(frame, dir, child, walk)->Ok_0;
    let none: Seq<Observation> = Seq::empty();
    let no_dirs: Seq<ScanDirView> = Seq::empty();
    let path = path_in(dir.relative_path, child.name);
    let errors = next.scan.errors;
    if errors.len() > walk.scan.errors.len() {
        let last = errors.len() - 1;
        assert(errors[last].relative_prefix == path);
        assert(is_noted(errors, from, frame.xid, path));
    }
    assert(walk.pending + no_dirs =~= walk.pending);
    if !is_component(child.name) {
        (none, no_dirs)
    } else {
        let o = seen_in(dir, child, frame.xid);
        let seen = seq![o];
        assert(seen.drop_last() =~= none);
        reveal_with_fuel(after_seeing, 2);
        assert(seen[0] == o);
        law_types_are_known_by_name(child.type_label);
        if child.type_label == "dir"@ && dir.depth < MAX_SCAN_DEPTH && !dir.ancestors.contains(
            child.file_id,
        ) {
            let sub = dir_in(dir, child);
            let dirs = seq![sub];
            assert(dirs[0] == sub);
            assert(walk.pending + dirs =~= walk.pending.push(sub));
            assert(subdirectory(dir, child) == sub);
            (seen, dirs)
        } else {
            if child.type_label == "dir"@ && dir.depth < MAX_SCAN_DEPTH {
                let i = choose|i: int|
                    0 <= i < dir.ancestors.len() && dir.ancestors[i] == child.file_id;
                assert(dir.ancestors[i] == child.file_id);
            }
            (seen, no_dirs)
        }
    }
}

proof fn lemma_after_seeing_both(
    known: Map<Seq<char>, PathRecord>,
    a: Seq<Observation>,
    b: Seq<Observation>,
)
    ensures
        after_seeing(after_seeing(known, a), b) == after_seeing(known, a + b),
    decreases b.len(),
{
    if b.len() == 0 {
        assert(a + b =~= a);
    } else {
        lemma_after_seeing_both(known, a, b.drop_last());
        assert((a + b).drop_last() =~= a + b.drop_last());
        assert((a + b).last() == b.last());
    }
}

/// What the entries from `i` on do to a walk, told by itself.
proof fn lemma_entries_told(
    frame: ScanFrame,
    dir: ScanDirView,
    entries: Seq<DirRecView>,
    i: int,
    walk: Walk,
    from: int,
) -> (news: (Seq<Observation>, Seq<ScanDirView>))
    requires
        0 <= i <= entries.len(),
        0 <= from <= walk.scan.errors.len(),
        all_entered(frame, dir, entries, i, walk) is Ok,
    ensures
        ({
            let next = all_entered(frame, dir, entries, i, walk)->Ok_0;
            let told = Tour { dirs: news.1, seen: news.0 };
            &&& next.scan.known == after_seeing(walk.scan.known, news.0)
            &&& next.pending == walk.pending + news.1
            &&& walk.scan.errors.is_prefix_of(next.scan.errors)
            &&& forall|c: int|
                i <= c < entries.len() ==> entry_accounted_for(
                    dir,
                    #[trigger] entries[c],
                    frame.xid,
                    told,
                    next.scan.errors,
                    from,
                )
            &&& forall|o: Observation| #[trigger]
                news.0.contains(o) ==> exists|c: int|
                    i <= c < entries.len() && o == seen_in(dir, #[trigger] entries[c], frame.xid)
        }),
    decreases entries.len() - i,
{
    let none: Seq<Observation> = Seq::empty();
    let no_dirs: Seq<ScanDirView> = Seq::empty();
    if i == entries.len() {
        assert(walk.pending + no_dirs =~= walk.pending);
        (none, no_dirs)
    } else {
        let next = entered(frame, dir, entries[i], walk)->Ok_0;
        let first = lemma_entry_told(frame, dir, entries[i], walk, from);
        let rest = lemma_entries_told(frame, dir, entries, i + 1, next, from);
        let last = all_entered(frame, dir, entries, i, walk)->Ok_0;
        let seen = first.0 + rest.0;
        let dirs = first.1 + rest.1;
        let told = Tour { dirs, seen };
        lemma_after_seeing_both(walk.scan.known, first.0, rest.0);
        assert(walk.pending + first.1 + rest.1 =~= walk.pending + dirs);
        lemma_prefixes(walk.scan.errors, next.scan.errors, last.scan.errors);
        assert forall|d: ScanDirView| first.1.contains(d) || rest.1.contains(d) implies
            #[trigger] dirs.contains(d) by {
            lemma_in_sum(first.1, rest.1, d);
        }
        assert forall|o: Observation| first.0.contains(o) || rest.0.contains(o) implies
            #[trigger] seen.contains(o) by {
            lemma_in_sum(first.0, rest.0, o);
        }
        assert forall|c: int| i <= c < entries.len() implies entry_accounted_for(
            dir,
            #[trigger] entries[c],
            frame.xid,
            told,
            last.scan.errors,
            from,
        ) by {
            if c == i {
                lemma_entry_stays_accounted_for(
                    dir,
                    entries[c],
                    frame.xid,
                    Tour { dirs: first.1, seen: first.0 },
                    next.scan.errors,
                    told,
                    last.scan.errors,
                    from,
                );
            } else {
                assert(last.scan.errors.is_prefix_of(last.scan.errors));
                lemma_entry_stays_accounted_for(
                    dir,
                    entries[c],
                    frame.xid,
                    Tour { dirs: rest.1, seen: rest.0 },
                    last.scan.errors,
                    told,
                    last.scan.errors,
                    from,
                );
            }
        }
        assert forall|o: Observation| #[trigger] seen.contains(o) implies exists|c: int|
            i <= c < entries.len() && o == seen_in(dir, #[trigger] entries[c], frame.xid) by {
            let k = choose|k: int| 0 <= k < seen.len() && seen[k] == o;
            if k < first.0.len() {
                assert(first.0[k] == o);
                assert(first.0.contains(o));
                assert(o == seen_in(dir, entries[i], frame.xid));
            } else {
                assert(rest.0[k - first.0.len()] == o);
                assert(rest.0.contains(o));
            }
        }
        (seen, dirs)
    }
}

proof fn lemma_in_sum<A>(a: Seq<A>, b: Seq<A>, x: A)
    requires
        a.contains(x) || b.contains(x),
    ensures
        (a + b).contains(x),
{
    if a.contains(x) {
        let k = choose|k: int| 0 <= k < a.len() && a[k] == x;
        assert((a + b)[k] == x);
    } else {
        let k = choose|k: int| 0 <= k < b.len() && b[k] == x;
        assert((a + b)[a.len() + k] == x);
    }
}

proof fn lemma_prefixes<A>(a: Seq<A>, b: Seq<A>, c: Seq<A>)
    requires
        a.is_prefix_of(b),
        b.is_prefix_of(c),
    ensures
        a.is_prefix_of(c),
{
    assert(c.take(a.len() as int) =~= b.take(a.len() as int));
}

proof fn lemma_warnings_told(
    frame: ScanFrame,
    dir: ScanDirView,
    warnings: Seq<Seq<char>>,
    i: int,
    scan: ScanView,
    from: int,
)
    requires
        0 <= i <= warnings.len(),
        0 <= from <= scan.errors.len(),
        all_warned(frame, dir, warnings, i, scan) is Ok,
    ensures
        ({
            let next = all_warned(frame, dir, warnings, i, scan)->Ok_0;
            &&& next.known == scan.known
            &&& scan.errors.is_prefix_of(next.errors)
            &&& i < warnings.len() ==> is_noted(next.errors, from, frame.xid, dir.relative_path)
        }),
    decreases warnings.len() - i,
{
    if i < warnings.len() {
        let next = warned(frame, dir, scan, warnings[i])->Ok_0;
        lemma_warnings_told(frame, dir, warnings, i + 1, next, from);
        let last = all_warned(frame, dir, warnings, i, scan)->Ok_0;
        assert(next.errors[next.errors.len() - 1].relative_prefix == dir.relative_path);
        assert(is_noted(next.errors, from, frame.xid, dir.relative_path));
        lemma_noted_stays(next.errors, last.errors, from, frame.xid, dir.relative_path);
        lemma_prefixes(scan.errors, next.errors, last.errors);
    }
}

/// What looking at one directory does to a walk, told by itself.
proof fn lemma_visit_told(
    frame: ScanFrame,
    dir: ScanDirView,
    listing: Listing,
    walk: Walk,
    from: int,
) -> (news: (Seq<Observation>, Seq<ScanDirView>))
    requires
        0 <= from <= walk.scan.errors.len(),
        visited(frame, dir, listing, walk) is Ok,
    ensures
        ({
            let next = visited(frame, dir, listing, walk)->Ok_0;
            let told = Tour { dirs: news.1, seen: news.0 };
            &&& next.scan.known == after_seeing(walk.scan.known, news.0)
            &&& next.pending == walk.pending + news.1
            &&& walk.scan.errors.is_prefix_of(next.scan.errors)
            &&& dir_accounted_for(dir, listing, frame.xid, told, next.scan.errors, from)
            &&& forall|o: Observation| #[trigger]
                news.0.contains(o) ==> is_from(o, dir, listing, frame.xid)
        }),
{
    let none: Seq<Observation> = Seq::empty();
    let no_dirs: Seq<ScanDirView> = Seq::empty();
    let next = visited(frame, dir, listing, walk)->Ok_0;
    match listing {
        Listing::Failed(error) => {
            let errors = next.scan.errors;
            assert(errors[errors.len() - 1].relative_prefix == dir.relative_path);
            assert(is_noted(errors, from, frame.xid, dir.relative_path));
            assert(walk.pending + no_dirs =~= walk.pending);
            (none, no_dirs)
        },
        Listing::Read { warnings, entries } => {
            lemma_warnings_told(frame, dir, warnings, 0, walk.scan, from);
            let scan = all_warned(frame, dir, warnings, 0, walk.scan)->Ok_0;
            let mid = Walk { scan, pending: walk.pending };
            let news = lemma_entries_told(frame, dir, entries, 0, mid, from);
            lemma_prefixes(walk.scan.errors, scan.errors, next.scan.errors);
            if warnings.len() > 0 {
                lemma_noted_stays(
                    scan.errors,
                    next.scan.errors,
                    from,
                    frame.xid,
                    dir.relative_path,
                );
            }
            news
        },
    }
}

/// A whole walk, told by itself.
proof fn lemma_walk_told(
    frame: ScanFrame,
    walk: Walk,
    listings: Seq<Listing>,
    from: int,
) -> (tour: Tour)
    requires
        0 <= from <= walk.scan.errors.len(),
        walk_all(frame, walk, listings).result is Ok,
        walk_all(frame, walk, listings).left == 0,
        walk_all(frame, walk, listings).asked.len() == listings.len(),
    ensures
        ({
            let end = walk_all(frame, walk, listings);
            let scan = end.result->Ok_0;
            &&& scan.known == after_seeing(walk.scan.known, tour.seen)
            &&& walk.scan.errors.is_prefix_of(scan.errors)
            &&& tour.dirs.len() == listings.len()
            &&& forall|i: int|
                0 <= i < listings.len() ==> {
                    &&& #[trigger] tour.dirs[i].fsoid == end.asked[i]
                    &&& dir_accounted_for(
                        tour.dirs[i],
                        listings[i],
                        frame.xid,
                        tour,
                        scan.errors,
                        from,
                    )
                }
            &&& forall|d: ScanDirView| #[trigger]
                walk.pending.contains(d) ==> tour.dirs.contains(d)
            &&& forall|o: Observation| #[trigger]
                tour.seen.contains(o) ==> exists|i: int|
                    0 <= i < listings.len() && is_from(
                        o,
                        #[trigger] tour.dirs[i],
                        listings[i],
                        frame.xid,
                    )
        }),
    decreases listings.len(),
{
    if walk.pending.len() == 0 || listings.len() == 0 {
        Tour { dirs: Seq::empty(), seen: Seq::empty() }
    } else {
        let dir = walk.pending.last();
        let rest = Walk { scan: walk.scan, pending: walk.pending.drop_last() };
        let next = visited(frame, dir, listings[0], rest)->Ok_0;
        let later = listings.drop_first();
        let end = walk_all(frame, walk, listings);
        let tail = walk_all(frame, next, later);
        let scan = end.result->Ok_0;
        let news = lemma_visit_told(frame, dir, listings[0], rest, from);
        let more = lemma_walk_told(frame, next, later, from);
        let tour = Tour { dirs: seq![dir] + more.dirs, seen: news.0 + more.seen };
        lemma_after_seeing_both(walk.scan.known, news.0, more.seen);
        lemma_prefixes(walk.scan.errors, next.scan.errors, scan.errors);
        let told = Tour { dirs: news.1, seen: news.0 };
        assert forall|d: ScanDirView| #[trigger] news.1.contains(d) implies tour.dirs.contains(
            d,
        ) by {
            let k = choose|k: int| 0 <= k < news.1.len() && news.1[k] == d;
            assert(next.pending[rest.pending.len() + k] == d);
            assert(next.pending.contains(d));
            assert(more.dirs.contains(d));
            lemma_in_sum(seq![dir], more.dirs, d);
        }
        assert forall|d: ScanDirView| #[trigger] more.dirs.contains(d) implies tour.dirs.contains(
            d,
        ) by {
            lemma_in_sum(seq![dir], more.dirs, d);
        }
        assert forall|o: Observation| #[trigger] news.0.contains(o) implies tour.seen.contains(
            o,
        ) by {
            lemma_in_sum(news.0, more.seen, o);
        }
        assert forall|o: Observation| #[trigger] more.seen.contains(o) implies tour.seen.contains(
            o,
        ) by {
            lemma_in_sum(news.0, more.seen, o);
        }
        assert forall|i: int| 0 <= i < listings.len() implies {
            &&& #[trigger] tour.dirs[i].fsoid == end.asked[i]
            &&& dir_accounted_for(
                tour.dirs[i],
                listings[i],
                frame.xid,
                tour,
                scan.errors,
                from,
            )
        } by {
            if i == 0 {
                lemma_dir_stays_accounted_for(
                    dir,
                    listings[0],
                    frame.xid,
                    told,
                    next.scan.errors,
                    tour,
                    scan.errors,
                    from,
                );
            } else {
                assert(tour.dirs[i] == more.dirs[i - 1]);
                assert(more.dirs[i - 1].fsoid == tail.asked[i - 1]);
                assert(later[i - 1] == listings[i]);
                assert(scan.errors.is_prefix_of(scan.errors));
                lemma_dir_stays_accounted_for(
                    tour.dirs[i],
                    listings[i],
                    frame.xid,
                    more,
                    scan.errors,
                    tour,
                    scan.errors,
                    from,
                );
            }
        }
        assert forall|d: ScanDirView| #[trigger] walk.pending.contains(d) implies tour.dirs.contains(
            d,
        ) by {
            let k = choose|k: int| 0 <= k < walk.pending.len() && walk.pending[k] == d;
            if k == walk.pending.len() - 1 {
                assert(tour.dirs[0] == d);
            } else {
                assert(rest.pending[k] == d);
                assert(next.pending[k] == d);
                assert(next.pending.contains(d));
            }
        }
        assert forall|o: Observation| #[trigger] tour.seen.contains(o) implies exists|i: int|
            0 <= i < listings.len() && is_from(
                o,
                #[trigger] tour.dirs[i],
                listings[i],
                frame.xid,
            ) by {
            let k = choose|k: int| 0 <= k < tour.seen.len() && tour.seen[k] == o;
            if k < news.0.len() {
                assert(news.0[k] == o);
                assert(news.0.contains(o));
                assert(is_from(o, tour.dirs[0], listings[0], frame.xid));
            } else {
                assert(more.seen[k - news.0.len()] == o);
                assert(more.seen.contains(o));
                let i = choose|i: int|
                    0 <= i < later.len() && is_from(
                        o,
                        #[trigger] more.dirs[i],
                        later[i],
                        frame.xid,
                    );
                assert(tour.dirs[i + 1] == more.dirs[i]);
                assert(listings[i + 1] == later[i]);
                assert(is_from(o, tour.dirs[i + 1], listings[i + 1], frame.xid));
            }
        }
        tour
    }
}

proof fn lemma_dir_stays_accounted_for(
    dir: ScanDirView,
    listing: Listing,
    xid: u64,
    tour: Tour,
    errors: Seq<ScanErrorView>,
    later: Tour,
    more: Seq<ScanErrorView>,
    from: int,
)
    requires
        dir_accounted_for(dir, listing, xid, tour, errors, from),
        errors.is_prefix_of(more),
        0 <= from,
        forall|d: ScanDirView| #[trigger] tour.dirs.contains(d) ==> later.dirs.contains(d),
        forall|o: Observation| #[trigger] tour.seen.contains(o) ==> later.seen.contains(o),
    ensures
        dir_accounted_for(dir, listing, xid, later, more, from),
{
    if is_noted(errors, from, xid, dir.relative_path) {
        lemma_noted_stays(errors, more, from, xid, dir.relative_path);
    }
    if let Listing::Read { entries, .. } = listing {
        assert forall|c: int| 0 <= c < entries.len() implies entry_accounted_for(
            dir,
            #[trigger] entries[c],
            xid,
            later,
            more,
            from,
        ) by {
            lemma_entry_stays_accounted_for(
                dir,
                entries[c],
                xid,
                tour,
                errors,
                later,
                more,
                from,
            );
        }
    }
}

/// A walk misses nothing and makes nothing up. Each directory at which it began was looked
/// at; so was, in its turn, each directory that was found in one of them, unless an error
/// says why not. Each entry of a directory that was looked at was seen, and nothing else
/// was.
pub proof fn law_walk_sees_everything<D: ApfsImage>(
    vol: &Volume<D>,
    bt: &D::Reader,
    frame: ScanFrame,
    walk: Walk,
    scan: ScanView,
) -> (told: (Tour, Seq<Listing>))
    requires
        walked(vol, bt, frame, walk, Ok(scan)),
    ensures
        ({
            let (tour, listings) = told;
            let from = walk.scan.errors.len() as int;
            &&& scan.known == after_seeing(walk.scan.known, tour.seen)
            &&& walk.scan.errors.is_prefix_of(scan.errors)
            &&& tour.dirs.len() == listings.len()
            &&& forall|d: ScanDirView| #[trigger]
                walk.pending.contains(d) ==> tour.dirs.contains(d)
            &&& forall|i: int|
                0 <= i < listings.len() ==> {
                    &&& listing_given(vol, bt, (#[trigger] tour.dirs[i]).fsoid, listings[i])
                    &&& dir_accounted_for(
                        tour.dirs[i],
                        listings[i],
                        frame.xid,
                        tour,
                        scan.errors,
                        from,
                    )
                }
            &&& forall|o: Observation| #[trigger]
                tour.seen.contains(o) ==> exists|i: int|
                    0 <= i < listings.len() && is_from(
                        o,
                        #[trigger] tour.dirs[i],
                        listings[i],
                        frame.xid,
                    )
        }),
{
    let result: Result<ScanView, Ended> = Ok(scan);
    let listings = choose|listings: Seq<Listing>|
        {
            let end = #[trigger] walk_all(frame, walk, listings);
            &&& end.left == 0
            &&& end.result == result
            &&& end.asked.len() == listings.len()
            &&& forall|i: int|
                0 <= i < listings.len() ==> listing_given(
                    vol,
                    bt,
                    end.asked[i],
                    #[trigger] listings[i],
                )
        };
    let tour = lemma_walk_told(frame, walk, listings, walk.scan.errors.len() as int);
    let end = walk_all(frame, walk, listings);
    assert forall|i: int| 0 <= i < listings.len() implies listing_given(
        vol,
        bt,
        (#[trigger] tour.dirs[i]).fsoid,
        listings[i],
    ) by {
        assert(listing_given(vol, bt, end.asked[i], listings[i]));
    }
    (tour, listings)
}

/// A walk that notes no error has been everywhere: each directory that was looked at was
/// read without a warning, all of its entries were seen, and each directory among them was
/// looked at too.
pub proof fn law_walk_without_errors_is_complete<D: ApfsImage>(
    vol: &Volume<D>,
    bt: &D::Reader,
    frame: ScanFrame,
    walk: Walk,
    scan: ScanView,
) -> (tour: Tour)
    requires
        walked(vol, bt, frame, walk, Ok(scan)),
        scan.errors.len() == walk.scan.errors.len(),
    ensures
        scan.known == after_seeing(walk.scan.known, tour.seen),
        forall|d: ScanDirView| #[trigger] walk.pending.contains(d) ==> tour.dirs.contains(d),
        forall|d: ScanDirView| #[trigger]
            tour.dirs.contains(d) ==> exists|children: Vec<DirRec>| #[trigger]
                vol.dir_listed(bt, d.fsoid, Ok(children)) && forall|c: int|
                    0 <= c < children@.len() ==> {
                        let child = (#[trigger] children@[c])@;
                        &&& names_an_entry(child.name)
                        &&& tour.seen.contains(seen_in(d, child, frame.xid))
                        &&& child.type_label == "dir"@ ==> tour.dirs.contains(dir_in(d, child))
                    },
{
    let (tour, listings) = law_walk_sees_everything(vol, bt, frame, walk, scan);
    let from = walk.scan.errors.len() as int;
    assert forall|path: Seq<char>| !is_noted(scan.errors, from, frame.xid, path) by {}
    assert forall|d: ScanDirView| #[trigger] tour.dirs.contains(d) implies exists|
        children: Vec<DirRec>,
    | #[trigger]
        vol.dir_listed(bt, d.fsoid, Ok(children)) && forall|c: int|
            0 <= c < children@.len() ==> {
                let child = (#[trigger] children@[c])@;
                &&& names_an_entry(child.name)
                &&& tour.seen.contains(seen_in(d, child, frame.xid))
                &&& child.type_label == "dir"@ ==> tour.dirs.contains(dir_in(d, child))
            } by {
        let i = choose|i: int| 0 <= i < tour.dirs.len() && tour.dirs[i] == d;
        assert(dir_accounted_for(
            tour.dirs[i],
            listings[i],
            frame.xid,
            tour,
            scan.errors,
            from,
        ));
        let entries = listings[i]->entries;
        let (children, more) = choose|children: Vec<DirRec>, more: Vec<String>|
            {
                &&& #[trigger] vol.dir_listed(bt, d.fsoid, Ok(children))
                &&& #[trigger] call_ensures(
                    <D::Reader as TreeReader>::take_warnings,
                    (bt,),
                    more,
                )
                &&& listings[i]->warnings == texts(more@)
                &&& is_arranged(children@, entries)
            };
        let sorted = choose|sorted: Seq<DirRec>|
            {
                &&& #[trigger] entries_sorted(sorted, false)
                &&& sorted.to_multiset() == children@.to_multiset()
                &&& entries == entry_views(sorted)
            };
        broadcast use vstd::seq_lib::group_to_multiset_ensures;

        assert forall|c: int| 0 <= c < children@.len() implies {
            let child = (#[trigger] children@[c])@;
            &&& names_an_entry(child.name)
            &&& tour.seen.contains(seen_in(d, child, frame.xid))
            &&& child.type_label == "dir"@ ==> tour.dirs.contains(dir_in(d, child))
        } by {
            let child = children@[c];
            assert(children@.contains(child));
            assert(children@.to_multiset().contains(child));
            assert(sorted.to_multiset().contains(child));
            assert(sorted.contains(child));
            let k = choose|k: int| 0 <= k < sorted.len() && sorted[k] == child;
            assert(entries[k] == child@);
            assert(entry_accounted_for(d, entries[k], frame.xid, tour, scan.errors, from));
        }
    }
    tour
}

/// A snapshot in which the root of the scan is a directory is walked from there on: the
/// root is one of the directories that are looked at, and what is seen in it bears its
/// name alone.
pub proof fn law_scan_begins_at_its_root<D: ApfsImage>(
    vol: &Volume<D>,
    bt: &D::Reader,
    frame: ScanFrame,
    root: Seq<char>,
    found: Resolved,
    before: ScanView,
    scan: ScanView,
) -> (tour: Tour)
    requires
        view_scanned(vol, bt, frame, root, Ok(found), before, Ok(scan)),
        scan.errors.len() == before.errors.len(),
    ensures
        found.type_label@ == "dir"@,
        scan.known == after_seeing(before.known, tour.seen),
        exists|d: ScanDirView| #[trigger]
            tour.dirs.contains(d) && d.fsoid == found.fsoid && d.source_path == root
                && d.relative_path.len() == 0 && d.depth == 0 && d.ancestors == seq![found.fsoid],
        forall|d: ScanDirView| #[trigger]
            tour.dirs.contains(d) ==> exists|children: Vec<DirRec>| #[trigger]
                vol.dir_listed(bt, d.fsoid, Ok(children)) && forall|c: int|
                    0 <= c < children@.len() ==> {
                        let child = (#[trigger] children@[c])@;
                        &&& names_an_entry(child.name)
                        &&& tour.seen.contains(seen_in(d, child, frame.xid))
                        &&& child.type_label == "dir"@ ==> tour.dirs.contains(dir_in(d, child))
                    },
{
    let pending = seq![root_dir(root, found.fsoid)];
    let walk = Walk { scan: before, pending };
    let tour = law_walk_without_errors_is_complete(vol, bt, frame, walk, scan);
    assert(pending[0] == root_dir(root, found.fsoid));
    assert(pending.contains(root_dir(root, found.fsoid)));
    assert(tour.dirs.contains(root_dir(root, found.fsoid)));
    tour
}

/// What cannot be read is never passed over in silence. A root that cannot be looked up,
/// or that is no directory, ends the scan or is noted as unreadable; only a root that an
/// older snapshot does not have, looked for without a warning, is taken for empty.
pub proof fn law_only_an_older_root_may_be_missing<D: ApfsImage>(
    vol: &Volume<D>,
    bt: &D::Reader,
    frame: ScanFrame,
    root: Seq<char>,
    resolved: Result<Resolved, Error>,
    before: ScanView,
    scan: ScanView,
)
    requires
        view_scanned(vol, bt, frame, root, resolved, before, Ok(scan)),
        resolved matches Ok(found) ==> found.type_label@ != "dir"@,
    ensures
        scan.known == before.known,
        scan.errors.len() == before.errors.len() ==> {
            &&& scan == before
            &&& resolved matches Err(error) && error.kind == ErrorKind::PathNotFound
            &&& frame.xid != frame.latest_xid
            &&& exists|warnings: Vec<String>| #[trigger]
                call_ensures(<D::Reader as TreeReader>::take_warnings, (bt,), warnings)
                    && warnings@.len() == 0
        },
        scan.errors.len() > before.errors.len() ==> {
            &&& frame.best_effort
            &&& scan.errors.len() == before.errors.len() + 1
            &&& scan.errors.last().source_path == root
            &&& scan.errors.last().relative_prefix.len() == 0
            &&& scan.errors.last().snapshot_xid == frame.xid
            &&& frame.xid == frame.latest_xid ==> scan.incomplete.len() == before.incomplete.len()
                + 1 && scan.incomplete.last().len() == 0
            &&& frame.xid != frame.latest_xid ==> scan.incomplete == before.incomplete
        },
{
}

/// Entries are ordered by their names, then by their identities, then by their flags, and
/// last by their types.
pub proof fn law_entries_are_ordered_by_name(a: DirRecView, b: DirRecView)
    ensures
        text_lt(a.name, b.name) ==> entry_lt(a, b) && !entry_lt(b, a),
        a.name == b.name && a.file_id < b.file_id ==> entry_lt(a, b) && !entry_lt(b, a),
        a.name == b.name && a.file_id == b.file_id && a.flags < b.flags ==> entry_lt(a, b)
            && !entry_lt(b, a),
        a.name == b.name && a.file_id == b.file_id && a.flags == b.flags ==> (entry_lt(a, b)
            <==> text_lt(a.type_label, b.type_label)),
{
    lemma_entry_order(a, b, a);
    law_text_order_is_strict_and_total(a.name, b.name, a.name);
}

/// An error ends a scan unless the scan does its best; then it is noted with its snapshot,
/// its place and what it says, and in the latest snapshot its place counts as unreadable.
pub proof fn law_scan_errors_end_or_are_noted(
    frame: ScanFrame,
    scan: ScanView,
    source: Seq<char>,
    prefix: Seq<char>,
    error: ErrorView,
)
    ensures
        ({
            let after = recorded(frame, scan, source, prefix, error);
            &&& after is Ok <==> frame.best_effort
            &&& after matches Err(ended) ==> ended.error.kind == error.kind && ended.scan == scan
            &&& after matches Ok(noted) ==> {
                let n = scan.errors.len() as int;
                let last = noted.errors[n];
                &&& noted.known == scan.known
                &&& noted.errors.len() == n + 1
                &&& noted.errors.take(n) == scan.errors
                &&& last.snapshot_xid == frame.xid
                &&& last.snapshot_name == frame.name
                &&& last.source_path == source
                &&& last.relative_prefix == prefix
                &&& last.error == error
                &&& frame.xid == frame.latest_xid ==> noted.incomplete == scan.incomplete.push(
                    prefix,
                )
                &&& frame.xid != frame.latest_xid ==> noted.incomplete == scan.incomplete
            }
        }),
{
    if let Ok(noted) = recorded(frame, scan, source, prefix, error) {
        assert(noted.errors.take(scan.errors.len() as int) =~= scan.errors);
    }
}

/// A scan that comes to its end has opened every snapshot, one after the other, beginning
/// with nothing: each is looked at from the root that the template names in it, with the
/// last of them as the latest, and a person is told of each.
pub proof fn law_every_snapshot_is_scanned<D: ApfsImage, S: SnapshotSource<D>>(
    source: &S,
    opts: &Options,
    template: Seq<char>,
    snapshots: Seq<SnapshotInfo>,
    at: Seq<Event>,
    to: Seq<Event>,
    scan: Scan,
) -> (stages: Seq<ScanView>)
    requires
        all_scanned::<D, S>(source, opts, template, snapshots, at, to, Ok(scan)),
    ensures
        stages.len() == snapshots.len() + 1,
        stages[0].known == Map::<Seq<char>, PathRecord>::empty(),
        stages[0].errors.len() == 0,
        stages[0].incomplete.len() == 0,
        stages[snapshots.len() as int] == scan@,
        to.len() == at.len() + snapshots.len(),
        forall|i: int|
            0 <= i < snapshots.len() ==> ((#[trigger] to[at.len() + i]) matches Event::Notice {
                text,
            } && text == "history-union: scanning "@ + dec((i + 1) as nat) + "/"@ + dec(
                snapshots.len(),
            ) + " snapshot "@ + debug_of(snapshots[i].name@) + " xid="@ + hex_prefixed(
                snapshots[i].xid as nat,
            ) + " root="@ + debug_of(root_in(template, snapshots[i].name@))),
        forall|i: int|
            #![trigger snapshots[i]]
            0 <= i < snapshots.len() ==> exists|view: Result<Volume<D>, Error>|
                {
                    &&& #[trigger] call_ensures(
                        S::open_snapshot,
                        (source, &snapshots[i]),
                        view,
                    )
                    &&& view is Err && opts.best_effort ==> stages[i + 1].known == stages[i].known
                        && stages[i + 1].errors.len() == stages[i].errors.len() + 1
                    &&& view is Err ==> opts.best_effort
                    &&& view matches Ok(vol) ==> exists|
                        bt: D::Reader,
                        path: &str,
                        resolved: Result<Resolved, Error>,
                    |
                        {
                            &&& path@ == root_in(template, snapshots[i].name@)
                            &&& #[trigger] call_ensures(
                                D::tree_reader,
                                (&vol.dev, vol.block_size),
                                bt,
                            )
                            &&& #[trigger] call_ensures(
                                S::resolve,
                                (source, &vol, &bt, path),
                                resolved,
                            )
                            &&& view_scanned(
                                &vol,
                                &bt,
                                ScanFrame {
                                    best_effort: opts.best_effort,
                                    latest_xid: snapshots[snapshots.len() - 1].xid,
                                    xid: snapshots[i].xid,
                                    name: snapshots[i].name@,
                                },
                                root_in(template, snapshots[i].name@),
                                resolved,
                                stages[i],
                                Ok(stages[i + 1]),
                            )
                        }
                },
{
    let r: Result<Scan, Error> = Ok(scan);
    let stages = choose|stages: Seq<ScanView>|
        {
            &&& #[trigger] went_through::<D, S>(source, opts, template, snapshots, stages)
            &&& stages.len() == snapshots.len() + 1
            &&& scan@ == stages.last()
            &&& to == at + notices(scanning_lines(template, snapshots, snapshots.len()))
        };
    assert forall|i: int|
        #![trigger snapshots[i]]
        0 <= i < snapshots.len() implies exists|view: Result<Volume<D>, Error>|
        {
            &&& #[trigger] call_ensures(
                S::open_snapshot,
                (source, &snapshots[i]),
                view,
            )
            &&& view is Err && opts.best_effort ==> stages[i + 1].known == stages[i].known
                && stages[i + 1].errors.len() == stages[i].errors.len() + 1
            &&& view is Err ==> opts.best_effort
            &&& view matches Ok(vol) ==> exists|
                bt: D::Reader,
                path: &str,
                resolved: Result<Resolved, Error>,
            |
                {
                    &&& path@ == root_in(template, snapshots[i].name@)
                    &&& #[trigger] call_ensures(D::tree_reader, (&vol.dev, vol.block_size), bt)
                    &&& #[trigger] call_ensures(S::resolve, (source, &vol, &bt, path), resolved)
                    &&& view_scanned(
                        &vol,
                        &bt,
                        ScanFrame {
                            best_effort: opts.best_effort,
                            latest_xid: snapshots[snapshots.len() - 1].xid,
                            xid: snapshots[i].xid,
                            name: snapshots[i].name@,
                        },
                        root_in(template, snapshots[i].name@),
                        resolved,
                        stages[i],
                        Ok(stages[i + 1]),
                    )
                }
        } by {
        assert(step_scanned::<D, S>(
            source,
            opts,
            template,
            snapshots,
            i,
            stages[i],
            Ok(stages[i + 1]),
        ));
    }
    stages
}

} // verus!
