//! Logical sizes of manifest rows, looked up in the snapshots that supplied them.
use crate::error::{failure, in_context, Error, ErrorKind, ErrorView};
use crate::history::{EntryType, HistoryEntry};
use crate::history_union::{ManifestRow, ManifestRowView};
use crate::image::{ApfsImage, Inode};
use crate::jrec::Record;
use crate::options::Options;
use crate::snapshots::SnapshotInfo;
use crate::text::{byte_len, debug_of, debug_text, hex_prefixed, push_hex};
use crate::vol::{SnapshotSource, Volume};
use crate::xid_map::XidMap;
use std::collections::HashMap;
use vstd::prelude::*;

verus! {

/// What looking up a size gave: the size, if the object has one, or why not.
pub type Load = Result<Option<u64>, Seq<char>>;

/// A look-up as its view.
pub open spec fn load_view(r: Result<Option<u64>, String>) -> Load {
    match r {
        Ok(size) => Ok(size),
        Err(message) => Err(message@),
    }
}

/// The size that the target of a symbolic link gives: its length in bytes.
pub open spec fn target_size(target: Result<Option<String>, Error>) -> Load {
    match target {
        Err(error) => Err(error@.message),
        Ok(None) => Ok(None),
        Ok(Some(text)) => Ok(Some(vstd::utf8::encode_utf8(text@).len() as u64)),
    }
}

/// Looking up the size of an entry among its records gave `load`.
pub open spec fn size_among<D: ApfsImage>(
    records: Seq<Record>,
    fsoid: u64,
    entry_type: EntryType,
    load: Load,
) -> bool {
    exists|found: Result<Option<Inode>, Error>|
        {
            &&& #[trigger] Volume::<D>::inode_found(records, found)
            &&& match found {
                Err(error) => load == Err::<Option<u64>, Seq<char>>(error@.message),
                Ok(None) => load == Err::<Option<u64>, Seq<char>>(
                    "no inode for FSOID "@ + hex_prefixed(fsoid as nat),
                ),
                Ok(Some(inode)) => if entry_type == EntryType::Symlink {
                    exists|target: Result<Option<String>, Error>| #[trigger]
                        Volume::<D>::symlink_read(records, target) && load == target_size(target)
                } else {
                    load == Ok::<Option<u64>, Seq<char>>(inode.logical_size)
                },
            }
        }
}

/// Looking up the size of an entry in a view gave `load`.
pub open spec fn size_loaded<D: ApfsImage>(
    vol: &Volume<D>,
    bt: &D::Reader,
    fsoid: u64,
    entry_type: EntryType,
    load: Load,
) -> bool {
    exists|reply: Result<Vec<Record>, Error>| #[trigger]
        vol.asked(bt, fsoid, reply) && match reply {
            Err(error) => load == Err::<Option<u64>, Seq<char>>(error@.message),
            Ok(records) => size_among::<D>(records@, fsoid, entry_type, load),
        }
}

/// Looks up the logical size of an entry. A symbolic link is as long as its target.
pub fn load_logical_size<D: ApfsImage>(
    vol: &Volume<D>,
    bt: &D::Reader,
    entry: &HistoryEntry,
) -> (r: Result<Option<u64>, String>)
    ensures
        size_loaded(vol, bt, entry.fsoid, entry.entry_type, load_view(r)),
{
    let reply = vol.records(bt, entry.fsoid);
    let records = match reply {
        Ok(records) => records,
        Err(error) => return Err(error.text()),
    };
    let found = Volume::<D>::inode_from_records(records.as_slice());
    let r = match found {
        Err(error) => Err(error.text()),
        Ok(None) => {
            let mut message = "no inode for FSOID ".to_owned();
            push_hex(&mut message, entry.fsoid);
            Err(message)
        },
        Ok(Some(inode)) => {
            if entry.entry_type == EntryType::Symlink {
                let target = Volume::<D>::symlink_target(records.as_slice());
                match target {
                    Err(error) => Err(error.text()),
                    Ok(None) => Ok(None),
                    Ok(Some(text)) => Ok(Some(byte_len(text.as_str()))),
                }
            } else {
                Ok(inode.logical_size)
            }
        },
    };
    proof {
        assert(Volume::<D>::inode_found(records@, found));
        assert(size_among::<D>(records@, entry.fsoid, entry.entry_type, load_view(r)));
    }
    r
}

/// A row with what was looked up.
pub open spec fn sized(row: ManifestRowView, load: Load) -> ManifestRowView {
    match load {
        Ok(size) => ManifestRowView { logical_bytes: size, ..row },
        Err(message) => ManifestRowView { metadata_error: Some(message), ..row },
    }
}

/// What a snapshot said of the rows that it supplied: it could not be opened, or it
/// gave a look-up for each of their objects.
pub enum Answer {
    Closed(Seq<char>),
    Opened(Map<u64, Load>),
}

/// A row with what its snapshot said of it.
pub open spec fn enriched(row: ManifestRowView, answer: Answer) -> ManifestRowView {
    match answer {
        Answer::Closed(message) => ManifestRowView {
            metadata_error: Some("cannot reopen winning snapshot: "@ + message),
            ..row
        },
        Answer::Opened(loads) => sized(row, loads[row.entry.fsoid]),
    }
}

/// The views of a list of rows.
pub open spec fn row_views(rows: Seq<ManifestRow>) -> Seq<ManifestRowView> {
    Seq::new(rows.len(), |i: int| rows[i]@)
}

/// Each of `loads` is what looking up an object of one of the rows of snapshot `xid`
/// gave. An object is looked up once, for the first row that needs it.
pub open spec fn loads_given<D: ApfsImage>(
    vol: &Volume<D>,
    bt: &D::Reader,
    rows: Seq<ManifestRowView>,
    xid: u64,
    loads: Map<u64, Load>,
) -> bool {
    forall|fsoid: u64| #[trigger]
        loads.contains_key(fsoid) ==> exists|i: int| #[trigger]
            is_first_row(rows, xid, fsoid, i) && size_loaded(
                vol,
                bt,
                fsoid,
                rows[i].entry.entry_type,
                loads[fsoid],
            )
}

/// Row `i` is one of object `fsoid` in snapshot `xid`.
pub open spec fn is_row_of(rows: Seq<ManifestRowView>, xid: u64, fsoid: u64, i: int) -> bool {
    0 <= i < rows.len() && rows[i].entry.snapshot_xid == xid && rows[i].entry.fsoid == fsoid
}

/// Row `i` is the first one of object `fsoid` in snapshot `xid`.
pub open spec fn is_first_row(rows: Seq<ManifestRowView>, xid: u64, fsoid: u64, i: int) -> bool {
    &&& is_row_of(rows, xid, fsoid, i)
    &&& forall|k: int| 0 <= k < i ==> !#[trigger] is_row_of(rows, xid, fsoid, k)
}

/// The rows of snapshot `xid` among the first `n` have been looked up, and no other
/// row has changed.
pub open spec fn sized_up_to(
    before: Seq<ManifestRowView>,
    after: Seq<ManifestRowView>,
    xid: u64,
    loads: Map<u64, Load>,
    n: int,
) -> bool {
    &&& after.len() == before.len()
    &&& forall|i: int|
        0 <= i < before.len() ==> #[trigger] after[i] == if i < n
            && before[i].entry.snapshot_xid == xid {
            sized(before[i], loads[before[i].entry.fsoid])
        } else {
            before[i]
        }
    &&& forall|i: int|
        0 <= i < n && i < before.len() && (#[trigger] before[i]).entry.snapshot_xid == xid
            ==> loads.contains_key(before[i].entry.fsoid)
}

/// The error of a look-up that ends the command.
pub open spec fn size_error(message: Seq<char>, snapshot: Seq<char>, source: Seq<char>) -> ErrorView {
    in_context(
        failure(ErrorKind::Corrupt, message),
        "snapshot "@ + debug_of(snapshot) + " source "@ + debug_of(source),
    )
}

/// The look-up for row `i` ended the command with `e`. It was the first that failed.
pub open spec fn row_failed(
    rows: Seq<ManifestRowView>,
    snap: &SnapshotInfo,
    loads: Map<u64, Load>,
    i: int,
    e: ErrorView,
) -> bool {
    let fsoid = rows[i].entry.fsoid;
    &&& is_first_row(rows, snap.xid, fsoid, i)
    &&& loads.contains_key(fsoid)
    &&& loads[fsoid] matches Err(message) && e == size_error(
        message,
        snap.name@,
        rows[i].entry.source_path,
    )
    &&& forall|other: u64| #[trigger]
        loads.contains_key(other) && other != fsoid ==> loads[other] is Ok
}

/// Enriching the rows of one opened view came to `r` and turned `before` into `after`.
/// Rows are looked at from the first on; where one ends the command, those before it
/// keep what was looked up.
pub open spec fn view_enriched<D: ApfsImage>(
    vol: &Volume<D>,
    bt: &D::Reader,
    best_effort: bool,
    snap: &SnapshotInfo,
    before: Seq<ManifestRowView>,
    after: Seq<ManifestRowView>,
    r: Result<(), Error>,
) -> bool {
    exists|loads: Map<u64, Load>|
        {
            &&& #[trigger] loads_given(vol, bt, before, snap.xid, loads)
            &&& match r {
                Ok(_) => {
                    &&& sized_up_to(before, after, snap.xid, loads, before.len() as int)
                    &&& best_effort || forall|fsoid: u64| #[trigger]
                        loads.contains_key(fsoid) ==> loads[fsoid] is Ok
                },
                Err(e) => !best_effort && exists|i: int| #[trigger]
                    row_failed(before, snap, loads, i, e@) && sized_up_to(
                        before,
                        after,
                        snap.xid,
                        loads,
                        i,
                    ),
            }
        }
}

fn copy_load(load: &Result<Option<u64>, String>) -> (r: Result<Option<u64>, String>)
    ensures
        load_view(r) == load_view(*load),
{
    match load {
        Ok(size) => Ok(*size),
        Err(message) => Err(message.clone()),
    }
}

/// The cache as a map of views.
spec fn cached(cache: Map<u64, Result<Option<u64>, String>>) -> Map<u64, Load> {
    cache.map_values(|r: Result<Option<u64>, String>| load_view(r))
}

/// Enriches the rows that one opened snapshot supplied.
fn enrich_view<D: ApfsImage>(
    vol: &Volume<D>,
    bt: &D::Reader,
    snap: &SnapshotInfo,
    opts: &Options,
    rows: &mut Vec<ManifestRow>,
) -> (r: Result<(), Error>)
    ensures
        view_enriched(
            vol,
            bt,
            opts.best_effort,
            snap,
            row_views(old(rows)@),
            row_views(final(rows)@),
            r,
        ),
{
    broadcast use vstd::std_specs::hash::group_hash_axioms;

    let ghost before = row_views(rows@);
    let mut cache: HashMap<u64, Result<Option<u64>, String>> = HashMap::new();
    let mut i: usize = 0;
    proof {
        assert(cached(cache@) =~= Map::empty());
    }
    while i < rows.len()
        invariant
            before == row_views(old(rows)@),
            i <= rows@.len(),
            sized_up_to(before, row_views(rows@), snap.xid, cached(cache@), i as int),
            loads_given(vol, bt, before, snap.xid, cached(cache@)),
            opts.best_effort || forall|fsoid: u64| #[trigger]
                cached(cache@).contains_key(fsoid) ==> cached(cache@)[fsoid] is Ok,
        decreases rows@.len() - i,
    {
        broadcast use vstd::std_specs::hash::group_hash_axioms;

        if rows[i].entry.snapshot_xid == snap.xid {
            let ghost row = row_views(rows@)[i as int];
            let ghost now = row_views(rows@);
            let fsoid: u64 = rows[i].entry.fsoid;
            let ghost old_cache = cache@;
            let load = match cache.get(&fsoid) {
                Some(load) => copy_load(load),
                None => load_logical_size(vol, bt, &rows[i].entry),
            };
            cache.insert(fsoid, copy_load(&load));
            proof {
                assert(row == before[i as int]);
                assert(cached(cache@) =~= cached(old_cache).insert(fsoid, load_view(load)));
                assert forall|id: u64| #[trigger] cached(cache@).contains_key(id) implies exists|k: int| #[trigger]
                    is_first_row(before, snap.xid, id, k) && size_loaded(
                        vol,
                        bt,
                        id,
                        before[k].entry.entry_type,
                        cached(cache@)[id],
                    ) by {
                    if cached(old_cache).contains_key(id) {
                        let k = choose|k: int| #[trigger]
                            is_first_row(before, snap.xid, id, k) && size_loaded(
                                vol,
                                bt,
                                id,
                                before[k].entry.entry_type,
                                cached(old_cache)[id],
                            );
                        assert(is_first_row(before, snap.xid, id, k));
                    } else {
                        assert(id == fsoid);
                        assert forall|k: int| 0 <= k < i implies !#[trigger] is_row_of(
                            before,
                            snap.xid,
                            id,
                            k,
                        ) by {
                            if is_row_of(before, snap.xid, id, k) {
                                assert(cached(old_cache).contains_key(before[k].entry.fsoid));
                            }
                        }
                        assert(is_first_row(before, snap.xid, id, i as int));
                    }
                }
                if cached(old_cache).contains_key(fsoid) {
                    assert(cached(old_cache)[fsoid] == load_view(load));
                }
            }
            match load {
                Ok(size) => {
                    rows[i].logical_bytes = size;
                },
                Err(message) => {
                    if !opts.best_effort {
                        let mut context = "snapshot ".to_owned();
                        context.append(debug_text(snap.name.as_str()).as_str());
                        context.append(" source ");
                        context.append(debug_text(rows[i].entry.source_path.as_str()).as_str());
                        let e = Error::new(ErrorKind::Corrupt, message).with_context(context);
                        proof {
                            let loads = cached(cache@);
                            assert(!cached(old_cache).contains_key(fsoid));
                            assert(loads_given(vol, bt, before, snap.xid, loads));
                            assert forall|k: int| 0 <= k < i implies !#[trigger] is_row_of(
                                before,
                                snap.xid,
                                fsoid,
                                k,
                            ) by {
                                if is_row_of(before, snap.xid, fsoid, k) {
                                    assert(cached(old_cache).contains_key(before[k].entry.fsoid));
                                }
                            }
                            assert(row_failed(before, snap, loads, i as int, e@));
                        }
                        return Err(e);
                    }
                    rows[i].metadata_error = Some(message);
                },
            }
            proof {
                assert(row_views(rows@) =~= now.update(i as int, sized(row, load_view(load))));
            }
        }
        i += 1;
    }
    Ok(())
}

/// What snapshot `xid` said of the rows it supplied.
pub open spec fn answer_given<D: ApfsImage, S: SnapshotSource<D>>(
    source: &S,
    snapshots: Map<u64, SnapshotInfo>,
    best_effort: bool,
    rows: Seq<ManifestRowView>,
    xid: u64,
    answer: Answer,
) -> bool {
    &&& snapshots.contains_key(xid)
    &&& snapshots[xid].xid == xid
    &&& exists|view: Result<Volume<D>, Error>|
        {
            &&& #[trigger] call_ensures(S::open_snapshot, (source, &snapshots[xid]), view)
            &&& match (view, answer) {
                (Err(error), Answer::Closed(message)) => best_effort && message == error@.message,
                (Ok(vol), Answer::Opened(loads)) => exists|bt: D::Reader|
                    {
                        &&& #[trigger] call_ensures(D::tree_reader, (&vol.dev, vol.block_size), bt)
                        &&& loads_given(&vol, &bt, rows, xid, loads)
                        &&& best_effort || forall|fsoid: u64| #[trigger]
                            loads.contains_key(fsoid) ==> loads[fsoid] is Ok
                    },
                _ => false,
            }
        }
}

/// Some row comes from snapshot `xid`.
pub open spec fn supplies(rows: Seq<ManifestRowView>, xid: u64) -> bool {
    exists|i: int| 0 <= i < rows.len() && (#[trigger] rows[i]).entry.snapshot_xid == xid
}

/// Enriching the rows of snapshot `xid` failed with `e` and turned `before` into
/// `after`.
pub open spec fn enrich_failed<D: ApfsImage, S: SnapshotSource<D>>(
    source: &S,
    snapshots: Map<u64, SnapshotInfo>,
    best_effort: bool,
    before: Seq<ManifestRowView>,
    after: Seq<ManifestRowView>,
    xid: u64,
    e: Error,
) -> bool {
    if !snapshots.contains_key(xid) {
        &&& after == before
        &&& e@ == failure(
            ErrorKind::Internal,
            "manifest winner references unselected snapshot "@ + hex_prefixed(xid as nat),
        )
    } else {
        !best_effort && exists|view: Result<Volume<D>, Error>|
            {
                &&& #[trigger] call_ensures(S::open_snapshot, (source, &snapshots[xid]), view)
                &&& match view {
                    Err(error) => after == before && e == error,
                    Ok(vol) => rows_failed(&vol, &snapshots[xid], before, after, e),
                }
            }
    }
}

/// Enriching the rows of the opened snapshot `snap` failed with `e` and turned
/// `before` into `after`.
pub open spec fn rows_failed<D: ApfsImage>(
    vol: &Volume<D>,
    snap: &SnapshotInfo,
    before: Seq<ManifestRowView>,
    after: Seq<ManifestRowView>,
    e: Error,
) -> bool {
    exists|bt: D::Reader|
        {
            &&& #[trigger] call_ensures(D::tree_reader, (&vol.dev, vol.block_size), bt)
            &&& view_enriched(vol, &bt, false, snap, before, after, Err(e))
        }
}

/// The rows of the snapshots that have answered are enriched, and no other row has
/// changed.
pub open spec fn enriched_by(
    before: Seq<ManifestRowView>,
    after: Seq<ManifestRowView>,
    answers: Map<u64, Answer>,
) -> bool {
    &&& after.len() == before.len()
    &&& forall|i: int|
        0 <= i < before.len() ==> #[trigger] after[i] == if answers.contains_key(
            before[i].entry.snapshot_xid,
        ) {
            enriched(before[i], answers[before[i].entry.snapshot_xid])
        } else {
            before[i]
        }
    &&& forall|i: int|
        0 <= i < before.len() && answers.contains_key((#[trigger] before[i]).entry.snapshot_xid)
            ==> (answers[before[i].entry.snapshot_xid] matches Answer::Opened(loads)
            ==> loads.contains_key(before[i].entry.fsoid))
}

/// Every answer is what its snapshot said.
pub open spec fn answers_given<D: ApfsImage, S: SnapshotSource<D>>(
    source: &S,
    snapshots: Map<u64, SnapshotInfo>,
    best_effort: bool,
    rows: Seq<ManifestRowView>,
    answers: Map<u64, Answer>,
) -> bool {
    forall|xid: u64| #[trigger]
        answers.contains_key(xid) ==> answer_given::<D, S>(
            source,
            snapshots,
            best_effort,
            rows,
            xid,
            answers[xid],
        )
}

fn mark_unreadable(rows: &mut Vec<ManifestRow>, xid: u64, error: &Error)
    ensures
        ({
            let before = row_views(old(rows)@);
            let after = row_views(final(rows)@);
            &&& after.len() == before.len()
            &&& forall|i: int|
                0 <= i < before.len() ==> #[trigger] after[i] == if before[i].entry.snapshot_xid
                    == xid {
                    enriched(before[i], Answer::Closed(error@.message))
                } else {
                    before[i]
                }
        }),
{
    let ghost before = row_views(rows@);
    let mut i: usize = 0;
    while i < rows.len()
        invariant
            before == row_views(old(rows)@),
            i <= rows@.len(),
            rows@.len() == before.len(),
            forall|k: int|
                0 <= k < before.len() ==> #[trigger] row_views(rows@)[k] == if k < i
                    && before[k].entry.snapshot_xid == xid {
                    enriched(before[k], Answer::Closed(error@.message))
                } else {
                    before[k]
                },
        decreases rows@.len() - i,
    {
        if rows[i].entry.snapshot_xid == xid {
            let ghost now = row_views(rows@);
            let ghost row = now[i as int];
            let mut message = "cannot reopen winning snapshot: ".to_owned();
            message.append(error.text().as_str());
            rows[i].metadata_error = Some(message);
            proof {
                assert(row_views(rows@) =~= now.update(
                    i as int,
                    enriched(row, Answer::Closed(error@.message)),
                ));
            }
        }
        i += 1;
    }
}

/// The transactions of the snapshots that supplied rows, in ascending order.
fn suppliers(rows: &Vec<ManifestRow>) -> (r: Vec<u64>)
    ensures
        forall|i: int, j: int| 0 <= i < j < r@.len() ==> r@[i] < r@[j],
        forall|xid: u64| #[trigger] r@.contains(xid) <==> supplies(row_views(rows@), xid),
{
    let mut seen: XidMap<bool> = XidMap::new();
    let ghost views = row_views(rows@);
    let mut i: usize = 0;
    while i < rows.len()
        invariant
            views == row_views(rows@),
            i <= rows@.len(),
            forall|xid: u64| #[trigger]
                seen@.contains_key(xid) <==> exists|k: int|
                    0 <= k < i && (#[trigger] views[k]).entry.snapshot_xid == xid,
        decreases rows@.len() - i,
    {
        let ghost before = seen@;
        let xid: u64 = rows[i].entry.snapshot_xid;
        seen.insert(xid, true);
        proof {
            assert forall|x: u64| #[trigger] seen@.contains_key(x) <==> exists|k: int|
                0 <= k < i + 1 && (#[trigger] views[k]).entry.snapshot_xid == x by {
                if x == xid {
                    assert(views[i as int].entry.snapshot_xid == x);
                }
                if before.contains_key(x) {
                    let k = choose|k: int| 0 <= k < i && (#[trigger] views[k]).entry.snapshot_xid == x;
                    assert(views[k].entry.snapshot_xid == x);
                }
            }
        }
        i += 1;
    }
    seen.keys()
}

/// Looking up the sizes of all rows ended with `r` and turned `before` into `after`:
/// each row got the answer of the snapshot that supplied it, or the first such snapshot
/// that failed, from the lowest transaction on, ended the command.
pub open spec fn sizes_looked_up<D: ApfsImage, S: SnapshotSource<D>>(
    source: &S,
    snapshots: Map<u64, SnapshotInfo>,
    best_effort: bool,
    before: Seq<ManifestRowView>,
    after: Seq<ManifestRowView>,
    r: Result<(), Error>,
) -> bool {
    match r {
        Ok(_) => exists|answers: Map<u64, Answer>|
            {
                &&& #[trigger] answers_given::<D, S>(
                    source,
                    snapshots,
                    best_effort,
                    before,
                    answers,
                )
                &&& enriched_by(before, after, answers)
                &&& forall|i: int|
                    0 <= i < before.len() ==> answers.contains_key(
                        (#[trigger] before[i]).entry.snapshot_xid,
                    )
            },
        Err(e) => exists|xid: u64| #[trigger]
            supplies(before, xid) && look_up_ended::<D, S>(
                source,
                snapshots,
                best_effort,
                before,
                after,
                xid,
                e,
            ),
    }
}

/// Looking up the sizes ended at snapshot `xid` with `e` and turned `before` into
/// `after`: all snapshots below it that supply rows had answered.
pub open spec fn look_up_ended<D: ApfsImage, S: SnapshotSource<D>>(
    source: &S,
    snapshots: Map<u64, SnapshotInfo>,
    best_effort: bool,
    before: Seq<ManifestRowView>,
    after: Seq<ManifestRowView>,
    xid: u64,
    e: Error,
) -> bool {
    exists|answers: Map<u64, Answer>, mid: Seq<ManifestRowView>|
        {
            &&& #[trigger] answers_given::<D, S>(source, snapshots, best_effort, before, answers)
            &&& forall|x: u64| #[trigger]
                answers.contains_key(x) <==> supplies(before, x) && x < xid
            &&& #[trigger] enriched_by(before, mid, answers)
            &&& enrich_failed::<D, S>(source, snapshots, best_effort, mid, after, xid, e)
        }
}

/// Looks up the logical sizes of all rows, each in the snapshot that supplied it.
/// Where the command does its best, a snapshot that cannot be reopened and an object
/// that cannot be read are noted in their rows; otherwise they end the command.
pub fn enrich_logical_sizes<D: ApfsImage, S: SnapshotSource<D>>(
    source: &S,
    snapshots: &XidMap<SnapshotInfo>,
    opts: &Options,
    rows: &mut Vec<ManifestRow>,
) -> (r: Result<(), Error>)
    requires
        forall|xid: u64| #[trigger] snapshots@.contains_key(xid) ==> snapshots@[xid].xid == xid,
    ensures
        sizes_looked_up::<D, S>(
            source,
            snapshots@,
            opts.best_effort,
            row_views(old(rows)@),
            row_views(final(rows)@),
            r,
        ),
{
    let ghost before = row_views(rows@);
    let ghost mut answers: Map<u64, Answer> = Map::empty();
    let xids = suppliers(rows);
    let mut i: usize = 0;
    while i < xids.len()
        invariant
            before == row_views(old(rows)@),
            forall|xid: u64| #[trigger] snapshots@.contains_key(xid) ==> snapshots@[xid].xid == xid,
            forall|a: int, b: int| 0 <= a < b < xids@.len() ==> xids@[a] < xids@[b],
            forall|xid: u64| #[trigger] xids@.contains(xid) <==> supplies(before, xid),
            i <= xids@.len(),
            forall|xid: u64| #[trigger]
                answers.contains_key(xid) <==> exists|k: int| 0 <= k < i && xids@[k] == xid,
            answers_given::<D, S>(source, snapshots@, opts.best_effort, before, answers),
            enriched_by(before, row_views(rows@), answers),
        decreases xids@.len() - i,
    {
        let xid: u64 = xids[i];
        proof {
            assert(xids@.contains(xid));
            assert(!answers.contains_key(xid)) by {
                if answers.contains_key(xid) {
                    let k = choose|k: int| 0 <= k < i && xids@[k] == xid;
                    assert(xids@[k] < xids@[i as int]);
                }
            }
            assert forall|x: u64| #[trigger] answers.contains_key(x) <==> supplies(before, x) && x
                < xid by {
                if answers.contains_key(x) {
                    let k = choose|k: int| 0 <= k < i && xids@[k] == x;
                    assert(xids@[k] < xids@[i as int]);
                    assert(xids@.contains(x));
                }
                if supplies(before, x) && x < xid {
                    assert(xids@.contains(x));
                    let k = choose|k: int| 0 <= k < xids@.len() && xids@[k] == x;
                    if k >= i {
                        assert(k == i || xids@[i as int] < xids@[k]);
                    }
                    assert(xids@[k] == x);
                }
            }
        }
        let ghost now = row_views(rows@);
        let snap = match snapshots.get(xid) {
            Some(snap) => snap,
            None => {
                let mut message = "manifest winner references unselected snapshot ".to_owned();
                push_hex(&mut message, xid);
                let e = Error::new(ErrorKind::Internal, message);
                proof {
                    assert(enrich_failed::<D, S>(
                        source,
                        snapshots@,
                        opts.best_effort,
                        now,
                        row_views(rows@),
                        xid,
                        e,
                    ));
                    assert(look_up_ended::<D, S>(
                        source,
                        snapshots@,
                        opts.best_effort,
                        before,
                        row_views(rows@),
                        xid,
                        e,
                    ));
                }
                return Err(e);
            },
        };
        let ghost answer;
        let view = source.open_snapshot(snap);
        proof {
            assert(call_ensures(S::open_snapshot, (source, &snapshots@[xid]), view));
        }
        match view {
            Err(error) => {
                if !opts.best_effort {
                    proof {
                        assert(enrich_failed::<D, S>(
                            source,
                            snapshots@,
                            opts.best_effort,
                            now,
                            row_views(rows@),
                            xid,
                            error,
                        ));
                        assert(look_up_ended::<D, S>(
                            source,
                            snapshots@,
                            opts.best_effort,
                            before,
                            row_views(rows@),
                            xid,
                            error,
                        ));
                    }
                    return Err(error);
                }
                proof {
                    answer = Answer::Closed(error@.message);
                }
                mark_unreadable(rows, xid, &error);
            },
            Ok(vol) => {
                let bt = vol.btree();
                proof {
                    assert(call_ensures(D::tree_reader, (&vol.dev, vol.block_size), bt));
                }
                let done = enrich_view(&vol, &bt, snap, opts, rows);
                match done {
                    Ok(_) => {},
                    Err(e) => {
                        proof {
                            assert(rows_failed(&vol, snap, now, row_views(rows@), e));
                            assert(enrich_failed::<D, S>(
                                source,
                                snapshots@,
                                opts.best_effort,
                                now,
                                row_views(rows@),
                                xid,
                                e,
                            ));
                            assert(look_up_ended::<D, S>(
                                source,
                                snapshots@,
                                opts.best_effort,
                                before,
                                row_views(rows@),
                                xid,
                                e,
                            ));
                        }
                        return Err(e);
                    },
                }
                let ghost loads = choose|loads: Map<u64, Load>|
                    {
                        &&& #[trigger] loads_given(&vol, &bt, now, snap.xid, loads)
                        &&& sized_up_to(
                            now,
                            row_views(rows@),
                            snap.xid,
                            loads,
                            now.len() as int,
                        )
                        &&& opts.best_effort || forall|fsoid: u64| #[trigger]
                            loads.contains_key(fsoid) ==> loads[fsoid] is Ok
                    };
                proof {
                    lemma_same_entries::<D>(&vol, &bt, before, now, answers, xid, loads);
                    answer = Answer::Opened(loads);
                }
            },
        }
        proof {
            assert(answer_given::<D, S>(
                source,
                snapshots@,
                opts.best_effort,
                before,
                xid,
                answer,
            ));
            let next = answers.insert(xid, answer);
            assert forall|x: u64| #[trigger] next.contains_key(x) <==> exists|k: int|
                0 <= k < i + 1 && xids@[k] == x by {
                if x == xid {
                    assert(xids@[i as int] == x);
                }
                if answers.contains_key(x) {
                    let k = choose|k: int| 0 <= k < i && xids@[k] == x;
                    assert(xids@[k] == x);
                }
            }
            lemma_enriched_step(before, now, row_views(rows@), answers, xid, answer);
            answers = next;
        }
        i += 1;
    }
    proof {
        assert forall|k: int| 0 <= k < before.len() implies answers.contains_key(
            (#[trigger] before[k]).entry.snapshot_xid,
        ) by {
            let xid = before[k].entry.snapshot_xid;
            assert(supplies(before, xid));
            assert(xids@.contains(xid));
        }
    }
    Ok(())
}

proof fn lemma_enriched_step(
    before: Seq<ManifestRowView>,
    now: Seq<ManifestRowView>,
    after: Seq<ManifestRowView>,
    answers: Map<u64, Answer>,
    xid: u64,
    answer: Answer,
)
    requires
        enriched_by(before, now, answers),
        !answers.contains_key(xid),
        after.len() == now.len(),
        forall|i: int|
            0 <= i < now.len() ==> #[trigger] after[i] == if now[i].entry.snapshot_xid == xid {
                enriched(now[i], answer)
            } else {
                now[i]
            },
        answer matches Answer::Opened(loads) ==> forall|i: int|
            0 <= i < now.len() && (#[trigger] now[i]).entry.snapshot_xid == xid
                ==> loads.contains_key(now[i].entry.fsoid),
    ensures
        enriched_by(before, after, answers.insert(xid, answer)),
{
    let next = answers.insert(xid, answer);
    assert forall|i: int| 0 <= i < before.len() implies #[trigger] after[i]
        == if next.contains_key(before[i].entry.snapshot_xid) {
        enriched(before[i], next[before[i].entry.snapshot_xid])
    } else {
        before[i]
    } by {
        assert(now[i].entry == before[i].entry);
    }
    assert forall|i: int|
        0 <= i < before.len() && next.contains_key(
            (#[trigger] before[i]).entry.snapshot_xid,
        ) implies (next[before[i].entry.snapshot_xid] matches Answer::Opened(loads)
        ==> loads.contains_key(before[i].entry.fsoid)) by {
        assert(now[i].entry == before[i].entry);
    }
}

proof fn lemma_same_entries<D: ApfsImage>(
    vol: &Volume<D>,
    bt: &D::Reader,
    before: Seq<ManifestRowView>,
    now: Seq<ManifestRowView>,
    answers: Map<u64, Answer>,
    xid: u64,
    loads: Map<u64, Load>,
)
    requires
        enriched_by(before, now, answers),
        loads_given(vol, bt, now, xid, loads),
    ensures
        loads_given(vol, bt, before, xid, loads),
        forall|i: int| 0 <= i < before.len() ==> (#[trigger] now[i]).entry == before[i].entry,
{
    assert forall|i: int| 0 <= i < before.len() implies (#[trigger] now[i]).entry
        == before[i].entry by {}
    assert forall|fsoid: u64| #[trigger] loads.contains_key(fsoid) implies exists|i: int| #[trigger]
        is_first_row(before, xid, fsoid, i) && size_loaded(
            vol,
            bt,
            fsoid,
            before[i].entry.entry_type,
            loads[fsoid],
        ) by {
        let i = choose|i: int| #[trigger]
            is_first_row(now, xid, fsoid, i) && size_loaded(
                vol,
                bt,
                fsoid,
                now[i].entry.entry_type,
                loads[fsoid],
            );
        assert(now[i].entry == before[i].entry);
        assert forall|k: int| 0 <= k < i implies !#[trigger] is_row_of(before, xid, fsoid, k) by {
            assert(!is_row_of(now, xid, fsoid, k));
            assert(now[k].entry == before[k].entry);
        }
        assert(is_first_row(before, xid, fsoid, i));
    }
}

// ---------------------------------------------------------------------------
// Laws
// ---------------------------------------------------------------------------

/// A look-up changes one thing of a row alone: its size where one was found, its note of an
/// error where looking failed.
pub proof fn law_look_up_changes_one_thing(row: ManifestRowView, load: Load)
    ensures
        ({
            let after = sized(row, load);
            &&& after.entry == row.entry
            &&& load matches Ok(size) ==> after.logical_bytes == size && after.metadata_error
                == row.metadata_error
            &&& load matches Err(message) ==> after.logical_bytes == row.logical_bytes
                && after.metadata_error == Some(message)
        }),
{
}

/// The size of a symbolic link is the number of bytes of its target; that of anything else
/// is its inode's. An object without an inode has no size but an error.
pub proof fn law_size_is_that_of_the_inode_or_the_target<D: ApfsImage>(
    records: Seq<Record>,
    fsoid: u64,
    entry_type: EntryType,
    size: Option<u64>,
)
    requires
        size_among::<D>(records, fsoid, entry_type, Ok(size)),
    ensures
        !(entry_type is Symlink) ==> exists|inode: Inode| #[trigger]
            Volume::<D>::inode_found(records, Ok(Some(inode))) && size == inode.logical_size,
        entry_type is Symlink ==> exists|target: Option<String>|
            {
                &&& #[trigger] Volume::<D>::symlink_read(records, Ok(target))
                &&& target is None ==> size is None
                &&& target matches Some(text) ==> size == Some(
                    vstd::utf8::encode_utf8(text@).len() as u64,
                )
            },
{
    let load: Load = Ok(size);
    let found = choose|found: Result<Option<Inode>, Error>|
        {
            &&& #[trigger] Volume::<D>::inode_found(records, found)
            &&& match found {
                Err(error) => load == Err::<Option<u64>, Seq<char>>(error@.message),
                Ok(None) => load == Err::<Option<u64>, Seq<char>>(
                    "no inode for FSOID "@ + hex_prefixed(fsoid as nat),
                ),
                Ok(Some(inode)) => if entry_type == EntryType::Symlink {
                    exists|target: Result<Option<String>, Error>| #[trigger]
                        Volume::<D>::symlink_read(records, target) && load == target_size(target)
                } else {
                    load == Ok::<Option<u64>, Seq<char>>(inode.logical_size)
                },
            }
        };
    let inode = found->Ok_0->Some_0;
    assert(found == Ok::<Option<Inode>, Error>(Some(inode)));
    if entry_type is Symlink {
        let target = choose|target: Result<Option<String>, Error>| #[trigger]
            Volume::<D>::symlink_read(records, target) && load == target_size(target);
        assert(target == Ok::<Option<String>, Error>(target->Ok_0));
    }
}

/// Looking up the sizes keeps every row: its entry stays, and at most its size and its note
/// of an error change. Where the command does not make do with errors and ends well, no row
/// gets one.
pub proof fn law_look_up_keeps_every_row<D: ApfsImage, S: SnapshotSource<D>>(
    source: &S,
    snapshots: Map<u64, SnapshotInfo>,
    best_effort: bool,
    before: Seq<ManifestRowView>,
    after: Seq<ManifestRowView>,
)
    requires
        sizes_looked_up::<D, S>(source, snapshots, best_effort, before, after, Ok(())),
    ensures
        after.len() == before.len(),
        forall|i: int|
            0 <= i < before.len() ==> {
                &&& (#[trigger] after[i]).entry == before[i].entry
                &&& after[i].logical_bytes == before[i].logical_bytes || after[i].metadata_error
                    == before[i].metadata_error
                &&& !best_effort ==> after[i].metadata_error == before[i].metadata_error
            },
{
    let answers = choose|answers: Map<u64, Answer>|
        {
            &&& #[trigger] answers_given::<D, S>(source, snapshots, best_effort, before, answers)
            &&& enriched_by(before, after, answers)
            &&& forall|i: int|
                0 <= i < before.len() ==> answers.contains_key(
                    (#[trigger] before[i]).entry.snapshot_xid,
                )
        };
    assert forall|i: int| 0 <= i < before.len() implies {
        &&& (#[trigger] after[i]).entry == before[i].entry
        &&& after[i].logical_bytes == before[i].logical_bytes || after[i].metadata_error
            == before[i].metadata_error
        &&& !best_effort ==> after[i].metadata_error == before[i].metadata_error
    } by {
        let xid = before[i].entry.snapshot_xid;
        assert(answers.contains_key(xid));
        assert(answer_given::<D, S>(source, snapshots, best_effort, before, xid, answers[xid]));
        if let Answer::Opened(loads) = answers[xid] {
            assert(loads.contains_key(before[i].entry.fsoid));
        }
    }
}

/// A row whose snapshot cannot be opened again says so, and keeps all else.
pub proof fn law_closed_snapshot_is_noted(row: ManifestRowView, message: Seq<char>)
    ensures
        ({
            let after = enriched(row, Answer::Closed(message));
            &&& after.entry == row.entry
            &&& after.logical_bytes == row.logical_bytes
            &&& after.metadata_error == Some("cannot reopen winning snapshot: "@ + message)
        }),
{
}

} // verus!
