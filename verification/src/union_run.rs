//! The history manifest of a volume, from its snapshots to the text of the manifest.
use crate::destination::Destination;
use crate::error::{failure, is_failed, viewed, Error, ErrorKind, ErrorView};
use crate::history::{are_rows_of, clean_set, row_of, HistoryEntry, PathRecord};
use crate::history_union::{
    decision, decision_name, format_named, heading, law_each_leaf_gets_a_row, leaf_rows, line_of,
    lines_from, rows_for,
    write_manifest, DatedSnapshot, ManifestFormat, ManifestRow, ManifestRowView,
};
use crate::image::ApfsImage;
use crate::journal::{Event, Journal};
use crate::options::Options;
use crate::scan::{all_scanned, scan_all, Scan, ScanError, ScanErrorView};
use crate::sizes::{
    enrich_logical_sizes, law_look_up_keeps_every_row, row_views, sizes_looked_up,
};
use crate::snapshots::{
    by_xid, index_by_xid, select_snapshots, selection, snapshot_views, table_view, SnapshotInfo,
    SnapshotView,
};
use crate::text::{
    debug_of, debug_text, dec, hex_prefixed, opt_text, push_dec_len, push_hex, str_eq,
};
use crate::vol::{SnapshotSource, Volume};
use crate::xid_map::XidMap;
use vstd::prelude::*;

verus! {

/// What the snapshots of a volume hold together.
pub struct Union {
    /// The snapshots that were looked at, oldest first.
    pub snapshots: Vec<SnapshotInfo>,
    /// How many paths there are, directories among them.
    pub union_paths: usize,
    pub rows: Vec<ManifestRow>,
    pub errors: Vec<ScanError>,
}

/// The error of a volume without a snapshot to look at.
pub open spec fn no_snapshots() -> ErrorView {
    failure(
        ErrorKind::ObjectNotFound,
        "volume has no snapshots at or before the requested boundary"@,
    )
}

/// `r` is what the entries of a scan come to, once their sizes are known.
pub open spec fn rows_sized<D: ApfsImage, S: SnapshotSource<D>>(
    source: &S,
    opts: &Options,
    snapshots: Seq<SnapshotInfo>,
    scan: Scan,
    entries: Seq<HistoryEntry>,
    r: Result<Union, Error>,
) -> bool {
    exists|table: Map<u64, SnapshotInfo>, after: Seq<ManifestRow>, done: Result<(), Error>|
        {
            &&& table_view(table) == by_xid(snapshot_views(snapshots))
            &&& #[trigger] sizes_looked_up::<D, S>(
                source,
                table,
                opts.best_effort,
                row_views(rows_for(entries)),
                row_views(after),
                done,
            )
            &&& match done {
                Err(error) => is_failed(r, error@),
                Ok(_) => {
                    &&& r matches Ok(union)
                    &&& union.snapshots@ == snapshots
                    &&& union.union_paths == scan@.known.dom().len()
                    &&& union.rows@ == after
                    &&& union.errors@ == scan.errors@
                },
            }
        }
}

/// `r` is what a scan comes to: the rows are those of its leaves against the latest
/// snapshot.
pub open spec fn rows_built<D: ApfsImage, S: SnapshotSource<D>>(
    source: &S,
    opts: &Options,
    snapshots: Seq<SnapshotInfo>,
    scan: Scan,
    r: Result<Union, Error>,
) -> bool {
    exists|entries: Seq<HistoryEntry>| #[trigger]
        are_rows_of(
            entries,
            scan@.known,
            snapshots.last().xid,
            clean_set(scan@.incomplete),
        ) && rows_sized::<D, S>(source, opts, snapshots, scan, entries, r)
}

/// What a person is told of a volume that does not tell all spellings of a name apart.
pub open spec fn spelling_line() -> Seq<char> {
    "history-union: warning: raw relative paths remain authoritative; collision_key is lowercase audit data, not exact APFS Unicode normalization"@
}

/// The journal `at`, once a person was told of how the volume tells names apart.
pub open spec fn spelling_told<D: ApfsImage>(live: &Volume<D>, at: Seq<Event>) -> Seq<Event> {
    if live.apsb.case_insensitive || live.apsb.normalization_insensitive {
        at.push(Event::Notice { text: spelling_line() })
    } else {
        at
    }
}

/// `r` is what the snapshots `chosen`, oldest first, hold together.
pub open spec fn chosen_united<D: ApfsImage, S: SnapshotSource<D>>(
    live: &Volume<D>,
    source: &S,
    opts: &Options,
    template: Seq<char>,
    chosen: Seq<SnapshotView>,
    at: Seq<Event>,
    to: Seq<Event>,
    r: Result<Union, Error>,
) -> bool {
    if chosen.len() == 0 {
        to == at && is_failed(r, no_snapshots())
    } else {
        exists|snapshots: Seq<SnapshotInfo>, scanned: Result<Scan, Error>|
            {
                &&& snapshot_views(snapshots) == chosen
                &&& #[trigger] all_scanned::<D, S>(
                    source,
                    opts,
                    template,
                    snapshots,
                    spelling_told(live, at),
                    to,
                    scanned,
                )
                &&& match scanned {
                    Err(error) => is_failed(r, error@),
                    Ok(scan) => rows_built::<D, S>(source, opts, snapshots, scan, r),
                }
            }
    }
}

/// `r` is what the snapshots of a volume that the options choose hold together.
pub open spec fn united<D: ApfsImage, S: SnapshotSource<D>>(
    live: &Volume<D>,
    source: &S,
    opts: &Options,
    template: Seq<char>,
    all: Seq<SnapshotView>,
    at: Seq<Event>,
    to: Seq<Event>,
    r: Result<Union, Error>,
) -> bool {
    match selection(all, opt_text(opts.snapshot), opts.snapshot_xid) {
        Err(error) => to == at && is_failed(r, error),
        Ok(chosen) => chosen_united::<D, S>(live, source, opts, template, chosen, at, to, r),
    }
}

fn build_rows<D: ApfsImage, S: SnapshotSource<D>>(
    source: &S,
    opts: &Options,
    snapshots: Vec<SnapshotInfo>,
    scan: Scan,
) -> (r: Result<Union, Error>)
    requires
        snapshots@.len() > 0,
        scan.union.well_formed(),
    ensures
        rows_built::<D, S>(source, opts, snapshots@, scan, r),
{
    let ghost whole = scan;
    let latest: u64 = snapshots[snapshots.len() - 1].xid;
    let union_paths: usize = scan.union.len();
    let entries = scan.union.finish(latest, &scan.latest_incomplete);
    let ghost all = entries@;
    proof {
        assert(are_rows_of(
            all,
            whole@.known,
            snapshots@.last().xid,
            clean_set(whole@.incomplete),
        ));
    }
    let mut rows = leaf_rows(entries);
    let table = index_by_xid(&snapshots);
    let done = enrich_logical_sizes::<D, S>(source, &table, opts, &mut rows);
    let ghost given = done;
    proof {
        assert(sizes_looked_up::<D, S>(
            source,
            table@,
            opts.best_effort,
            row_views(rows_for(all)),
            row_views(rows@),
            given,
        ));
    }
    let r = match done {
        Err(error) => Err(error),
        Ok(_) => Ok(Union { snapshots, union_paths, rows, errors: scan.errors }),
    };
    proof {
        assert(rows_sized::<D, S>(source, opts, snapshots@, whole, all, r));
    }
    r
}

/// Builds the union of the snapshots of a volume that the options choose. `template`
/// says where its root lies in each. Nothing is asked of the destination but to tell a
/// person how the work goes.
pub fn unite<D: ApfsImage, S: SnapshotSource<D>, O: Destination>(
    live: &Volume<D>,
    source: &S,
    dest: &mut Journal<O>,
    opts: &Options,
    template: &str,
    all: Vec<SnapshotInfo>,
) -> (r: Result<Union, Error>)
    ensures
        final(dest).dest() == old(dest).dest(),
        united::<D, S>(
            live,
            source,
            opts,
            template@,
            snapshot_views(all@),
            old(dest)@,
            final(dest)@,
            r,
        ),
{
    let snapshots = match select_snapshots(all, opts) {
        Err(error) => return Err(error),
        Ok(snapshots) => snapshots,
    };
    if snapshots.len() == 0 {
        return Err(
            Error::fixed(
                ErrorKind::ObjectNotFound,
                "volume has no snapshots at or before the requested boundary",
            ),
        );
    }
    if live.apsb.case_insensitive || live.apsb.normalization_insensitive {
        dest.notice(
            "history-union: warning: raw relative paths remain authoritative; collision_key is lowercase audit data, not exact APFS Unicode normalization",
        );
    }
    let ghost told = dest@;
    let scanned = scan_all::<D, S, O>(source, dest, &snapshots, template, opts);
    let ghost given = scanned;
    let ghost list = snapshots@;
    proof {
        assert(told == spelling_told(live, old(dest)@));
        assert(all_scanned::<D, S>(source, opts, template@, list, told, dest@, given));
    }
    match scanned {
        Err(error) => Err(error),
        Ok(scan) => build_rows::<D, S>(source, opts, snapshots, scan),
    }
}

// ---------------------------------------------------------------------------
// The manifest
// ---------------------------------------------------------------------------

/// `table` holds the snapshots, each with the text that the image gives for the time
/// it was made.
pub open spec fn is_dated<D: ApfsImage>(
    table: Map<u64, DatedSnapshot>,
    snapshots: Seq<SnapshotView>,
) -> bool {
    &&& table.map_values(|dated: DatedSnapshot| dated.info@) == by_xid(snapshots)
    &&& forall|xid: u64| #[trigger]
        table.contains_key(xid) ==> call_ensures(
            D::time_text,
            (table[xid].info.create_time,),
            table[xid].created,
        )
}

fn date_snapshots<D: ApfsImage>(snapshots: &Vec<SnapshotInfo>) -> (r: XidMap<DatedSnapshot>)
    ensures
        is_dated::<D>(r@, snapshot_views(snapshots@)),
{
    let ghost all = snapshot_views(snapshots@);
    let mut table: XidMap<DatedSnapshot> = XidMap::new();
    let mut i: usize = 0;
    proof {
        assert(all.take(0) =~= Seq::empty());
        assert(table@.map_values(|dated: DatedSnapshot| dated.info@) =~= Map::empty());
    }
    while i < snapshots.len()
        invariant
            i <= snapshots@.len(),
            all == snapshot_views(snapshots@),
            is_dated::<D>(table@, all.take(i as int)),
        decreases snapshots@.len() - i,
    {
        let ghost before = table@;
        let info = snapshots[i].clone();
        let created = D::time_text(info.create_time);
        let xid: u64 = info.xid;
        let dated = DatedSnapshot { info, created };
        let ghost kept = dated;
        table.insert(xid, dated);
        proof {
            assert(all.take(i + 1).drop_last() =~= all.take(i as int));
            assert(all.take(i + 1).last() == kept.info@);
            assert(table@.map_values(|dated: DatedSnapshot| dated.info@) =~= before.map_values(
                |dated: DatedSnapshot| dated.info@,
            ).insert(xid, kept.info@));
        }
        i += 1;
    }
    proof {
        assert(all.take(i as int) =~= all);
    }
    table
}

/// The format that the options ask for.
pub open spec fn format_wanted(opts: Options) -> Result<ManifestFormat, ErrorView> {
    match opts.format {
        Some(format) => format_named(format@),
        None => Ok(ManifestFormat::Jsonl),
    }
}

/// The format that the options ask for; JSON lines where they ask for none.
pub fn manifest_format(opts: &Options) -> (r: Result<ManifestFormat, Error>)
    ensures
        viewed(r) == format_wanted(*opts),
{
    match &opts.format {
        Some(format) => ManifestFormat::parse(format.as_str()),
        None => Ok(ManifestFormat::Jsonl),
    }
}

impl Union {
    /// `r` is the text of the manifest.
    pub open spec fn manifest_told<D: ApfsImage>(
        &self,
        format: ManifestFormat,
        r: Result<String, Error>,
    ) -> bool {
        exists|table: Map<u64, DatedSnapshot>|
            {
                let (text, complete) = lines_from(
                    format,
                    self.rows@,
                    0,
                    table,
                    self.snapshots@.last()@,
                    heading(format),
                );
                &&& #[trigger] is_dated::<D>(table, snapshot_views(self.snapshots@))
                &&& if complete {
                    r matches Ok(manifest) && manifest@ == text
                } else {
                    is_failed(
                        r,
                        failure(ErrorKind::Internal, "manifest row has unknown snapshot"@),
                    )
                }
            }
    }

    /// The text of the manifest.
    pub fn manifest<D: ApfsImage>(&self, format: ManifestFormat) -> (r: Result<String, Error>)
        requires
            self.snapshots@.len() > 0,
        ensures
            self.manifest_told::<D>(format, r),
    {
        let table = date_snapshots::<D>(&self.snapshots);
        let latest = &self.snapshots[self.snapshots.len() - 1];
        let mut text = String::new();
        proof {
            assert(text@ + heading(format) =~= heading(format));
            assert(is_dated::<D>(table@, snapshot_views(self.snapshots@)));
        }
        match write_manifest(&mut text, format, &self.rows, &table, latest) {
            Err(error) => Err(error),
            Ok(_) => Ok(text),
        }
    }
}

// ---------------------------------------------------------------------------
// Summary
// ---------------------------------------------------------------------------

/// How many of the rows are decided as `name`.
pub open spec fn decided_count(rows: Seq<ManifestRowView>, name: Seq<char>) -> nat
    decreases rows.len(),
{
    if rows.len() == 0 {
        0
    } else {
        decided_count(rows.drop_last(), name) + if decision_name(rows.last().entry) == name {
            1nat
        } else {
            0
        }
    }
}

/// How many of the rows have metadata that could not be read.
pub open spec fn unread_count(rows: Seq<ManifestRowView>) -> nat
    decreases rows.len(),
{
    if rows.len() == 0 {
        0
    } else {
        unread_count(rows.drop_last()) + if rows.last().metadata_error is Some {
            1nat
        } else {
            0
        }
    }
}

fn count_decided(rows: &Vec<ManifestRow>, name: &str) -> (r: usize)
    ensures
        r == decided_count(row_views(rows@), name@),
        r <= rows@.len(),
{
    let ghost views = row_views(rows@);
    let mut count: usize = 0;
    let mut i: usize = 0;
    proof {
        assert(views.take(0) =~= Seq::empty());
    }
    while i < rows.len()
        invariant
            count <= i <= rows@.len(),
            views == row_views(rows@),
            count == decided_count(views.take(i as int), name@),
        decreases rows@.len() - i,
    {
        proof {
            assert(views.take(i + 1).drop_last() =~= views.take(i as int));
            assert(views.take(i + 1).last() == rows@[i as int]@);
        }
        if str_eq(decision(&rows[i].entry).0, name) {
            count += 1;
        }
        i += 1;
    }
    proof {
        assert(views.take(i as int) =~= views);
    }
    count
}

fn count_unread(rows: &Vec<ManifestRow>) -> (r: usize)
    ensures
        r == unread_count(row_views(rows@)),
        r <= rows@.len(),
{
    let ghost views = row_views(rows@);
    let mut count: usize = 0;
    let mut i: usize = 0;
    proof {
        assert(views.take(0) =~= Seq::empty());
    }
    while i < rows.len()
        invariant
            count <= i <= rows@.len(),
            views == row_views(rows@),
            count == unread_count(views.take(i as int)),
        decreases rows@.len() - i,
    {
        proof {
            assert(views.take(i + 1).drop_last() =~= views.take(i as int));
            assert(views.take(i + 1).last() == rows@[i as int]@);
        }
        if rows[i].metadata_error.is_some() {
            count += 1;
        }
        i += 1;
    }
    proof {
        assert(views.take(i as int) =~= views);
    }
    count
}

/// What a person is shown of a scan error.
pub open spec fn scan_error_line(error: ScanErrorView) -> Seq<char> {
    "history-union: scan-error snapshot="@ + debug_of(error.snapshot_name) + " xid="@
        + hex_prefixed(error.snapshot_xid as nat) + " source="@ + debug_of(error.source_path)
        + " relative_prefix="@ + debug_of(error.relative_prefix) + " code="@
        + error.error.kind.spec_code() + " message="@ + error.error.message
}

impl ScanError {
    /// What a person is shown of this error.
    pub fn line(&self) -> (r: String)
        ensures
            r@ == scan_error_line(self@),
    {
        let mut text = "history-union: scan-error snapshot=".to_owned();
        text.append(debug_text(self.snapshot_name.as_str()).as_str());
        text.append(" xid=");
        push_hex(&mut text, self.snapshot_xid);
        text.append(" source=");
        text.append(debug_text(self.source_path.as_str()).as_str());
        text.append(" relative_prefix=");
        text.append(debug_text(self.relative_prefix.as_str()).as_str());
        text.append(" code=");
        text.append(self.error.kind().code());
        text.append(" message=");
        text.append(self.error.text().as_str());
        text
    }
}

/// What a person is shown of how the union ended.
pub open spec fn union_line(
    snapshots: nat,
    union_paths: nat,
    rows: Seq<ManifestRowView>,
    errors: nat,
) -> Seq<char> {
    "history-union: snapshots="@ + dec(snapshots) + " union_paths="@ + dec(union_paths)
        + " leaf_rows="@ + dec(rows.len()) + " historical_deleted="@ + dec(
        decided_count(rows, "historical_deleted"@),
    ) + " unknown="@ + dec(decided_count(rows, "unknown_latest_scan"@)) + " path_conflicts="@
        + dec(decided_count(rows, "skip_path_conflict"@)) + " scan_errors="@ + dec(errors)
        + " metadata_errors="@ + dec(unread_count(rows))
}

impl Union {
    /// Everything was scanned and all metadata was read.
    pub fn complete(&self) -> (r: bool)
        ensures
            r == (self.errors@.len() == 0 && unread_count(row_views(self.rows@)) == 0),
    {
        self.errors.len() == 0 && count_unread(&self.rows) == 0
    }

    /// What a person is shown of how the union ended.
    pub fn line(&self) -> (r: String)
        ensures
            r@ == union_line(
                self.snapshots@.len(),
                self.union_paths as nat,
                row_views(self.rows@),
                self.errors@.len(),
            ),
    {
        let mut text = "history-union: snapshots=".to_owned();
        push_dec_len(&mut text, self.snapshots.len());
        text.append(" union_paths=");
        push_dec_len(&mut text, self.union_paths);
        text.append(" leaf_rows=");
        push_dec_len(&mut text, self.rows.len());
        text.append(" historical_deleted=");
        push_dec_len(&mut text, count_decided(&self.rows, "historical_deleted"));
        text.append(" unknown=");
        push_dec_len(&mut text, count_decided(&self.rows, "unknown_latest_scan"));
        text.append(" path_conflicts=");
        push_dec_len(&mut text, count_decided(&self.rows, "skip_path_conflict"));
        text.append(" scan_errors=");
        push_dec_len(&mut text, self.errors.len());
        text.append(" metadata_errors=");
        push_dec_len(&mut text, count_unread(&self.rows));
        text
    }
}

// ---------------------------------------------------------------------------
// Laws
// ---------------------------------------------------------------------------

proof fn lemma_lines_complete(
    format: ManifestFormat,
    rows: Seq<ManifestRow>,
    i: int,
    table: Map<u64, DatedSnapshot>,
    latest: SnapshotView,
    text: Seq<char>,
)
    requires
        0 <= i,
        forall|k: int|
            0 <= k < rows.len() ==> table.contains_key((#[trigger] rows[k]).entry.snapshot_xid),
    ensures
        lines_from(format, rows, i, table, latest, text).1,
    decreases rows.len() - i,
{
    if i < rows.len() {
        let xid = rows[i].entry.snapshot_xid;
        lemma_lines_complete(
            format,
            rows,
            i + 1,
            table,
            latest,
            text + line_of(format, rows[i]@, table[xid], latest) + "\n"@,
        );
    }
}

/// Every row of a union comes from a snapshot that was looked at, so that its
/// manifest can always be written.
pub proof fn law_manifest_can_be_written<D: ApfsImage, S: SnapshotSource<D>>(
    source: &S,
    opts: &Options,
    snapshots: Seq<SnapshotInfo>,
    scan: Scan,
    union: Union,
    format: ManifestFormat,
    r: Result<String, Error>,
)
    requires
        rows_built::<D, S>(source, opts, snapshots, scan, Ok(union)),
        union.manifest_told::<D>(format, r),
    ensures
        r is Ok,
{
    let done: Result<Union, Error> = Ok(union);
    let entries = choose|entries: Seq<HistoryEntry>| #[trigger]
        are_rows_of(
            entries,
            scan@.known,
            snapshots.last().xid,
            clean_set(scan@.incomplete),
        ) && rows_sized::<D, S>(source, opts, snapshots, scan, entries, done);
    let (seen, after, looked) = choose|
        seen: Map<u64, SnapshotInfo>,
        after: Seq<ManifestRow>,
        looked: Result<(), Error>,
    |
        {
            &&& table_view(seen) == by_xid(snapshot_views(snapshots))
            &&& #[trigger] sizes_looked_up::<D, S>(
                source,
                seen,
                opts.best_effort,
                row_views(rows_for(entries)),
                row_views(after),
                looked,
            )
            &&& match looked {
                Err(error) => is_failed(done, error@),
                Ok(_) => {
                    &&& done matches Ok(union)
                    &&& union.snapshots@ == snapshots
                    &&& union.union_paths == scan@.known.dom().len()
                    &&& union.rows@ == after
                    &&& union.errors@ == scan.errors@
                },
            }
        };
    let table = choose|table: Map<u64, DatedSnapshot>|
        {
            let (text, complete) = lines_from(
                format,
                union.rows@,
                0,
                table,
                union.snapshots@.last()@,
                heading(format),
            );
            &&& #[trigger] is_dated::<D>(table, snapshot_views(union.snapshots@))
            &&& if complete {
                r matches Ok(manifest) && manifest@ == text
            } else {
                is_failed(
                    r,
                    failure(ErrorKind::Internal, "manifest row has unknown snapshot"@),
                )
            }
        };
    assert forall|k: int| 0 <= k < union.rows@.len() implies table.contains_key(
        (#[trigger] union.rows@[k]).entry.snapshot_xid,
    ) by {
        let before = row_views(rows_for(entries));
        assert(row_views(after)[k] == union.rows@[k]@);
        let xid = before[k].entry.snapshot_xid;
        assert(seen.contains_key(xid));
        assert(table_view(seen).contains_key(xid));
        assert(table.map_values(|dated: DatedSnapshot| dated.info@).contains_key(xid));
    }
    lemma_lines_complete(
        format,
        union.rows@,
        0,
        table,
        union.snapshots@.last()@,
        heading(format),
    );
}

/// Rows are counted one by one: by what is decided of them, and by whether their metadata
/// could be read.
pub proof fn law_rows_are_counted(
    rows: Seq<ManifestRowView>,
    next: ManifestRowView,
    name: Seq<char>,
)
    ensures
        decided_count(Seq::empty(), name) == 0,
        unread_count(Seq::empty()) == 0,
        decided_count(rows.push(next), name) == decided_count(rows, name) + (if decision_name(
            next.entry,
        ) == name { 1int } else { 0 }),
        unread_count(rows.push(next)) == unread_count(rows) + (if next.metadata_error is Some {
            1int
        } else {
            0
        }),
{
    assert(rows.push(next).drop_last() =~= rows);
}

/// A manifest is written as JSON lines unless another format is asked for.
pub proof fn law_manifest_format(opts: Options)
    ensures
        opts.format is None ==> format_wanted(opts) == Ok::<ManifestFormat, ErrorView>(
            ManifestFormat::Jsonl,
        ),
        opts.format matches Some(format) ==> format_wanted(opts) == format_named(format@),
{
}

/// What a person is shown of how a union ended: each count under its name.
pub proof fn law_union_is_summed_up(
    snapshots: nat,
    union_paths: nat,
    rows: Seq<ManifestRowView>,
    errors: nat,
)
    ensures
        union_line(snapshots, union_paths, rows, errors) == "history-union: snapshots="@ + dec(
            snapshots,
        ) + " union_paths="@ + dec(union_paths) + " leaf_rows="@ + dec(rows.len())
            + " historical_deleted="@ + dec(decided_count(rows, "historical_deleted"@))
            + " unknown="@ + dec(decided_count(rows, "unknown_latest_scan"@))
            + " path_conflicts="@ + dec(decided_count(rows, "skip_path_conflict"@))
            + " scan_errors="@ + dec(errors) + " metadata_errors="@ + dec(unread_count(rows)),
{
}

/// What a person is shown of a scan error: its snapshot, its place and what it says.
pub proof fn law_scan_error_is_shown(error: ScanErrorView)
    ensures
        scan_error_line(error) == "history-union: scan-error snapshot="@ + debug_of(
            error.snapshot_name,
        ) + " xid="@ + hex_prefixed(error.snapshot_xid as nat) + " source="@ + debug_of(
            error.source_path,
        ) + " relative_prefix="@ + debug_of(error.relative_prefix) + " code="@
            + error.error.kind.spec_code() + " message="@ + error.error.message,
{
}

/// A person is told once where a volume does not tell names apart by case or by
/// normalization, and not otherwise.
pub proof fn law_spelling_is_told<D: ApfsImage>(live: &Volume<D>, at: Seq<Event>)
    ensures
        live.apsb.case_insensitive || live.apsb.normalization_insensitive ==> spelling_told(
            live,
            at,
        ).len() == at.len() + 1 && spelling_told(live, at).take(at.len() as int) == at && (
        spelling_told(live, at)[at.len() as int] is Notice),
        !live.apsb.case_insensitive && !live.apsb.normalization_insensitive ==> spelling_told(
            live,
            at,
        ) == at,
{
    assert(spelling_told(live, at).take(at.len() as int) =~= at);
}

proof fn lemma_leaf_among(entries: Seq<HistoryEntry>, i: int) -> (k: int)
    requires
        0 <= i < entries.len(),
        entries[i].entry_type is File || entries[i].entry_type is Symlink,
    ensures
        0 <= k < rows_for(entries).len(),
        rows_for(entries)[k].entry == entries[i],
    decreases entries.len(),
{
    let front = entries.drop_last();
    let last = entries.last();
    law_each_leaf_gets_a_row(front, last);
    assert(front.push(last) =~= entries);
    if i < front.len() {
        assert(front[i] == entries[i]);
        let k = lemma_leaf_among(front, i);
        assert(rows_for(entries).take(rows_for(front).len() as int)[k] == rows_for(front)[k]);
        k
    } else {
        rows_for(front).len() as int
    }
}

proof fn lemma_row_among(entries: Seq<HistoryEntry>, k: int) -> (i: int)
    requires
        0 <= k < rows_for(entries).len(),
    ensures
        0 <= i < entries.len(),
        rows_for(entries)[k].entry == entries[i],
        entries[i].entry_type is File || entries[i].entry_type is Symlink,
    decreases entries.len(),
{
    if entries.len() == 0 {
        law_each_leaf_gets_a_row(entries, rows_for(entries)[k].entry);
        assert(entries =~= Seq::empty());
        0
    } else {
        let front = entries.drop_last();
        let last = entries.last();
        law_each_leaf_gets_a_row(front, last);
        assert(front.push(last) =~= entries);
        let n = rows_for(front).len() as int;
        if k < n {
            if last.entry_type is File || last.entry_type is Symlink {
                assert(rows_for(entries).take(n)[k] == rows_for(entries)[k]);
            }
            let i = lemma_row_among(front, k);
            assert(front[i] == entries[i]);
            i
        } else {
            front.len() as int
        }
    }
}

proof fn lemma_rows_show_the_leaves(
    known: Map<Seq<char>, PathRecord>,
    latest: u64,
    hidden: Set<Seq<char>>,
    entries: Seq<HistoryEntry>,
    rows: Seq<ManifestRow>,
)
    requires
        are_rows_of(entries, known, latest, hidden),
        rows.len() == rows_for(entries).len(),
        forall|k: int|
            0 <= k < rows.len() ==> (#[trigger] rows[k])@.entry == rows_for(entries)[k]@.entry,
    ensures
        forall|path: Seq<char>| #[trigger]
            known.contains_key(path) && (known[path].entry_type is File
                || known[path].entry_type is Symlink) ==> exists|k: int|
                0 <= k < rows.len() && (#[trigger] rows[k])@.entry.relative_path == path,
        forall|k: int|
            0 <= k < rows.len() ==> {
                let entry = (#[trigger] rows[k])@.entry;
                &&& known.contains_key(entry.relative_path)
                &&& entry.entry_type is File || entry.entry_type is Symlink
                &&& entry == row_of(known, entry.relative_path, latest, hidden)
            },
{
    assert forall|path: Seq<char>| #[trigger]
        known.contains_key(path) && (known[path].entry_type is File
            || known[path].entry_type is Symlink) implies exists|k: int|
        0 <= k < rows.len() && (#[trigger] rows[k])@.entry.relative_path == path by {
        let i = choose|i: int|
            0 <= i < entries.len() && (#[trigger] entries[i])@.relative_path == path;
        assert(entries[i]@.entry_type == known[path].entry_type);
        let k = lemma_leaf_among(entries, i);
        assert(rows[k]@.entry == rows_for(entries)[k]@.entry);
    }
    assert forall|k: int| 0 <= k < rows.len() implies {
        let entry = (#[trigger] rows[k])@.entry;
        &&& known.contains_key(entry.relative_path)
        &&& entry.entry_type is File || entry.entry_type is Symlink
        &&& entry == row_of(known, entry.relative_path, latest, hidden)
    } by {
        let i = lemma_row_among(entries, k);
        assert(rows[k]@.entry == rows_for(entries)[k]@.entry);
        assert(entries[i]@ == row_of(known, entries[i]@.relative_path, latest, hidden));
    }
}

#[verifier::rlimit(40)]
proof fn lemma_sized_rows<D: ApfsImage, S: SnapshotSource<D>>(
    source: &S,
    opts: &Options,
    snapshots: Seq<SnapshotInfo>,
    scan: Scan,
    entries: Seq<HistoryEntry>,
    union: Union,
)
    requires
        rows_sized::<D, S>(source, opts, snapshots, scan, entries, Ok(union)),
    ensures
        union.snapshots@ == snapshots,
        union.errors@ == scan.errors@,
        union.union_paths == scan@.known.dom().len(),
        union.rows@.len() == rows_for(entries).len(),
        forall|k: int|
            0 <= k < union.rows@.len() ==> {
                &&& (#[trigger] union.rows@[k])@.entry == rows_for(entries)[k]@.entry
                &&& !opts.best_effort ==> union.rows@[k]@.metadata_error
                    == rows_for(entries)[k]@.metadata_error
            },
{
    let r: Result<Union, Error> = Ok(union);
    let (table, after, done) = choose|
        table: Map<u64, SnapshotInfo>,
        after: Seq<ManifestRow>,
        done: Result<(), Error>,
    |
        {
            &&& table_view(table) == by_xid(snapshot_views(snapshots))
            &&& #[trigger] sizes_looked_up::<D, S>(
                source,
                table,
                opts.best_effort,
                row_views(rows_for(entries)),
                row_views(after),
                done,
            )
            &&& match done {
                Err(error) => is_failed(r, error@),
                Ok(_) => {
                    &&& r matches Ok(union)
                    &&& union.snapshots@ == snapshots
                    &&& union.union_paths == scan@.known.dom().len()
                    &&& union.rows@ == after
                    &&& union.errors@ == scan.errors@
                },
            }
        };
    let before = rows_for(entries);
    assert(done->Ok_0 == ());
    law_look_up_keeps_every_row::<D, S>(
        source,
        table,
        opts.best_effort,
        row_views(before),
        row_views(after),
    );
    assert forall|k: int| 0 <= k < after.len() implies (#[trigger] after[k])@.entry
        == before[k]@.entry && (!opts.best_effort ==> after[k]@.metadata_error
        == before[k]@.metadata_error) by {
        assert(row_views(after)[k] == after[k]@);
        assert(row_views(before)[k] == before[k]@);
    }
}

/// A union has one row for each file and symbolic link that any snapshot showed last at its
/// path, and no other: what a row says of its path is what the scan found of it, against the
/// last of the snapshots.
pub proof fn law_union_has_a_row_for_each_leaf<D: ApfsImage, S: SnapshotSource<D>>(
    source: &S,
    opts: &Options,
    snapshots: Seq<SnapshotInfo>,
    scan: Scan,
    union: Union,
)
    requires
        rows_built::<D, S>(source, opts, snapshots, scan, Ok(union)),
    ensures
        union.snapshots@ == snapshots,
        union.errors@ == scan.errors@,
        union.union_paths == scan@.known.dom().len(),
        forall|path: Seq<char>| #[trigger]
            scan@.known.contains_key(path) && (scan@.known[path].entry_type is File
                || scan@.known[path].entry_type is Symlink) ==> exists|k: int|
                0 <= k < union.rows@.len() && (#[trigger] union.rows@[k])@.entry.relative_path
                    == path,
        forall|k: int|
            0 <= k < union.rows@.len() ==> {
                let entry = (#[trigger] union.rows@[k])@.entry;
                &&& scan@.known.contains_key(entry.relative_path)
                &&& entry.entry_type is File || entry.entry_type is Symlink
                &&& entry == row_of(
                    scan@.known,
                    entry.relative_path,
                    snapshots[snapshots.len() - 1].xid,
                    clean_set(scan@.incomplete),
                )
            },
{
    let latest = snapshots.last().xid;
    let hidden = clean_set(scan@.incomplete);
    let r: Result<Union, Error> = Ok(union);
    let entries = choose|entries: Seq<HistoryEntry>| #[trigger]
        are_rows_of(entries, scan@.known, latest, hidden) && rows_sized::<D, S>(
            source,
            opts,
            snapshots,
            scan,
            entries,
            r,
        );
    lemma_sized_rows::<D, S>(source, opts, snapshots, scan, entries, union);
    lemma_rows_show_the_leaves(scan@.known, latest, hidden, entries, union.rows@);
}

/// Without a snapshot to look at there is nothing to unite, and nobody is told anything.
pub proof fn law_union_needs_a_snapshot<D: ApfsImage, S: SnapshotSource<D>>(
    live: &Volume<D>,
    source: &S,
    opts: &Options,
    template: Seq<char>,
    at: Seq<Event>,
    to: Seq<Event>,
    r: Result<Union, Error>,
)
    requires
        chosen_united::<D, S>(live, source, opts, template, Seq::empty(), at, to, r),
    ensures
        to == at,
        r matches Err(error) && error.kind == ErrorKind::ObjectNotFound,
{
}

} // verus!
