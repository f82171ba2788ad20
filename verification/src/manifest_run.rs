//! A run over a whole manifest: rows are admitted, and the work on them is done
//! snapshot by snapshot.
use crate::attempt::{leaf_state, Attempting, LeafState};
use crate::decmpfs::Codec;
use crate::destination::{Destination, Standing};
use crate::error::{failure, is_failed, Error, ErrorKind, ErrorView};
use crate::image::{ApfsImage, TreeReader};
use crate::journal::{did, notices, only_adds_events, Event, Journal};
use crate::manifest::{
    invalid_views, row_views, InvalidRow, InvalidView, Manifest, ManifestRow, RowView,
};
use crate::options::Options;
use crate::recover::{encrypted_refused, refuse_encrypted, HardlinkState};
use crate::recover_manifest::{
    attempt_views, emit_invalid, emit_row_error, emit_skipped, enqueue, failed_attempt,
    finish_or_reschedule, finished, invalid_fields, is_newest_before, json_line,
    law_each_status_has_its_count, next_snapshot, observed, queue_view, queued, rescheduled, row_error_fields, run_view, skipped_fields, work_views, Attempt,
    AttemptView, RunView, Summary, WorkItem, WorkView,
};
use crate::snapshots::{by_xid, index_by_xid, snapshot_views, table_view, SnapshotInfo};
use crate::staging::{
    components_of, law_only_missing_parents_are_made, prepare_output_root, root_prepared,
    secure_target, walked,
};
use crate::text::{
    copy_opt, dec, hex_prefixed, opt_text, push_dec, push_dec_len, push_hex, str_eq, texts,
};
use crate::vol::{SnapshotSource, Volume};
use crate::xid_map::XidMap;
use vstd::hash_set::StringHashSet;
use vstd::prelude::*;

verus! {

/// A run: the work that waits, what is still to be reported and how many rows ended
/// how.
pub struct Run {
    pub queue: XidMap<Vec<WorkItem>>,
    pub output: String,
    pub summary: Summary,
}

impl Run {
    /// What is known of the run, where `log` is the journal.
    pub open spec fn with_log(&self, log: Seq<Event>) -> RunView {
        run_view(self.queue@, self.output@, self.summary, log)
    }
}

/// A run in which nothing was done, where `log` is the journal.
pub open spec fn fresh_run(log: Seq<Event>) -> RunView {
    RunView {
        queue: Map::empty(),
        output: Seq::empty(),
        summary: Summary {
            rows: 0,
            recovered: 0,
            dry_run: 0,
            skipped: 0,
            partial: 0,
            errors: 0,
        },
        log,
    }
}

impl Run {
    /// A run in which nothing was done yet.
    pub fn new() -> (r: Run)
        ensures
            forall|log: Seq<Event>| #[trigger] r.with_log(log) == fresh_run(log),
    {
        let r = Run {
            queue: XidMap::new(),
            output: String::new(),
            summary: Summary::default(),
        };
        proof {
            assert(queue_view(r.queue@) =~= Map::empty());
            assert(r.output@ =~= Seq::empty());
        }
        r
    }
}

// ---------------------------------------------------------------------------
// Counting
// ---------------------------------------------------------------------------

/// How many pieces of work wait for snapshots below `n`.
pub open spec fn waiting_below(queue: Map<u64, Seq<WorkView>>, n: int) -> int
    decreases n,
{
    if n <= 0 {
        0
    } else {
        waiting_below(queue, n - 1) + waiting_at(queue, n - 1)
    }
}

/// How many pieces of work wait for snapshot `k`.
pub open spec fn waiting_at(queue: Map<u64, Seq<WorkView>>, k: int) -> int {
    if 0 <= k <= u64::MAX && queue.contains_key(k as u64) {
        queue[k as u64].len() as int
    } else {
        0
    }
}

/// How many pieces of work wait.
pub open spec fn waiting(queue: Map<u64, Seq<WorkView>>) -> int {
    waiting_below(queue, 0x1_0000_0000_0000_0000)
}

proof fn lemma_waiting_changes(
    before: Map<u64, Seq<WorkView>>,
    after: Map<u64, Seq<WorkView>>,
    xid: u64,
    n: int,
)
    requires
        0 <= n <= 0x1_0000_0000_0000_0000,
        forall|k: u64|
            k != xid ==> #[trigger] waiting_at(before, k as int) == waiting_at(after, k as int),
    ensures
        waiting_below(after, n) == waiting_below(before, n) + if xid < n {
            waiting_at(after, xid as int) - waiting_at(before, xid as int)
        } else {
            0
        },
    decreases n,
{
    if n > 0 {
        lemma_waiting_changes(before, after, xid, n - 1);
        let k = (n - 1) as u64;
        assert(k == xid || waiting_at(before, k as int) == waiting_at(after, k as int));
    }
}

proof fn lemma_waiting_is_counted(queue: Map<u64, Seq<WorkView>>, n: int)
    ensures
        0 <= waiting_below(queue, n),
    decreases n,
{
    if n > 0 {
        lemma_waiting_is_counted(queue, n - 1);
    }
}

proof fn lemma_queued_counts(queue: Map<u64, Seq<WorkView>>, xid: u64, item: WorkView)
    ensures
        waiting(queued(queue, xid, item)) == waiting(queue) + 1,
{
    lemma_waiting_changes(queue, queued(queue, xid, item), xid, 0x1_0000_0000_0000_0000);
}

proof fn lemma_taken_counts(queue: Map<u64, Seq<WorkView>>, xid: u64)
    requires
        queue.contains_key(xid),
    ensures
        waiting(queue.remove(xid)) == waiting(queue) - queue[xid].len(),
        waiting(queue.remove(xid)) >= 0,
{
    lemma_waiting_changes(queue, queue.remove(xid), xid, 0x1_0000_0000_0000_0000);
    lemma_waiting_is_counted(queue.remove(xid), 0x1_0000_0000_0000_0000);
}

proof fn lemma_nothing_waits(queue: Map<u64, Seq<WorkView>>, n: int)
    requires
        forall|k: u64| !queue.contains_key(k),
    ensures
        waiting_below(queue, n) == 0,
    decreases n,
{
    if n > 0 {
        lemma_nothing_waits(queue, n - 1);
    }
}

/// How many rows a run has in hand: those that ended and those that wait.
pub open spec fn in_hand(run: RunView) -> int {
    run.summary.rows + waiting(run.queue)
}

/// All rows that wait can be looked for in older snapshots, where that is asked for.
pub open spec fn can_fall_back(queue: Map<u64, Seq<WorkView>>, opts: Options) -> bool {
    opts.fallback_history ==> forall|xid: u64, i: int|
        queue.contains_key(xid) && 0 <= i < queue[xid].len() ==> (
        #[trigger] queue[xid][i]).row.relative_path is Some
}

// ---------------------------------------------------------------------------
// The runner
// ---------------------------------------------------------------------------

/// What a run works with.
pub struct Runner<'a, D: ApfsImage, S: SnapshotSource<D>, C: Codec> {
    /// The volume as it is now, of which the snapshots are older views.
    pub live: &'a Volume<D>,
    pub source: &'a S,
    pub codec: &'a C,
    pub opts: &'a Options,
    pub snapshots: &'a XidMap<SnapshotInfo>,
    pub root: &'a str,
}

/// A run whose report was written out.
pub open spec fn written_out(run: RunView) -> RunView {
    RunView { output: Seq::empty(), ..run }
}

impl<'a, D: ApfsImage, S: SnapshotSource<D>, C: Codec> Runner<'a, D, S, C> {
    /// The options are such as can be used.
    pub open spec fn well_formed(&self) -> bool {
        self.opts.fallback_history ==> self.opts.path_template is Some
    }

    /// What is still to be reported was written out, which led from `before` to
    /// `after`.
    pub open spec fn flushed(&self, before: RunView, after: RunView, r: Result<(), Error>) -> bool {
        if before.output.len() == 0 {
            after == before && r is Ok
        } else {
            exists|sent: Result<(), Error>, mid: Seq<Event>| #[trigger]
                did(before.log, Event::Report { text: before.output, reply: sent }, mid)
                    && match sent {
                    Err(error) => after == (RunView { log: mid, ..before }) && is_failed(
                        r,
                        error@,
                    ),
                    Ok(_) => after == (RunView { log: mid, ..written_out(before) }) && r is Ok,
                }
        }
    }

    fn flush<O: Destination>(&self, dest: &mut Journal<O>, run: &mut Run) -> (r: Result<(), Error>)
        ensures
            final(dest).dest() == old(dest).dest(),
            self.flushed(
                old(run).with_log(old(dest)@),
                final(run).with_log(final(dest)@),
                r,
            ),
            r is Ok ==> final(run).output@ == Seq::<char>::empty(),
            final(run).summary == old(run).summary,
            final(run).queue@ == old(run).queue@,
    {
        let ghost before = run.with_log(dest@);
        proof {
            reveal_strlit("");
            if run.output@.len() == 0 {
                assert(run.output@ =~= ""@);
            }
        }
        if str_eq(run.output.as_str(), "") {
            return Ok(());
        }
        let sent = dest.report(run.output.as_str());
        let ghost given = sent;
        proof {
            assert(did(
                before.log,
                Event::Report { text: before.output, reply: given },
                dest@,
            ));
        }
        match sent {
            Err(error) => Err(error),
            Ok(_) => {
                run.output = String::new();
                proof {
                    assert(run.output@ =~= Seq::<char>::empty());
                }
                Ok(())
            },
        }
    }

    /// Reporting the invalid rows from `i` on led from `before` to `after`.
    pub open spec fn invalid_reported(
        &self,
        list: Seq<InvalidView>,
        i: int,
        before: RunView,
        after: RunView,
        r: Result<(), Error>,
    ) -> bool
        decreases list.len() - i,
    {
        if !(0 <= i < list.len()) {
            after == before && r is Ok
        } else {
            exists|mid: RunView, sent: Result<(), Error>| #[trigger]
                self.flushed(
                    RunView {
                        output: before.output + json_line(invalid_fields(list[i])),
                        summary: observed(before.summary, "error"@),
                        ..before
                    },
                    mid,
                    sent,
                ) && match sent {
                    Err(error) => after == mid && is_failed(r, error@),
                    Ok(_) => self.invalid_reported(list, i + 1, mid, after, r),
                }
        }
    }
}

impl<'a, D: ApfsImage, S: SnapshotSource<D>, C: Codec> Runner<'a, D, S, C> {
    fn report_invalid<O: Destination>(
        &self,
        dest: &mut Journal<O>,
        list: &Vec<InvalidRow>,
        run: &mut Run,
    ) -> (r: Result<(), Error>)
        requires
            old(run).summary.well_formed(),
            old(run).output@ == Seq::<char>::empty(),
            old(run).summary.rows + list@.len() <= u64::MAX,
        ensures
            final(dest).dest() == old(dest).dest(),
            self.invalid_reported(
                invalid_views(list@),
                0,
                old(run).with_log(old(dest)@),
                final(run).with_log(final(dest)@),
                r,
            ),
            final(run).summary.well_formed(),
            r is Ok ==> {
                &&& final(run).output@ == Seq::<char>::empty()
                &&& final(run).queue@ == old(run).queue@
                &&& final(run).summary.rows == old(run).summary.rows + list@.len()
            },
    {
        let ghost views = invalid_views(list@);
        let ghost before = run.with_log(dest@);
        let mut i: usize = 0;
        while i < list.len()
            invariant
                dest.dest() == old(dest).dest(),
                i <= list@.len(),
                views == invalid_views(list@),
                before == old(run).with_log(old(dest)@),
                run.summary.well_formed(),
                run.output@ == Seq::<char>::empty(),
                run.queue@ == old(run).queue@,
                run.summary.rows == old(run).summary.rows + i,
                old(run).summary.rows + list@.len() <= u64::MAX,
                forall|after: RunView, r: Result<(), Error>|
                    self.invalid_reported(views, i as int, run.with_log(dest@), after, r)
                        ==> #[trigger] self.invalid_reported(views, 0, before, after, r),
            decreases list@.len() - i,
        {
            let ghost start = run.with_log(dest@);
            emit_invalid(&mut run.output, &list[i]);
            run.summary.observe("error");
            let ghost told = run.with_log(dest@);
            let sent = self.flush(dest, run);
            let ghost reply = sent;
            proof {
                assert(views[i as int] == list@[i as int]@);
                assert(told == RunView {
                    output: start.output + json_line(invalid_fields(views[i as int])),
                    summary: observed(start.summary, "error"@),
                    ..start
                });
                assert(self.flushed(told, run.with_log(dest@), reply));
                assert forall|after: RunView, r: Result<(), Error>|
                    reply is Ok && self.invalid_reported(
                        views,
                        i + 1,
                        run.with_log(dest@),
                        after,
                        r,
                    ) implies #[trigger] self.invalid_reported(views, 0, before, after, r) by {
                    assert(self.invalid_reported(views, i as int, start, after, r));
                }
            }
            match sent {
                Err(error) => {
                    proof {
                        let r: Result<(), Error> = Err(error);
                        assert(self.invalid_reported(views, i as int, start, run.with_log(dest@), r));
                        assert(self.invalid_reported(views, 0, before, run.with_log(dest@), r));
                    }
                    return Err(error);
                },
                Ok(_) => {},
            }
            i += 1;
        }
        proof {
            let r: Result<(), Error> = Ok(());
            assert(self.invalid_reported(views, i as int, run.with_log(dest@), run.with_log(dest@), r));
            assert(self.invalid_reported(views, 0, before, run.with_log(dest@), r));
        }
        Ok(())
    }

    // -----------------------------------------------------------------------
    // Rows
    // -----------------------------------------------------------------------

    /// `before` with the report that a row cannot be worked on.
    pub open spec fn row_refused(
        before: RunView,
        row: RowView,
        code: Seq<char>,
        message: Seq<char>,
    ) -> RunView {
        RunView {
            output: before.output + json_line(row_error_fields(row, code, message)),
            summary: observed(before.summary, "error"@),
            ..before
        }
    }

    fn refuse_row(&self, run: &mut Run, row: &ManifestRow, code: &str, message: &str)
        requires
            old(run).summary.well_formed(),
            old(run).summary.rows < u64::MAX,
        ensures
            forall|log: Seq<Event>| #[trigger]
                final(run).with_log(log) == Self::row_refused(
                    old(run).with_log(log),
                    row@,
                    code@,
                    message@,
                ),
            final(run).summary.well_formed(),
            final(run).summary.rows == old(run).summary.rows + 1,
            final(run).queue@ == old(run).queue@,
    {
        emit_row_error(&mut run.output, row, code, message);
        run.summary.observe("error");
    }

    /// The work on a row that was admitted.
    pub open spec fn work_on(row: RowView, target: Seq<char>) -> WorkView {
        WorkView {
            row,
            target,
            current_source_path: row.source_path,
            primary: true,
            attempts: Seq::empty(),
        }
    }

    /// Admitting a row whose target is free of other rows led from `before` to
    /// `after`, by what stands at the target.
    pub open spec fn target_admitted(
        &self,
        row: RowView,
        target: Seq<char>,
        standing: Result<Standing, Error>,
        before: RunView,
    ) -> RunView {
        match standing {
            Err(error) => Self::row_refused(
                before,
                row,
                ErrorKind::Io.spec_code(),
                error@.message,
            ),
            Ok(found) => if found != Standing::Nothing && !self.opts.overwrite {
                RunView {
                    output: before.output + json_line(
                        skipped_fields(row, "destination already exists"@),
                    ),
                    summary: observed(before.summary, "skipped-exists"@),
                    ..before
                }
            } else if found == Standing::Dir {
                Self::row_refused(
                    before,
                    row,
                    "usage"@,
                    "destination is a directory and cannot be replaced by a leaf"@,
                )
            } else {
                RunView {
                    queue: queued(before.queue, row.snapshot_xid, Self::work_on(row, target)),
                    ..before
                }
            },
        }
    }

    fn admit_target(
        &self,
        row: ManifestRow,
        target: String,
        standing: Result<Standing, Error>,
        run: &mut Run,
    )
        requires
            old(run).summary.well_formed(),
            in_hand(old(run).with_log(Seq::empty())) < u64::MAX,
            waiting(old(run).with_log(Seq::empty()).queue) >= 0,
            can_fall_back(old(run).with_log(Seq::empty()).queue, *self.opts),
            self.opts.fallback_history ==> row.relative_path is Some,
        ensures
            forall|log: Seq<Event>| #[trigger]
                final(run).with_log(log) == self.target_admitted(
                    row@,
                    target@,
                    standing,
                    old(run).with_log(log),
                ),
            final(run).summary.well_formed(),
            in_hand(final(run).with_log(Seq::empty())) == in_hand(old(run).with_log(Seq::empty())) + 1,
            waiting(final(run).with_log(Seq::empty()).queue) >= 0,
            can_fall_back(final(run).with_log(Seq::empty()).queue, *self.opts),
    {
        let ghost before = run.with_log(Seq::empty());
        match standing {
            Err(error) => self.refuse_row(
                run,
                &row,
                ErrorKind::Io.code(),
                error.text().as_str(),
            ),
            Ok(found) => {
                if found != Standing::Nothing && !self.opts.overwrite {
                    emit_skipped(&mut run.output, &row, "destination already exists");
                    run.summary.observe("skipped-exists");
                } else if found == Standing::Dir {
                    self.refuse_row(
                        run,
                        &row,
                        "usage",
                        "destination is a directory and cannot be replaced by a leaf",
                    );
                } else {
                    let xid: u64 = row.snapshot_xid;
                    let current_source_path = row.source_path.clone();
                    let item = WorkItem {
                        row,
                        target,
                        current_source_path,
                        primary: true,
                        attempts: Vec::new(),
                    };
                    proof {
                        assert(attempt_views(item.attempts@) =~= Seq::empty());
                        assert(item@ == Self::work_on(row@, target@));
                        lemma_queued_counts(before.queue, xid, item@);
                        lemma_queue_can_fall_back(before.queue, xid, item@, *self.opts);
                    }
                    enqueue(&mut run.queue, xid, item);
                }
            },
        }
    }

    /// Why a row cannot be worked on, whatever its target, if it cannot: a code and a
    /// message.
    pub open spec fn row_error(&self, row: RowView) -> Option<(Seq<char>, Seq<char>)> {
        if !self.snapshots@.contains_key(row.snapshot_xid) {
            Some(
                (
                    ErrorKind::ObjectNotFound.spec_code(),
                    "manifest references unknown snapshot xid "@ + hex_prefixed(
                        row.snapshot_xid as nat,
                    ),
                ),
            )
        } else {
            let actual = self.snapshots@[row.snapshot_xid].name@;
            match row.snapshot_name {
                Some(name) => if name != actual {
                    Some(
                        (
                            "corrupt"@,
                            "manifest snapshot_name `"@ + name + "` does not match xid "@
                                + hex_prefixed(row.snapshot_xid as nat) + " (`"@ + actual + "`)"@,
                        ),
                    )
                } else {
                    None
                },
                None => None,
            }
        }
    }

    /// A row with the name of its snapshot.
    pub open spec fn with_name(&self, row: RowView) -> RowView {
        RowView { snapshot_name: Some(self.snapshots@[row.snapshot_xid].name@), ..row }
    }

    /// Admitting a row led from `before` and the claimed targets `taken` to `after`
    /// and `taken_after`, before anything of it was written out.
    pub open spec fn row_judged(
        &self,
        row: RowView,
        taken: Set<Seq<char>>,
        taken_after: Set<Seq<char>>,
        before: RunView,
        after: RunView,
    ) -> bool {
        match self.row_error(row) {
            Some((code, message)) => {
                &&& taken_after == taken
                &&& after == Self::row_refused(before, row, code, message)
            },
            None => self.row_placed(row, taken, taken_after, before, after),
        }
    }

    /// Admitting a row that can be worked on led from `before` and the claimed targets
    /// `taken` to `after` and `taken_after`: its target is sought.
    pub open spec fn row_placed(
        &self,
        row: RowView,
        taken: Set<Seq<char>>,
        taken_after: Set<Seq<char>>,
        before: RunView,
        after: RunView,
    ) -> bool {
        let named = self.with_name(row);
        exists|found: Result<String, Error>, mid: Seq<Event>| #[trigger]
            walked(
                components_of(row.output_relative_path),
                0,
                self.root@,
                self.opts.dry_run,
                before.log,
                mid,
                found,
            ) && match found {
                Err(error) => {
                    &&& taken_after == taken
                    &&& after == Self::row_refused(
                        RunView { log: mid, ..before },
                        named,
                        error@.kind.spec_code(),
                        error@.message,
                    )
                },
                Ok(target) => if taken.contains(target@) {
                    &&& taken_after == taken
                    &&& after == Self::row_refused(
                        RunView { log: mid, ..before },
                        named,
                        "usage"@,
                        "duplicate output_relative_path resolves to the same target"@,
                    )
                } else {
                    &&& taken_after == taken.insert(target@)
                    &&& self.target_judged(
                        named,
                        target@,
                        RunView { log: mid, ..before },
                        after,
                    )
                },
            }
    }

    /// Admitting a row whose target is free of other rows led from `before` to
    /// `after`: what stands at the target is asked.
    pub open spec fn target_judged(
        &self,
        row: RowView,
        target: Seq<char>,
        before: RunView,
        after: RunView,
    ) -> bool {
        exists|standing: Result<Standing, Error>, mid: Seq<Event>| #[trigger]
            did(before.log, Event::Standing { path: target, reply: standing }, mid) && after
                == self.target_admitted(row, target, standing, RunView { log: mid, ..before })
    }
}

proof fn lemma_queue_can_fall_back(
    queue: Map<u64, Seq<WorkView>>,
    xid: u64,
    item: WorkView,
    opts: Options,
)
    requires
        can_fall_back(queue, opts),
        opts.fallback_history ==> item.row.relative_path is Some,
    ensures
        can_fall_back(queued(queue, xid, item), opts),
{
    let after = queued(queue, xid, item);
    if opts.fallback_history {
        assert forall|k: u64, i: int| after.contains_key(k) && 0 <= i < after[k].len() implies (
        #[trigger] after[k][i]).row.relative_path is Some by {
            if k != xid || (queue.contains_key(xid) && i < queue[xid].len()) {
                assert(after[k][i] == queue[k][i]);
            }
        }
    }
}

impl<'a, D: ApfsImage, S: SnapshotSource<D>, C: Codec> Runner<'a, D, S, C> {
    fn check_row(&self, row: &ManifestRow) -> (r: Option<(&'static str, String)>)
        ensures
            match self.row_error(row@) {
                Some((code, message)) => r matches Some((c, m)) && c@ == code && m@ == message,
                None => r is None,
            },
    {
        match self.snapshots.get(row.snapshot_xid) {
            None => {
                let mut message = "manifest references unknown snapshot xid ".to_owned();
                push_hex(&mut message, row.snapshot_xid);
                Some((ErrorKind::ObjectNotFound.code(), message))
            },
            Some(snapshot) => match &row.snapshot_name {
                None => None,
                Some(name) => {
                    if str_eq(name.as_str(), snapshot.name.as_str()) {
                        None
                    } else {
                        let mut message = "manifest snapshot_name `".to_owned();
                        message.append(name.as_str());
                        message.append("` does not match xid ");
                        push_hex(&mut message, row.snapshot_xid);
                        message.append(" (`");
                        message.append(snapshot.name.as_str());
                        message.append("`)");
                        Some(("corrupt", message))
                    }
                },
            },
        }
    }

    fn judge_row<O: Destination>(
        &self,
        dest: &mut Journal<O>,
        row: ManifestRow,
        taken: &mut StringHashSet,
        run: &mut Run,
    )
        requires
            old(run).summary.well_formed(),
            in_hand(old(run).with_log(old(dest)@)) < u64::MAX,
            waiting(old(run).with_log(old(dest)@).queue) >= 0,
            can_fall_back(old(run).with_log(old(dest)@).queue, *self.opts),
            self.opts.fallback_history ==> row.relative_path is Some,
        ensures
            final(dest).dest() == old(dest).dest(),
            self.row_judged(
                row@,
                old(taken)@,
                final(taken)@,
                old(run).with_log(old(dest)@),
                final(run).with_log(final(dest)@),
            ),
            final(run).summary.well_formed(),
            in_hand(final(run).with_log(final(dest)@)) == in_hand(old(run).with_log(old(dest)@)) + 1,
            waiting(final(run).with_log(final(dest)@).queue) >= 0,
            can_fall_back(final(run).with_log(final(dest)@).queue, *self.opts),
    {
        match self.check_row(&row) {
            Some((code, message)) => {
                self.refuse_row(run, &row, code, message.as_str());
                return ;
            },
            None => {},
        }
        let mut row = row;
        match self.snapshots.get(row.snapshot_xid) {
            Some(snapshot) => {
                row.snapshot_name = Some(snapshot.name.clone());
            },
            None => {},
        }
        let ghost before = run.with_log(dest@);
        let found = secure_target(
            dest,
            self.root,
            row.output_relative_path.as_str(),
            self.opts.dry_run,
        );
        let ghost given = found;
        let ghost sought = RunView { log: dest@, ..before };
        proof {
            assert(walked(
                components_of(row@.output_relative_path),
                0,
                self.root@,
                self.opts.dry_run,
                before.log,
                dest@,
                given,
            ));
            assert(run.with_log(dest@) == sought);
        }
        match found {
            Err(error) => {
                self.refuse_row(run, &row, error.kind().code(), error.text().as_str());
            },
            Ok(target) => {
                let ghost claimed = taken@;
                if !taken.insert(target.clone()) {
                    proof {
                        assert(taken@ =~= claimed);
                    }
                    self.refuse_row(
                        run,
                        &row,
                        "usage",
                        "duplicate output_relative_path resolves to the same target",
                    );
                    return ;
                }
                let standing = dest.standing(target.as_str());
                let ghost seen = standing;
                let ghost place = target@;
                let ghost named = row@;
                proof {
                    assert(did(
                        sought.log,
                        Event::Standing { path: place, reply: seen },
                        dest@,
                    ));
                    assert(run.with_log(dest@) == RunView { log: dest@, ..sought });
                }
                self.admit_target(row, target, standing, run);
                proof {
                    assert(self.target_judged(named, place, sought, run.with_log(dest@)));
                }
            },
        }
    }

    /// Admitting the rows from `i` on, one after the other, led from `before` to
    /// `after`.
    pub open spec fn rows_admitted(
        &self,
        rows: Seq<RowView>,
        i: int,
        taken: Set<Seq<char>>,
        before: RunView,
        after: RunView,
        r: Result<(), Error>,
    ) -> bool
        decreases rows.len() - i,
    {
        if !(0 <= i < rows.len()) {
            after == before && r is Ok
        } else {
            exists|taken_after: Set<Seq<char>>, judged: RunView, mid: RunView, sent: Result<(), Error>|
                {
                    &&& #[trigger] self.row_judged(rows[i], taken, taken_after, before, judged)
                    &&& #[trigger] self.flushed(judged, mid, sent)
                    &&& match sent {
                        Err(error) => after == mid && is_failed(r, error@),
                        Ok(_) => self.rows_admitted(rows, i + 1, taken_after, mid, after, r),
                    }
                }
        }
    }

    fn admit_rows<O: Destination>(
        &self,
        dest: &mut Journal<O>,
        rows: Vec<ManifestRow>,
        run: &mut Run,
    ) -> (r: Result<(), Error>)
        requires
            old(run).summary.well_formed(),
            old(run).output@ == Seq::<char>::empty(),
            waiting(old(run).with_log(old(dest)@).queue) >= 0,
            in_hand(old(run).with_log(old(dest)@)) + rows@.len() <= u64::MAX,
            can_fall_back(old(run).with_log(old(dest)@).queue, *self.opts),
            self.opts.fallback_history ==> forall|i: int|
                0 <= i < rows@.len() ==> (#[trigger] rows@[i]).relative_path is Some,
        ensures
            final(dest).dest() == old(dest).dest(),
            self.rows_admitted(
                row_views(rows@),
                0,
                Set::empty(),
                old(run).with_log(old(dest)@),
                final(run).with_log(final(dest)@),
                r,
            ),
            final(run).summary.well_formed(),
            r is Ok ==> {
                &&& final(run).output@ == Seq::<char>::empty()
                &&& waiting(final(run).with_log(final(dest)@).queue) >= 0
                &&& in_hand(final(run).with_log(final(dest)@)) == in_hand(old(run).with_log(old(dest)@)) + rows@.len()
                &&& can_fall_back(final(run).with_log(final(dest)@).queue, *self.opts)
            },
    {
        let ghost list = rows@;
        let ghost views = row_views(rows@);
        let ghost before = run.with_log(dest@);
        let mut taken = StringHashSet::new();
        let count: usize = rows.len();
        let mut i: usize = 0;
        for row in it: rows.into_iter()
            invariant
                dest.dest() == old(dest).dest(),
                it.seq() == list,
                i == it.index(),
                views == row_views(list),
                before == old(run).with_log(old(dest)@),
                run.summary.well_formed(),
                run.output@ == Seq::<char>::empty(),
                waiting(run.with_log(dest@).queue) >= 0,
                in_hand(run.with_log(dest@)) == in_hand(before) + i,
                in_hand(before) + list.len() <= u64::MAX,
                can_fall_back(run.with_log(dest@).queue, *self.opts),
                count == list.len(),
                self.opts.fallback_history ==> forall|i: int|
                    0 <= i < list.len() ==> (#[trigger] list[i]).relative_path is Some,
                forall|after: RunView, r: Result<(), Error>|
                    self.rows_admitted(views, i as int, taken@, run.with_log(dest@), after, r)
                        ==> #[trigger] self.rows_admitted(
                        views,
                        0,
                        Set::empty(),
                        before,
                        after,
                        r,
                    ),
        {
            let ghost start = run.with_log(dest@);
            let ghost claimed = taken@;
            proof {
                assert(row == list[i as int]);
                assert(views[i as int] == row@);
            }
            self.judge_row(dest, row, &mut taken, run);
            let ghost judged = run.with_log(dest@);
            let sent = self.flush(dest, run);
            let ghost reply = sent;
            proof {
                assert(self.row_judged(views[i as int], claimed, taken@, start, judged));
                assert(self.flushed(judged, run.with_log(dest@), reply));
                assert forall|after: RunView, r: Result<(), Error>|
                    reply is Ok && self.rows_admitted(
                        views,
                        i + 1,
                        taken@,
                        run.with_log(dest@),
                        after,
                        r,
                    ) implies #[trigger] self.rows_admitted(
                    views,
                    0,
                    Set::empty(),
                    before,
                    after,
                    r,
                ) by {
                    assert(self.rows_admitted(views, i as int, claimed, start, after, r));
                }
            }
            match sent {
                Err(error) => {
                    proof {
                        let r: Result<(), Error> = Err(error);
                        assert(self.rows_admitted(views, i as int, claimed, start, run.with_log(dest@), r));
                        assert(self.rows_admitted(views, 0, Set::empty(), before, run.with_log(dest@), r));
                    }
                    return Err(error);
                },
                Ok(_) => {},
            }
            proof {
                assert(i < count);
            }
            i += 1;
        }
        proof {
            let r: Result<(), Error> = Ok(());
            assert(self.rows_admitted(views, i as int, taken@, run.with_log(dest@), run.with_log(dest@), r));
            assert(self.rows_admitted(views, 0, Set::empty(), before, run.with_log(dest@), r));
        }
        Ok(())
    }
}

// ---------------------------------------------------------------------------
// Work
// ---------------------------------------------------------------------------

/// The number of the next attempt on a row.
pub open spec fn attempt_number(item: WorkView) -> u64 {
    (item.attempts.len() as u64).wrapping_add(1)
}

/// A row with one more attempt.
pub open spec fn after_attempt(item: WorkView, attempt: AttemptView) -> WorkView {
    WorkView { attempts: item.attempts.push(attempt), ..item }
}

/// The error of a snapshot that is not known.
pub open spec fn unknown_snapshot(xid: u64) -> ErrorView {
    failure(
        ErrorKind::ObjectNotFound,
        "manifest references unknown snapshot xid "@ + hex_prefixed(xid as nat),
    )
}

proof fn lemma_finished(
    before: RunView,
    item: WorkView,
    current: u64,
    snapshots: Map<u64, SnapshotInfo>,
    opts: Options,
)
    requires
        before.summary.rows < u64::MAX,
        before.summary.well_formed(),
        waiting(before.queue) >= 0,
        can_fall_back(before.queue, opts),
        opts.fallback_history ==> item.row.relative_path is Some,
        forall|k: u64| #[trigger] before.queue.contains_key(k) ==> k < current,
    ensures
        ({
            let after = finished(before, item, current, snapshots, opts);
            &&& in_hand(after) == in_hand(before) + 1
            &&& waiting(after.queue) >= 0
            &&& can_fall_back(after.queue, opts)
            &&& forall|k: u64| #[trigger] after.queue.contains_key(k) ==> k < current
        }),
{
    match next_snapshot(item.attempts, current, snapshots.dom(), opts.fallback_history) {
        Some(older) => {
            assert(is_newest_before(snapshots.dom(), current, older));
            let row = rescheduled(item, opts.path_template->Some_0@, snapshots[older].name@);
            lemma_queued_counts(before.queue, older, row);
            lemma_queue_can_fall_back(before.queue, older, row, opts);
        },
        None => {},
    }
}

impl<'a, D: ApfsImage, S: SnapshotSource<D>, C: Codec> Runner<'a, D, S, C> {
    /// What the attempts in one snapshot work with.
    pub open spec fn attempting(
        &self,
        xid: u64,
        name: &'a Option<String>,
        vol: &'a Volume<D>,
        bt: &'a D::Reader,
    ) -> Attempting<'a, D, S, C> {
        Attempting {
            source: self.source,
            vol,
            bt,
            codec: self.codec,
            opts: self.opts,
            snapshot_xid: xid,
            snapshot_name: name,
        }
    }

    /// `attempt` is an attempt on `item` in a snapshot whose view is `view`.
    pub open spec fn attempt_given(
        &self,
        xid: u64,
        name: Option<String>,
        view: Result<(Volume<D>, D::Reader), Error>,
        item: WorkView,
        before: LeafState,
        after: LeafState,
        attempt: AttemptView,
    ) -> bool {
        match view {
            Err(error) => {
                &&& after == before
                &&& attempt == failed_attempt(
                    xid,
                    opt_text(name),
                    item.current_source_path,
                    None,
                    error@,
                    true,
                )
            },
            Ok((vol, bt)) => exists|from: &str|
                {
                    &&& from@ == item.current_source_path
                    &&& #[trigger] self.attempting(xid, &name, &vol, &bt).attempted(
                        item.row,
                        item.primary,
                        attempt_number(item),
                        from,
                        item.target,
                        before,
                        after,
                        attempt,
                    )
                },
        }
    }

    fn give_attempt<O: Destination>(
        &self,
        dest: &mut Journal<O>,
        xid: u64,
        name: &Option<String>,
        view: &Result<(Volume<D>, D::Reader), Error>,
        item: &WorkItem,
        links: &mut HardlinkState,
    ) -> (r: Attempt)
        ensures
            final(dest).dest() == old(dest).dest(),
            self.attempt_given(
                xid,
                *name,
                *view,
                item@,
                leaf_state(old(links)@, old(dest)@),
                leaf_state(final(links)@, final(dest)@),
                r@,
            ),
    {
        match view {
            Err(error) => Attempt::error(
                xid,
                copy_opt(name),
                item.current_source_path.clone(),
                error.clone(),
                true,
            ),
            Ok(opened) => {
                let attempting = Attempting {
                    source: self.source,
                    vol: &opened.0,
                    bt: &opened.1,
                    codec: self.codec,
                    opts: self.opts,
                    snapshot_xid: xid,
                    snapshot_name: name,
                };
                let number: u64 = (item.attempts.len() as u64).wrapping_add(1);
                let from = item.current_source_path.as_str();
                let to = item.target.as_str();
                let attempt = attempting.recover_attempt(
                    dest,
                    &item.row,
                    item.primary,
                    number,
                    from,
                    to,
                    links,
                );
                proof {
                    assert(number == attempt_number(item@));
                    assert(attempting == self.attempting(xid, name, &opened.0, &opened.1));
                    assert(self.attempting(xid, name, &opened.0, &opened.1).attempted(
                        item@.row,
                        item@.primary,
                        attempt_number(item@),
                        from,
                        item@.target,
                        leaf_state(old(links)@, old(dest)@),
                        leaf_state(links@, dest@),
                        attempt@,
                    ));
                }
                attempt
            },
        }
    }

    /// The work from `i` on was done in one snapshot, which led from `before` to
    /// `after`.
    pub open spec fn items_worked(
        &self,
        xid: u64,
        name: Option<String>,
        view: Result<(Volume<D>, D::Reader), Error>,
        items: Seq<WorkView>,
        i: int,
        links: Map<u64, Seq<char>>,
        before: RunView,
        after: RunView,
        r: Result<(), Error>,
    ) -> bool
        decreases items.len() - i,
    {
        if !(0 <= i < items.len()) {
            after == before && r is Ok
        } else {
            exists|tried: LeafState, attempt: AttemptView, mid: RunView, sent: Result<(), Error>|
                {
                    &&& #[trigger] self.attempt_given(
                        xid,
                        name,
                        view,
                        items[i],
                        leaf_state(links, before.log),
                        tried,
                        attempt,
                    )
                    &&& #[trigger] self.flushed(
                        finished(
                            RunView { log: tried.log, ..before },
                            after_attempt(items[i], attempt),
                            xid,
                            self.snapshots@,
                            *self.opts,
                        ),
                        mid,
                        sent,
                    )
                    &&& match sent {
                        Err(error) => after == mid && is_failed(r, error@),
                        Ok(_) => self.items_worked(
                            xid,
                            name,
                            view,
                            items,
                            i + 1,
                            tried.links,
                            mid,
                            after,
                            r,
                        ),
                    }
                }
        }
    }
}

impl<'a, D: ApfsImage, S: SnapshotSource<D>, C: Codec> Runner<'a, D, S, C> {
    fn work_on_items<O: Destination>(
        &self,
        dest: &mut Journal<O>,
        xid: u64,
        name: &Option<String>,
        view: &Result<(Volume<D>, D::Reader), Error>,
        work: Vec<WorkItem>,
        run: &mut Run,
    ) -> (r: Result<(), Error>)
        requires
            self.well_formed(),
            old(run).summary.well_formed(),
            old(run).output@ == Seq::<char>::empty(),
            waiting(old(run).with_log(old(dest)@).queue) >= 0,
            in_hand(old(run).with_log(old(dest)@)) + work@.len() <= u64::MAX,
            can_fall_back(old(run).with_log(old(dest)@).queue, *self.opts),
            self.opts.fallback_history ==> forall|i: int|
                0 <= i < work@.len() ==> (#[trigger] work@[i]).row.relative_path is Some,
            forall|k: u64| #[trigger] old(run).with_log(old(dest)@).queue.contains_key(k) ==> k < xid,
        ensures
            final(dest).dest() == old(dest).dest(),
            self.items_worked(
                xid,
                *name,
                *view,
                work_views(work@),
                0,
                Map::empty(),
                old(run).with_log(old(dest)@),
                final(run).with_log(final(dest)@),
                r,
            ),
            final(run).summary.well_formed(),
            r is Ok ==> {
                &&& final(run).output@ == Seq::<char>::empty()
                &&& waiting(final(run).with_log(final(dest)@).queue) >= 0
                &&& in_hand(final(run).with_log(final(dest)@)) == in_hand(old(run).with_log(old(dest)@)) + work@.len()
                &&& can_fall_back(final(run).with_log(final(dest)@).queue, *self.opts)
                &&& forall|k: u64| #[trigger] final(run).with_log(final(dest)@).queue.contains_key(k) ==> k < xid
            },
    {
        let ghost list = work@;
        let ghost views = work_views(work@);
        let ghost before = run.with_log(dest@);
        let mut links = HardlinkState::new();
        let count: usize = work.len();
        let mut i: usize = 0;
        for item in it: work.into_iter()
            invariant
                dest.dest() == old(dest).dest(),
                self.well_formed(),
                it.seq() == list,
                i == it.index(),
                count == list.len(),
                views == work_views(list),
                before == old(run).with_log(old(dest)@),
                run.summary.well_formed(),
                run.output@ == Seq::<char>::empty(),
                waiting(run.with_log(dest@).queue) >= 0,
                in_hand(run.with_log(dest@)) == in_hand(before) + i,
                in_hand(before) + list.len() <= u64::MAX,
                can_fall_back(run.with_log(dest@).queue, *self.opts),
                self.opts.fallback_history ==> forall|i: int|
                    0 <= i < list.len() ==> (#[trigger] list[i]).row.relative_path is Some,
                forall|k: u64| #[trigger] run.with_log(dest@).queue.contains_key(k) ==> k < xid,
                forall|after: RunView, r: Result<(), Error>|
                    self.items_worked(
                        xid,
                        *name,
                        *view,
                        views,
                        i as int,
                        links@,
                        run.with_log(dest@),
                        after,
                        r,
                    ) ==> #[trigger] self.items_worked(
                        xid,
                        *name,
                        *view,
                        views,
                        0,
                        Map::empty(),
                        before,
                        after,
                        r,
                    ),
        {
            let ghost start = run.with_log(dest@);
            let ghost known = links@;
            proof {
                assert(item == list[i as int]);
                assert(views[i as int] == item@);
                assert(i < count);
            }
            let mut item = item;
            let ghost row = item@;
            let attempt = self.give_attempt(dest, xid, name, view, &item, &mut links);
            let ghost made = attempt@;
            let ghost tried = leaf_state(links@, dest@);
            let ghost there = RunView { log: tried.log, ..start };
            proof {
                assert(run.with_log(dest@) == there);
            }
            item.attempts.push(attempt);
            proof {
                assert(item@.attempts =~= row.attempts.push(made));
                assert(item@ == after_attempt(row, made));
                lemma_finished(there, item@, xid, self.snapshots@, *self.opts);
            }
            finish_or_reschedule(
                item,
                xid,
                self.snapshots,
                self.opts,
                &mut run.queue,
                &mut run.output,
                &mut run.summary,
            );
            let ghost told = run.with_log(dest@);
            let sent = self.flush(dest, run);
            let ghost reply = sent;
            proof {
                assert(told == finished(
                    there,
                    after_attempt(views[i as int], made),
                    xid,
                    self.snapshots@,
                    *self.opts,
                ));
                assert(self.attempt_given(
                    xid,
                    *name,
                    *view,
                    views[i as int],
                    leaf_state(known, start.log),
                    tried,
                    made,
                ));
                assert(self.flushed(told, run.with_log(dest@), reply));
                assert forall|after: RunView, r: Result<(), Error>|
                    reply is Ok && self.items_worked(
                        xid,
                        *name,
                        *view,
                        views,
                        i + 1,
                        links@,
                        run.with_log(dest@),
                        after,
                        r,
                    ) implies #[trigger] self.items_worked(
                    xid,
                    *name,
                    *view,
                    views,
                    0,
                    Map::empty(),
                    before,
                    after,
                    r,
                ) by {
                    assert(self.items_worked(
                        xid,
                        *name,
                        *view,
                        views,
                        i as int,
                        known,
                        start,
                        after,
                        r,
                    ));
                }
            }
            match sent {
                Err(error) => {
                    proof {
                        let r: Result<(), Error> = Err(error);
                        assert(self.items_worked(
                            xid,
                            *name,
                            *view,
                            views,
                            i as int,
                            known,
                            start,
                            run.with_log(dest@),
                            r,
                        ));
                        assert(self.items_worked(
                            xid,
                            *name,
                            *view,
                            views,
                            0,
                            Map::empty(),
                            before,
                            run.with_log(dest@),
                            r,
                        ));
                    }
                    return Err(error);
                },
                Ok(_) => {},
            }
            i += 1;
        }
        proof {
            let r: Result<(), Error> = Ok(());
            assert(self.items_worked(
                xid,
                *name,
                *view,
                views,
                i as int,
                links@,
                run.with_log(dest@),
                run.with_log(dest@),
                r,
            ));
            assert(self.items_worked(
                xid,
                *name,
                *view,
                views,
                0,
                Map::empty(),
                before,
                run.with_log(dest@),
                r,
            ));
        }
        Ok(())
    }
}

/// What a person is told when the work on snapshot `xid` begins.
pub open spec fn attempts_line(xid: u64, attempts: nat) -> Seq<char> {
    "recover-manifest: snapshot xid="@ + hex_prefixed(xid as nat) + " attempts="@ + dec(attempts)
}

/// What a person is told of the warnings that snapshot `xid` gave.
pub open spec fn warning_lines(
    xid: u64,
    what: Seq<char>,
    warnings: Seq<Seq<char>>,
) -> Seq<Seq<char>> {
    Seq::new(
        warnings.len(),
        |i: int|
            "recover-manifest: snapshot xid="@ + hex_prefixed(xid as nat) + what + warnings[i],
    )
}

impl<'a, D: ApfsImage, S: SnapshotSource<D>, C: Codec> Runner<'a, D, S, C> {
    /// `view` is what opening snapshot `xid` gives.
    pub open spec fn view_opened(
        &self,
        xid: u64,
        view: Result<(Volume<D>, D::Reader), Error>,
    ) -> bool {
        if !self.snapshots@.contains_key(xid) {
            is_failed(view, unknown_snapshot(xid))
        } else {
            exists|opened: Result<Volume<D>, Error>| #[trigger]
                call_ensures(
                    S::open_snapshot,
                    (self.source, &self.snapshots@[xid]),
                    opened,
                ) && match opened {
                    Err(error) => is_failed(view, error@),
                    Ok(vol) => view matches Ok((seen, bt)) && seen == vol && call_ensures(
                        D::tree_reader,
                        (&vol.dev, vol.block_size),
                        bt,
                    ),
                }
        }
    }

    fn open_view(&self, xid: u64) -> (r: Result<(Volume<D>, D::Reader), Error>)
        ensures
            self.view_opened(xid, r),
    {
        match self.snapshots.get(xid) {
            None => {
                let mut message = "manifest references unknown snapshot xid ".to_owned();
                push_hex(&mut message, xid);
                Err(Error::new(ErrorKind::ObjectNotFound, message))
            },
            Some(snapshot) => {
                let opened = self.source.open_snapshot(snapshot);
                let ghost given = opened;
                proof {
                    assert(call_ensures(S::open_snapshot, (self.source, snapshot), given));
                }
                match opened {
                    Err(error) => Err(error),
                    Ok(vol) => {
                        let bt = vol.btree();
                        Ok((vol, bt))
                    },
                }
            },
        }
    }

    /// The name of snapshot `xid`, if it is known.
    pub open spec fn snapshot_name(&self, xid: u64) -> Option<Seq<char>> {
        if self.snapshots@.contains_key(xid) {
            Some(self.snapshots@[xid].name@)
        } else {
            None
        }
    }

    fn name_of(&self, xid: u64) -> (r: Option<String>)
        ensures
            opt_text(r) == self.snapshot_name(xid),
    {
        match self.snapshots.get(xid) {
            Some(snapshot) => Some(snapshot.name.clone()),
            None => None,
        }
    }

    /// The journal `log`, once a person was told that the work on snapshot `xid` begins
    /// and of what opening it warned.
    pub open spec fn opening_told(
        xid: u64,
        attempts: nat,
        view: Result<(Volume<D>, D::Reader), Error>,
        log: Seq<Event>,
    ) -> Seq<Event> {
        let begun = log.push(Event::Notice { text: attempts_line(xid, attempts) });
        match view {
            Err(_) => begun,
            Ok((vol, _)) => begun + notices(
                warning_lines(xid, " warning: "@, texts(vol.warnings@)),
            ),
        }
    }

    /// What follows the work on snapshot `xid`: where all of it was done, a person is told
    /// of what the reader of its tree warned.
    pub open spec fn closing_told(
        xid: u64,
        view: Result<(Volume<D>, D::Reader), Error>,
        r: Result<(), Error>,
        before: RunView,
        after: RunView,
    ) -> bool {
        match (view, r) {
            (Ok((_, bt)), Ok(_)) => exists|warnings: Vec<String>| #[trigger]
                call_ensures(D::Reader::take_warnings, (&bt,), warnings) && after == (RunView {
                    log: before.log + notices(
                        warning_lines(xid, " btree warning: "@, texts(warnings@)),
                    ),
                    ..before
                }),
            _ => after == before,
        }
    }

    /// The work on snapshot `xid`, which is `items`, was done, which led from `before` to
    /// `after`.
    pub open spec fn work_done(
        &self,
        xid: u64,
        name: Option<String>,
        view: Result<(Volume<D>, D::Reader), Error>,
        items: Seq<WorkView>,
        before: RunView,
        after: RunView,
        r: Result<(), Error>,
    ) -> bool {
        exists|mid: RunView| #[trigger]
            self.items_worked(
                xid,
                name,
                view,
                items,
                0,
                Map::empty(),
                RunView { log: Self::opening_told(xid, items.len(), view, before.log), ..before },
                mid,
                r,
            ) && Self::closing_told(xid, view, r, mid, after)
    }

    /// The work of the newest snapshot for which work waits was done, which led from
    /// `before` to `after`.
    pub open spec fn snapshot_worked(
        &self,
        xid: u64,
        before: RunView,
        after: RunView,
        r: Result<(), Error>,
    ) -> bool {
        &&& before.queue.contains_key(xid)
        &&& forall|k: u64| #[trigger] before.queue.contains_key(k) ==> k <= xid
        &&& exists|view: Result<(Volume<D>, D::Reader), Error>, name: Option<String>|
            {
                &&& opt_text(name) == self.snapshot_name(xid)
                &&& #[trigger] self.view_opened(xid, view)
                &&& #[trigger] self.work_done(
                    xid,
                    name,
                    view,
                    before.queue[xid],
                    RunView { queue: before.queue.remove(xid), ..before },
                    after,
                    r,
                )
            }
    }

    /// `trace` is how a run went, from `before` on, one snapshot at a time.
    pub open spec fn is_trace(&self, before: RunView, trace: Seq<RunView>, xids: Seq<u64>) -> bool {
        &&& trace.len() == xids.len() + 1
        &&& trace[0] == before
        &&& forall|i: int|
            0 <= i < xids.len() ==> self.snapshot_worked(
                #[trigger] xids[i],
                trace[i],
                trace[i + 1],
                Ok(()),
            )
    }

    /// All work that waited was done, which led from `before` to `after`.
    pub open spec fn all_worked(&self, before: RunView, after: RunView, r: Result<(), Error>) -> bool {
        exists|trace: Seq<RunView>, xids: Seq<u64>| #[trigger]
            self.is_trace(before, trace, xids) && match r {
                Ok(_) => after == trace.last() && forall|k: u64|
                    !#[trigger] after.queue.contains_key(k),
                Err(error) => exists|xid: u64, done: Result<(), Error>| #[trigger]
                    self.snapshot_worked(xid, trace.last(), after, done) && is_failed(
                        done,
                        error@,
                    ),
            }
    }

    fn announce<O: Destination>(&self, dest: &mut Journal<O>, xid: u64, attempts: usize)
        ensures
            final(dest).dest() == old(dest).dest(),
            did(
                old(dest)@,
                Event::Notice { text: attempts_line(xid, attempts as nat) },
                final(dest)@,
            ),
    {
        let mut text = "recover-manifest: snapshot xid=".to_owned();
        push_hex(&mut text, xid);
        text.append(" attempts=");
        push_dec_len(&mut text, attempts);
        dest.notice(text.as_str());
    }

    fn warn<O: Destination>(
        &self,
        dest: &mut Journal<O>,
        xid: u64,
        what: &str,
        warnings: &Vec<String>,
    )
        ensures
            final(dest).dest() == old(dest).dest(),
            final(dest)@ == old(dest)@ + notices(warning_lines(xid, what@, texts(warnings@))),
    {
        let ghost lines = warning_lines(xid, what@, texts(warnings@));
        let mut i: usize = 0;
        while i < warnings.len()
            invariant
                i <= warnings@.len(),
                dest.dest() == old(dest).dest(),
                lines == warning_lines(xid, what@, texts(warnings@)),
                dest@ =~= old(dest)@ + notices(lines.take(i as int)),
            decreases warnings@.len() - i,
        {
            let mut text = "recover-manifest: snapshot xid=".to_owned();
            push_hex(&mut text, xid);
            text.append(what);
            text.append(warnings[i].as_str());
            proof {
                assert(text@ =~= lines[i as int]);
            }
            dest.notice(text.as_str());
            i += 1;
        }
        proof {
            assert(lines.take(i as int) =~= lines);
        }
    }

    fn work_on_snapshot<O: Destination>(&self, dest: &mut Journal<O>, xid: u64, work: Vec<WorkItem>, run: &mut Run) -> (r: Result<
        (),
        Error,
    >)
        requires
            self.well_formed(),
            old(run).summary.well_formed(),
            old(run).output@ == Seq::<char>::empty(),
            waiting(old(run).with_log(old(dest)@).queue) >= 0,
            in_hand(old(run).with_log(old(dest)@)) + work@.len() <= u64::MAX,
            can_fall_back(old(run).with_log(old(dest)@).queue, *self.opts),
            self.opts.fallback_history ==> forall|i: int|
                0 <= i < work@.len() ==> (#[trigger] work@[i]).row.relative_path is Some,
            forall|k: u64| #[trigger] old(run).with_log(old(dest)@).queue.contains_key(k) ==> k < xid,
        ensures
            final(dest).dest() == old(dest).dest(),
            exists|view: Result<(Volume<D>, D::Reader), Error>, name: Option<String>|
                {
                    &&& opt_text(name) == self.snapshot_name(xid)
                    &&& #[trigger] self.view_opened(xid, view)
                    &&& #[trigger] self.work_done(
                        xid,
                        name,
                        view,
                        work_views(work@),
                        old(run).with_log(old(dest)@),
                        final(run).with_log(final(dest)@),
                        r,
                    )
                },
            final(run).summary.well_formed(),
            r is Ok ==> {
                &&& final(run).output@ == Seq::<char>::empty()
                &&& waiting(final(run).with_log(final(dest)@).queue) >= 0
                &&& in_hand(final(run).with_log(final(dest)@)) == in_hand(old(run).with_log(old(dest)@)) + work@.len()
                &&& can_fall_back(final(run).with_log(final(dest)@).queue, *self.opts)
                &&& forall|k: u64| #[trigger] final(run).with_log(final(dest)@).queue.contains_key(k) ==> k < xid
            },
    {
        let ghost before = run.with_log(dest@);
        let ghost items = work_views(work@);
        self.announce(dest, xid, work.len());
        let name = self.name_of(xid);
        let view = self.open_view(xid);
        match &view {
            Ok(opened) => self.warn(dest, xid, " warning: ", &opened.0.warnings),
            Err(_) => {},
        }
        let ghost begun = run.with_log(dest@);
        proof {
            assert(begun == RunView {
                log: Self::opening_told(xid, items.len(), view, before.log),
                ..before
            });
        }
        let r = self.work_on_items(dest, xid, &name, &view, work, run);
        let ghost mid = run.with_log(dest@);
        proof {
            assert(self.view_opened(xid, view));
            assert(self.items_worked(
                xid,
                name,
                view,
                items,
                0,
                Map::empty(),
                begun,
                mid,
                r,
            ));
        }
        match (&view, &r) {
            (Ok(opened), Ok(_)) => {
                let warnings = opened.1.take_warnings();
                self.warn(dest, xid, " btree warning: ", &warnings);
                proof {
                    assert(call_ensures(D::Reader::take_warnings, (&opened.1,), warnings));
                    assert(Self::closing_told(xid, view, r, mid, run.with_log(dest@)));
                }
            },
            _ => {},
        }
        proof {
            assert(self.work_done(xid, name, view, items, before, run.with_log(dest@), r));
        }
        r
    }

    fn work_through<O: Destination>(
        &self,
        dest: &mut Journal<O>,
        run: &mut Run,
    ) -> (r: Result<(), Error>)
        requires
            self.well_formed(),
            old(run).summary.well_formed(),
            old(run).output@ == Seq::<char>::empty(),
            waiting(old(run).with_log(old(dest)@).queue) >= 0,
            in_hand(old(run).with_log(old(dest)@)) <= u64::MAX,
            can_fall_back(old(run).with_log(old(dest)@).queue, *self.opts),
        ensures
            final(dest).dest() == old(dest).dest(),
            self.all_worked(old(run).with_log(old(dest)@), final(run).with_log(final(dest)@), r),
            final(run).summary.well_formed(),
            r is Ok ==> final(run).summary.rows == in_hand(old(run).with_log(old(dest)@)),
    {
        let ghost before = run.with_log(dest@);
        let ghost mut trace: Seq<RunView> = seq![run.with_log(dest@)];
        let ghost mut xids: Seq<u64> = Seq::empty();
        let ghost mut bound: int = 0x1_0000_0000_0000_0000;
        loop
            invariant
                dest.dest() == old(dest).dest(),
                self.well_formed(),
                before == old(run).with_log(old(dest)@),
                run.summary.well_formed(),
                run.output@ == Seq::<char>::empty(),
                waiting(run.with_log(dest@).queue) >= 0,
                in_hand(run.with_log(dest@)) == in_hand(before),
                in_hand(before) <= u64::MAX,
                can_fall_back(run.with_log(dest@).queue, *self.opts),
                self.is_trace(before, trace, xids),
                trace.last() == run.with_log(dest@),
                forall|k: u64| #[trigger] run.with_log(dest@).queue.contains_key(k) ==> k < bound,
            decreases bound,
        {
            let ghost start = run.with_log(dest@);
            let ghost raw = run.queue@;
            let next = run.queue.pop_largest();
            match next {
                None => {
                    proof {
                        assert forall|k: u64| !#[trigger] start.queue.contains_key(k) by {
                            assert(!raw.contains_key(k));
                        }
                        lemma_nothing_waits(start.queue, 0x1_0000_0000_0000_0000);
                        assert(run.with_log(dest@) == start);
                        assert(self.is_trace(before, trace, xids));
                    }
                    return Ok(());
                },
                Some((xid, work)) => {
                    let ghost items = work_views(work@);
                    let ghost rest = RunView { queue: start.queue.remove(xid), ..start };
                    proof {
                        assert(raw.contains_key(xid));
                        assert(start.queue.contains_key(xid));
                        assert(start.queue[xid] == items);
                        assert(queue_view(run.queue@) =~= start.queue.remove(xid));
                        assert(run.with_log(dest@) == rest);
                        lemma_taken_counts(start.queue, xid);
                        assert forall|k: u64| #[trigger] start.queue.contains_key(k) implies k
                            <= xid by {
                            assert(raw.contains_key(k));
                        }
                        assert(can_fall_back(rest.queue, *self.opts)) by {
                            if self.opts.fallback_history {
                                assert forall|k: u64, i: int|
                                    rest.queue.contains_key(k) && 0 <= i
                                        < rest.queue[k].len() implies (
                                #[trigger] rest.queue[k][i]).row.relative_path is Some by {
                                    assert(rest.queue[k][i] == start.queue[k][i]);
                                }
                            }
                        }
                        if self.opts.fallback_history {
                            assert forall|i: int| 0 <= i < work@.len() implies (
                            #[trigger] work@[i]).row.relative_path is Some by {
                                assert(start.queue[xid][i] == work@[i]@);
                            }
                        }
                    }
                    let done = self.work_on_snapshot(dest, xid, work, run);
                    let ghost reply = done;
                    proof {
                        assert(self.snapshot_worked(xid, start, run.with_log(dest@), reply));
                    }
                    match done {
                        Err(error) => {
                            proof {
                                assert(self.snapshot_worked(xid, trace.last(), run.with_log(dest@), reply));
                            }
                            return Err(error);
                        },
                        Ok(ok) => {
                            proof {
                                assert(reply == Ok::<(), Error>(()));
                                let old_trace = trace;
                                let old_xids = xids;
                                trace = trace.push(run.with_log(dest@));
                                xids = xids.push(xid);
                                assert forall|i: int| 0 <= i < xids.len() implies self.snapshot_worked(
                                    #[trigger] xids[i],
                                    trace[i],
                                    trace[i + 1],
                                    Ok(()),
                                ) by {
                                    if i < old_xids.len() {
                                        assert(old_xids[i] == xids[i]);
                                        assert(trace[i] == old_trace[i]);
                                        assert(trace[i + 1] == old_trace[i + 1]);
                                    } else {
                                        assert(trace[i] == old_trace.last());
                                    }
                                }
                                bound = xid as int;
                            }
                        },
                    }
                },
            }
        }
    }
}

// ---------------------------------------------------------------------------
// The whole run
// ---------------------------------------------------------------------------

impl<'a, D: ApfsImage, S: SnapshotSource<D>, C: Codec> Runner<'a, D, S, C> {
    /// A run over all rows came to `r`: invalid rows are reported, the others are
    /// admitted, and then the work is done.
    pub open spec fn rows_recovered(
        &self,
        invalid: Seq<InvalidView>,
        rows: Seq<RowView>,
        at: Seq<Event>,
        to: Seq<Event>,
        r: Result<Summary, Error>,
    ) -> bool {
        exists|reported: RunView, first: Result<(), Error>| #[trigger]
            self.invalid_reported(invalid, 0, fresh_run(at), reported, first) && match first {
                Err(error) => to == reported.log && is_failed(r, error@),
                Ok(_) => self.valid_rows_recovered(reported, rows, to, r),
            }
    }

    /// A run over the valid rows, from `reported` on, came to `r`.
    pub open spec fn valid_rows_recovered(
        &self,
        reported: RunView,
        rows: Seq<RowView>,
        to: Seq<Event>,
        r: Result<Summary, Error>,
    ) -> bool {
        exists|admitted: RunView, second: Result<(), Error>| #[trigger]
            self.rows_admitted(rows, 0, Set::empty(), reported, admitted, second)
                && match second {
                Err(error) => to == admitted.log && is_failed(r, error@),
                Ok(_) => self.admitted_rows_recovered(admitted, to, r),
            }
    }

    /// The work on the rows that were admitted, from `admitted` on, came to `r`.
    pub open spec fn admitted_rows_recovered(
        &self,
        admitted: RunView,
        to: Seq<Event>,
        r: Result<Summary, Error>,
    ) -> bool {
        exists|done: RunView, third: Result<(), Error>| #[trigger]
            self.all_worked(admitted, done, third) && to == done.log && match third {
                Err(error) => is_failed(r, error@),
                Ok(_) => r == Ok::<Summary, Error>(done.summary),
            }
    }

    /// Recovers all rows of a manifest. Each row, valid or not, is counted exactly
    /// once.
    pub fn recover_rows<O: Destination>(
        &self,
        dest: &mut Journal<O>,
        manifest: Manifest,
    ) -> (r: Result<Summary, Error>)
        requires
            self.well_formed(),
            manifest.rows@.len() + manifest.invalid@.len() <= u64::MAX,
            self.opts.fallback_history ==> forall|i: int|
                0 <= i < manifest.rows@.len() ==> (
                #[trigger] manifest.rows@[i]).relative_path is Some,
        ensures
            final(dest).dest() == old(dest).dest(),
            self.rows_recovered(
                invalid_views(manifest.invalid@),
                row_views(manifest.rows@),
                old(dest)@,
                final(dest)@,
                r,
            ),
            r matches Ok(summary) ==> {
                &&& summary.well_formed()
                &&& summary.rows == manifest.rows@.len() + manifest.invalid@.len()
            },
    {
        let mut run = Run::new();
        proof {
            lemma_nothing_waits(run.with_log(dest@).queue, 0x1_0000_0000_0000_0000);
        }
        let first = self.report_invalid(dest, &manifest.invalid, &mut run);
        let ghost reported = run.with_log(dest@);
        let ghost given = first;
        proof {
            assert(self.invalid_reported(
                invalid_views(manifest.invalid@),
                0,
                fresh_run(old(dest)@),
                reported,
                given,
            ));
        }
        match first {
            Err(error) => return Err(error),
            Ok(_) => {},
        }
        proof {
            assert(reported.queue == fresh_run(old(dest)@).queue);
        }
        let ghost rows = row_views(manifest.rows@);
        let second = self.admit_rows(dest, manifest.rows, &mut run);
        let ghost admitted = run.with_log(dest@);
        let ghost reply = second;
        proof {
            assert(self.rows_admitted(rows, 0, Set::empty(), reported, admitted, reply));
        }
        match second {
            Err(error) => {
                let r = Err(error);
                proof {
                    assert(self.valid_rows_recovered(reported, rows, dest@, r));
                }
                return r;
            },
            Ok(_) => {},
        }
        let third = self.work_through(dest, &mut run);
        let ghost last = third;
        proof {
            assert(self.all_worked(admitted, run.with_log(dest@), last));
        }
        let r = match third {
            Err(error) => Err(error),
            Ok(_) => Ok(run.summary),
        };
        proof {
            assert(self.admitted_rows_recovered(admitted, dest@, r));
            assert(self.valid_rows_recovered(reported, rows, dest@, r));
        }
        r
    }
}

/// The manifest and the output root that a run is given, or what is missing.
pub open spec fn paths_given(opts: Options) -> Result<(Seq<char>, Seq<char>), ErrorView> {
    match (opts.manifest, opts.output_root) {
        (None, _) => Err(failure(ErrorKind::Usage, "`--manifest <jsonl>` is required"@)),
        (Some(_), None) => Err(failure(ErrorKind::Usage, "`--output-root <dir>` is required"@)),
        (Some(manifest), Some(root)) => Ok((manifest@, root@)),
    }
}

/// The manifest and the output root that a run is given.
pub fn required_paths(opts: &Options) -> (r: Result<(String, String), Error>)
    ensures
        match paths_given(*opts) {
            Err(error) => is_failed(r, error),
            Ok((manifest, root)) => r matches Ok(paths) && paths.0@ == manifest && paths.1@
                == root,
        },
{
    match (&opts.manifest, &opts.output_root) {
        (None, _) => Err(Error::fixed(ErrorKind::Usage, "`--manifest <jsonl>` is required")),
        (Some(_), None) => Err(
            Error::fixed(ErrorKind::Usage, "`--output-root <dir>` is required"),
        ),
        (Some(manifest), Some(root)) => Ok((manifest.clone(), root.clone())),
    }
}

/// What a person is told before the rows are looked at: of what opening the source and
/// the volume warned.
pub open spec fn source_lines(source: Seq<Seq<char>>, volume: Seq<Seq<char>>) -> Seq<Seq<char>> {
    Seq::new(
        source.len(),
        |i: int| "recover-manifest: source warning: "@ + source[i],
    ) + Seq::new(volume.len(), |i: int| "recover-manifest: volume warning: "@ + volume[i])
}

fn tell<O: Destination>(dest: &mut Journal<O>, what: &str, warnings: &Vec<String>)
    ensures
        final(dest).dest() == old(dest).dest(),
        final(dest)@ == old(dest)@ + notices(
            Seq::new(warnings@.len(), |i: int| what@ + warnings@[i]@),
        ),
{
    let ghost lines = Seq::new(warnings@.len(), |i: int| what@ + warnings@[i]@);
    let mut i: usize = 0;
    while i < warnings.len()
        invariant
            i <= warnings@.len(),
            dest.dest() == old(dest).dest(),
            lines == Seq::new(warnings@.len(), |i: int| what@ + warnings@[i]@),
            dest@ =~= old(dest)@ + notices(lines.take(i as int)),
        decreases warnings@.len() - i,
    {
        let mut text = what.to_owned();
        text.append(warnings[i].as_str());
        proof {
            assert(text@ =~= lines[i as int]);
        }
        dest.notice(text.as_str());
        i += 1;
    }
    proof {
        assert(lines.take(i as int) =~= lines);
    }
}

/// A run that came to `r` led on from `before` to `after`: where it came to its end, a
/// person is told how.
pub open spec fn end_told(
    before: Seq<Event>,
    after: Seq<Event>,
    r: Result<Summary, Error>,
) -> bool {
    match r {
        Ok(summary) => did(before, Event::Notice { text: summary_line(summary) }, after),
        Err(_) => after == before,
    }
}

/// A run with the output root `root` came to `r`, where `snapshots` are the snapshots
/// of the volume.
pub open spec fn run_recovered<D: ApfsImage, S: SnapshotSource<D>, C: Codec>(
    live: &Volume<D>,
    source: &S,
    codec: &C,
    opts: &Options,
    snapshots: Seq<SnapshotInfo>,
    root: Seq<char>,
    manifest: Manifest,
    at: Seq<Event>,
    to: Seq<Event>,
    r: Result<Summary, Error>,
) -> bool {
    exists|place: &str, table: &XidMap<SnapshotInfo>, done: Seq<Event>|
        {
            &&& place@ == root
            &&& table_view(table@) == by_xid(snapshot_views(snapshots))
            &&& end_told(done, to, r)
            &&& #[trigger] (Runner {
                live,
                source,
                codec,
                opts,
                snapshots: table,
                root: place,
            }).rows_recovered(
                invalid_views(manifest.invalid@),
                row_views(manifest.rows@),
                at,
                done,
                r,
            )
        }
}

/// A run came to `r` on a volume, of which `snapshots` are the snapshots. `warnings` are
/// those of opening the source.
pub open spec fn manifest_recovered<D: ApfsImage, S: SnapshotSource<D>, C: Codec>(
    live: &Volume<D>,
    source: &S,
    codec: &C,
    opts: &Options,
    warnings: Seq<String>,
    snapshots: Seq<SnapshotInfo>,
    root: Seq<char>,
    manifest: Manifest,
    at: Seq<Event>,
    to: Seq<Event>,
    r: Result<Summary, Error>,
) -> bool {
    if live.apsb.encrypted && !opts.raw_extents {
        to == at && is_failed(r, encrypted_refused())
    } else {
        exists|prepared: Result<String, Error>, mid: Seq<Event>| #[trigger]
            root_prepared(root, opts.dry_run, at, mid, prepared) && match prepared {
                Err(error) => to == mid && is_failed(r, error@),
                Ok(path) => run_recovered(
                    live,
                    source,
                    codec,
                    opts,
                    snapshots,
                    path@,
                    manifest,
                    mid + notices(source_lines(texts(warnings), texts(live.warnings@))),
                    to,
                    r,
                ),
            }
    }
}

/// Recovers all rows of a manifest to the output root `root`. Nothing is asked of the
/// destination where the volume is encrypted. `warnings` are those of opening the
/// source.
pub fn recover_manifest<D: ApfsImage, S: SnapshotSource<D>, O: Destination, C: Codec>(
    live: &Volume<D>,
    source: &S,
    dest: &mut Journal<O>,
    codec: &C,
    opts: &Options,
    warnings: &Vec<String>,
    snapshots: &Vec<SnapshotInfo>,
    root: &str,
    manifest: Manifest,
) -> (r: Result<Summary, Error>)
    requires
        opts.fallback_history ==> opts.path_template is Some,
        manifest.rows@.len() + manifest.invalid@.len() <= u64::MAX,
        opts.fallback_history ==> forall|i: int|
            0 <= i < manifest.rows@.len() ==> (#[trigger] manifest.rows@[i]).relative_path is Some,
    ensures
        final(dest).dest() == old(dest).dest(),
        manifest_recovered(
            live,
            source,
            codec,
            opts,
            warnings@,
            snapshots@,
            root@,
            manifest,
            old(dest)@,
            final(dest)@,
            r,
        ),
        r matches Ok(summary) ==> {
            &&& summary.well_formed()
            &&& summary.rows == manifest.rows@.len() + manifest.invalid@.len()
        },
{
    match refuse_encrypted(live.apsb.encrypted, opts) {
        Err(error) => return Err(error),
        Ok(_) => {},
    }
    let prepared = prepare_output_root(dest, root, opts.dry_run);
    let ghost given = prepared;
    let ghost mid = dest@;
    proof {
        assert(root_prepared(root@, opts.dry_run, old(dest)@, mid, given));
    }
    let path = match prepared {
        Err(error) => return Err(error),
        Ok(path) => path,
    };
    tell(dest, "recover-manifest: source warning: ", warnings);
    tell(dest, "recover-manifest: volume warning: ", &live.warnings);
    let ghost told = dest@;
    proof {
        let lines = source_lines(texts(warnings@), texts(live.warnings@));
        assert(told =~= mid + notices(lines));
    }
    let table = index_by_xid(snapshots);
    let place = path.as_str();
    let runner = Runner { live, source, codec, opts, snapshots: &table, root: place };
    let ghost whole = manifest;
    let ghost invalid = invalid_views(manifest.invalid@);
    let ghost rows = row_views(manifest.rows@);
    let r = runner.recover_rows(dest, manifest);
    let ghost done = dest@;
    match &r {
        Ok(summary) => {
            let line = summary.line();
            dest.notice(line.as_str());
        },
        Err(_) => {},
    }
    proof {
        assert(runner.rows_recovered(invalid, rows, told, done, r));
        assert(run_recovered(
            live,
            source,
            codec,
            opts,
            snapshots@,
            path@,
            whole,
            told,
            dest@,
            r,
        ));
    }
    r
}

/// What a person is shown of how a run ended.
pub open spec fn summary_line(summary: Summary) -> Seq<char> {
    "recover-manifest: rows="@ + dec(summary.rows as nat) + " recovered="@ + dec(
        summary.recovered as nat,
    ) + " dry_run="@ + dec(summary.dry_run as nat) + " skipped_exists="@ + dec(
        summary.skipped as nat,
    ) + " partial="@ + dec(summary.partial as nat) + " errors="@ + dec(summary.errors as nat)
}

impl Summary {
    /// What a person is shown of how a run ended.
    pub fn line(&self) -> (r: String)
        ensures
            r@ == summary_line(*self),
    {
        let mut text = "recover-manifest: rows=".to_owned();
        push_dec(&mut text, self.rows);
        text.append(" recovered=");
        push_dec(&mut text, self.recovered);
        text.append(" dry_run=");
        push_dec(&mut text, self.dry_run);
        text.append(" skipped_exists=");
        push_dec(&mut text, self.skipped);
        text.append(" partial=");
        push_dec(&mut text, self.partial);
        text.append(" errors=");
        push_dec(&mut text, self.errors);
        text
    }
}

// ---------------------------------------------------------------------------
// Laws
// ---------------------------------------------------------------------------

/// No two pieces of work that wait have the same target.
pub open spec fn targets_differ(queue: Map<u64, Seq<WorkView>>) -> bool {
    forall|j: u64, m: int, k: u64, n: int|
        {
            &&& queue.contains_key(j) && 0 <= m < queue[j].len()
            &&& queue.contains_key(k) && 0 <= n < queue[k].len()
            &&& (#[trigger] queue[j][m]).target == (#[trigger] queue[k][n]).target
        } ==> j == k && m == n
}

/// The targets of all work that waits are claimed.
spec fn targets_claimed(queue: Map<u64, Seq<WorkView>>, taken: Set<Seq<char>>) -> bool {
    forall|j: u64, m: int|
        queue.contains_key(j) && 0 <= m < queue[j].len() ==> taken.contains(
            (#[trigger] queue[j][m]).target,
        )
}

proof fn lemma_claimed_target_is_new(
    queue: Map<u64, Seq<WorkView>>,
    taken: Set<Seq<char>>,
    xid: u64,
    item: WorkView,
)
    requires
        targets_differ(queue),
        targets_claimed(queue, taken),
        !taken.contains(item.target),
    ensures
        targets_differ(queued(queue, xid, item)),
        targets_claimed(queued(queue, xid, item), taken.insert(item.target)),
{
    let after = queued(queue, xid, item);
    assert forall|j: u64, m: int| after.contains_key(j) && 0 <= m < after[j].len() implies {
        ||| queue.contains_key(j) && m < queue[j].len() && (#[trigger] after[j][m]) == queue[j][m]
        ||| j == xid && m == after[j].len() - 1 && after[j][m] == item
    } by {}
}

impl<'a, D: ApfsImage, S: SnapshotSource<D>, C: Codec> Runner<'a, D, S, C> {
    proof fn lemma_targets_stay_different(
        &self,
        rows: Seq<RowView>,
        i: int,
        taken: Set<Seq<char>>,
        before: RunView,
        after: RunView,
        r: Result<(), Error>,
    )
        requires
            self.rows_admitted(rows, i, taken, before, after, r),
            targets_differ(before.queue),
            targets_claimed(before.queue, taken),
        ensures
            targets_differ(after.queue),
        decreases rows.len() - i,
    {
        if 0 <= i < rows.len() {
            let (taken_after, judged, mid, sent) = choose|
                taken_after: Set<Seq<char>>,
                judged: RunView,
                mid: RunView,
                sent: Result<(), Error>,
            |
                {
                    &&& #[trigger] self.row_judged(rows[i], taken, taken_after, before, judged)
                    &&& #[trigger] self.flushed(judged, mid, sent)
                    &&& match sent {
                        Err(error) => after == mid && is_failed(r, error@),
                        Ok(_) => self.rows_admitted(rows, i + 1, taken_after, mid, after, r),
                    }
                };
            self.lemma_judged_targets_differ(rows[i], taken, taken_after, before, judged);
            if sent is Ok {
                self.lemma_targets_stay_different(rows, i + 1, taken_after, mid, after, r);
            }
        }
    }

    proof fn lemma_judged_targets_differ(
        &self,
        row: RowView,
        taken: Set<Seq<char>>,
        taken_after: Set<Seq<char>>,
        before: RunView,
        after: RunView,
    )
        requires
            self.row_judged(row, taken, taken_after, before, after),
            targets_differ(before.queue),
            targets_claimed(before.queue, taken),
        ensures
            targets_differ(after.queue),
            targets_claimed(after.queue, taken_after),
    {
        if self.row_error(row) is None {
            let named = self.with_name(row);
            assert forall|target: Seq<char>| !taken.contains(target) implies targets_differ(
                #[trigger] queued(before.queue, row.snapshot_xid, Self::work_on(named, target)),
            ) && targets_claimed(
                queued(before.queue, row.snapshot_xid, Self::work_on(named, target)),
                taken.insert(target),
            ) by {
                lemma_claimed_target_is_new(
                    before.queue,
                    taken,
                    row.snapshot_xid,
                    Self::work_on(named, target),
                );
            }
        }
    }

    /// No two rows of a manifest are ever worked on for the same target.
    pub proof fn law_no_target_is_claimed_twice(
        &self,
        rows: Seq<RowView>,
        before: RunView,
        after: RunView,
        r: Result<(), Error>,
    )
        requires
            self.rows_admitted(rows, 0, Set::empty(), before, after, r),
            forall|k: u64| !#[trigger] before.queue.contains_key(k),
        ensures
            targets_differ(after.queue),
    {
        self.lemma_targets_stay_different(rows, 0, Set::empty(), before, after, r);
    }
}

impl<'a, D: ApfsImage, S: SnapshotSource<D>, C: Codec> Runner<'a, D, S, C> {
    proof fn lemma_items_go_back(
        &self,
        xid: u64,
        name: Option<String>,
        view: Result<(Volume<D>, D::Reader), Error>,
        items: Seq<WorkView>,
        i: int,
        links: Map<u64, Seq<char>>,
        before: RunView,
        after: RunView,
        r: Result<(), Error>,
    )
        requires
            self.items_worked(xid, name, view, items, i, links, before, after, r),
            forall|k: u64| #[trigger] before.queue.contains_key(k) ==> k < xid,
        ensures
            forall|k: u64| #[trigger] after.queue.contains_key(k) ==> k < xid,
        decreases items.len() - i,
    {
        if 0 <= i < items.len() {
            let (tried, attempt, mid, sent) = choose|
                tried: LeafState,
                attempt: AttemptView,
                mid: RunView,
                sent: Result<(), Error>,
            |
                {
                    &&& #[trigger] self.attempt_given(
                        xid,
                        name,
                        view,
                        items[i],
                        leaf_state(links, before.log),
                        tried,
                        attempt,
                    )
                    &&& #[trigger] self.flushed(
                        finished(
                            RunView { log: tried.log, ..before },
                            after_attempt(items[i], attempt),
                            xid,
                            self.snapshots@,
                            *self.opts,
                        ),
                        mid,
                        sent,
                    )
                    &&& match sent {
                        Err(error) => after == mid && is_failed(r, error@),
                        Ok(_) => self.items_worked(
                            xid,
                            name,
                            view,
                            items,
                            i + 1,
                            tried.links,
                            mid,
                            after,
                            r,
                        ),
                    }
                };
            let item = after_attempt(items[i], attempt);
            match next_snapshot(
                item.attempts,
                xid,
                self.snapshots@.dom(),
                self.opts.fallback_history,
            ) {
                Some(older) => {
                    assert(is_newest_before(self.snapshots@.dom(), xid, older));
                },
                None => {},
            }
            if sent is Ok {
                self.lemma_items_go_back(
                    xid,
                    name,
                    view,
                    items,
                    i + 1,
                    tried.links,
                    mid,
                    after,
                    r,
                );
            }
        }
    }

    /// Once the work of a snapshot was done, only strictly older ones are left.
    pub proof fn law_work_goes_strictly_back(
        &self,
        xid: u64,
        before: RunView,
        after: RunView,
        r: Result<(), Error>,
    )
        requires
            self.snapshot_worked(xid, before, after, r),
        ensures
            forall|k: u64| #[trigger] after.queue.contains_key(k) ==> k < xid,
    {
        let (view, name) = choose|view: Result<(Volume<D>, D::Reader), Error>, name: Option<String>|
            {
                &&& opt_text(name) == self.snapshot_name(xid)
                &&& #[trigger] self.view_opened(xid, view)
                &&& #[trigger] self.work_done(
                    xid,
                    name,
                    view,
                    before.queue[xid],
                    RunView { queue: before.queue.remove(xid), ..before },
                    after,
                    r,
                )
            };
        let rest = RunView { queue: before.queue.remove(xid), ..before };
        let items = before.queue[xid];
        let begun = RunView {
            log: Self::opening_told(xid, items.len(), view, rest.log),
            ..rest
        };
        let mid = choose|mid: RunView| #[trigger]
            self.items_worked(xid, name, view, items, 0, Map::empty(), begun, mid, r)
                && Self::closing_told(xid, view, r, mid, after);
        self.lemma_items_go_back(xid, name, view, items, 0, Map::empty(), begun, mid, r);
        assert(after.queue == mid.queue);
    }

    /// Snapshots are worked on newest first, and none twice.
    pub proof fn law_snapshots_are_worked_on_newest_first(
        &self,
        before: RunView,
        trace: Seq<RunView>,
        xids: Seq<u64>,
        i: int,
        j: int,
    )
        requires
            self.is_trace(before, trace, xids),
            0 <= i < j < xids.len(),
        ensures
            xids[j] < xids[i],
        decreases j - i,
    {
        let at = xids[i];
        let next = xids[i + 1];
        assert(self.snapshot_worked(at, trace[i], trace[i + 1], Ok(())));
        assert(self.snapshot_worked(next, trace[i + 1], trace[i + 1 + 1], Ok(())));
        self.law_work_goes_strictly_back(at, trace[i], trace[i + 1], Ok(()));
        assert(trace[i + 1].queue.contains_key(next));
        if i + 1 < j {
            self.law_snapshots_are_worked_on_newest_first(before, trace, xids, i + 1, j);
        }
    }
}

/// Between `before` and `after` the destination was only asked questions and given
/// text, for the report or for a person.
pub open spec fn only_looks(before: Seq<Event>, after: Seq<Event>) -> bool {
    only_adds_events(
        before,
        after,
        |event: Event| event.is_question() || event is Report || event is Notice,
    )
}

proof fn lemma_only_looks(a: Seq<Event>, b: Seq<Event>, c: Seq<Event>)
    requires
        only_looks(a, b),
        only_looks(b, c),
    ensures
        only_looks(a, c),
{
    assert forall|i: int| a.len() <= i < c.len() implies (#[trigger] c[i]).is_question() || c[i]
        is Report || c[i] is Notice by {
        if i < b.len() {
            assert(c[i] == b[i]);
        }
    }
}

impl<'a, D: ApfsImage, S: SnapshotSource<D>, C: Codec> Runner<'a, D, S, C> {
    proof fn lemma_invalid_only_reported(
        &self,
        list: Seq<InvalidView>,
        i: int,
        before: RunView,
        after: RunView,
        r: Result<(), Error>,
    )
        requires
            self.invalid_reported(list, i, before, after, r),
        ensures
            only_looks(before.log, after.log),
        decreases list.len() - i,
    {
        if 0 <= i < list.len() {
            let told = RunView {
                output: before.output + json_line(invalid_fields(list[i])),
                summary: observed(before.summary, "error"@),
                ..before
            };
            let (mid, sent) = choose|mid: RunView, sent: Result<(), Error>| #[trigger]
                self.flushed(told, mid, sent) && match sent {
                    Err(error) => after == mid && is_failed(r, error@),
                    Ok(_) => self.invalid_reported(list, i + 1, mid, after, r),
                };
            if sent is Ok {
                self.lemma_invalid_only_reported(list, i + 1, mid, after, r);
                lemma_only_looks(before.log, mid.log, after.log);
            }
        }
    }

    proof fn lemma_row_only_looked_at(
        &self,
        row: RowView,
        taken: Set<Seq<char>>,
        taken_after: Set<Seq<char>>,
        before: RunView,
        after: RunView,
    )
        requires
            self.row_judged(row, taken, taken_after, before, after),
            self.opts.dry_run,
        ensures
            only_looks(before.log, after.log),
    {
        if self.row_error(row) is None {
            let named = self.with_name(row);
            let (found, mid) = choose|found: Result<String, Error>, mid: Seq<Event>| #[trigger]
                walked(
                    components_of(row.output_relative_path),
                    0,
                    self.root@,
                    self.opts.dry_run,
                    before.log,
                    mid,
                    found,
                ) && match found {
                    Err(error) => {
                        &&& taken_after == taken
                        &&& after == Self::row_refused(
                            RunView { log: mid, ..before },
                            named,
                            error@.kind.spec_code(),
                            error@.message,
                        )
                    },
                    Ok(target) => if taken.contains(target@) {
                        &&& taken_after == taken
                        &&& after == Self::row_refused(
                            RunView { log: mid, ..before },
                            named,
                            "usage"@,
                            "duplicate output_relative_path resolves to the same target"@,
                        )
                    } else {
                        &&& taken_after == taken.insert(target@)
                        &&& self.target_judged(
                            named,
                            target@,
                            RunView { log: mid, ..before },
                            after,
                        )
                    },
                };
            law_only_missing_parents_are_made(
                self.root@,
                row.output_relative_path,
                true,
                before.log,
                mid,
                found,
            );
            assert forall|i: int| before.log.len() <= i < mid.len() implies (
            #[trigger] mid[i]).is_question() || mid[i] is Report by {
                assert(mid[i].is_question());
            }
            if found is Ok && !taken.contains(found->Ok_0@) {
                assert(only_looks(mid, after.log));
                lemma_only_looks(before.log, mid, after.log);
            }
        }
    }

    proof fn lemma_rows_only_looked_at(
        &self,
        rows: Seq<RowView>,
        i: int,
        taken: Set<Seq<char>>,
        before: RunView,
        after: RunView,
        r: Result<(), Error>,
    )
        requires
            self.rows_admitted(rows, i, taken, before, after, r),
            self.opts.dry_run,
        ensures
            only_looks(before.log, after.log),
        decreases rows.len() - i,
    {
        if 0 <= i < rows.len() {
            let (taken_after, judged, mid, sent) = choose|
                taken_after: Set<Seq<char>>,
                judged: RunView,
                mid: RunView,
                sent: Result<(), Error>,
            |
                {
                    &&& #[trigger] self.row_judged(rows[i], taken, taken_after, before, judged)
                    &&& #[trigger] self.flushed(judged, mid, sent)
                    &&& match sent {
                        Err(error) => after == mid && is_failed(r, error@),
                        Ok(_) => self.rows_admitted(rows, i + 1, taken_after, mid, after, r),
                    }
                };
            self.lemma_row_only_looked_at(rows[i], taken, taken_after, before, judged);
            assert(only_looks(judged.log, mid.log));
            lemma_only_looks(before.log, judged.log, mid.log);
            if sent is Ok {
                self.lemma_rows_only_looked_at(rows, i + 1, taken_after, mid, after, r);
                lemma_only_looks(before.log, mid.log, after.log);
            }
        }
    }

    proof fn lemma_items_only_looked_at(
        &self,
        xid: u64,
        name: Option<String>,
        view: Result<(Volume<D>, D::Reader), Error>,
        items: Seq<WorkView>,
        i: int,
        links: Map<u64, Seq<char>>,
        before: RunView,
        after: RunView,
        r: Result<(), Error>,
    )
        requires
            self.items_worked(xid, name, view, items, i, links, before, after, r),
            self.opts.dry_run,
        ensures
            only_looks(before.log, after.log),
        decreases items.len() - i,
    {
        if 0 <= i < items.len() {
            let (tried, attempt, mid, sent) = choose|
                tried: LeafState,
                attempt: AttemptView,
                mid: RunView,
                sent: Result<(), Error>,
            |
                {
                    &&& #[trigger] self.attempt_given(
                        xid,
                        name,
                        view,
                        items[i],
                        leaf_state(links, before.log),
                        tried,
                        attempt,
                    )
                    &&& #[trigger] self.flushed(
                        finished(
                            RunView { log: tried.log, ..before },
                            after_attempt(items[i], attempt),
                            xid,
                            self.snapshots@,
                            *self.opts,
                        ),
                        mid,
                        sent,
                    )
                    &&& match sent {
                        Err(error) => after == mid && is_failed(r, error@),
                        Ok(_) => self.items_worked(
                            xid,
                            name,
                            view,
                            items,
                            i + 1,
                            tried.links,
                            mid,
                            after,
                            r,
                        ),
                    }
                };
            if view is Ok {
                let (vol, bt) = view->Ok_0;
                let item = items[i];
                let from = choose|from: &str|
                    {
                        &&& from@ == item.current_source_path
                        &&& #[trigger] self.attempting(xid, &name, &vol, &bt).attempted(
                            item.row,
                            item.primary,
                            attempt_number(item),
                            from,
                            item.target,
                            leaf_state(links, before.log),
                            tried,
                            attempt,
                        )
                    };
                self.attempting(xid, &name, &vol, &bt).law_dry_attempt_asks_nothing(
                    item.row,
                    item.primary,
                    attempt_number(item),
                    from,
                    item.target,
                    leaf_state(links, before.log),
                    tried,
                    attempt,
                );
            }
            assert(tried.log == before.log);
            assert(only_looks(before.log, mid.log));
            if sent is Ok {
                self.lemma_items_only_looked_at(
                    xid,
                    name,
                    view,
                    items,
                    i + 1,
                    tried.links,
                    mid,
                    after,
                    r,
                );
                lemma_only_looks(before.log, mid.log, after.log);
            }
        }
    }

    proof fn lemma_snapshot_only_looked_at(
        &self,
        xid: u64,
        before: RunView,
        after: RunView,
        r: Result<(), Error>,
    )
        requires
            self.snapshot_worked(xid, before, after, r),
            self.opts.dry_run,
        ensures
            only_looks(before.log, after.log),
    {
        let rest = RunView { queue: before.queue.remove(xid), ..before };
        let (view, name) = choose|view: Result<(Volume<D>, D::Reader), Error>, name: Option<String>|
            {
                &&& opt_text(name) == self.snapshot_name(xid)
                &&& #[trigger] self.view_opened(xid, view)
                &&& #[trigger] self.work_done(
                    xid,
                    name,
                    view,
                    before.queue[xid],
                    rest,
                    after,
                    r,
                )
            };
        let items = before.queue[xid];
        let begun = RunView {
            log: Self::opening_told(xid, items.len(), view, rest.log),
            ..rest
        };
        let mid = choose|mid: RunView| #[trigger]
            self.items_worked(xid, name, view, items, 0, Map::empty(), begun, mid, r)
                && Self::closing_told(xid, view, r, mid, after);
        self.lemma_items_only_looked_at(xid, name, view, items, 0, Map::empty(), begun, mid, r);
        assert(only_looks(before.log, begun.log));
        assert(only_looks(mid.log, after.log));
        lemma_only_looks(before.log, begun.log, mid.log);
        lemma_only_looks(before.log, mid.log, after.log);
    }

    proof fn lemma_trace_only_looked_at(
        &self,
        before: RunView,
        trace: Seq<RunView>,
        xids: Seq<u64>,
        n: int,
    )
        requires
            self.is_trace(before, trace, xids),
            self.opts.dry_run,
            0 <= n <= xids.len(),
        ensures
            only_looks(before.log, trace[n].log),
        decreases n,
    {
        if n > 0 {
            self.lemma_trace_only_looked_at(before, trace, xids, n - 1);
            assert(self.snapshot_worked(xids[n - 1], trace[n - 1], trace[n - 1 + 1], Ok(())));
            self.lemma_snapshot_only_looked_at(xids[n - 1], trace[n - 1], trace[n], Ok(()));
            lemma_only_looks(before.log, trace[n - 1].log, trace[n].log);
        }
    }

    /// In a dry run nothing is written: the destination is only asked questions and
    /// given text, whatever the rows are and however the run ends.
    pub proof fn law_dry_run_writes_nothing(
        &self,
        invalid: Seq<InvalidView>,
        rows: Seq<RowView>,
        at: Seq<Event>,
        to: Seq<Event>,
        r: Result<Summary, Error>,
    )
        requires
            self.rows_recovered(invalid, rows, at, to, r),
            self.opts.dry_run,
        ensures
            only_looks(at, to),
    {
        let (reported, first) = choose|reported: RunView, first: Result<(), Error>| #[trigger]
            self.invalid_reported(invalid, 0, fresh_run(at), reported, first) && match first {
                Err(error) => to == reported.log && is_failed(r, error@),
                Ok(_) => self.valid_rows_recovered(reported, rows, to, r),
            };
        self.lemma_invalid_only_reported(invalid, 0, fresh_run(at), reported, first);
        if first is Ok {
            let (admitted, second) = choose|admitted: RunView, second: Result<(), Error>| #[trigger]
                self.rows_admitted(rows, 0, Set::empty(), reported, admitted, second)
                    && match second {
                    Err(error) => to == admitted.log && is_failed(r, error@),
                    Ok(_) => self.admitted_rows_recovered(admitted, to, r),
                };
            self.lemma_rows_only_looked_at(rows, 0, Set::empty(), reported, admitted, second);
            lemma_only_looks(at, reported.log, admitted.log);
            if second is Ok {
                let (done, third) = choose|done: RunView, third: Result<(), Error>| #[trigger]
                    self.all_worked(admitted, done, third) && to == done.log && match third {
                        Err(error) => is_failed(r, error@),
                        Ok(_) => r == Ok::<Summary, Error>(done.summary),
                    };
                let (trace, xids) = choose|trace: Seq<RunView>, xids: Seq<u64>| #[trigger]
                    self.is_trace(admitted, trace, xids) && match third {
                        Ok(_) => done == trace.last() && forall|k: u64|
                            !#[trigger] done.queue.contains_key(k),
                        Err(error) => exists|xid: u64, ended: Result<(), Error>| #[trigger]
                            self.snapshot_worked(xid, trace.last(), done, ended) && is_failed(
                                ended,
                                error@,
                            ),
                    };
                self.lemma_trace_only_looked_at(admitted, trace, xids, xids.len() as int);
                lemma_only_looks(at, admitted.log, trace.last().log);
                if third is Err {
                    let (xid, ended) = choose|xid: u64, ended: Result<(), Error>| #[trigger]
                        self.snapshot_worked(xid, trace.last(), done, ended) && is_failed(
                            ended,
                            third->Err_0@,
                        );
                    self.lemma_snapshot_only_looked_at(xid, trace.last(), done, ended);
                    lemma_only_looks(at, trace.last().log, done.log);
                }
            }
        }
    }
}

// ---------------------------------------------------------------------------
// Laws on admission and reports
// ---------------------------------------------------------------------------

impl<'a, D: ApfsImage, S: SnapshotSource<D>, C: Codec> Runner<'a, D, S, C> {
    /// A row can be worked on exactly if its snapshot is known and, where it names that
    /// snapshot, by its own name.
    pub proof fn law_row_needs_a_known_snapshot(&self, row: RowView)
        ensures
            self.row_error(row) is None <==> self.snapshots@.contains_key(row.snapshot_xid) && (
            row.snapshot_name is None || row.snapshot_name->Some_0
                == self.snapshots@[row.snapshot_xid].name@),
            !self.snapshots@.contains_key(row.snapshot_xid) ==> (self.row_error(row) matches Some(
                told,
            ) && told.0 == "object-not-found"@),
            self.snapshots@.contains_key(row.snapshot_xid) ==> (self.row_error(row) matches Some(
                told,
            ) ==> told.0 == "corrupt"@),
    {
    }

    /// What becomes of a row by what stands at its target. Where that is free, or may be
    /// replaced by a leaf, the row waits for its snapshot behind those before it, to be
    /// looked for at its own path and with no attempt yet. An occupied target is skipped, a
    /// directory that would be replaced is refused, and so is what cannot be looked at.
    pub proof fn law_row_waits_where_its_target_is_free(
        &self,
        row: RowView,
        target: Seq<char>,
        standing: Result<Standing, Error>,
        before: RunView,
    )
        requires
            before.summary.well_formed(),
            before.summary.rows < u64::MAX,
        ensures
            ({
                let after = self.target_admitted(row, target, standing, before);
                let waits = standing == Ok::<Standing, Error>(Standing::Nothing)
                    || self.opts.overwrite && (standing == Ok::<Standing, Error>(Standing::Link)
                    || standing == Ok::<Standing, Error>(Standing::Other));
                let skipped = standing is Ok && !(standing->Ok_0 is Nothing)
                    && !self.opts.overwrite;
                &&& after.log == before.log
                &&& waits ==> {
                    let xid = row.snapshot_xid;
                    let n = if before.queue.contains_key(xid) {
                        before.queue[xid].len() as int
                    } else {
                        0
                    };
                    let item = after.queue[xid][n];
                    &&& after.queue.contains_key(xid)
                    &&& after.queue[xid].len() == n + 1
                    &&& forall|i: int|
                        0 <= i < n ==> #[trigger] after.queue[xid][i] == before.queue[xid][i]
                    &&& item.row == row
                    &&& item.target == target
                    &&& item.current_source_path == row.source_path
                    &&& item.primary
                    &&& item.attempts.len() == 0
                    &&& forall|other: u64|
                        other != xid ==> (#[trigger] after.queue.contains_key(other)
                            == before.queue.contains_key(other))
                    &&& forall|other: u64|
                        other != xid && before.queue.contains_key(other) ==> #[trigger]
                        after.queue[other] == before.queue[other]
                    &&& after.output == before.output
                    &&& after.summary == before.summary
                }
                &&& !waits ==> after.queue == before.queue && after.summary.rows
                    == before.summary.rows + 1 && after.output.len() >= before.output.len()
                    && after.output.take(before.output.len() as int) == before.output
                &&& skipped ==> after.summary.skipped == before.summary.skipped + 1
                    && after.summary.errors == before.summary.errors && after.output
                    == before.output + json_line(
                    skipped_fields(row, "destination already exists"@),
                )
                &&& !waits && !skipped ==> after.summary.errors == before.summary.errors + 1
                    && after.summary.skipped == before.summary.skipped
            }),
    {
        law_each_status_has_its_count(before.summary, "error"@);
        law_each_status_has_its_count(before.summary, "skipped-exists"@);
        reveal_strlit("error");
        reveal_strlit("skipped-exists");
        reveal_strlit("recovered");
        reveal_strlit("dry-run");
        reveal_strlit("partial");
        assert("error"@.len() == 5 && "skipped-exists"@.len() == 14 && "recovered"@.len() == 9
            && "dry-run"@.len() == 7 && "partial"@.len() == 7);
        let after = self.target_admitted(row, target, standing, before);
        assert(after.output.take(before.output.len() as int) =~= before.output);
    }

    /// A row is refused, with one error, where its path cannot be walked or leads to a target
    /// that an earlier row has; then no target is taken. Otherwise its target is taken from
    /// then on and looked at once.
    pub proof fn law_rows_are_placed_once(
        &self,
        row: RowView,
        taken: Set<Seq<char>>,
        taken_after: Set<Seq<char>>,
        before: RunView,
        after: RunView,
    )
        requires
            before.summary.well_formed(),
            before.summary.rows < u64::MAX,
            self.row_placed(row, taken, taken_after, before, after),
        ensures
            exists|found: Result<String, Error>, mid: Seq<Event>|
                {
                    let refused = found is Err || taken.contains(found->Ok_0@);
                    &&& #[trigger] walked(
                        components_of(row.output_relative_path),
                        0,
                        self.root@,
                        self.opts.dry_run,
                        before.log,
                        mid,
                        found,
                    )
                    &&& refused ==> {
                        &&& taken_after == taken
                        &&& after.log == mid
                        &&& after.queue == before.queue
                        &&& after.summary.rows == before.summary.rows + 1
                        &&& after.summary.errors == before.summary.errors + 1
                        &&& found is Err ==> after.output == before.output + json_line(
                            row_error_fields(
                                self.with_name(row),
                                found->Err_0@.kind.spec_code(),
                                found->Err_0@.message,
                            ),
                        )
                        &&& found is Ok ==> after.output == before.output + json_line(
                            row_error_fields(
                                self.with_name(row),
                                "usage"@,
                                "duplicate output_relative_path resolves to the same target"@,
                            ),
                        )
                    }
                    &&& !refused ==> {
                        &&& taken_after == taken.insert(found->Ok_0@)
                        &&& exists|standing: Result<Standing, Error>, seen: Seq<Event>| #[trigger]
                            did(
                                mid,
                                Event::Standing { path: found->Ok_0@, reply: standing },
                                seen,
                            ) && after == self.target_admitted(
                                self.with_name(row),
                                found->Ok_0@,
                                standing,
                                RunView { log: seen, ..before },
                            )
                    }
                },
    {
        law_each_status_has_its_count(before.summary, "error"@);
        reveal_strlit("error");
        reveal_strlit("skipped-exists");
        reveal_strlit("recovered");
        reveal_strlit("dry-run");
        reveal_strlit("partial");
        assert("error"@.len() == 5 && "skipped-exists"@.len() == 14 && "recovered"@.len() == 9
            && "dry-run"@.len() == 7 && "partial"@.len() == 7);
        let named = self.with_name(row);
        let (found, mid) = choose|found: Result<String, Error>, mid: Seq<Event>| #[trigger]
            walked(
                components_of(row.output_relative_path),
                0,
                self.root@,
                self.opts.dry_run,
                before.log,
                mid,
                found,
            ) && match found {
                Err(error) => {
                    &&& taken_after == taken
                    &&& after == Self::row_refused(
                        RunView { log: mid, ..before },
                        named,
                        error@.kind.spec_code(),
                        error@.message,
                    )
                },
                Ok(target) => if taken.contains(target@) {
                    &&& taken_after == taken
                    &&& after == Self::row_refused(
                        RunView { log: mid, ..before },
                        named,
                        "usage"@,
                        "duplicate output_relative_path resolves to the same target"@,
                    )
                } else {
                    &&& taken_after == taken.insert(target@)
                    &&& self.target_judged(
                        named,
                        target@,
                        RunView { log: mid, ..before },
                        after,
                    )
                },
            };
        if found is Ok && !taken.contains(found->Ok_0@) {
            let start = RunView { log: mid, ..before };
            let target = found->Ok_0@;
            let (standing, seen) = choose|standing: Result<Standing, Error>, seen: Seq<Event>|
                #[trigger]
                did(start.log, Event::Standing { path: target, reply: standing }, seen) && after
                    == self.target_admitted(
                    named,
                    target,
                    standing,
                    RunView { log: seen, ..start },
                );
            assert(did(mid, Event::Standing { path: target, reply: standing }, seen));
            assert(RunView { log: seen, ..start } == RunView { log: seen, ..before });
        }
        assert(walked(
            components_of(row.output_relative_path),
            0,
            self.root@,
            self.opts.dry_run,
            before.log,
            mid,
            found,
        ));
    }

    /// A row is known from then on by the name of its snapshot.
    pub proof fn law_row_gets_the_name_of_its_snapshot(&self, row: RowView)
        ensures
            ({
                let named = self.with_name(row);
                &&& named.snapshot_name == Some(self.snapshots@[row.snapshot_xid].name@)
                &&& named.snapshot_xid == row.snapshot_xid
                &&& named.line == row.line
                &&& named.source_path == row.source_path
                &&& named.output_relative_path == row.output_relative_path
                &&& named.expected_fsoid == row.expected_fsoid
                &&& named.expected_type == row.expected_type
                &&& named.relative_path == row.relative_path
            }),
    {
    }

    /// A snapshot that cannot be opened leaves the older ones open to each of its rows: the
    /// attempt is an error, and nothing was asked of the destination for it.
    pub proof fn law_closed_snapshot_leaves_older_ones(
        &self,
        xid: u64,
        name: Option<String>,
        error: Error,
        item: WorkView,
        before: LeafState,
        after: LeafState,
        attempt: AttemptView,
    )
        requires
            self.attempt_given(xid, name, Err(error), item, before, after, attempt),
        ensures
            after == before,
            attempt.snapshot_xid == xid,
            attempt.snapshot_name == opt_text(name),
            attempt.source_path == item.current_source_path,
            attempt.fsoid is None,
            attempt.status == "error"@,
            attempt.bytes == 0,
            attempt.fallback_eligible,
            attempt.error_message == Some(error@.message),
    {
    }

    /// What is still to be reported is written out in one piece, and only once.
    pub proof fn law_report_is_written_once(
        &self,
        before: RunView,
        after: RunView,
        r: Result<(), Error>,
    )
        requires
            self.flushed(before, after, r),
        ensures
            after.queue == before.queue,
            after.summary == before.summary,
            before.output.len() == 0 ==> after == before && r is Ok,
            before.output.len() > 0 ==> {
                &&& after.log.len() == before.log.len() + 1
                &&& after.log.take(before.log.len() as int) == before.log
                &&& after.log[before.log.len() as int] matches Event::Report { text, reply }
                    && text == before.output && (reply is Ok <==> r is Ok)
                &&& r is Ok ==> after.output.len() == 0
                &&& r is Err ==> after.output == before.output
            },
    {
        if before.output.len() > 0 {
            assert(after.log.take(before.log.len() as int) =~= before.log);
        }
    }

    /// What a person is told of the work on a snapshot.
    pub proof fn law_work_is_announced(
        xid: u64,
        attempts: nat,
        view: Result<(Volume<D>, D::Reader), Error>,
        log: Seq<Event>,
    )
        ensures
            ({
                let after = Self::opening_told(xid, attempts, view, log);
                let n = log.len() as int;
                let head = "recover-manifest: snapshot xid="@ + hex_prefixed(xid as nat);
                &&& after.take(n) == log
                &&& after[n] matches Event::Notice { text } && text == head + " attempts="@ + dec(
                    attempts,
                )
                &&& view is Err ==> after.len() == n + 1
                &&& view matches Ok((vol, _)) ==> after.len() == n + 1 + vol.warnings@.len()
                    && forall|i: int|
                    0 <= i < vol.warnings@.len() ==> ((#[trigger] after[n + 1 + i])
                        matches Event::Notice { text } && text == head + " warning: "@
                        + vol.warnings@[i]@)
            }),
    {
        let after = Self::opening_told(xid, attempts, view, log);
        assert(after.take(log.len() as int) =~= log);
    }
}

/// Attempts on a row are numbered from one.
pub proof fn law_attempts_are_numbered(item: WorkView, attempt: AttemptView)
    requires
        item.attempts.len() < u64::MAX,
    ensures
        attempt_number(item) == item.attempts.len() + 1,
        ({
            let after = after_attempt(item, attempt);
            &&& after.attempts.len() == item.attempts.len() + 1
            &&& after.attempts.take(item.attempts.len() as int) == item.attempts
            &&& after.attempts[item.attempts.len() as int] == attempt
            &&& after.row == item.row
            &&& after.target == item.target
            &&& after.primary == item.primary
            &&& after.current_source_path == item.current_source_path
        }),
{
    let after = after_attempt(item, attempt);
    assert(after.attempts.take(item.attempts.len() as int) =~= item.attempts);
}

/// A run needs a manifest and an output root, and takes both as they are given.
pub proof fn law_run_needs_both_paths(opts: Options)
    ensures
        paths_given(opts) is Ok <==> opts.manifest is Some && opts.output_root is Some,
        paths_given(opts) matches Ok(paths) ==> paths.0 == opts.manifest->Some_0@ && paths.1
            == opts.output_root->Some_0@,
        paths_given(opts) matches Err(error) ==> error.kind == ErrorKind::Usage,
{
}

/// What a person is shown of how a run ended: each count under its name.
pub proof fn law_run_is_summed_up(summary: Summary)
    ensures
        summary_line(summary) == "recover-manifest: rows="@ + dec(summary.rows as nat)
            + " recovered="@ + dec(summary.recovered as nat) + " dry_run="@ + dec(
            summary.dry_run as nat,
        ) + " skipped_exists="@ + dec(summary.skipped as nat) + " partial="@ + dec(
            summary.partial as nat,
        ) + " errors="@ + dec(summary.errors as nat),
{
}

/// A run on an encrypted volume is refused before anything is asked of the destination,
/// unless its raw extents are asked for.
pub proof fn law_encrypted_run_is_refused<D: ApfsImage, S: SnapshotSource<D>, C: Codec>(
    live: &Volume<D>,
    source: &S,
    codec: &C,
    opts: &Options,
    warnings: Seq<String>,
    snapshots: Seq<SnapshotInfo>,
    root: Seq<char>,
    manifest: Manifest,
    at: Seq<Event>,
    to: Seq<Event>,
    r: Result<Summary, Error>,
)
    requires
        manifest_recovered(
            live,
            source,
            codec,
            opts,
            warnings,
            snapshots,
            root,
            manifest,
            at,
            to,
            r,
        ),
    ensures
        live.apsb.encrypted && !opts.raw_extents ==> to == at && (r matches Err(error)
            && error.kind == ErrorKind::EncryptedUnsupported),
        !live.apsb.encrypted || opts.raw_extents ==> exists|
            prepared: Result<String, Error>,
            mid: Seq<Event>,
        | #[trigger] root_prepared(root, opts.dry_run, at, mid, prepared),
{
}

/// A run that comes to its end tells a person once how it ended; one that does not tells
/// nothing.
pub proof fn law_only_a_finished_run_is_summed_up(
    before: Seq<Event>,
    after: Seq<Event>,
    r: Result<Summary, Error>,
)
    requires
        end_told(before, after, r),
    ensures
        r is Err ==> after == before,
        r matches Ok(summary) ==> after == before.push(
            Event::Notice { text: summary_line(summary) },
        ),
{
}

} // verus!
