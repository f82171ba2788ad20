//! Recovering many leaves of many snapshots in one run.
//!
//! Work is done snapshot by snapshot, newest first. A leaf that cannot be recovered
//! as a whole can be looked for in older snapshots. It is written beside its
//! destination first, and only a complete one is put in its place.
use crate::error::{failure, is_failed, Error, ErrorKind, ErrorView};
use crate::journal::Event;
use crate::json::{
    compact, hex_or_null, json_values, law_added_field_is_found, says, text_or_null, with, Fields,
    Json, JsonView, SCHEMA_VERSION,
};
use crate::manifest::{is_absolute, is_absolute_path, InvalidRow, InvalidView, ManifestRow, RowView};
use crate::options::Options;
use crate::snapshots::{
    directory_name, lemma_no_brace, lemma_other_pattern, lemma_replaced_once, trim_root, trimmed,
    SnapshotInfo,
};
use crate::text::{
    hex_prefixed, law_nothing_to_replace, occurs_at, opt_text, replace_all, replaced, str_eq,
    strip_prefix_or_all,
};
use crate::xid_map::XidMap;
use vstd::prelude::*;

verus! {

// ---------------------------------------------------------------------------
// Options
// ---------------------------------------------------------------------------

/// Why the options of a run cannot be used, if they cannot.
pub open spec fn options_error(opts: Options) -> Option<ErrorView> {
    if opts.snapshot is Some || opts.snapshot_xid is Some {
        Some(
            failure(
                ErrorKind::Usage,
                "`recover-manifest` reads snapshot_xid from each row; do not pass --snapshot or --snapshot-xid"@,
            ),
        )
    } else if opts.path is Some || opts.fsoid is Some || opts.output is Some {
        Some(
            failure(
                ErrorKind::Usage,
                "use --manifest and --output-root, not --path, --fsoid, or --output"@,
            ),
        )
    } else if opts.format matches Some(format) && format@ != "jsonl"@ {
        Some(failure(ErrorKind::Usage, "`recover-manifest` accepts JSONL only"@))
    } else if opts.fallback_history && opts.path_template is None {
        Some(
            failure(
                ErrorKind::Usage,
                "--fallback-history requires --path-template <absolute-snapshot-root>"@,
            ),
        )
    } else if opts.fallback_history && !is_absolute(opts.path_template->Some_0@) {
        Some(
            failure(
                ErrorKind::Usage,
                "--path-template must be an absolute APFS path without NUL"@,
            ),
        )
    } else {
        None
    }
}

/// Refuses options that a run cannot use.
pub fn validate_options(opts: &Options) -> (r: Result<(), Error>)
    ensures
        match options_error(*opts) {
            Some(error) => is_failed(r, error),
            None => r is Ok,
        },
{
    if opts.snapshot.is_some() || opts.snapshot_xid.is_some() {
        return Err(
            Error::fixed(
                ErrorKind::Usage,
                "`recover-manifest` reads snapshot_xid from each row; do not pass --snapshot or --snapshot-xid",
            ),
        );
    }
    if opts.path.is_some() || opts.fsoid.is_some() || opts.output.is_some() {
        return Err(
            Error::fixed(
                ErrorKind::Usage,
                "use --manifest and --output-root, not --path, --fsoid, or --output",
            ),
        );
    }
    match &opts.format {
        Some(format) => {
            if !str_eq(format.as_str(), "jsonl") {
                return Err(
                    Error::fixed(ErrorKind::Usage, "`recover-manifest` accepts JSONL only"),
                );
            }
        },
        None => {},
    }
    if opts.fallback_history {
        match &opts.path_template {
            None => {
                return Err(
                    Error::fixed(
                        ErrorKind::Usage,
                        "--fallback-history requires --path-template <absolute-snapshot-root>",
                    ),
                );
            },
            Some(template) => {
                if !is_absolute_path(template.as_str()) {
                    return Err(
                        Error::fixed(
                            ErrorKind::Usage,
                            "--path-template must be an absolute APFS path without NUL",
                        ),
                    );
                }
            },
        }
    }
    Ok(())
}

// ---------------------------------------------------------------------------
// Attempts
// ---------------------------------------------------------------------------

/// One attempt to recover a leaf from one snapshot.
#[derive(Debug)]
pub struct Attempt {
    pub snapshot_xid: u64,
    pub snapshot_name: Option<String>,
    pub source_path: String,
    pub fsoid: Option<u64>,
    pub status: &'static str,
    pub bytes: u64,
    pub note: Option<String>,
    pub error_code: Option<&'static str>,
    pub error_message: Option<String>,
    pub fallback_eligible: bool,
}

/// The mathematical content of an [`Attempt`].
pub struct AttemptView {
    pub snapshot_xid: u64,
    pub snapshot_name: Option<Seq<char>>,
    pub source_path: Seq<char>,
    pub fsoid: Option<u64>,
    pub status: Seq<char>,
    pub bytes: u64,
    pub note: Option<Seq<char>>,
    pub error_code: Option<Seq<char>>,
    pub error_message: Option<Seq<char>>,
    pub fallback_eligible: bool,
}

/// The content of an optional fixed text.
pub open spec fn code_text(code: Option<&'static str>) -> Option<Seq<char>> {
    match code {
        Some(code) => Some(code@),
        None => None,
    }
}

impl View for Attempt {
    type V = AttemptView;

    open spec fn view(&self) -> AttemptView {
        AttemptView {
            snapshot_xid: self.snapshot_xid,
            snapshot_name: opt_text(self.snapshot_name),
            source_path: self.source_path@,
            fsoid: self.fsoid,
            status: self.status@,
            bytes: self.bytes,
            note: opt_text(self.note),
            error_code: code_text(self.error_code),
            error_message: opt_text(self.error_message),
            fallback_eligible: self.fallback_eligible,
        }
    }
}

/// A status that says that a leaf is where it should be, or would be.
pub open spec fn is_success(status: Seq<char>) -> bool {
    status == "recovered"@ || status == "dry-run"@
}

/// An attempt that ended with `error`.
pub open spec fn failed_attempt(
    snapshot_xid: u64,
    snapshot_name: Option<Seq<char>>,
    source_path: Seq<char>,
    fsoid: Option<u64>,
    error: ErrorView,
    fallback_eligible: bool,
) -> AttemptView {
    AttemptView {
        snapshot_xid,
        snapshot_name,
        source_path,
        fsoid,
        status: "error"@,
        bytes: 0,
        note: None,
        error_code: Some(error.kind.spec_code()),
        error_message: Some(error.message),
        fallback_eligible,
    }
}

/// A code and a message as a JSON object.
pub open spec fn error_object(code: Seq<char>, message: Seq<char>) -> JsonView {
    JsonView::Object(
        with(
            with(Seq::empty(), "code"@, JsonView::Str(code)),
            "message"@,
            JsonView::Str(message),
        ),
    )
}

fn error_json(code: &str, message: &str) -> (r: Json)
    ensures
        r@ == error_object(code@, message@),
{
    let mut f = Fields::new();
    f.put_str("code", code);
    f.put_str("message", message);
    f.object()
}

/// An attempt as the fields of a JSON object.
pub open spec fn attempt_fields(attempt: AttemptView) -> Seq<(Seq<char>, JsonView)> {
    let f = Seq::empty();
    let f = with(f, "snapshot_xid"@, JsonView::UInt(attempt.snapshot_xid));
    let f = with(f, "snapshot_name"@, text_or_null(attempt.snapshot_name));
    let f = with(f, "source_path"@, JsonView::Str(attempt.source_path));
    let f = with(f, "fsoid"@, hex_or_null(attempt.fsoid));
    let f = with(f, "status"@, JsonView::Str(attempt.status));
    let f = with(f, "bytes"@, JsonView::UInt(attempt.bytes));
    let f = with(f, "note"@, text_or_null(attempt.note));
    let f = with(f, "fallback_eligible"@, JsonView::Bool(attempt.fallback_eligible));
    with(
        f,
        "error"@,
        match (attempt.error_code, attempt.error_message) {
            (Some(code), Some(message)) => error_object(code, message),
            _ => JsonView::Null,
        },
    )
}

impl Attempt {
    /// An attempt that ended with an error.
    pub fn error(
        snapshot_xid: u64,
        snapshot_name: Option<String>,
        source_path: String,
        error: Error,
        fallback_eligible: bool,
    ) -> (r: Attempt)
        ensures
            r@ == failed_attempt(
                snapshot_xid,
                opt_text(snapshot_name),
                source_path@,
                None,
                error@,
                fallback_eligible,
            ),
    {
        Attempt {
            snapshot_xid,
            snapshot_name,
            source_path,
            fsoid: None,
            status: "error",
            bytes: 0,
            note: None,
            error_code: Some(error.kind().code()),
            error_message: Some(error.text()),
            fallback_eligible,
        }
    }

    /// The leaf is where it should be, or would be.
    pub fn is_success(&self) -> (r: bool)
        ensures
            r == is_success(self@.status),
    {
        str_eq(self.status, "recovered") || str_eq(self.status, "dry-run")
    }

    /// The attempt as a JSON object.
    pub fn to_json(&self) -> (r: Json)
        ensures
            r@ == JsonView::Object(attempt_fields(self@)),
    {
        let mut f = Fields::new();
        f.put_u64("snapshot_xid", self.snapshot_xid);
        f.put_opt_str("snapshot_name", &self.snapshot_name);
        f.put_str("source_path", self.source_path.as_str());
        f.put_opt_hex("fsoid", self.fsoid);
        f.put_str("status", self.status);
        f.put_u64("bytes", self.bytes);
        f.put_opt_str("note", &self.note);
        f.put_bool("fallback_eligible", self.fallback_eligible);
        match (self.error_code, &self.error_message) {
            (Some(code), Some(message)) => f.put("error", error_json(code, message.as_str())),
            _ => f.put("error", Json::Null),
        }
        f.object()
    }
}

// ---------------------------------------------------------------------------
// Summary
// ---------------------------------------------------------------------------

/// How many rows ended how.
#[derive(Debug, Clone, Copy, PartialEq, Eq, Structural)]
pub struct Summary {
    pub rows: u64,
    pub recovered: u64,
    pub dry_run: u64,
    pub skipped: u64,
    pub partial: u64,
    pub errors: u64,
}

impl Default for Summary {
    fn default() -> (r: Summary)
        ensures
            r == (Summary { rows: 0, recovered: 0, dry_run: 0, skipped: 0, partial: 0, errors: 0 }),
            r.well_formed(),
    {
        Summary { rows: 0, recovered: 0, dry_run: 0, skipped: 0, partial: 0, errors: 0 }
    }
}

/// `summary` with one more row, which ended with `status`.
pub open spec fn observed(summary: Summary, status: Seq<char>) -> Summary {
    let rows = (summary.rows + 1) as u64;
    if status == "recovered"@ {
        Summary { rows, recovered: (summary.recovered + 1) as u64, ..summary }
    } else if status == "dry-run"@ {
        Summary { rows, dry_run: (summary.dry_run + 1) as u64, ..summary }
    } else if status == "skipped-exists"@ {
        Summary { rows, skipped: (summary.skipped + 1) as u64, ..summary }
    } else if status == "partial"@ {
        Summary { rows, partial: (summary.partial + 1) as u64, ..summary }
    } else {
        Summary { rows, errors: (summary.errors + 1) as u64, ..summary }
    }
}

impl Summary {
    /// Each row is counted in exactly one way.
    pub open spec fn well_formed(self) -> bool {
        self.rows == self.recovered + self.dry_run + self.skipped + self.partial + self.errors
    }

    /// Counts a row that ended with `status`.
    pub fn observe(&mut self, status: &str)
        requires
            old(self).well_formed(),
            old(self).rows < u64::MAX,
        ensures
            final(self).well_formed(),
            *final(self) == observed(*old(self), status@),
    {
        self.rows += 1;
        if str_eq(status, "recovered") {
            self.recovered += 1;
        } else if str_eq(status, "dry-run") {
            self.dry_run += 1;
        } else if str_eq(status, "skipped-exists") {
            self.skipped += 1;
        } else if str_eq(status, "partial") {
            self.partial += 1;
        } else {
            self.errors += 1;
        }
    }

    /// Some row is not there as it was.
    pub fn incomplete(&self) -> (r: bool)
        ensures
            r == (self.partial > 0 || self.errors > 0),
    {
        self.partial > 0 || self.errors > 0
    }
}

// ---------------------------------------------------------------------------
// Work
// ---------------------------------------------------------------------------

/// A row at work: where it goes, where it is looked for next and what was tried.
#[derive(Debug)]
pub struct WorkItem {
    pub row: ManifestRow,
    pub target: String,
    pub current_source_path: String,
    /// The row is looked for in the snapshot that it names.
    pub primary: bool,
    pub attempts: Vec<Attempt>,
}

/// The mathematical content of a [`WorkItem`].
pub struct WorkView {
    pub row: RowView,
    pub target: Seq<char>,
    pub current_source_path: Seq<char>,
    pub primary: bool,
    pub attempts: Seq<AttemptView>,
}

/// The views of a list of attempts.
pub open spec fn attempt_views(attempts: Seq<Attempt>) -> Seq<AttemptView> {
    Seq::new(attempts.len(), |i: int| attempts[i]@)
}

impl View for WorkItem {
    type V = WorkView;

    open spec fn view(&self) -> WorkView {
        WorkView {
            row: self.row@,
            target: self.target@,
            current_source_path: self.current_source_path@,
            primary: self.primary,
            attempts: attempt_views(self.attempts@),
        }
    }
}

/// The first attempt that succeeded.
pub open spec fn first_success(attempts: Seq<AttemptView>) -> Option<AttemptView>
    decreases attempts.len(),
{
    if attempts.len() == 0 {
        None
    } else {
        match first_success(attempts.drop_last()) {
            Some(attempt) => Some(attempt),
            None => if is_success(attempts.last().status) {
                Some(attempts.last())
            } else {
                None
            },
        }
    }
}

/// The last attempt that was partial.
pub open spec fn last_partial(attempts: Seq<AttemptView>) -> Option<AttemptView>
    decreases attempts.len(),
{
    if attempts.len() == 0 {
        None
    } else if attempts.last().status == "partial"@ {
        Some(attempts.last())
    } else {
        last_partial(attempts.drop_last())
    }
}

/// The attempt that stands for all: one that succeeded, else the last partial one,
/// else the last.
pub open spec fn representative(attempts: Seq<AttemptView>) -> Option<AttemptView> {
    match first_success(attempts) {
        Some(attempt) => Some(attempt),
        None => match last_partial(attempts) {
            Some(attempt) => Some(attempt),
            None => if attempts.len() > 0 {
                Some(attempts.last())
            } else {
                None
            },
        },
    }
}

fn find_success(attempts: &Vec<Attempt>) -> (r: Option<&Attempt>)
    ensures
        match r {
            Some(attempt) => first_success(attempt_views(attempts@)) == Some(attempt@),
            None => first_success(attempt_views(attempts@)) is None,
        },
{
    let ghost views = attempt_views(attempts@);
    let mut found: Option<usize> = None;
    let mut i: usize = 0;
    proof {
        assert(views.take(0) =~= Seq::empty());
    }
    while i < attempts.len()
        invariant
            i <= attempts@.len(),
            views == attempt_views(attempts@),
            match found {
                Some(k) => k < i && first_success(views.take(i as int)) == Some(views[k as int]),
                None => first_success(views.take(i as int)) is None,
            },
        decreases attempts@.len() - i,
    {
        proof {
            assert(views.take(i + 1).drop_last() =~= views.take(i as int));
            assert(views.take(i + 1).last() == views[i as int]);
        }
        if found.is_none() && attempts[i].is_success() {
            found = Some(i);
        }
        i += 1;
    }
    proof {
        assert(views.take(i as int) =~= views);
    }
    match found {
        Some(k) => Some(&attempts[k]),
        None => None,
    }
}

fn find_partial(attempts: &Vec<Attempt>) -> (r: Option<&Attempt>)
    ensures
        match r {
            Some(attempt) => last_partial(attempt_views(attempts@)) == Some(attempt@),
            None => last_partial(attempt_views(attempts@)) is None,
        },
{
    let ghost views = attempt_views(attempts@);
    let mut found: Option<usize> = None;
    let mut i: usize = 0;
    proof {
        assert(views.take(0) =~= Seq::empty());
    }
    while i < attempts.len()
        invariant
            i <= attempts@.len(),
            views == attempt_views(attempts@),
            match found {
                Some(k) => k < i && last_partial(views.take(i as int)) == Some(views[k as int]),
                None => last_partial(views.take(i as int)) is None,
            },
        decreases attempts@.len() - i,
    {
        proof {
            assert(views.take(i + 1).drop_last() =~= views.take(i as int));
            assert(views.take(i + 1).last() == views[i as int]);
        }
        if str_eq(attempts[i].status, "partial") {
            found = Some(i);
        }
        i += 1;
    }
    proof {
        assert(views.take(i as int) =~= views);
    }
    match found {
        Some(k) => Some(&attempts[k]),
        None => None,
    }
}

fn find_representative(attempts: &Vec<Attempt>) -> (r: Option<&Attempt>)
    ensures
        match r {
            Some(attempt) => representative(attempt_views(attempts@)) == Some(attempt@),
            None => representative(attempt_views(attempts@)) is None,
        },
{
    match find_success(attempts) {
        Some(attempt) => Some(attempt),
        None => match find_partial(attempts) {
            Some(attempt) => Some(attempt),
            None => {
                if attempts.len() > 0 {
                    proof {
                        assert(attempt_views(attempts@).last() == attempts@.last()@);
                    }
                    Some(&attempts[attempts.len() - 1])
                } else {
                    None
                }
            },
        },
    }
}

// ---------------------------------------------------------------------------
// Report
// ---------------------------------------------------------------------------

/// A JSON object in a line of its own.
pub open spec fn json_line(fields: Seq<(Seq<char>, JsonView)>) -> Seq<char> {
    compact(JsonView::Object(fields)) + "\n"@
}

fn emit_jsonl(output: &mut String, value: Json)
    ensures
        final(output)@ == old(output)@ + (compact(value@) + "\n"@),
{
    let mut line = value.to_compact_string();
    line.append("\n");
    output.append(line.as_str());
}

/// What is reported of a line that cannot be used.
pub open spec fn invalid_fields(invalid: InvalidView) -> Seq<(Seq<char>, JsonView)> {
    let f = Seq::empty();
    let f = with(f, "schema_version"@, JsonView::UInt(SCHEMA_VERSION as u64));
    let f = with(f, "record"@, JsonView::Str("recovery_result"@));
    let f = with(f, "line"@, JsonView::UInt(invalid.line));
    let f = with(f, "status"@, JsonView::Str("error"@));
    with(f, "error"@, error_object("usage"@, invalid.message))
}

/// Reports a line that cannot be used.
pub fn emit_invalid(output: &mut String, invalid: &InvalidRow)
    ensures
        final(output)@ == old(output)@ + json_line(invalid_fields(invalid@)),
{
    let mut f = Fields::new();
    f.put_u64("schema_version", SCHEMA_VERSION as u64);
    f.put_str("record", "recovery_result");
    f.put_u64("line", invalid.line);
    f.put_str("status", "error");
    f.put("error", error_json("usage", invalid.message.as_str()));
    emit_jsonl(output, f.object());
}

/// What every report on a row begins with.
pub open spec fn base_fields(row: RowView) -> Seq<(Seq<char>, JsonView)> {
    let f = Seq::empty();
    let f = with(f, "schema_version"@, JsonView::UInt(SCHEMA_VERSION as u64));
    let f = with(f, "record"@, JsonView::Str("recovery_result"@));
    let f = with(f, "line"@, JsonView::UInt(row.line));
    let f = with(f, "requested_snapshot_xid"@, JsonView::UInt(row.snapshot_xid));
    let f = with(f, "requested_snapshot_name"@, text_or_null(row.snapshot_name));
    let f = with(f, "requested_source_path"@, JsonView::Str(row.source_path));
    with(f, "output_relative_path"@, JsonView::Str(row.output_relative_path))
}

fn base_result(row: &ManifestRow) -> (r: Fields)
    ensures
        r@ == base_fields(row@),
{
    let mut f = Fields::new();
    f.put_u64("schema_version", SCHEMA_VERSION as u64);
    f.put_str("record", "recovery_result");
    f.put_u64("line", row.line);
    f.put_u64("requested_snapshot_xid", row.snapshot_xid);
    f.put_opt_str("requested_snapshot_name", &row.snapshot_name);
    f.put_str("requested_source_path", row.source_path.as_str());
    f.put_str("output_relative_path", row.output_relative_path.as_str());
    f
}

/// What is reported of a row for which nothing was attempted.
pub open spec fn untried_fields(
    row: RowView,
    status: Seq<char>,
    note: JsonView,
    error: JsonView,
) -> Seq<(Seq<char>, JsonView)> {
    let f = base_fields(row);
    let f = with(f, "status"@, JsonView::Str(status));
    let f = with(f, "attempted_snapshot_xids"@, JsonView::Array(Seq::empty()));
    let f = with(f, "attempted_snapshot_names"@, JsonView::Array(Seq::empty()));
    let f = with(f, "actual_snapshot_xid"@, JsonView::Null);
    let f = with(f, "actual_snapshot_name"@, JsonView::Null);
    let f = with(f, "actual_source_path"@, JsonView::Null);
    let f = with(f, "fallback_used"@, JsonView::Bool(false));
    let f = with(f, "fsoid"@, JsonView::Null);
    let f = with(f, "bytes"@, JsonView::UInt(0));
    let f = with(f, "note"@, note);
    let f = with(f, "attempts"@, JsonView::Array(Seq::empty()));
    with(f, "error"@, error)
}

fn put_empty_array(f: &mut Fields, key: &str)
    ensures
        final(f)@ == with(old(f)@, key@, JsonView::Array(Seq::empty())),
{
    let none: Vec<Json> = Vec::new();
    proof {
        assert(json_values(none@) =~= Seq::empty());
    }
    f.put_array(key, none);
}

fn untried_json(row: &ManifestRow, status: &str, note: Json, error: Json) -> (r: Json)
    ensures
        r@ == JsonView::Object(untried_fields(row@, status@, note@, error@)),
{
    let mut f = base_result(row);
    f.put_str("status", status);
    put_empty_array(&mut f, "attempted_snapshot_xids");
    put_empty_array(&mut f, "attempted_snapshot_names");
    f.put("actual_snapshot_xid", Json::Null);
    f.put("actual_snapshot_name", Json::Null);
    f.put("actual_source_path", Json::Null);
    f.put_bool("fallback_used", false);
    f.put("fsoid", Json::Null);
    f.put_u64("bytes", 0);
    f.put("note", note);
    put_empty_array(&mut f, "attempts");
    f.put("error", error);
    f.object()
}

/// What is reported of a row that cannot be worked on.
pub open spec fn row_error_fields(row: RowView, code: Seq<char>, message: Seq<char>) -> Seq<
    (Seq<char>, JsonView),
> {
    untried_fields(row, "error"@, JsonView::Null, error_object(code, message))
}

/// Reports a row that cannot be worked on.
pub fn emit_row_error(output: &mut String, row: &ManifestRow, code: &str, message: &str)
    ensures
        final(output)@ == old(output)@ + json_line(row_error_fields(row@, code@, message@)),
{
    emit_jsonl(output, untried_json(row, "error", Json::Null, error_json(code, message)));
}

/// What is reported of a row whose destination is occupied.
pub open spec fn skipped_fields(row: RowView, note: Seq<char>) -> Seq<(Seq<char>, JsonView)> {
    untried_fields(row, "skipped-exists"@, JsonView::Str(note), JsonView::Null)
}

/// Reports a row whose destination is occupied.
pub fn emit_skipped(output: &mut String, row: &ManifestRow, note: &str)
    ensures
        final(output)@ == old(output)@ + json_line(skipped_fields(row@, note@)),
{
    emit_jsonl(
        output,
        untried_json(row, "skipped-exists", Json::Str(note.to_owned()), Json::Null),
    );
}

/// What is reported as the error of a row that was worked on.
pub open spec fn work_error(attempts: Seq<AttemptView>, status: Seq<char>) -> JsonView {
    if is_success(status) {
        JsonView::Null
    } else if status == "partial"@ {
        error_object(
            ErrorKind::PartialRecovery.spec_code(),
            "no snapshot produced complete content"@,
        )
    } else {
        let (code, message) = if attempts.len() > 0 {
            (attempts.last().error_code, attempts.last().error_message)
        } else {
            (None, None)
        };
        error_object(
            match code {
                Some(code) => code,
                None => ErrorKind::ObjectNotFound.spec_code(),
            },
            match message {
                Some(message) => message,
                None => "no snapshot produced recoverable content"@,
            },
        )
    }
}

/// What is reported of a row that was worked on.
pub open spec fn work_fields(item: WorkView, status: Seq<char>) -> Seq<(Seq<char>, JsonView)> {
    let attempts = item.attempts;
    let success = first_success(attempts);
    let shown = representative(attempts);
    let f = base_fields(item.row);
    let f = with(f, "status"@, JsonView::Str(status));
    let f = with(
        f,
        "attempted_snapshot_xids"@,
        JsonView::Array(
            Seq::new(attempts.len(), |i: int| JsonView::UInt(attempts[i].snapshot_xid)),
        ),
    );
    let f = with(
        f,
        "attempted_snapshot_names"@,
        JsonView::Array(
            Seq::new(attempts.len(), |i: int| text_or_null(attempts[i].snapshot_name)),
        ),
    );
    let f = with(
        f,
        "actual_snapshot_xid"@,
        match success {
            Some(attempt) => JsonView::UInt(attempt.snapshot_xid),
            None => JsonView::Null,
        },
    );
    let f = with(
        f,
        "actual_snapshot_name"@,
        match success {
            Some(attempt) => text_or_null(attempt.snapshot_name),
            None => JsonView::Null,
        },
    );
    let f = with(
        f,
        "actual_source_path"@,
        match success {
            Some(attempt) => JsonView::Str(attempt.source_path),
            None => JsonView::Null,
        },
    );
    let f = with(
        f,
        "fallback_used"@,
        JsonView::Bool(
            match success {
                Some(attempt) => attempt.snapshot_xid != item.row.snapshot_xid,
                None => false,
            },
        ),
    );
    let f = with(
        f,
        "fsoid"@,
        match shown {
            Some(attempt) => hex_or_null(attempt.fsoid),
            None => JsonView::Null,
        },
    );
    let f = with(
        f,
        "bytes"@,
        JsonView::UInt(
            match shown {
                Some(attempt) => attempt.bytes,
                None => 0,
            },
        ),
    );
    let f = with(
        f,
        "note"@,
        match shown {
            Some(attempt) => text_or_null(attempt.note),
            None => JsonView::Null,
        },
    );
    let f = with(
        f,
        "attempts"@,
        JsonView::Array(
            Seq::new(attempts.len(), |i: int| JsonView::Object(attempt_fields(attempts[i]))),
        ),
    );
    with(f, "error"@, work_error(attempts, status))
}

fn text_json(text: &Option<String>) -> (r: Json)
    ensures
        r@ == text_or_null(opt_text(*text)),
{
    match text {
        Some(text) => Json::Str(text.clone()),
        None => Json::Null,
    }
}

fn attempt_lists(attempts: &Vec<Attempt>) -> (r: (Vec<Json>, Vec<Json>, Vec<Json>))
    ensures
        ({
            let views = attempt_views(attempts@);
            &&& json_values(r.0@) == Seq::new(
                views.len(),
                |i: int| JsonView::UInt(views[i].snapshot_xid),
            )
            &&& json_values(r.1@) == Seq::new(
                views.len(),
                |i: int| text_or_null(views[i].snapshot_name),
            )
            &&& json_values(r.2@) == Seq::new(
                views.len(),
                |i: int| JsonView::Object(attempt_fields(views[i])),
            )
        }),
{
    let ghost views = attempt_views(attempts@);
    let mut xids: Vec<Json> = Vec::new();
    let mut names: Vec<Json> = Vec::new();
    let mut objects: Vec<Json> = Vec::new();
    let mut i: usize = 0;
    while i < attempts.len()
        invariant
            i <= attempts@.len(),
            views == attempt_views(attempts@),
            xids@.len() == i,
            names@.len() == i,
            objects@.len() == i,
            forall|k: int|
                0 <= k < i ==> (#[trigger] xids@[k])@ == JsonView::UInt(views[k].snapshot_xid),
            forall|k: int|
                0 <= k < i ==> (#[trigger] names@[k])@ == text_or_null(views[k].snapshot_name),
            forall|k: int|
                0 <= k < i ==> (#[trigger] objects@[k])@ == JsonView::Object(
                    attempt_fields(views[k]),
                ),
        decreases attempts@.len() - i,
    {
        xids.push(Json::UInt(attempts[i].snapshot_xid));
        names.push(text_json(&attempts[i].snapshot_name));
        objects.push(attempts[i].to_json());
        i += 1;
    }
    proof {
        assert(json_values(xids@) =~= Seq::new(
            views.len(),
            |i: int| JsonView::UInt(views[i].snapshot_xid),
        ));
        assert(json_values(names@) =~= Seq::new(
            views.len(),
            |i: int| text_or_null(views[i].snapshot_name),
        ));
        assert(json_values(objects@) =~= Seq::new(
            views.len(),
            |i: int| JsonView::Object(attempt_fields(views[i])),
        ));
    }
    (xids, names, objects)
}

fn work_error_json(attempts: &Vec<Attempt>, status: &str) -> (r: Json)
    ensures
        r@ == work_error(attempt_views(attempts@), status@),
{
    if str_eq(status, "recovered") || str_eq(status, "dry-run") {
        return Json::Null;
    }
    if str_eq(status, "partial") {
        return error_json(
            ErrorKind::PartialRecovery.code(),
            "no snapshot produced complete content",
        );
    }
    let mut code = ErrorKind::ObjectNotFound.code();
    let mut message = "no snapshot produced recoverable content".to_owned();
    if attempts.len() > 0 {
        let last = &attempts[attempts.len() - 1];
        proof {
            assert(attempt_views(attempts@).last() == last@);
        }
        match last.error_code {
            Some(known) => {
                code = known;
            },
            None => {},
        }
        match &last.error_message {
            Some(known) => {
                message = known.clone();
            },
            None => {},
        }
    }
    error_json(code, message.as_str())
}

/// Reports a row that was worked on.
pub fn emit_work_item(output: &mut String, item: &WorkItem, status: &str)
    ensures
        final(output)@ == old(output)@ + json_line(work_fields(item@, status@)),
{
    let (xids, names, objects) = attempt_lists(&item.attempts);
    let success = find_success(&item.attempts);
    let shown = find_representative(&item.attempts);
    let mut f = base_result(&item.row);
    f.put_str("status", status);
    f.put_array("attempted_snapshot_xids", xids);
    f.put_array("attempted_snapshot_names", names);
    match success {
        Some(attempt) => {
            f.put_u64("actual_snapshot_xid", attempt.snapshot_xid);
            f.put("actual_snapshot_name", text_json(&attempt.snapshot_name));
            f.put_str("actual_source_path", attempt.source_path.as_str());
            f.put_bool("fallback_used", attempt.snapshot_xid != item.row.snapshot_xid);
        },
        None => {
            f.put("actual_snapshot_xid", Json::Null);
            f.put("actual_snapshot_name", Json::Null);
            f.put("actual_source_path", Json::Null);
            f.put_bool("fallback_used", false);
        },
    }
    match shown {
        Some(attempt) => {
            f.put_opt_hex("fsoid", attempt.fsoid);
            f.put_u64("bytes", attempt.bytes);
            f.put("note", text_json(&attempt.note));
        },
        None => {
            f.put("fsoid", Json::Null);
            f.put_u64("bytes", 0);
            f.put("note", Json::Null);
        },
    }
    f.put_array("attempts", objects);
    f.put("error", work_error_json(&item.attempts, status));
    emit_jsonl(output, f.object());
}

// ---------------------------------------------------------------------------
// Older snapshots
// ---------------------------------------------------------------------------

/// Where a leaf is looked for in the snapshot `name`: below the root that the
/// template means there. Braces may be doubled.
pub open spec fn fallback_path(
    template: Seq<char>,
    name: Seq<char>,
    relative_path: Seq<char>,
) -> Seq<char> {
    let root = replaced(template, "{{snapshot-dir}}"@, directory_name(name));
    let root = replaced(root, "{snapshot-dir}"@, directory_name(name));
    let root = replaced(root, "{{snapshot}}"@, name);
    let root = replaced(root, "{snapshot}"@, name);
    trimmed(root) + "/"@ + relative_path
}

/// Where a leaf is looked for in the snapshot `snapshot_name`.
pub fn fallback_source_path(template: &str, snapshot_name: &str, relative_path: &str) -> (r: String)
    ensures
        r@ == fallback_path(template@, snapshot_name@, relative_path@),
{
    let directory = strip_prefix_or_all(snapshot_name, "com.apple.TimeMachine.");
    proof {
        reveal_strlit("{{snapshot-dir}}");
        reveal_strlit("{snapshot-dir}");
        reveal_strlit("{{snapshot}}");
        reveal_strlit("{snapshot}");
    }
    let root = replace_all(template, "{{snapshot-dir}}", directory.as_str());
    let root = replace_all(root.as_str(), "{snapshot-dir}", directory.as_str());
    let root = replace_all(root.as_str(), "{{snapshot}}", snapshot_name);
    let root = replace_all(root.as_str(), "{snapshot}", snapshot_name);
    let mut path = trim_root(root.as_str());
    path.append("/");
    path.append(relative_path);
    path
}

/// `key` is the newest of `keys` before `bound`.
pub open spec fn is_newest_before(keys: Set<u64>, bound: u64, key: u64) -> bool {
    &&& keys.contains(key)
    &&& key < bound
    &&& forall|k: u64| #[trigger] keys.contains(k) && k < bound ==> k <= key
}

/// The newest of `keys` before `bound`, if there is one.
pub open spec fn newest_before(keys: Set<u64>, bound: u64) -> Option<u64> {
    if exists|key: u64| is_newest_before(keys, bound, key) {
        Some(choose|key: u64| is_newest_before(keys, bound, key))
    } else {
        None
    }
}

/// The work that waits for each snapshot.
pub open spec fn queue_view(queue: Map<u64, Vec<WorkItem>>) -> Map<u64, Seq<WorkView>> {
    queue.map_values(|work: Vec<WorkItem>| work_views(work@))
}

/// The views of a list of work.
pub open spec fn work_views(work: Seq<WorkItem>) -> Seq<WorkView> {
    Seq::new(work.len(), |i: int| work[i]@)
}

/// `queue` with one more piece of work for snapshot `xid`.
pub open spec fn queued(queue: Map<u64, Seq<WorkView>>, xid: u64, item: WorkView) -> Map<
    u64,
    Seq<WorkView>,
> {
    if queue.contains_key(xid) {
        queue.insert(xid, queue[xid].push(item))
    } else {
        queue.insert(xid, seq![item])
    }
}

proof fn lemma_newest_before(keys: Set<u64>, bound: u64, found: Option<u64>)
    requires
        match found {
            Some(key) => is_newest_before(keys, bound, key),
            None => forall|k: u64| #[trigger] keys.contains(k) ==> k >= bound,
        },
    ensures
        newest_before(keys, bound) == found,
{
    match found {
        Some(key) => {
            let other = newest_before(keys, bound)->Some_0;
            assert(is_newest_before(keys, bound, other));
            assert(keys.contains(other) && keys.contains(key));
        },
        None => {
            assert forall|key: u64| !is_newest_before(keys, bound, key) by {
                if is_newest_before(keys, bound, key) {
                    assert(keys.contains(key));
                }
            }
        },
    }
}

pub(crate) fn enqueue(queue: &mut XidMap<Vec<WorkItem>>, xid: u64, item: WorkItem)
    ensures
        queue_view(final(queue)@) == queued(queue_view(old(queue)@), xid, item@),
{
    let ghost before = queue@;
    let ghost view = item@;
    let mut work: Vec<WorkItem> = match queue.remove(xid) {
        Some(work) => work,
        None => Vec::new(),
    };
    let ghost waiting = work@;
    work.push(item);
    proof {
        assert(work_views(work@) =~= work_views(waiting).push(view));
        if !before.contains_key(xid) {
            assert(work_views(work@) =~= seq![view]);
        }
    }
    queue.insert(xid, work);
    proof {
        assert(queue_view(queue@) =~= queued(queue_view(before), xid, view));
    }
}

/// The status of a row that was given up: partial where some attempt was.
pub open spec fn given_up_status(attempts: Seq<AttemptView>) -> Seq<char> {
    if last_partial(attempts) is Some {
        "partial"@
    } else {
        "error"@
    }
}

/// The snapshot in which a row is looked for after its last attempt, which was in
/// snapshot `current`: the newest older one, where older ones may be tried and the
/// attempt does not rule them out.
pub open spec fn next_snapshot(
    attempts: Seq<AttemptView>,
    current: u64,
    snapshots: Set<u64>,
    fallback: bool,
) -> Option<u64> {
    if fallback && attempts.len() > 0 && !is_success(attempts.last().status)
        && attempts.last().fallback_eligible {
        newest_before(snapshots, current)
    } else {
        None
    }
}

/// The status with which a row is reported after its last attempt.
pub open spec fn final_status(attempts: Seq<AttemptView>) -> Seq<char> {
    if attempts.len() > 0 && is_success(attempts.last().status) {
        attempts.last().status
    } else {
        given_up_status(attempts)
    }
}

/// A row that is to be looked for in an older snapshot.
pub open spec fn rescheduled(
    item: WorkView,
    template: Seq<char>,
    snapshot_name: Seq<char>,
) -> WorkView {
    WorkView {
        current_source_path: fallback_path(
            template,
            snapshot_name,
            item.row.relative_path->Some_0,
        ),
        primary: false,
        ..item
    }
}

/// What is known of a run: the work that waits, what is still to be reported, how many
/// rows ended how, and the journal of the destination.
pub struct RunView {
    pub queue: Map<u64, Seq<WorkView>>,
    pub output: Seq<char>,
    pub summary: Summary,
    pub log: Seq<Event>,
}

/// The run with this queue, report and summary, where `log` is the journal.
pub open spec fn run_view(
    queue: Map<u64, Vec<WorkItem>>,
    output: Seq<char>,
    summary: Summary,
    log: Seq<Event>,
) -> RunView {
    RunView { queue: queue_view(queue), output, summary, log }
}

/// A run after an attempt on `item` in snapshot `current`: the row is reported, or it
/// waits for an older snapshot.
pub open spec fn finished(
    before: RunView,
    item: WorkView,
    current: u64,
    snapshots: Map<u64, SnapshotInfo>,
    opts: Options,
) -> RunView {
    match next_snapshot(item.attempts, current, snapshots.dom(), opts.fallback_history) {
        Some(older) => RunView {
            queue: queued(
                before.queue,
                older,
                rescheduled(item, opts.path_template->Some_0@, snapshots[older].name@),
            ),
            ..before
        },
        None => RunView {
            output: before.output + json_line(work_fields(item, final_status(item.attempts))),
            summary: observed(before.summary, final_status(item.attempts)),
            ..before
        },
    }
}

/// Reports a row after an attempt in snapshot `current_xid`, or puts it up for the
/// newest older snapshot.
pub fn finish_or_reschedule(
    item: WorkItem,
    current_xid: u64,
    snapshots: &XidMap<SnapshotInfo>,
    opts: &Options,
    queue: &mut XidMap<Vec<WorkItem>>,
    output: &mut String,
    summary: &mut Summary,
)
    requires
        opts.fallback_history ==> opts.path_template is Some && item.row.relative_path is Some,
        old(summary).well_formed(),
        old(summary).rows < u64::MAX,
    ensures
        final(summary).well_formed(),
        forall|log: Seq<Event>| #[trigger]
            run_view(final(queue)@, final(output)@, *final(summary), log) == finished(
                run_view(old(queue)@, old(output)@, *old(summary), log),
                item@,
                current_xid,
                snapshots@,
                *opts,
            ),
{
    let ghost attempts = attempt_views(item.attempts@);
    let mut status = "error";
    let mut eligible = false;
    let mut success = false;
    if item.attempts.len() > 0 {
        let last = &item.attempts[item.attempts.len() - 1];
        proof {
            assert(attempts.last() == last@);
        }
        success = last.is_success();
        eligible = last.fallback_eligible;
        status = last.status;
    }
    if !success {
        if opts.fallback_history && eligible {
            let found = snapshots.largest_below(current_xid);
            proof {
                lemma_newest_before(
                    snapshots@.dom(),
                    current_xid,
                    match found {
                        Some((key, _)) => Some(key),
                        None => None,
                    },
                );
            }
            match found {
                Some((older_xid, older)) => {
                    match (&opts.path_template, &item.row.relative_path) {
                        (Some(template), Some(relative_path)) => {
                            let path = fallback_source_path(
                                template.as_str(),
                                older.name.as_str(),
                                relative_path.as_str(),
                            );
                            let mut item = item;
                            item.current_source_path = path;
                            item.primary = false;
                            enqueue(queue, older_xid, item);
                        },
                        _ => {},
                    }
                    return ;
                },
                None => {},
            }
        }
        status =
        if find_partial(&item.attempts).is_some() {
            "partial"
        } else {
            "error"
        };
    }
    emit_work_item(output, &item, status);
    summary.observe(status);
}

// ---------------------------------------------------------------------------
// Laws
// ---------------------------------------------------------------------------

/// A row is only ever put up for a snapshot that is strictly older than the one it
/// was just looked for in, so that no snapshot is tried twice and the work comes to
/// an end; and only where older snapshots may be tried.
pub proof fn law_fallback_goes_strictly_back(
    before: RunView,
    item: WorkView,
    current: u64,
    snapshots: Map<u64, SnapshotInfo>,
    opts: Options,
    xid: u64,
)
    requires
        finished(before, item, current, snapshots, opts).queue != before.queue,
        finished(before, item, current, snapshots, opts).queue.contains_key(xid),
        !before.queue.contains_key(xid) || finished(
            before,
            item,
            current,
            snapshots,
            opts,
        ).queue[xid] != before.queue[xid],
    ensures
        xid < current,
        snapshots.contains_key(xid),
        opts.fallback_history,
        forall|k: u64| #[trigger] snapshots.contains_key(k) && k < current ==> k <= xid,
        finished(before, item, current, snapshots, opts).output == before.output,
        finished(before, item, current, snapshots, opts).summary == before.summary,
{
    let older = next_snapshot(item.attempts, current, snapshots.dom(), opts.fallback_history);
    assert(older == Some(xid));
    assert(is_newest_before(snapshots.dom(), current, xid));
    assert forall|k: u64| #[trigger] snapshots.contains_key(k) && k < current implies k <= xid by {
        assert(snapshots.dom().contains(k));
    }
}

/// A row counts as recovered only where its last attempt says so. A partial attempt
/// is never counted as success: its row waits for an older snapshot, or it is
/// reported as partial.
pub proof fn law_partial_is_never_success(
    before: RunView,
    item: WorkView,
    current: u64,
    snapshots: Map<u64, SnapshotInfo>,
    opts: Options,
)
    requires
        item.attempts.len() > 0,
        !is_success(item.attempts.last().status),
    ensures
        ({
            let after = finished(before, item, current, snapshots, opts);
            &&& after.summary.recovered == before.summary.recovered
            &&& after.summary.dry_run == before.summary.dry_run
            &&& item.attempts.last().status == "partial"@ && after.queue == before.queue
                ==> after.summary.partial == (before.summary.partial + 1) as u64
        }),
{
    reveal_strlit("recovered");
    reveal_strlit("dry-run");
    reveal_strlit("partial");
    reveal_strlit("error");
    reveal_strlit("skipped-exists");
    assert("partial"@.len() != "recovered"@.len());
    assert("partial"@[0] != "dry-run"@[0]);
    assert("error"@.len() != "recovered"@.len());
    assert("error"@.len() != "dry-run"@.len());
    assert("partial"@.len() != "skipped-exists"@.len());
    match next_snapshot(item.attempts, current, snapshots.dom(), opts.fallback_history) {
        Some(older) => {
            let row = rescheduled(item, opts.path_template->Some_0@, snapshots[older].name@);
            let after = queued(before.queue, older, row);
            if before.queue.contains_key(older) {
                assert(after[older].len() == before.queue[older].len() + 1);
            } else {
                assert(after.contains_key(older));
            }
        },
        None => {},
    }
}

/// The newest of `keys` before `bound`, given that some key is before it.
proof fn newest_of(keys: Set<u64>, bound: u64, key: u64) -> (newest: u64)
    requires
        keys.contains(key),
        key < bound,
    ensures
        is_newest_before(keys, bound, newest),
        newest_before(keys, bound) == Some(newest),
    decreases bound,
{
    let below = (bound - 1) as u64;
    let newest = if keys.contains(below) {
        below
    } else {
        newest_of(keys, below, key)
    };
    assert(is_newest_before(keys, bound, newest));
    lemma_newest_before(keys, bound, Some(newest));
    newest
}

/// Whenever older snapshots may be tried, the last attempt on a row did not succeed and does
/// not rule them out, and there is an older snapshot, the row is put up for the newest of
/// those: at the end of what waits for it, with all attempts so far, to be looked for below
/// that snapshot's root. Nothing else is put up, and nothing is reported.
pub proof fn law_eligible_row_is_put_up_for_the_next_older_snapshot(
    before: RunView,
    item: WorkView,
    current: u64,
    snapshots: Map<u64, SnapshotInfo>,
    opts: Options,
    known: u64,
) -> (older: u64)
    requires
        opts.fallback_history,
        item.attempts.len() > 0,
        item.attempts[item.attempts.len() - 1].status != "recovered"@,
        item.attempts[item.attempts.len() - 1].status != "dry-run"@,
        item.attempts[item.attempts.len() - 1].fallback_eligible,
        snapshots.contains_key(known),
        known < current,
    ensures
        snapshots.contains_key(older),
        older < current,
        forall|xid: u64| #[trigger]
            snapshots.contains_key(xid) && xid < current ==> xid <= older,
        ({
            let after = finished(before, item, current, snapshots, opts);
            let n = if before.queue.contains_key(older) {
                before.queue[older].len() as int
            } else {
                0
            };
            let last = after.queue[older][n];
            &&& after.queue.contains_key(older)
            &&& after.queue[older].len() == n + 1
            &&& forall|i: int|
                0 <= i < n ==> #[trigger] after.queue[older][i] == before.queue[older][i]
            &&& last.row == item.row
            &&& last.target == item.target
            &&& last.attempts == item.attempts
            &&& !last.primary
            &&& last.current_source_path == fallback_path(
                opts.path_template->Some_0@,
                snapshots[older].name@,
                item.row.relative_path->Some_0,
            )
            &&& forall|xid: u64|
                xid != older ==> (#[trigger] after.queue.contains_key(xid)
                    == before.queue.contains_key(xid))
            &&& forall|xid: u64|
                xid != older && before.queue.contains_key(xid) ==> #[trigger] after.queue[xid]
                    == before.queue[xid]
            &&& after.output == before.output
            &&& after.summary == before.summary
            &&& after.log == before.log
        }),
{
    assert(snapshots.dom().contains(known));
    let older = newest_of(snapshots.dom(), current, known);
    assert forall|xid: u64| #[trigger] snapshots.contains_key(xid) && xid < current implies xid
        <= older by {
        assert(snapshots.dom().contains(xid));
    }
    older
}

/// The attempt at `k` is the first that put the leaf where it should be, or would have.
pub open spec fn succeeded_first_at(attempts: Seq<AttemptView>, k: int) -> bool {
    &&& 0 <= k < attempts.len()
    &&& attempts[k].status == "recovered"@ || attempts[k].status == "dry-run"@
    &&& forall|j: int|
        0 <= j < k ==> (#[trigger] attempts[j]).status != "recovered"@ && attempts[j].status
            != "dry-run"@
}

/// No attempt put the leaf where it should be, or would have.
pub open spec fn none_succeeded(attempts: Seq<AttemptView>) -> bool {
    forall|j: int|
        0 <= j < attempts.len() ==> (#[trigger] attempts[j]).status != "recovered"@
            && attempts[j].status != "dry-run"@
}

/// The attempt at `k` is the last that gave part of the leaf.
pub open spec fn partial_last_at(attempts: Seq<AttemptView>, k: int) -> bool {
    &&& 0 <= k < attempts.len()
    &&& attempts[k].status == "partial"@
    &&& forall|j: int| k < j < attempts.len() ==> (#[trigger] attempts[j]).status != "partial"@
}

/// No attempt gave part of the leaf.
pub open spec fn none_partial(attempts: Seq<AttemptView>) -> bool {
    forall|j: int| 0 <= j < attempts.len() ==> (#[trigger] attempts[j]).status != "partial"@
}

/// The attempt at `k` stands for all: the first that succeeded; without one, the last
/// partial one; without either, the last.
pub open spec fn stands_for_all(attempts: Seq<AttemptView>, k: int) -> bool {
    ||| succeeded_first_at(attempts, k)
    ||| none_succeeded(attempts) && partial_last_at(attempts, k)
    ||| none_succeeded(attempts) && none_partial(attempts) && 0 <= k == attempts.len() - 1
}

proof fn lemma_first_success(attempts: Seq<AttemptView>)
    ensures
        none_succeeded(attempts) ==> first_success(attempts) is None,
        forall|k: int| #[trigger]
            succeeded_first_at(attempts, k) ==> first_success(attempts) == Some(attempts[k]),
    decreases attempts.len(),
{
    if attempts.len() > 0 {
        let shorter = attempts.drop_last();
        lemma_first_success(shorter);
        assert(none_succeeded(attempts) ==> none_succeeded(shorter)) by {
            if none_succeeded(attempts) {
                assert forall|j: int| 0 <= j < shorter.len() implies (#[trigger] shorter[j]).status
                    != "recovered"@ && shorter[j].status != "dry-run"@ by {
                    assert(attempts[j] == shorter[j]);
                }
            }
        }
        assert forall|k: int| #[trigger] succeeded_first_at(attempts, k) implies first_success(
            attempts,
        ) == Some(attempts[k]) by {
            assert forall|j: int| 0 <= j < shorter.len() && j < k implies (#[trigger] shorter[j]).status
                != "recovered"@ && shorter[j].status != "dry-run"@ by {
                assert(attempts[j] == shorter[j]);
            }
            if k < shorter.len() {
                assert(succeeded_first_at(shorter, k));
            } else {
                assert(none_succeeded(shorter));
            }
        }
    }
}

proof fn lemma_last_partial(attempts: Seq<AttemptView>)
    ensures
        none_partial(attempts) <==> last_partial(attempts) is None,
        forall|k: int| #[trigger]
            partial_last_at(attempts, k) ==> last_partial(attempts) == Some(attempts[k]),
    decreases attempts.len(),
{
    if attempts.len() > 0 {
        let shorter = attempts.drop_last();
        let last = attempts.len() - 1;
        lemma_last_partial(shorter);
        assert(forall|j: int| 0 <= j < last ==> #[trigger] shorter[j] == attempts[j]);
        if attempts.last().status != "partial"@ {
            if none_partial(shorter) {
                assert forall|j: int| 0 <= j < attempts.len() implies (#[trigger] attempts[j]).status
                    != "partial"@ by {
                    if j < last {
                        assert(shorter[j] == attempts[j]);
                    }
                }
            }
            if none_partial(attempts) {
                assert forall|j: int| 0 <= j < shorter.len() implies (#[trigger] shorter[j]).status
                    != "partial"@ by {
                    assert(shorter[j] == attempts[j]);
                }
            }
        } else {
            assert(attempts[last].status == "partial"@);
        }
        assert forall|k: int| #[trigger] partial_last_at(attempts, k) implies last_partial(attempts)
            == Some(attempts[k]) by {
            if k < last {
                assert(attempts[last].status != "partial"@);
                assert forall|j: int| k < j < shorter.len() implies (#[trigger] shorter[j]).status
                    != "partial"@ by {
                    assert(shorter[j] == attempts[j]);
                }
                assert(partial_last_at(shorter, k));
            }
        }
    }
}

/// A row that is not put up again is reported in one line and counted once. Its status is
/// that of its last attempt where this succeeded; else it is partial where some attempt
/// was, and an error where none was.
pub proof fn law_row_that_does_not_wait_is_reported(
    before: RunView,
    item: WorkView,
    current: u64,
    snapshots: Map<u64, SnapshotInfo>,
    opts: Options,
)
    requires
        ({
            ||| !opts.fallback_history
            ||| item.attempts.len() == 0
            ||| item.attempts[item.attempts.len() - 1].status == "recovered"@
            ||| item.attempts[item.attempts.len() - 1].status == "dry-run"@
            ||| !item.attempts[item.attempts.len() - 1].fallback_eligible
            ||| forall|xid: u64| #[trigger] snapshots.contains_key(xid) ==> xid >= current
        }),
    ensures
        ({
            let after = finished(before, item, current, snapshots, opts);
            let last = item.attempts[item.attempts.len() - 1].status;
            let status = if item.attempts.len() > 0 && (last == "recovered"@ || last
                == "dry-run"@) {
                last
            } else if exists|k: int|
                0 <= k < item.attempts.len() && (#[trigger] item.attempts[k]).status
                    == "partial"@ {
                "partial"@
            } else {
                "error"@
            };
            &&& after.queue == before.queue
            &&& after.log == before.log
            &&& after.output == before.output + (compact(
                JsonView::Object(work_fields(item, status)),
            ) + "\n"@)
            &&& after.summary == observed(before.summary, status)
        }),
{
    lemma_last_partial(item.attempts);
    if forall|xid: u64| #[trigger] snapshots.contains_key(xid) ==> xid >= current {
        assert forall|xid: u64| #[trigger] snapshots.dom().contains(xid) implies xid >= current by {
            assert(snapshots.contains_key(xid));
        }
        lemma_newest_before(snapshots.dom(), current, None);
    }
}

/// Each row is counted as a row and once more: as recovered, as a dry run, as skipped, as
/// partial, or as an error.
pub proof fn law_each_status_has_its_count(summary: Summary, status: Seq<char>)
    requires
        summary.well_formed(),
        summary.rows < u64::MAX,
    ensures
        ({
            let after = observed(summary, status);
            let known = status == "recovered"@ || status == "dry-run"@ || status
                == "skipped-exists"@ || status == "partial"@;
            &&& after.rows == summary.rows + 1
            &&& after.recovered == summary.recovered + (if status == "recovered"@ { 1int } else { 0 })
            &&& after.dry_run == summary.dry_run + (if status == "dry-run"@ { 1int } else { 0 })
            &&& after.skipped == summary.skipped + (if status == "skipped-exists"@ {
                1int
            } else {
                0
            })
            &&& after.partial == summary.partial + (if status == "partial"@ { 1int } else { 0 })
            &&& after.errors == summary.errors + (if known { 0int } else { 1 })
        }),
{
    reveal_strlit("recovered");
    reveal_strlit("dry-run");
    reveal_strlit("partial");
    reveal_strlit("skipped-exists");
    assert("recovered"@.len() == 9 && "dry-run"@.len() == 7 && "partial"@.len() == 7
        && "skipped-exists"@.len() == 14);
    assert("partial"@[0] != "dry-run"@[0]);
}

/// The object of an attempt has one field for each of its properties.
pub proof fn law_attempt_object_names_each_property(attempt: AttemptView)
    ensures
        ({
            let f = attempt_fields(attempt);
            &&& says(f, "snapshot_xid"@, JsonView::UInt(attempt.snapshot_xid))
            &&& says(f, "snapshot_name"@, text_or_null(attempt.snapshot_name))
            &&& says(f, "source_path"@, JsonView::Str(attempt.source_path))
            &&& attempt.fsoid matches Some(fsoid) ==> says(
                f,
                "fsoid"@,
                JsonView::Str(hex_prefixed(fsoid as nat)),
            )
            &&& attempt.fsoid is None ==> says(f, "fsoid"@, JsonView::Null)
            &&& says(f, "status"@, JsonView::Str(attempt.status))
            &&& says(f, "bytes"@, JsonView::UInt(attempt.bytes))
            &&& says(f, "note"@, text_or_null(attempt.note))
            &&& says(f, "fallback_eligible"@, JsonView::Bool(attempt.fallback_eligible))
            &&& attempt.error_code is Some && attempt.error_message is Some ==> exists|
                e: Seq<(Seq<char>, JsonView)>,
            | #[trigger]
                says(f, "error"@, JsonView::Object(e)) && e.len() == 2 && says(
                    e,
                    "code"@,
                    JsonView::Str(attempt.error_code->Some_0),
                ) && says(e, "message"@, JsonView::Str(attempt.error_message->Some_0))
            &&& attempt.error_code is None || attempt.error_message is None ==> says(
                f,
                "error"@,
                JsonView::Null,
            )
            &&& f.len() == 9
        }),
{
    let f = Seq::empty();
    let f = law_added_field_is_found(f, "snapshot_xid"@, JsonView::UInt(attempt.snapshot_xid));
    let f = law_added_field_is_found(f, "snapshot_name"@, text_or_null(attempt.snapshot_name));
    let f = law_added_field_is_found(f, "source_path"@, JsonView::Str(attempt.source_path));
    let f = law_added_field_is_found(f, "fsoid"@, hex_or_null(attempt.fsoid));
    let f = law_added_field_is_found(f, "status"@, JsonView::Str(attempt.status));
    let f = law_added_field_is_found(f, "bytes"@, JsonView::UInt(attempt.bytes));
    let f = law_added_field_is_found(f, "note"@, text_or_null(attempt.note));
    let f = law_added_field_is_found(f, "fallback_eligible"@, JsonView::Bool(attempt.fallback_eligible));
    let f = law_added_field_is_found(
        f,
        "error"@,
        match (attempt.error_code, attempt.error_message) {
            (Some(code), Some(message)) => error_object(code, message),
            _ => JsonView::Null,
        },
    );
    assert(f == attempt_fields(attempt));
    if attempt.error_code is Some && attempt.error_message is Some {
        let e = error_fields(attempt.error_code->Some_0, attempt.error_message->Some_0);
        assert(says(f, "error"@, JsonView::Object(e)));
    }
}

proof fn error_fields(code: Seq<char>, message: Seq<char>) -> (e: Seq<(Seq<char>, JsonView)>)
    ensures
        error_object(code, message) == JsonView::Object(e),
        e.len() == 2,
        says(e, "code"@, JsonView::Str(code)),
        says(e, "message"@, JsonView::Str(message)),
{
    let e = law_added_field_is_found(Seq::empty(), "code"@, JsonView::Str(code));
    law_added_field_is_found(e, "message"@, JsonView::Str(message))
}

/// Every report on a row says which row it is about, and what that row asked for.
pub proof fn law_reports_name_their_row(row: RowView)
    ensures
        ({
            let f = base_fields(row);
            &&& says(f, "schema_version"@, JsonView::UInt(1))
            &&& says(f, "record"@, JsonView::Str("recovery_result"@))
            &&& says(f, "line"@, JsonView::UInt(row.line))
            &&& says(f, "requested_snapshot_xid"@, JsonView::UInt(row.snapshot_xid))
            &&& says(f, "requested_snapshot_name"@, text_or_null(row.snapshot_name))
            &&& says(f, "requested_source_path"@, JsonView::Str(row.source_path))
            &&& says(f, "output_relative_path"@, JsonView::Str(row.output_relative_path))
            &&& f.len() == 7
        }),
{
    let f = Seq::empty();
    let f = law_added_field_is_found(f, "schema_version"@, JsonView::UInt(SCHEMA_VERSION as u64));
    let f = law_added_field_is_found(f, "record"@, JsonView::Str("recovery_result"@));
    let f = law_added_field_is_found(f, "line"@, JsonView::UInt(row.line));
    let f = law_added_field_is_found(f, "requested_snapshot_xid"@, JsonView::UInt(row.snapshot_xid));
    let f = law_added_field_is_found(f, "requested_snapshot_name"@, text_or_null(row.snapshot_name));
    let f = law_added_field_is_found(f, "requested_source_path"@, JsonView::Str(row.source_path));
    let f = law_added_field_is_found(f, "output_relative_path"@, JsonView::Str(row.output_relative_path));
    assert(f == base_fields(row));
}

/// A line that cannot be used is reported by its number, as a usage error.
pub proof fn law_unusable_line_is_reported(invalid: InvalidView) -> (e: Seq<(Seq<char>, JsonView)>)
    ensures
        ({
            let f = invalid_fields(invalid);
            &&& says(f, "schema_version"@, JsonView::UInt(1))
            &&& says(f, "record"@, JsonView::Str("recovery_result"@))
            &&& says(f, "line"@, JsonView::UInt(invalid.line))
            &&& says(f, "status"@, JsonView::Str("error"@))
            &&& says(f, "error"@, JsonView::Object(e))
            &&& says(e, "code"@, JsonView::Str("usage"@))
            &&& says(e, "message"@, JsonView::Str(invalid.message))
            &&& e.len() == 2
            &&& f.len() == 5
        }),
{
    let e = error_fields("usage"@, invalid.message);
    let f = Seq::empty();
    let f = law_added_field_is_found(f, "schema_version"@, JsonView::UInt(SCHEMA_VERSION as u64));
    let f = law_added_field_is_found(f, "record"@, JsonView::Str("recovery_result"@));
    let f = law_added_field_is_found(f, "line"@, JsonView::UInt(invalid.line));
    let f = law_added_field_is_found(f, "status"@, JsonView::Str("error"@));
    let f = law_added_field_is_found(f, "error"@, error_object("usage"@, invalid.message));
    assert(f == invalid_fields(invalid));
    e
}

/// The report on a row for which nothing was attempted names no snapshot, no object and no
/// bytes; what it says of the row comes first.
pub proof fn law_untried_row_is_reported(
    row: RowView,
    status: Seq<char>,
    note: JsonView,
    error: JsonView,
)
    ensures
        ({
            let f = untried_fields(row, status, note, error);
            &&& forall|k: Seq<char>, v: JsonView| #[trigger]
                says(base_fields(row), k, v) ==> says(f, k, v)
            &&& says(f, "status"@, JsonView::Str(status))
            &&& says(f, "attempted_snapshot_xids"@, JsonView::Array(Seq::empty()))
            &&& says(f, "attempted_snapshot_names"@, JsonView::Array(Seq::empty()))
            &&& says(f, "actual_snapshot_xid"@, JsonView::Null)
            &&& says(f, "actual_snapshot_name"@, JsonView::Null)
            &&& says(f, "actual_source_path"@, JsonView::Null)
            &&& says(f, "fallback_used"@, JsonView::Bool(false))
            &&& says(f, "fsoid"@, JsonView::Null)
            &&& says(f, "bytes"@, JsonView::UInt(0))
            &&& says(f, "note"@, note)
            &&& says(f, "attempts"@, JsonView::Array(Seq::empty()))
            &&& says(f, "error"@, error)
            &&& f.len() == 19
        }),
{
    law_reports_name_their_row(row);
    let f = base_fields(row);
    let f = law_added_field_is_found(f, "status"@, JsonView::Str(status));
    let f = law_added_field_is_found(f, "attempted_snapshot_xids"@, JsonView::Array(Seq::empty()));
    let f = law_added_field_is_found(f, "attempted_snapshot_names"@, JsonView::Array(Seq::empty()));
    let f = law_added_field_is_found(f, "actual_snapshot_xid"@, JsonView::Null);
    let f = law_added_field_is_found(f, "actual_snapshot_name"@, JsonView::Null);
    let f = law_added_field_is_found(f, "actual_source_path"@, JsonView::Null);
    let f = law_added_field_is_found(f, "fallback_used"@, JsonView::Bool(false));
    let f = law_added_field_is_found(f, "fsoid"@, JsonView::Null);
    let f = law_added_field_is_found(f, "bytes"@, JsonView::UInt(0));
    let f = law_added_field_is_found(f, "note"@, note);
    let f = law_added_field_is_found(f, "attempts"@, JsonView::Array(Seq::empty()));
    let f = law_added_field_is_found(f, "error"@, error);
    assert(f == untried_fields(row, status, note, error));
}

/// A row that cannot be worked on is reported as an error with its code and message; a row
/// whose destination is occupied as skipped, with a note and no error.
pub proof fn law_refused_row_is_reported(
    row: RowView,
    code: Seq<char>,
    message: Seq<char>,
    note: Seq<char>,
) -> (e: Seq<(Seq<char>, JsonView)>)
    ensures
        says(row_error_fields(row, code, message), "status"@, JsonView::Str("error"@)),
        says(row_error_fields(row, code, message), "note"@, JsonView::Null),
        says(row_error_fields(row, code, message), "error"@, JsonView::Object(e)),
        e.len() == 2,
        says(e, "code"@, JsonView::Str(code)),
        says(e, "message"@, JsonView::Str(message)),
        says(skipped_fields(row, note), "status"@, JsonView::Str("skipped-exists"@)),
        says(skipped_fields(row, note), "note"@, JsonView::Str(note)),
        says(skipped_fields(row, note), "error"@, JsonView::Null),
        forall|k: Seq<char>, v: JsonView| #[trigger]
            says(base_fields(row), k, v) ==> says(row_error_fields(row, code, message), k, v)
                && says(skipped_fields(row, note), k, v),
{
    law_untried_row_is_reported(row, "error"@, JsonView::Null, error_object(code, message));
    law_untried_row_is_reported(row, "skipped-exists"@, JsonView::Str(note), JsonView::Null);
    error_fields(code, message)
}

/// The report on a row that was worked on lists all attempts in their order. It takes the
/// actual snapshot and path from the attempt that succeeded, and the object, the number of
/// bytes and the note from the attempt that stands for all.
pub proof fn law_worked_row_is_reported(item: WorkView, status: Seq<char>)
    ensures
        ({
            let f = work_fields(item, status);
            let attempts = item.attempts;
            &&& forall|k: Seq<char>, v: JsonView| #[trigger]
                says(base_fields(item.row), k, v) ==> says(f, k, v)
            &&& says(f, "status"@, JsonView::Str(status))
            &&& says(
                f,
                "attempted_snapshot_xids"@,
                JsonView::Array(
                    attempts.map_values(|attempt: AttemptView| JsonView::UInt(attempt.snapshot_xid)),
                ),
            )
            &&& says(
                f,
                "attempted_snapshot_names"@,
                JsonView::Array(
                    attempts.map_values(|attempt: AttemptView| text_or_null(attempt.snapshot_name)),
                ),
            )
            &&& says(
                f,
                "attempts"@,
                JsonView::Array(
                    attempts.map_values(
                        |attempt: AttemptView| JsonView::Object(attempt_fields(attempt)),
                    ),
                ),
            )
            &&& none_succeeded(attempts) ==> {
                &&& says(f, "actual_snapshot_xid"@, JsonView::Null)
                &&& says(f, "actual_snapshot_name"@, JsonView::Null)
                &&& says(f, "actual_source_path"@, JsonView::Null)
                &&& says(f, "fallback_used"@, JsonView::Bool(false))
            }
            &&& forall|k: int| #[trigger]
                succeeded_first_at(attempts, k) ==> {
                    &&& says(f, "actual_snapshot_xid"@, JsonView::UInt(attempts[k].snapshot_xid))
                    &&& says(f, "actual_snapshot_name"@, text_or_null(attempts[k].snapshot_name))
                    &&& says(f, "actual_source_path"@, JsonView::Str(attempts[k].source_path))
                    &&& says(
                        f,
                        "fallback_used"@,
                        JsonView::Bool(attempts[k].snapshot_xid != item.row.snapshot_xid),
                    )
                }
            &&& forall|k: int| #[trigger]
                stands_for_all(attempts, k) ==> {
                    &&& says(f, "fsoid"@, hex_or_null(attempts[k].fsoid))
                    &&& says(f, "bytes"@, JsonView::UInt(attempts[k].bytes))
                    &&& says(f, "note"@, text_or_null(attempts[k].note))
                }
            &&& attempts.len() == 0 ==> says(f, "fsoid"@, JsonView::Null) && says(
                f,
                "bytes"@,
                JsonView::UInt(0),
            ) && says(f, "note"@, JsonView::Null)
            &&& f.len() == 19
        }),
{
    law_reports_name_their_row(item.row);
    lemma_first_success(item.attempts);
    lemma_last_partial(item.attempts);
    let attempts = item.attempts;
    let success = first_success(attempts);
    let shown = representative(attempts);
    let f = base_fields(item.row);
    let f = law_added_field_is_found(f, "status"@, JsonView::Str(status));
    let f = law_added_field_is_found(
        f,
        "attempted_snapshot_xids"@,
        JsonView::Array(
            Seq::new(attempts.len(), |i: int| JsonView::UInt(attempts[i].snapshot_xid)),
        ),
    );
    let f = law_added_field_is_found(
        f,
        "attempted_snapshot_names"@,
        JsonView::Array(
            Seq::new(attempts.len(), |i: int| text_or_null(attempts[i].snapshot_name)),
        ),
    );
    let f = law_added_field_is_found(
        f,
        "actual_snapshot_xid"@,
        match success {
            Some(attempt) => JsonView::UInt(attempt.snapshot_xid),
            None => JsonView::Null,
        },
    );
    let f = law_added_field_is_found(
        f,
        "actual_snapshot_name"@,
        match success {
            Some(attempt) => text_or_null(attempt.snapshot_name),
            None => JsonView::Null,
        },
    );
    let f = law_added_field_is_found(
        f,
        "actual_source_path"@,
        match success {
            Some(attempt) => JsonView::Str(attempt.source_path),
            None => JsonView::Null,
        },
    );
    let f = law_added_field_is_found(
        f,
        "fallback_used"@,
        JsonView::Bool(
            match success {
                Some(attempt) => attempt.snapshot_xid != item.row.snapshot_xid,
                None => false,
            },
        ),
    );
    let f = law_added_field_is_found(
        f,
        "fsoid"@,
        match shown {
            Some(attempt) => hex_or_null(attempt.fsoid),
            None => JsonView::Null,
        },
    );
    let f = law_added_field_is_found(
        f,
        "bytes"@,
        JsonView::UInt(
            match shown {
                Some(attempt) => attempt.bytes,
                None => 0,
            },
        ),
    );
    let f = law_added_field_is_found(
        f,
        "note"@,
        match shown {
            Some(attempt) => text_or_null(attempt.note),
            None => JsonView::Null,
        },
    );
    let f = law_added_field_is_found(
        f,
        "attempts"@,
        JsonView::Array(
            Seq::new(attempts.len(), |i: int| JsonView::Object(attempt_fields(attempts[i]))),
        ),
    );
    let f = law_added_field_is_found(f, "error"@, work_error(attempts, status));
    assert(f == work_fields(item, status));
    assert(Seq::new(attempts.len(), |i: int| JsonView::UInt(attempts[i].snapshot_xid))
        =~= attempts.map_values(|attempt: AttemptView| JsonView::UInt(attempt.snapshot_xid)));
    assert(Seq::new(attempts.len(), |i: int| text_or_null(attempts[i].snapshot_name))
        =~= attempts.map_values(|attempt: AttemptView| text_or_null(attempt.snapshot_name)));
    assert(Seq::new(attempts.len(), |i: int| JsonView::Object(attempt_fields(attempts[i])))
        =~= attempts.map_values(|attempt: AttemptView| JsonView::Object(attempt_fields(attempt))));
    assert forall|k: int| #[trigger] stands_for_all(attempts, k) implies shown == Some(
        attempts[k],
    ) by {
        if succeeded_first_at(attempts, k) {
        } else if partial_last_at(attempts, k) {
            assert(first_success(attempts) is None);
        } else {
            assert(last_partial(attempts) is None);
        }
    }
}

/// A report on a row that was worked on names no error where the row is as it should be. One
/// that is partial says so; any other gives what ended its last attempt.
pub proof fn law_reported_error(item: WorkView, status: Seq<char>) -> (e: Seq<(Seq<char>, JsonView)>)
    ensures
        ({
            let f = work_fields(item, status);
            let n = item.attempts.len() as int;
            &&& status == "recovered"@ || status == "dry-run"@ ==> says(
                f,
                "error"@,
                JsonView::Null,
            )
            &&& status != "recovered"@ && status != "dry-run"@ ==> {
                &&& says(f, "error"@, JsonView::Object(e))
                &&& e.len() == 2
                &&& status == "partial"@ ==> says(e, "code"@, JsonView::Str("partial-recovery"@))
                    && says(
                    e,
                    "message"@,
                    JsonView::Str("no snapshot produced complete content"@),
                )
                &&& status != "partial"@ && n > 0 && item.attempts[n - 1].error_code is Some
                    ==> says(e, "code"@, JsonView::Str(item.attempts[n - 1].error_code->Some_0))
                &&& status != "partial"@ && n > 0 && item.attempts[n - 1].error_message is Some
                    ==> says(
                    e,
                    "message"@,
                    JsonView::Str(item.attempts[n - 1].error_message->Some_0),
                )
                &&& status != "partial"@ && (n == 0 || item.attempts[n - 1].error_code is None)
                    ==> says(e, "code"@, JsonView::Str("object-not-found"@))
                &&& status != "partial"@ && (n == 0 || item.attempts[n - 1].error_message is None)
                    ==> says(
                    e,
                    "message"@,
                    JsonView::Str("no snapshot produced recoverable content"@),
                )
            }
        }),
{
    let f = work_fields(item, status);
    assert(says(f, "error"@, work_error(item.attempts, status))) by {
        let before = f.drop_last();
        assert(f =~= with(before, "error"@, work_error(item.attempts, status)));
        law_added_field_is_found(before, "error"@, work_error(item.attempts, status));
    }
    let known = item.attempts.len() > 0;
    let code = if status == "partial"@ {
        ErrorKind::PartialRecovery.spec_code()
    } else if known && item.attempts.last().error_code is Some {
        item.attempts.last().error_code->Some_0
    } else {
        ErrorKind::ObjectNotFound.spec_code()
    };
    let message = if status == "partial"@ {
        "no snapshot produced complete content"@
    } else if known && item.attempts.last().error_message is Some {
        item.attempts.last().error_message->Some_0
    } else {
        "no snapshot produced recoverable content"@
    };
    error_fields(code, message)
}

/// In an older snapshot a row is looked for below the root that the template names there:
/// the same root where it names no snapshot, and otherwise the one with the snapshot's name,
/// or that of its directory, in its place, in single or in doubled braces.
#[verifier::rlimit(50)]
pub proof fn law_fallback_path_names_the_snapshot(
    a: Seq<char>,
    b: Seq<char>,
    name: Seq<char>,
    relative: Seq<char>,
)
    requires
        !a.contains('{'),
        !b.contains('{'),
        !name.contains('{'),
        !directory_name(name).contains('{'),
    ensures
        fallback_path(a, name, relative) == trimmed(a) + seq!['/'] + relative,
        fallback_path(a + "{snapshot}"@ + b, name, relative) == trimmed(a + name + b) + seq!['/']
            + relative,
        fallback_path(a + "{snapshot-dir}"@ + b, name, relative) == trimmed(
            a + directory_name(name) + b,
        ) + seq!['/'] + relative,
        fallback_path(a + "{{snapshot}}"@ + b, name, relative) == trimmed(a + name + b) + seq!['/']
            + relative,
        fallback_path(a + "{{snapshot-dir}}"@ + b, name, relative) == trimmed(
            a + directory_name(name) + b,
        ) + seq!['/'] + relative,
{
    reveal_strlit("/");
    assert("/"@ =~= seq!['/']);
    reveal_strlit("{{snapshot-dir}}");
    reveal_strlit("{snapshot-dir}");
    reveal_strlit("{{snapshot}}");
    reveal_strlit("{snapshot}");
    let p1 = "{{snapshot-dir}}"@;
    let p2 = "{snapshot-dir}"@;
    let p3 = "{{snapshot}}"@;
    let p4 = "{snapshot}"@;
    let dir = directory_name(name);
    assert(p1.len() == 16 && p2.len() == 14 && p3.len() == 12 && p4.len() == 10);
    assert(p1[0] == '{' && p2[0] == '{' && p3[0] == '{' && p4[0] == '{');
    assert(p1[1] == '{' && p2[1] == 's' && p3[1] == '{' && p4[1] == 's');
    assert(p1[10] == '-' && p3[10] == '}' && p2[9] == '-' && p4[9] == '}');
    assert(forall|k: int| 0 < k < 14 ==> p2[k] != '{');
    assert(forall|k: int| 0 < k < 10 ==> p4[k] != '{');
    assert(forall|k: int| 1 < k < 12 ==> p3[k] != '{');
    // Without braces nothing is replaced.
    lemma_braceless(a, name);
    // One pattern is replaced by its own pass, and nothing is left for the later ones.
    lemma_other_pattern(a, p4, b, p1, 1);
    lemma_other_pattern(a, p4, b, p2, 9);
    lemma_other_pattern(a, p4, b, p3, 1);
    law_nothing_to_replace(a + p4 + b, p1, dir);
    law_nothing_to_replace(a + p4 + b, p2, dir);
    law_nothing_to_replace(a + p4 + b, p3, name);
    lemma_replaced_once(a, p4, b, name);
    lemma_other_pattern(a, p2, b, p1, 1);
    law_nothing_to_replace(a + p2 + b, p1, dir);
    lemma_replaced_once(a, p2, b, dir);
    lemma_braceless_sum(a, dir, b);
    lemma_braceless(a + dir + b, name);
    lemma_replaced_once(a, p1, b, dir);
    lemma_doubled(a, p3, b, p1, p2);
    law_nothing_to_replace(a + p3 + b, p1, dir);
    law_nothing_to_replace(a + p3 + b, p2, dir);
    lemma_replaced_once(a, p3, b, name);
    lemma_braceless_sum(a, name, b);
    lemma_no_brace(a + name + b, p4);
    law_nothing_to_replace(a + name + b, p4, name);
}

proof fn lemma_braceless(s: Seq<char>, name: Seq<char>)
    requires
        !s.contains('{'),
    ensures
        replaced(s, "{{snapshot-dir}}"@, directory_name(name)) == s,
        replaced(s, "{snapshot-dir}"@, directory_name(name)) == s,
        replaced(s, "{{snapshot}}"@, name) == s,
        replaced(s, "{snapshot}"@, name) == s,
{
    reveal_strlit("{{snapshot-dir}}");
    reveal_strlit("{snapshot-dir}");
    reveal_strlit("{{snapshot}}");
    reveal_strlit("{snapshot}");
    lemma_no_brace(s, "{{snapshot-dir}}"@);
    lemma_no_brace(s, "{snapshot-dir}"@);
    lemma_no_brace(s, "{{snapshot}}"@);
    lemma_no_brace(s, "{snapshot}"@);
    law_nothing_to_replace(s, "{{snapshot-dir}}"@, directory_name(name));
    law_nothing_to_replace(s, "{snapshot-dir}"@, directory_name(name));
    law_nothing_to_replace(s, "{{snapshot}}"@, name);
    law_nothing_to_replace(s, "{snapshot}"@, name);
}

proof fn lemma_braceless_sum(a: Seq<char>, m: Seq<char>, b: Seq<char>)
    requires
        !a.contains('{'),
        !m.contains('{'),
        !b.contains('{'),
    ensures
        !(a + m + b).contains('{'),
{
    let s = a + m + b;
    if s.contains('{') {
        let i = choose|i: int| 0 <= i < s.len() && s[i] == '{';
        if i < a.len() {
            assert(a.contains(a[i]));
        } else if i < a.len() + m.len() {
            assert(m.contains(m[i - a.len()]));
        } else {
            assert(b.contains(b[i - a.len() - m.len()]));
        }
    }
}

/// The name of a snapshot in doubled braces is not that of its directory, in doubled braces
/// or in single ones.
proof fn lemma_doubled(
    a: Seq<char>,
    p3: Seq<char>,
    b: Seq<char>,
    p1: Seq<char>,
    p2: Seq<char>,
)
    requires
        p3.len() == 12,
        p1.len() == 16,
        p2.len() == 14,
        p1[0] == '{' && p1[1] == '{' && p1[10] == '-',
        p2[0] == '{' && p2[1] == 's' && p2[9] == '-',
        p3[0] == '{' && p3[1] == '{' && p3[10] == '}',
        forall|k: int| 1 < k < 12 ==> p3[k] != '{',
        !a.contains('{'),
        !b.contains('{'),
    ensures
        forall|at: int| !#[trigger] occurs_at(a + p3 + b, p1, at),
        forall|at: int| !#[trigger] occurs_at(a + p3 + b, p2, at),
{
    let s = a + p3 + b;
    let n = a.len() as int;
    assert forall|at: int| 0 <= at < s.len() && #[trigger] s[at] == '{' implies at == n || at == n
        + 1 by {
        if at < n {
            assert(a.contains(a[at]));
        } else if at < n + 12 {
            assert(s[at] == p3[at - n]);
        } else {
            assert(b.contains(b[at - n - 12]));
            assert(s[at] == b[at - n - 12]);
        }
    }
    assert forall|at: int| !#[trigger] occurs_at(s, p1, at) by {
        if occurs_at(s, p1, at) {
            assert(s[at + 0] == p1[0]);
            assert(s[at + 1] == p1[1]);
            assert(s[at + 10] == p1[10]);
            assert(at == n);
            assert(s[n + 10] == p3[10]);
        }
    }
    assert forall|at: int| !#[trigger] occurs_at(s, p2, at) by {
        if occurs_at(s, p2, at) {
            assert(s[at + 0] == p2[0]);
            assert(s[at + 1] == p2[1]);
            assert(s[at + 9] == p2[9]);
            assert(s[n] == p3[0] && s[n + 1] == p3[1]);
            assert(at == n + 1);
            assert(s[n + 10] == p3[10]);
        }
    }
}

/// The options of a run are accepted exactly if they name no snapshot, no object and no
/// output of their own, ask for JSON lines if for any format, and where older snapshots may
/// be tried give an absolute template without NUL. Anything else is a usage error.
pub proof fn law_options_of_a_run(opts: Options)
    ensures
        options_error(opts) is None <==> {
            &&& opts.snapshot is None && opts.snapshot_xid is None
            &&& opts.path is None && opts.fsoid is None && opts.output is None
            &&& opts.format is None || opts.format->Some_0@ == "jsonl"@
            &&& opts.fallback_history ==> opts.path_template is Some
                && opts.path_template->Some_0@.len() > 0 && opts.path_template->Some_0@[0] == '/'
                && !opts.path_template->Some_0@.contains('\0')
        },
        options_error(opts) matches Some(error) ==> error.kind == ErrorKind::Usage,
{
}

/// An attempt that failed says so, with the code and the message of its error and no bytes.
pub proof fn law_failed_attempt_names_its_error(
    xid: u64,
    name: Option<Seq<char>>,
    path: Seq<char>,
    fsoid: Option<u64>,
    error: ErrorView,
    eligible: bool,
)
    ensures
        ({
            let a = failed_attempt(xid, name, path, fsoid, error, eligible);
            &&& a.snapshot_xid == xid
            &&& a.snapshot_name == name
            &&& a.source_path == path
            &&& a.fsoid == fsoid
            &&& a.status == "error"@
            &&& a.bytes == 0
            &&& a.note is None
            &&& a.error_code == Some(error.kind.spec_code())
            &&& a.error_message == Some(error.message)
            &&& a.fallback_eligible == eligible
        }),
{
}

} // verus!
