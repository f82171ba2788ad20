//! The history manifest: one row for each file or link that any snapshot holds.
use crate::error::{failure, viewed, Error, ErrorKind, ErrorView};
use crate::history::{
    collision_key, portable_collision_key, EntryType, HistoryEntry, HistoryRow, LatestPresence,
};
use crate::json::{
    compact, json_values, law_added_field_is_found, says, text_or_null, uint_or_null, with, Fields,
    Json, JsonView, SCHEMA_VERSION,
};
use crate::options::Options;
use crate::snapshots::{SnapshotInfo, SnapshotView};
use crate::text::{
    chars_of, dec, dec_text, hex_prefixed, hex_text, join, joined, opt_text, str_eq, texts,
};
use crate::xid_map::XidMap;
use vstd::prelude::*;

verus! {

/// One row of the manifest.
pub struct ManifestRow {
    pub entry: HistoryEntry,
    pub logical_bytes: Option<u64>,
    pub metadata_error: Option<String>,
}

/// The mathematical content of a [`ManifestRow`].
pub struct ManifestRowView {
    pub entry: HistoryRow,
    pub logical_bytes: Option<u64>,
    pub metadata_error: Option<Seq<char>>,
}

impl View for ManifestRow {
    type V = ManifestRowView;

    open spec fn view(&self) -> ManifestRowView {
        ManifestRowView {
            entry: self.entry@,
            logical_bytes: self.logical_bytes,
            metadata_error: opt_text(self.metadata_error),
        }
    }
}

// ---------------------------------------------------------------------------
// Decisions
// ---------------------------------------------------------------------------

/// What to do with a row.
pub open spec fn decision_name(row: HistoryRow) -> Seq<char> {
    if row.ancestor_conflict is Some {
        "skip_path_conflict"@
    } else {
        match row.latest_presence {
            LatestPresence::Present => "latest_present"@,
            LatestPresence::Absent => "historical_deleted"@,
            LatestPresence::Unknown => "unknown_latest_scan"@,
        }
    }
}

/// Why.
pub open spec fn decision_reason(row: HistoryRow) -> Seq<char> {
    let reason = match row.ancestor_conflict {
        Some(ancestor) => "newer non-directory ancestor `"@ + ancestor
            + "` blocks the selected leaf path"@,
        None => match row.latest_presence {
            LatestPresence::Present => "raw relative path exists in the latest complete snapshot"@,
            LatestPresence::Absent => "latest complete snapshot scanned the relevant prefixes and the raw path is absent"@,
            LatestPresence::Unknown => "latest complete snapshot has an unreadable ancestor prefix, so deletion is unproven"@,
        },
    };
    if row.observed_types.len() > 1 {
        reason + "; the same raw path changed type and the newest type won"@
    } else {
        reason
    }
}

/// What to do with an entry, and why.
pub fn decision(entry: &HistoryEntry) -> (r: (&'static str, String))
    ensures
        r.0@ == decision_name(entry@),
        r.1@ == decision_reason(entry@),
{
    let (name, mut reason) = match &entry.ancestor_conflict {
        Some(ancestor) => {
            let mut text = "newer non-directory ancestor `".to_owned();
            text.append(ancestor.as_str());
            text.append("` blocks the selected leaf path");
            ("skip_path_conflict", text)
        },
        None => match entry.latest_presence {
            LatestPresence::Present => (
                "latest_present",
                "raw relative path exists in the latest complete snapshot".to_owned(),
            ),
            LatestPresence::Absent => (
                "historical_deleted",
                "latest complete snapshot scanned the relevant prefixes and the raw path is absent".to_owned(),
            ),
            LatestPresence::Unknown => (
                "unknown_latest_scan",
                "latest complete snapshot has an unreadable ancestor prefix, so deletion is unproven".to_owned(),
            ),
        },
    };
    if entry.type_conflict() {
        reason.append("; the same raw path changed type and the newest type won");
    }
    (name, reason)
}

// ---------------------------------------------------------------------------
// JSON rows
// ---------------------------------------------------------------------------

/// What the audit key is and is not.
pub const COLLISION_KEY_SEMANTICS: &'static str = "unicode-lowercase-audit-only";

/// The names of types as JSON texts.
pub open spec fn type_names(types: Seq<EntryType>) -> Seq<JsonView> {
    Seq::new(types.len(), |i: int| JsonView::Str(types[i].name()))
}

fn type_name_values(types: &Vec<EntryType>) -> (r: Vec<Json>)
    ensures
        json_values(r@) == type_names(types@),
{
    let mut out: Vec<Json> = Vec::new();
    let mut i: usize = 0;
    while i < types.len()
        invariant
            i <= types@.len(),
            out@.len() == i,
            forall|k: int| 0 <= k < i ==> (#[trigger] out@[k])@ == JsonView::Str(types@[k].name()),
        decreases types@.len() - i,
    {
        out.push(Json::Str(types[i].as_str().to_owned()));
        i += 1;
    }
    proof {
        assert(json_values(out@) =~= type_names(types@));
    }
    out
}

/// A row as the fields of a JSON object. `snap` supplied the row, `created` is when
/// it was made, and `latest` is the newest snapshot.
pub open spec fn row_fields(
    row: ManifestRowView,
    snap: SnapshotView,
    created: Option<Seq<char>>,
    latest: SnapshotView,
) -> Seq<(Seq<char>, JsonView)> {
    let e = row.entry;
    let f = Seq::empty();
    let f = with(f, "schema_version"@, JsonView::UInt(SCHEMA_VERSION as u64));
    let f = with(f, "record"@, JsonView::Str("entry"@));
    let f = with(f, "decision"@, JsonView::Str(decision_name(e)));
    let f = with(f, "reason"@, JsonView::Str(decision_reason(e)));
    let f = with(f, "relative_path"@, JsonView::Str(e.relative_path));
    let f = with(f, "collision_key"@, JsonView::Str(collision_key(e.relative_path)));
    let f = with(f, "source_path"@, JsonView::Str(e.source_path));
    let f = with(f, "type"@, JsonView::Str(e.entry_type.name()));
    let f = with(f, "logical_bytes"@, uint_or_null(row.logical_bytes));
    let f = with(f, "snapshot_name"@, JsonView::Str(snap.name));
    let f = with(f, "snapshot_xid"@, JsonView::UInt(snap.xid));
    let f = with(f, "snapshot_create_time"@, text_or_null(created));
    let f = with(f, "snapshot_create_time_raw"@, JsonView::UInt(snap.create_time));
    let f = with(f, "fsoid"@, JsonView::Str(hex_prefixed(e.fsoid as nat)));
    let f = with(f, "latest_snapshot_name"@, JsonView::Str(latest.name));
    let f = with(f, "latest_snapshot_xid"@, JsonView::UInt(latest.xid));
    let f = with(f, "latest_presence"@, JsonView::Str(e.latest_presence.name()));
    let f = with(f, "snapshots_seen"@, JsonView::UInt(e.snapshots_seen as u64));
    let f = with(f, "first_snapshot_xid"@, JsonView::UInt(e.first_snapshot_xid));
    let f = with(f, "type_conflict"@, JsonView::Bool(e.observed_types.len() > 1));
    let f = with(f, "observed_types"@, JsonView::Array(type_names(e.observed_types)));
    let f = with(f, "ancestor_conflict"@, text_or_null(e.ancestor_conflict));
    let f = with(f, "metadata_error"@, text_or_null(row.metadata_error));
    with(f, "collision_key_semantics"@, JsonView::Str(COLLISION_KEY_SEMANTICS@))
}

/// A row as a JSON object.
pub fn row_json(
    row: &ManifestRow,
    snap: &SnapshotInfo,
    created: &Option<String>,
    latest: &SnapshotInfo,
) -> (r: Json)
    ensures
        r@ == JsonView::Object(row_fields(row@, snap@, opt_text(*created), latest@)),
{
    let (name, reason) = decision(&row.entry);
    let mut f = Fields::new();
    f.put_u64("schema_version", SCHEMA_VERSION as u64);
    f.put_str("record", "entry");
    f.put_str("decision", name);
    f.put_str("reason", reason.as_str());
    f.put_str("relative_path", row.entry.relative_path.as_str());
    f.put_str(
        "collision_key",
        portable_collision_key(row.entry.relative_path.as_str()).as_str(),
    );
    f.put_str("source_path", row.entry.source_path.as_str());
    f.put_str("type", row.entry.entry_type.as_str());
    f.put_opt_u64("logical_bytes", row.logical_bytes);
    f.put_str("snapshot_name", snap.name.as_str());
    f.put_u64("snapshot_xid", snap.xid);
    f.put_opt_str("snapshot_create_time", created);
    f.put_u64("snapshot_create_time_raw", snap.create_time);
    f.put_hex("fsoid", row.entry.fsoid);
    f.put_str("latest_snapshot_name", latest.name.as_str());
    f.put_u64("latest_snapshot_xid", latest.xid);
    f.put_str("latest_presence", row.entry.latest_presence.as_str());
    f.put_u64("snapshots_seen", row.entry.snapshots_seen as u64);
    f.put_u64("first_snapshot_xid", row.entry.first_snapshot_xid);
    f.put_bool("type_conflict", row.entry.type_conflict());
    f.put_array("observed_types", type_name_values(&row.entry.observed_types));
    f.put_opt_str("ancestor_conflict", &row.entry.ancestor_conflict);
    f.put_opt_str("metadata_error", &row.metadata_error);
    f.put_str("collision_key_semantics", COLLISION_KEY_SEMANTICS);
    f.object()
}

/// A row is called deleted only where the latest snapshot proves that its path is
/// absent, and nothing blocks its place.
pub proof fn law_deleted_only_where_proven(row: HistoryRow)
    ensures
        decision_name(row) == "historical_deleted"@ <==> row.latest_presence
            == LatestPresence::Absent && row.ancestor_conflict is None,
{
    reveal_strlit("skip_path_conflict");
    reveal_strlit("latest_present");
    reveal_strlit("historical_deleted");
    reveal_strlit("unknown_latest_scan");
    assert("skip_path_conflict"@[0] == 's');
    assert("latest_present"@[0] == 'l');
    assert("historical_deleted"@[0] == 'h');
    assert("unknown_latest_scan"@[0] == 'u');
}

// ---------------------------------------------------------------------------
// TSV rows
// ---------------------------------------------------------------------------

/// How a character is written in a field: backslash, tab and line ends are escaped.
pub open spec fn tsv_char(c: char) -> Seq<char> {
    if c == '\\' {
        "\\\\"@
    } else if c == '\t' {
        "\\t"@
    } else if c == '\n' {
        "\\n"@
    } else if c == '\r' {
        "\\r"@
    } else {
        seq![c]
    }
}

/// How a text is written in a field.
pub open spec fn tsv_escaped(s: Seq<char>) -> Seq<char>
    decreases s.len(),
{
    if s.len() == 0 {
        Seq::empty()
    } else {
        tsv_escaped(s.drop_last()) + tsv_char(s.last())
    }
}

/// Escapes a text for a tab-separated field.
pub fn tsv_escape(value: &str) -> (r: String)
    ensures
        r@ == tsv_escaped(value@),
{
    let chars = chars_of(value);
    let mut out = String::new();
    let mut i: usize = 0;
    proof {
        assert(value@.take(0) =~= Seq::empty());
        assert(out@ =~= Seq::empty());
    }
    while i < chars.len()
        invariant
            chars@ == value@,
            i <= chars@.len(),
            out@ == tsv_escaped(value@.take(i as int)),
        decreases chars@.len() - i,
    {
        let c: char = chars[i];
        proof {
            assert(value@.take(i + 1).drop_last() =~= value@.take(i as int));
            assert(value@.take(i + 1).last() == c);
        }
        let ghost before = out@;
        if c == '\\' {
            out.append("\\\\");
        } else if c == '\t' {
            out.append("\\t");
        } else if c == '\n' {
            out.append("\\n");
        } else if c == '\r' {
            out.append("\\r");
        } else {
            out.push(c);
            proof {
                assert(out@ =~= before + seq![c]);
            }
        }
        i += 1;
    }
    proof {
        assert(value@.take(i as int) =~= value@);
    }
    out
}

/// What an escaped field stands for.
pub open spec fn tsv_unescaped(s: Seq<char>) -> Seq<char>
    decreases s.len(),
{
    if s.len() == 0 {
        Seq::empty()
    } else if s[0] == '\\' && s.len() > 1 {
        let c = if s[1] == 't' {
            '\t'
        } else if s[1] == 'n' {
            '\n'
        } else if s[1] == 'r' {
            '\r'
        } else {
            s[1]
        };
        seq![c] + tsv_unescaped(s.skip(2))
    } else {
        seq![s[0]] + tsv_unescaped(s.skip(1))
    }
}

proof fn lemma_unescape_char(c: char, rest: Seq<char>)
    ensures
        tsv_unescaped(tsv_char(c) + rest) == seq![c] + tsv_unescaped(rest),
        !tsv_char(c).contains('\t'),
        !tsv_char(c).contains('\n'),
        !tsv_char(c).contains('\r'),
{
    reveal_strlit("\\\\");
    reveal_strlit("\\t");
    reveal_strlit("\\n");
    reveal_strlit("\\r");
    let s = tsv_char(c) + rest;
    assert(s.len() > 0);
    if c == '\\' || c == '\t' || c == '\n' || c == '\r' {
        assert(s[0] == '\\');
        assert(s.skip(2) =~= rest);
    } else {
        assert(s[0] == c);
        assert(s.skip(1) =~= rest);
    }
}

proof fn lemma_escape_front(c: char, s: Seq<char>)
    ensures
        tsv_escaped(seq![c] + s) == tsv_char(c) + tsv_escaped(s),
    decreases s.len(),
{
    let whole = seq![c] + s;
    if s.len() == 0 {
        reveal_with_fuel(tsv_escaped, 2);
        assert(whole.drop_last() =~= Seq::empty());
        assert(whole.last() == c);
        assert(tsv_escaped(whole) =~= tsv_char(c) + tsv_escaped(s));
    } else {
        assert(whole.drop_last() =~= seq![c] + s.drop_last());
        lemma_escape_front(c, s.drop_last());
        assert(tsv_escaped(whole) =~= tsv_char(c) + tsv_escaped(s));
    }
}

/// An escaped field holds no tab and no line end, and stands for exactly the text
/// that was escaped: no two texts are written alike.
pub proof fn law_tsv_fields_round_trip(s: Seq<char>)
    ensures
        !tsv_escaped(s).contains('\t'),
        !tsv_escaped(s).contains('\n'),
        !tsv_escaped(s).contains('\r'),
        tsv_unescaped(tsv_escaped(s)) == s,
    decreases s.len(),
{
    if s.len() > 0 {
        let rest = s.drop_first();
        assert(s =~= seq![s[0]] + rest);
        law_tsv_fields_round_trip(rest);
        lemma_escape_front(s[0], rest);
        lemma_unescape_char(s[0], tsv_escaped(rest));
        assert forall|c: char| !tsv_char(s[0]).contains(c) && !tsv_escaped(rest).contains(
            c,
        ) implies !tsv_escaped(s).contains(c) by {
            let front = tsv_char(s[0]);
            let back = tsv_escaped(rest);
            if tsv_escaped(s).contains(c) {
                let i = choose|i: int|
                    0 <= i < tsv_escaped(s).len() && tsv_escaped(s)[i] == c;
                if i < front.len() {
                    assert(front[i] == c);
                } else {
                    assert(back[i - front.len()] == c);
                }
            }
        }
    }
}

/// The names of the columns.
pub open spec fn tsv_columns() -> Seq<Seq<char>> {
    seq![
        "schema_version"@,
        "decision"@,
        "reason"@,
        "relative_path"@,
        "collision_key"@,
        "collision_key_semantics"@,
        "source_path"@,
        "type"@,
        "logical_bytes"@,
        "snapshot_name"@,
        "snapshot_xid"@,
        "snapshot_create_time"@,
        "snapshot_create_time_raw"@,
        "fsoid"@,
        "latest_snapshot_name"@,
        "latest_snapshot_xid"@,
        "latest_presence"@,
        "snapshots_seen"@,
        "first_snapshot_xid"@,
        "type_conflict"@,
        "observed_types_json"@,
        "ancestor_conflict"@,
        "metadata_error"@,
    ]
}

/// The names of the columns.
pub fn tsv_header() -> (r: Vec<String>)
    ensures
        texts(r@) == tsv_columns(),
{
    let mut columns: Vec<String> = Vec::new();
    columns.push("schema_version".to_owned());
    columns.push("decision".to_owned());
    columns.push("reason".to_owned());
    columns.push("relative_path".to_owned());
    columns.push("collision_key".to_owned());
    columns.push("collision_key_semantics".to_owned());
    columns.push("source_path".to_owned());
    columns.push("type".to_owned());
    columns.push("logical_bytes".to_owned());
    columns.push("snapshot_name".to_owned());
    columns.push("snapshot_xid".to_owned());
    columns.push("snapshot_create_time".to_owned());
    columns.push("snapshot_create_time_raw".to_owned());
    columns.push("fsoid".to_owned());
    columns.push("latest_snapshot_name".to_owned());
    columns.push("latest_snapshot_xid".to_owned());
    columns.push("latest_presence".to_owned());
    columns.push("snapshots_seen".to_owned());
    columns.push("first_snapshot_xid".to_owned());
    columns.push("type_conflict".to_owned());
    columns.push("observed_types_json".to_owned());
    columns.push("ancestor_conflict".to_owned());
    columns.push("metadata_error".to_owned());
    proof {
        assert(texts(columns@) =~= tsv_columns());
    }
    columns
}

/// An optional text, or nothing.
pub open spec fn text_or_empty(text: Option<Seq<char>>) -> Seq<char> {
    match text {
        Some(text) => text,
        None => Seq::empty(),
    }
}

fn text_or_default(text: &Option<String>) -> (r: String)
    ensures
        r@ == text_or_empty(opt_text(*text)),
{
    match text {
        Some(text) => text.clone(),
        None => {
            let r = String::new();
            proof {
                assert(r@ =~= Seq::empty());
            }
            r
        },
    }
}

/// A truth value as text.
pub open spec fn truth(value: bool) -> Seq<char> {
    if value {
        "true"@
    } else {
        "false"@
    }
}

/// The values of a row, one for each column.
pub open spec fn tsv_values(
    row: ManifestRowView,
    snap: SnapshotView,
    created: Option<Seq<char>>,
    latest: SnapshotView,
) -> Seq<Seq<char>> {
    let e = row.entry;
    seq![
        dec(SCHEMA_VERSION as nat),
        decision_name(e),
        decision_reason(e),
        e.relative_path,
        collision_key(e.relative_path),
        COLLISION_KEY_SEMANTICS@,
        e.source_path,
        e.entry_type.name(),
        text_or_empty(
            match row.logical_bytes {
                Some(n) => Some(dec(n as nat)),
                None => None,
            },
        ),
        snap.name,
        dec(snap.xid as nat),
        text_or_empty(created),
        dec(snap.create_time as nat),
        hex_prefixed(e.fsoid as nat),
        latest.name,
        dec(latest.xid as nat),
        e.latest_presence.name(),
        dec(e.snapshots_seen as nat),
        dec(e.first_snapshot_xid as nat),
        truth(e.observed_types.len() > 1),
        compact(JsonView::Array(type_names(e.observed_types))),
        text_or_empty(e.ancestor_conflict),
        text_or_empty(row.metadata_error),
    ]
}

/// A row as text: its values, escaped and separated by tabs.
pub open spec fn tsv_line(
    row: ManifestRowView,
    snap: SnapshotView,
    created: Option<Seq<char>>,
    latest: SnapshotView,
) -> Seq<char> {
    joined(
        tsv_values(row, snap, created, latest).map_values(|v: Seq<char>| tsv_escaped(v)),
        "\t"@,
    )
}

fn values_of_row(
    row: &ManifestRow,
    snap: &SnapshotInfo,
    created: &Option<String>,
    latest: &SnapshotInfo,
) -> (r: Vec<String>)
    ensures
        texts(r@) == tsv_values(row@, snap@, opt_text(*created), latest@),
{
    let (name, reason) = decision(&row.entry);
    let types = types_array(&row.entry.observed_types);
    let logical_bytes = match row.logical_bytes {
        Some(n) => dec_text(n),
        None => String::new(),
    };
    proof {
        if row.logical_bytes is None {
            assert(logical_bytes@ =~= Seq::empty());
        }
    }
    let conflict = if row.entry.type_conflict() {
        "true".to_owned()
    } else {
        "false".to_owned()
    };
    let mut v: Vec<String> = Vec::new();
    v.push(dec_text(SCHEMA_VERSION as u64));
    v.push(name.to_owned());
    v.push(reason);
    v.push(row.entry.relative_path.clone());
    v.push(portable_collision_key(row.entry.relative_path.as_str()));
    v.push(COLLISION_KEY_SEMANTICS.to_owned());
    v.push(row.entry.source_path.clone());
    v.push(row.entry.entry_type.as_str().to_owned());
    v.push(logical_bytes);
    v.push(snap.name.clone());
    v.push(dec_text(snap.xid));
    v.push(text_or_default(created));
    v.push(dec_text(snap.create_time));
    v.push(hex_text(row.entry.fsoid));
    v.push(latest.name.clone());
    v.push(dec_text(latest.xid));
    v.push(row.entry.latest_presence.as_str().to_owned());
    v.push(dec_text(row.entry.snapshots_seen as u64));
    v.push(dec_text(row.entry.first_snapshot_xid));
    v.push(conflict);
    v.push(types.to_compact_string());
    v.push(text_or_default(&row.entry.ancestor_conflict));
    v.push(text_or_default(&row.metadata_error));
    proof {
        assert(texts(v@) =~= tsv_values(row@, snap@, opt_text(*created), latest@));
    }
    v
}

fn types_array(types: &Vec<EntryType>) -> (r: Json)
    ensures
        r@ == JsonView::Array(type_names(types@)),
{
    Json::array(type_name_values(types))
}

/// A row as tab-separated text.
pub fn row_tsv(
    row: &ManifestRow,
    snap: &SnapshotInfo,
    created: &Option<String>,
    latest: &SnapshotInfo,
) -> (r: String)
    ensures
        r@ == tsv_line(row@, snap@, opt_text(*created), latest@),
{
    let values = values_of_row(row, snap, created, latest);
    let mut escaped: Vec<String> = Vec::new();
    let mut i: usize = 0;
    while i < values.len()
        invariant
            i <= values@.len(),
            escaped@.len() == i,
            forall|k: int| 0 <= k < i ==> (#[trigger] escaped@[k])@ == tsv_escaped(values@[k]@),
        decreases values@.len() - i,
    {
        escaped.push(tsv_escape(values[i].as_str()));
        i += 1;
    }
    proof {
        assert(texts(escaped@) =~= tsv_values(row@, snap@, opt_text(*created), latest@).map_values(
            |v: Seq<char>| tsv_escaped(v),
        ));
    }
    join(&escaped, "\t")
}

/// How often `c` occurs in `s`.
pub open spec fn occurrences(s: Seq<char>, c: char) -> nat
    decreases s.len(),
{
    if s.len() == 0 {
        0
    } else {
        occurrences(s.drop_last(), c) + if s.last() == c {
            1nat
        } else {
            0
        }
    }
}

proof fn lemma_occurrences_add(a: Seq<char>, b: Seq<char>, c: char)
    ensures
        occurrences(a + b, c) == occurrences(a, c) + occurrences(b, c),
    decreases b.len(),
{
    if b.len() == 0 {
        assert(a + b =~= a);
    } else {
        assert((a + b).drop_last() =~= a + b.drop_last());
        lemma_occurrences_add(a, b.drop_last(), c);
    }
}

proof fn lemma_no_occurrence(s: Seq<char>, c: char)
    requires
        !s.contains(c),
    ensures
        occurrences(s, c) == 0,
    decreases s.len(),
{
    if s.len() > 0 {
        assert(s[s.len() - 1] != c);
        assert forall|i: int| 0 <= i < s.drop_last().len() implies s.drop_last()[i] != c by {
            assert(s.drop_last()[i] == s[i]);
        }
        lemma_no_occurrence(s.drop_last(), c);
    }
}

proof fn lemma_joined_tabs(parts: Seq<Seq<char>>)
    requires
        forall|i: int| 0 <= i < parts.len() ==> !(#[trigger] parts[i]).contains('\t'),
    ensures
        parts.len() > 0 ==> occurrences(joined(parts, "\t"@), '\t') == parts.len() - 1,
    decreases parts.len(),
{
    reveal_strlit("\t");
    if parts.len() == 1 {
        lemma_no_occurrence(parts[0], '\t');
    } else if parts.len() > 1 {
        let front = parts.drop_last();
        assert forall|i: int| 0 <= i < front.len() implies !(#[trigger] front[i]).contains(
            '\t',
        ) by {
            assert(front[i] == parts[i]);
        }
        lemma_joined_tabs(front);
        lemma_no_occurrence(parts[parts.len() - 1], '\t');
        lemma_occurrences_add(joined(front, "\t"@), "\t"@, '\t');
        lemma_occurrences_add(joined(front, "\t"@) + "\t"@, parts.last(), '\t');
        assert("\t"@ =~= seq!['\t']);
        assert("\t"@.drop_last() =~= Seq::empty());
        reveal_with_fuel(occurrences, 2);
    }
}

/// A row has as many columns as the header, whatever its values hold: it has one
/// tab fewer than there are columns.
pub proof fn law_tsv_rows_have_all_columns(
    row: ManifestRowView,
    snap: SnapshotView,
    created: Option<Seq<char>>,
    latest: SnapshotView,
)
    ensures
        occurrences(tsv_line(row, snap, created, latest), '\t') + 1 == tsv_columns().len(),
{
    let values = tsv_values(row, snap, created, latest);
    let parts = values.map_values(|v: Seq<char>| tsv_escaped(v));
    assert forall|i: int| 0 <= i < parts.len() implies !(#[trigger] parts[i]).contains('\t') by {
        law_tsv_fields_round_trip(values[i]);
    }
    lemma_joined_tabs(parts);
}

// ---------------------------------------------------------------------------
// Options
// ---------------------------------------------------------------------------

/// The root that the options ask for, as a template.
pub open spec fn root_wanted(path: Option<Seq<char>>, template: Option<Seq<char>>) -> Result<
    Seq<char>,
    ErrorView,
> {
    let root = if template is Some {
        template
    } else {
        path
    };
    if path is Some && template is Some {
        Err(failure(ErrorKind::Usage, "use only one of `--path` and `--path-template`"@))
    } else {
        match root {
            None => Err(
                failure(
                    ErrorKind::Usage,
                    "`history-union` requires `--path-template <absolute-path>` (or `--path`)"@,
                ),
            ),
            Some(root) => if root.len() > 0 && root[0] == '/' {
                Ok(root)
            } else {
                Err(failure(ErrorKind::Usage, "history root path must be absolute"@))
            },
        }
    }
}

/// Reads the root that the options ask for, as a template.
pub fn root_template(opts: &Options) -> (r: Result<String, Error>)
    ensures
        viewed(r) == root_wanted(opt_text(opts.path), opt_text(opts.path_template)),
{
    if opts.path.is_some() && opts.path_template.is_some() {
        return Err(
            Error::fixed(ErrorKind::Usage, "use only one of `--path` and `--path-template`"),
        );
    }
    let root = match &opts.path_template {
        Some(template) => template.clone(),
        None => match &opts.path {
            Some(path) => path.clone(),
            None => return Err(
                Error::fixed(
                    ErrorKind::Usage,
                    "`history-union` requires `--path-template <absolute-path>` (or `--path`)",
                ),
            ),
        },
    };
    let chars = chars_of(root.as_str());
    if chars.len() > 0 && chars[0] == '/' {
        Ok(root)
    } else {
        Err(Error::fixed(ErrorKind::Usage, "history root path must be absolute"))
    }
}

/// How a manifest is written.
#[derive(Debug, Clone, Copy, PartialEq, Eq, Structural)]
pub enum ManifestFormat {
    Jsonl,
    Tsv,
}

impl View for ManifestFormat {
    type V = ManifestFormat;

    open spec fn view(&self) -> ManifestFormat {
        *self
    }
}

/// The format that is called `value`.
pub open spec fn format_named(value: Seq<char>) -> Result<ManifestFormat, ErrorView> {
    if value == "jsonl"@ {
        Ok(ManifestFormat::Jsonl)
    } else if value == "tsv"@ {
        Ok(ManifestFormat::Tsv)
    } else {
        Err(
            failure(
                ErrorKind::Usage,
                "unsupported --format `"@ + value + "` (expected jsonl or tsv)"@,
            ),
        )
    }
}

impl ManifestFormat {
    pub fn parse(value: &str) -> (r: Result<ManifestFormat, Error>)
        ensures
            viewed(r) == format_named(value@),
    {
        if str_eq(value, "jsonl") {
            Ok(ManifestFormat::Jsonl)
        } else if str_eq(value, "tsv") {
            Ok(ManifestFormat::Tsv)
        } else {
            let mut message = "unsupported --format `".to_owned();
            message.append(value);
            message.append("` (expected jsonl or tsv)");
            Err(Error::new(ErrorKind::Usage, message))
        }
    }
}

// ---------------------------------------------------------------------------
// The manifest
// ---------------------------------------------------------------------------

/// A snapshot, and when it was made, as text.
pub struct DatedSnapshot {
    pub info: SnapshotInfo,
    pub created: Option<String>,
}

/// The line of one row, without its end.
pub open spec fn line_of(
    format: ManifestFormat,
    row: ManifestRowView,
    snap: DatedSnapshot,
    latest: SnapshotView,
) -> Seq<char> {
    match format {
        ManifestFormat::Jsonl => compact(
            JsonView::Object(row_fields(row, snap.info@, opt_text(snap.created), latest)),
        ),
        ManifestFormat::Tsv => tsv_line(row, snap.info@, opt_text(snap.created), latest),
    }
}

/// The lines of `rows[i..]` behind `text`, up to the first row whose snapshot is not
/// known; the flag says whether there was none.
pub open spec fn lines_from(
    format: ManifestFormat,
    rows: Seq<ManifestRow>,
    i: int,
    snapshots: Map<u64, DatedSnapshot>,
    latest: SnapshotView,
    text: Seq<char>,
) -> (Seq<char>, bool)
    decreases rows.len() - i,
{
    if !(0 <= i < rows.len()) {
        (text, true)
    } else {
        let xid = rows[i].entry.snapshot_xid;
        if !snapshots.contains_key(xid) {
            (text, false)
        } else {
            lines_from(
                format,
                rows,
                i + 1,
                snapshots,
                latest,
                text + line_of(format, rows[i]@, snapshots[xid], latest) + "\n"@,
            )
        }
    }
}

/// What stands before the rows.
pub open spec fn heading(format: ManifestFormat) -> Seq<char> {
    match format {
        ManifestFormat::Jsonl => Seq::empty(),
        ManifestFormat::Tsv => joined(tsv_columns(), "\t"@) + "\n"@,
    }
}

/// Appends the manifest to `output`: a heading where the format has one, then one
/// line for each row.
pub fn write_manifest(
    output: &mut String,
    format: ManifestFormat,
    rows: &Vec<ManifestRow>,
    snapshots: &XidMap<DatedSnapshot>,
    latest: &SnapshotInfo,
) -> (r: Result<(), Error>)
    ensures
        ({
            let (text, complete) = lines_from(
                format,
                rows@,
                0,
                snapshots@,
                latest@,
                old(output)@ + heading(format),
            );
            &&& final(output)@ == text
            &&& match r {
                Ok(_) => complete,
                Err(e) => !complete && e@ == failure(
                    ErrorKind::Internal,
                    "manifest row has unknown snapshot"@,
                ),
            }
        }),
{
    match format {
        ManifestFormat::Jsonl => {
            proof {
                assert(output@ + heading(format) =~= output@);
            }
        },
        ManifestFormat::Tsv => {
            let ghost before = output@;
            output.append(join(&tsv_header(), "\t").as_str());
            output.append("\n");
            proof {
                assert(output@ =~= before + heading(format));
            }
        },
    }
    let ghost whole = lines_from(
        format,
        rows@,
        0,
        snapshots@,
        latest@,
        old(output)@ + heading(format),
    );
    let mut i: usize = 0;
    while i < rows.len()
        invariant
            i <= rows@.len(),
            whole == lines_from(
                format,
                rows@,
                0,
                snapshots@,
                latest@,
                old(output)@ + heading(format),
            ),
            whole == lines_from(format, rows@, i as int, snapshots@, latest@, output@),
        decreases rows@.len() - i,
    {
        let row = &rows[i];
        match snapshots.get(row.entry.snapshot_xid) {
            None => {
                return Err(Error::fixed(ErrorKind::Internal, "manifest row has unknown snapshot"));
            },
            Some(snap) => {
                let line = match format {
                    ManifestFormat::Jsonl => row_json(
                        row,
                        &snap.info,
                        &snap.created,
                        latest,
                    ).to_compact_string(),
                    ManifestFormat::Tsv => row_tsv(row, &snap.info, &snap.created, latest),
                };
                output.append(line.as_str());
                output.append("\n");
            },
        }
        i += 1;
    }
    Ok(())
}

/// The entries that get a row: files and symbolic links.
pub open spec fn leaves(entries: Seq<HistoryEntry>) -> Seq<HistoryEntry> {
    entries.filter(|e: HistoryEntry| e.entry_type.leaf())
}

/// A row for each file and symbolic link, in the given order, with nothing known of
/// its size.
pub open spec fn rows_for(entries: Seq<HistoryEntry>) -> Seq<ManifestRow> {
    Seq::new(
        leaves(entries).len(),
        |i: int|
            ManifestRow { entry: leaves(entries)[i], logical_bytes: None, metadata_error: None },
    )
}

/// A row for each file and symbolic link, in the given order, with nothing known of
/// its size.
pub fn leaf_rows(entries: Vec<HistoryEntry>) -> (r: Vec<ManifestRow>)
    ensures
        r@ == rows_for(entries@),
{
    let ghost all = entries@;
    let mut rows: Vec<ManifestRow> = Vec::new();
    proof {
        reveal(Seq::filter);
        assert(all.take(0) =~= Seq::empty());
    }
    for entry in it: entries.into_iter()
        invariant
            it.seq() == all,
            rows@ =~= Seq::new(
                leaves(all.take(it.index())).len(),
                |i: int|
                    ManifestRow {
                        entry: leaves(all.take(it.index()))[i],
                        logical_bytes: None,
                        metadata_error: None,
                    },
            ),
    {
        proof {
            reveal(Seq::filter);
            let n = it.index();
            assert(all.take(n + 1).drop_last() =~= all.take(n));
            assert(all.take(n + 1).last() == entry);
        }
        if entry.entry_type.is_leaf() {
            rows.push(ManifestRow { entry, logical_bytes: None, metadata_error: None });
        }
    }
    proof {
        assert(all.take(all.len() as int) =~= all);
    }
    rows
}

// ---------------------------------------------------------------------------
// Laws on rows
// ---------------------------------------------------------------------------

/// A row whose place is blocked is skipped. Any other is told by what the latest snapshot
/// proves about its path; the reason names what blocks it, and a change of type.
pub proof fn law_decision_follows_the_row(row: HistoryRow)
    ensures
        row.ancestor_conflict is Some ==> decision_name(row) == "skip_path_conflict"@,
        row.ancestor_conflict is None && row.latest_presence is Present ==> decision_name(row)
            == "latest_present"@,
        row.ancestor_conflict is None && row.latest_presence is Absent ==> decision_name(row)
            == "historical_deleted"@,
        row.ancestor_conflict is None && row.latest_presence is Unknown ==> decision_name(row)
            == "unknown_latest_scan"@,
        ({
            let tail = if row.observed_types.len() > 1 {
                "; the same raw path changed type and the newest type won"@
            } else {
                Seq::empty()
            };
            let why = decision_reason(row);
            &&& row.ancestor_conflict matches Some(above) ==> why
                == "newer non-directory ancestor `"@ + above
                + "` blocks the selected leaf path"@ + tail
            &&& row.ancestor_conflict is None && row.latest_presence is Present ==> why
                == "raw relative path exists in the latest complete snapshot"@ + tail
            &&& row.ancestor_conflict is None && row.latest_presence is Absent ==> why
                == "latest complete snapshot scanned the relevant prefixes and the raw path is absent"@
                + tail
            &&& row.ancestor_conflict is None && row.latest_presence is Unknown ==> why
                == "latest complete snapshot has an unreadable ancestor prefix, so deletion is unproven"@
                + tail
        }),
{
    assert(forall|t: Seq<char>| #[trigger] (t + Seq::<char>::empty()) =~= t);
}

/// The object of a row has one field for each thing known of it.
pub proof fn law_row_object_names_each_property(
    row: ManifestRowView,
    snap: SnapshotView,
    created: Option<Seq<char>>,
    latest: SnapshotView,
)
    ensures
        ({
            let e = row.entry;
            let f = row_fields(row, snap, created, latest);
            &&& says(f, "schema_version"@, JsonView::UInt(1))
            &&& says(f, "record"@, JsonView::Str("entry"@))
            &&& says(f, "decision"@, JsonView::Str(decision_name(e)))
            &&& says(f, "reason"@, JsonView::Str(decision_reason(e)))
            &&& says(f, "relative_path"@, JsonView::Str(e.relative_path))
            &&& says(f, "collision_key"@, JsonView::Str(collision_key(e.relative_path)))
            &&& says(f, "source_path"@, JsonView::Str(e.source_path))
            &&& says(f, "type"@, JsonView::Str(e.entry_type.name()))
            &&& row.logical_bytes matches Some(n) ==> says(f, "logical_bytes"@, JsonView::UInt(n))
            &&& row.logical_bytes is None ==> says(f, "logical_bytes"@, JsonView::Null)
            &&& says(f, "snapshot_name"@, JsonView::Str(snap.name))
            &&& says(f, "snapshot_xid"@, JsonView::UInt(snap.xid))
            &&& created matches Some(t) ==> says(f, "snapshot_create_time"@, JsonView::Str(t))
            &&& created is None ==> says(f, "snapshot_create_time"@, JsonView::Null)
            &&& says(f, "snapshot_create_time_raw"@, JsonView::UInt(snap.create_time))
            &&& says(f, "fsoid"@, JsonView::Str(hex_prefixed(e.fsoid as nat)))
            &&& says(f, "latest_snapshot_name"@, JsonView::Str(latest.name))
            &&& says(f, "latest_snapshot_xid"@, JsonView::UInt(latest.xid))
            &&& e.latest_presence is Present ==> says(
                f,
                "latest_presence"@,
                JsonView::Str("present"@),
            )
            &&& e.latest_presence is Absent ==> says(
                f,
                "latest_presence"@,
                JsonView::Str("absent"@),
            )
            &&& e.latest_presence is Unknown ==> says(
                f,
                "latest_presence"@,
                JsonView::Str("unknown"@),
            )
            &&& says(f, "snapshots_seen"@, JsonView::UInt(e.snapshots_seen as u64))
            &&& says(f, "first_snapshot_xid"@, JsonView::UInt(e.first_snapshot_xid))
            &&& says(f, "type_conflict"@, JsonView::Bool(e.observed_types.len() > 1))
            &&& says(
                f,
                "observed_types"@,
                JsonView::Array(
                    e.observed_types.map_values(|t: EntryType| JsonView::Str(t.name())),
                ),
            )
            &&& e.ancestor_conflict matches Some(t) ==> says(
                f,
                "ancestor_conflict"@,
                JsonView::Str(t),
            )
            &&& e.ancestor_conflict is None ==> says(f, "ancestor_conflict"@, JsonView::Null)
            &&& row.metadata_error matches Some(t) ==> says(f, "metadata_error"@, JsonView::Str(t))
            &&& row.metadata_error is None ==> says(f, "metadata_error"@, JsonView::Null)
            &&& says(f, "collision_key_semantics"@, JsonView::Str("unicode-lowercase-audit-only"@))
            &&& f.len() == 24
        }),
{
    assert(type_names(row.entry.observed_types) =~= row.entry.observed_types.map_values(
        |t: EntryType| JsonView::Str(t.name()),
    ));
    let e = row.entry;
    let f = Seq::empty();
    let f = law_added_field_is_found(f, "schema_version"@, JsonView::UInt(SCHEMA_VERSION as u64));
    let f = law_added_field_is_found(f, "record"@, JsonView::Str("entry"@));
    let f = law_added_field_is_found(f, "decision"@, JsonView::Str(decision_name(e)));
    let f = law_added_field_is_found(f, "reason"@, JsonView::Str(decision_reason(e)));
    let f = law_added_field_is_found(f, "relative_path"@, JsonView::Str(e.relative_path));
    let f = law_added_field_is_found(f, "collision_key"@, JsonView::Str(collision_key(e.relative_path)));
    let f = law_added_field_is_found(f, "source_path"@, JsonView::Str(e.source_path));
    let f = law_added_field_is_found(f, "type"@, JsonView::Str(e.entry_type.name()));
    let f = law_added_field_is_found(f, "logical_bytes"@, uint_or_null(row.logical_bytes));
    let f = law_added_field_is_found(f, "snapshot_name"@, JsonView::Str(snap.name));
    let f = law_added_field_is_found(f, "snapshot_xid"@, JsonView::UInt(snap.xid));
    let f = law_added_field_is_found(f, "snapshot_create_time"@, text_or_null(created));
    let f = law_added_field_is_found(f, "snapshot_create_time_raw"@, JsonView::UInt(snap.create_time));
    let f = law_added_field_is_found(f, "fsoid"@, JsonView::Str(hex_prefixed(e.fsoid as nat)));
    let f = law_added_field_is_found(f, "latest_snapshot_name"@, JsonView::Str(latest.name));
    let f = law_added_field_is_found(f, "latest_snapshot_xid"@, JsonView::UInt(latest.xid));
    let f = law_added_field_is_found(f, "latest_presence"@, JsonView::Str(e.latest_presence.name()));
    let f = law_added_field_is_found(f, "snapshots_seen"@, JsonView::UInt(e.snapshots_seen as u64));
    let f = law_added_field_is_found(f, "first_snapshot_xid"@, JsonView::UInt(e.first_snapshot_xid));
    let f = law_added_field_is_found(f, "type_conflict"@, JsonView::Bool(e.observed_types.len() > 1));
    let f = law_added_field_is_found(f, "observed_types"@, JsonView::Array(type_names(e.observed_types)));
    let f = law_added_field_is_found(f, "ancestor_conflict"@, text_or_null(e.ancestor_conflict));
    let f = law_added_field_is_found(f, "metadata_error"@, text_or_null(row.metadata_error));
    let f = law_added_field_is_found(f, "collision_key_semantics"@, JsonView::Str(COLLISION_KEY_SEMANTICS@));
    assert(f == row_fields(row, snap, created, latest));
}

/// The column `name` of a row with these values holds `value`.
pub open spec fn column_holds(name: Seq<char>, values: Seq<Seq<char>>, value: Seq<char>) -> bool {
    exists|i: int|
        0 <= i < values.len() && #[trigger] tsv_columns()[i] == name && values[i] == value
}

/// Each value of a row stands in the column that the header names for it.
#[verifier::rlimit(50)]
pub proof fn law_values_stand_in_their_columns(
    row: ManifestRowView,
    snap: SnapshotView,
    created: Option<Seq<char>>,
    latest: SnapshotView,
)
    ensures
        ({
            let e = row.entry;
            let v = tsv_values(row, snap, created, latest);
            &&& column_holds("schema_version"@, v, dec(1))
            &&& column_holds("decision"@, v, decision_name(e))
            &&& column_holds("reason"@, v, decision_reason(e))
            &&& column_holds("relative_path"@, v, e.relative_path)
            &&& column_holds("collision_key"@, v, collision_key(e.relative_path))
            &&& column_holds("collision_key_semantics"@, v, "unicode-lowercase-audit-only"@)
            &&& column_holds("source_path"@, v, e.source_path)
            &&& column_holds("type"@, v, e.entry_type.name())
            &&& row.logical_bytes matches Some(n) ==> column_holds("logical_bytes"@, v, dec(n as nat))
            &&& row.logical_bytes is None ==> column_holds("logical_bytes"@, v, Seq::empty())
            &&& column_holds("snapshot_name"@, v, snap.name)
            &&& column_holds("snapshot_xid"@, v, dec(snap.xid as nat))
            &&& created matches Some(t) ==> column_holds("snapshot_create_time"@, v, t)
            &&& created is None ==> column_holds("snapshot_create_time"@, v, Seq::empty())
            &&& column_holds("snapshot_create_time_raw"@, v, dec(snap.create_time as nat))
            &&& column_holds("fsoid"@, v, hex_prefixed(e.fsoid as nat))
            &&& column_holds("latest_snapshot_name"@, v, latest.name)
            &&& column_holds("latest_snapshot_xid"@, v, dec(latest.xid as nat))
            &&& column_holds("latest_presence"@, v, e.latest_presence.name())
            &&& column_holds("snapshots_seen"@, v, dec(e.snapshots_seen as nat))
            &&& column_holds("first_snapshot_xid"@, v, dec(e.first_snapshot_xid as nat))
            &&& column_holds(
                "type_conflict"@,
                v,
                if e.observed_types.len() > 1 {
                    "true"@
                } else {
                    "false"@
                },
            )
            &&& column_holds("observed_types_json"@, v, compact(JsonView::Array(type_names(e.observed_types))))
            &&& e.ancestor_conflict matches Some(t) ==> column_holds("ancestor_conflict"@, v, t)
            &&& e.ancestor_conflict is None ==> column_holds("ancestor_conflict"@, v, Seq::empty())
            &&& row.metadata_error matches Some(t) ==> column_holds("metadata_error"@, v, t)
            &&& row.metadata_error is None ==> column_holds("metadata_error"@, v, Seq::empty())
            &&& v.len() == tsv_columns().len()
        }),
{
    let columns = tsv_columns();
    assert(columns[0] == "schema_version"@);
    assert(columns[1] == "decision"@);
    assert(columns[2] == "reason"@);
    assert(columns[3] == "relative_path"@);
    assert(columns[4] == "collision_key"@);
    assert(columns[5] == "collision_key_semantics"@);
    assert(columns[6] == "source_path"@);
    assert(columns[7] == "type"@);
    assert(columns[8] == "logical_bytes"@);
    assert(columns[9] == "snapshot_name"@);
    assert(columns[10] == "snapshot_xid"@);
    assert(columns[11] == "snapshot_create_time"@);
    assert(columns[12] == "snapshot_create_time_raw"@);
    assert(columns[13] == "fsoid"@);
    assert(columns[14] == "latest_snapshot_name"@);
    assert(columns[15] == "latest_snapshot_xid"@);
    assert(columns[16] == "latest_presence"@);
    assert(columns[17] == "snapshots_seen"@);
    assert(columns[18] == "first_snapshot_xid"@);
    assert(columns[19] == "type_conflict"@);
    assert(columns[20] == "observed_types_json"@);
    assert(columns[21] == "ancestor_conflict"@);
    assert(columns[22] == "metadata_error"@);
}

/// The lines of rows whose snapshots are known, each with its end.
pub open spec fn all_lines(
    format: ManifestFormat,
    rows: Seq<ManifestRow>,
    snapshots: Map<u64, DatedSnapshot>,
    latest: SnapshotView,
) -> Seq<char>
    decreases rows.len(),
{
    if rows.len() == 0 {
        Seq::empty()
    } else {
        all_lines(format, rows.drop_last(), snapshots, latest) + (line_of(
            format,
            rows.last()@,
            snapshots[rows.last().entry.snapshot_xid],
            latest,
        ) + "\n"@)
    }
}

/// The snapshots of the first `n` rows are known.
pub open spec fn are_dated(
    rows: Seq<ManifestRow>,
    n: int,
    snapshots: Map<u64, DatedSnapshot>,
) -> bool {
    forall|i: int|
        0 <= i < n ==> snapshots.contains_key((#[trigger] rows[i]).entry.snapshot_xid)
}

/// A manifest has one line for each row, in their order, up to the first row whose snapshot
/// is not known. It is complete exactly if there is no such row.
pub proof fn law_manifest_has_a_line_for_each_row(
    format: ManifestFormat,
    rows: Seq<ManifestRow>,
    i: int,
    n: int,
    snapshots: Map<u64, DatedSnapshot>,
    latest: SnapshotView,
    start: Seq<char>,
)
    requires
        0 <= i <= n <= rows.len(),
        are_dated(rows, n, snapshots),
        n < rows.len() ==> !snapshots.contains_key(rows[n].entry.snapshot_xid),
    ensures
        ({
            let (text, complete) = lines_from(
                format,
                rows,
                i,
                snapshots,
                latest,
                start + all_lines(format, rows.take(i), snapshots, latest),
            );
            &&& text == start + all_lines(format, rows.take(n), snapshots, latest)
            &&& complete <==> n == rows.len()
        }),
    decreases n - i,
{
    if i < n {
        assert(snapshots.contains_key(rows[i].entry.snapshot_xid));
        let done = all_lines(format, rows.take(i), snapshots, latest);
        let line = line_of(format, rows[i]@, snapshots[rows[i].entry.snapshot_xid], latest);
        assert(rows.take(i + 1).drop_last() =~= rows.take(i));
        assert(start + done + line + "\n"@ =~= start + (done + (line + "\n"@)));
        law_manifest_has_a_line_for_each_row(format, rows, i + 1, n, snapshots, latest, start);
    }
}

/// A row that is written as text begins with its values, and every format writes its own
/// kind of line; only the tab-separated one has a heading, which names the columns.
pub proof fn law_formats_write_their_own_lines(
    row: ManifestRowView,
    snap: DatedSnapshot,
    latest: SnapshotView,
)
    ensures
        line_of(ManifestFormat::Jsonl, row, snap, latest) == compact(
            JsonView::Object(row_fields(row, snap.info@, opt_text(snap.created), latest)),
        ),
        line_of(ManifestFormat::Tsv, row, snap, latest) == joined(
            tsv_values(row, snap.info@, opt_text(snap.created), latest).map_values(
                |v: Seq<char>| tsv_escaped(v),
            ),
            seq!['\t'],
        ),
        heading(ManifestFormat::Jsonl).len() == 0,
        heading(ManifestFormat::Tsv) == joined(tsv_columns(), seq!['\t']) + seq!['\n'],
        format_named("jsonl"@) == Ok::<ManifestFormat, ErrorView>(ManifestFormat::Jsonl),
        format_named("tsv"@) == Ok::<ManifestFormat, ErrorView>(ManifestFormat::Tsv),
        forall|name: Seq<char>|
            name != "jsonl"@ && name != "tsv"@ ==> (#[trigger] format_named(name)) is Err,
{
    reveal_strlit("\t");
    reveal_strlit("\n");
    reveal_strlit("jsonl");
    reveal_strlit("tsv");
    assert("\t"@ =~= seq!['\t']);
    assert("\n"@ =~= seq!['\n']);
    assert("jsonl"@.len() == 5 && "tsv"@.len() == 3);
}

/// Only files and symbolic links get a row, and each one gets its own behind those of the
/// entries before it.
pub proof fn law_each_leaf_gets_a_row(entries: Seq<HistoryEntry>, next: HistoryEntry)
    ensures
        rows_for(Seq::empty()).len() == 0,
        !(next.entry_type is File) && !(next.entry_type is Symlink) ==> rows_for(
            entries.push(next),
        ) == rows_for(entries),
        next.entry_type is File || next.entry_type is Symlink ==> {
            let rows = rows_for(entries.push(next));
            let n = rows_for(entries).len() as int;
            &&& rows.len() == n + 1
            &&& rows.take(n) == rows_for(entries)
            &&& rows[n].entry == next
            &&& rows[n].logical_bytes is None
            &&& rows[n].metadata_error is None
        },
{
    reveal(Seq::filter);
    assert(entries.push(next).drop_last() =~= entries);
    let rows = rows_for(entries.push(next));
    let n = rows_for(entries).len() as int;
    if next.entry_type is File || next.entry_type is Symlink {
        assert(rows.take(n) =~= rows_for(entries));
    } else {
        assert(rows =~= rows_for(entries));
    }
}

/// A root is named in exactly one way and begins with a slash; what is named is then taken
/// as it is. Anything else is a usage error.
pub proof fn law_root_is_named_once(path: Option<Seq<char>>, template: Option<Seq<char>>)
    ensures
        root_wanted(path, template) is Ok <==> ({
            ||| path is None && template is Some && template->Some_0.len() > 0
                && template->Some_0[0] == '/'
            ||| template is None && path is Some && path->Some_0.len() > 0 && path->Some_0[0]
                == '/'
        }),
        root_wanted(path, template) matches Ok(root) ==> Some(root) == path || Some(root)
            == template,
        root_wanted(path, template) matches Err(error) ==> error.kind == ErrorKind::Usage,
{
}

} // verus!
