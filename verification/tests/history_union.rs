use apfsrelic::error::ErrorKind;
use apfsrelic::history::{EntryType, HistoryEntry, LatestPresence};
use apfsrelic::history_union::{
    decision, leaf_rows, root_template, row_json, row_tsv, tsv_escape, tsv_header, write_manifest,
    DatedSnapshot, ManifestFormat, ManifestRow,
};
use apfsrelic::options::Options;
use apfsrelic::snapshots::{snapshot_root, SnapshotInfo};
use apfsrelic::union_run::manifest_format;
use apfsrelic::xid_map::XidMap;

fn snapshot(xid: u64, name: &str) -> SnapshotInfo {
    SnapshotInfo {
        xid,
        name: name.into(),
        sblock_oid: 0,
        extentref_tree_oid: 0,
        create_time: 0,
        change_time: 0,
    }
}

fn entry(presence: LatestPresence) -> HistoryEntry {
    HistoryEntry {
        relative_path: "Documents/a\tb".into(),
        source_path: "/snap/home/Documents/a\tb".into(),
        entry_type: EntryType::File,
        fsoid: 42,
        snapshot_xid: 10,
        first_snapshot_xid: 5,
        snapshots_seen: 2,
        latest_presence: presence,
        observed_types: vec![EntryType::File],
        ancestor_conflict: None,
    }
}

fn row(presence: LatestPresence) -> ManifestRow {
    ManifestRow {
        entry: entry(presence),
        logical_bytes: Some(123),
        metadata_error: None,
    }
}

#[test]
fn template_expands_snapshot_tokens_and_trims_only_trailing_separator() {
    assert_eq!(
        snapshot_root("/{snapshot}/Data/Users/me/", "2023.backup"),
        "/2023.backup/Data/Users/me"
    );
    assert_eq!(
        snapshot_root(
            "/{snapshot-dir}/Macintosh HD - Data/Users/alice/",
            "com.apple.TimeMachine.2023-01-02-030405.backup"
        ),
        "/2023-01-02-030405.backup/Macintosh HD - Data/Users/alice"
    );
}

#[test]
fn root_itself_is_not_trimmed_away() {
    assert_eq!(snapshot_root("/", "x"), "/");
    assert_eq!(snapshot_root("//", "x"), "");
    assert_eq!(snapshot_root("/{snapshot}{snapshot}", "ab"), "/abab");
}

#[test]
fn latest_scan_state_selects_recovery_decision() {
    assert_eq!(
        decision(&entry(LatestPresence::Present)).0,
        "latest_present"
    );
    assert_eq!(
        decision(&entry(LatestPresence::Absent)).0,
        "historical_deleted"
    );
    assert_eq!(
        decision(&entry(LatestPresence::Unknown)).0,
        "unknown_latest_scan"
    );
}

#[test]
fn conflict_and_type_change_are_explained() {
    let mut conflicted = entry(LatestPresence::Present);
    conflicted.ancestor_conflict = Some("Documents".to_string());
    conflicted.observed_types = vec![EntryType::File, EntryType::Symlink];
    let (name, reason) = decision(&conflicted);
    assert_eq!(name, "skip_path_conflict");
    assert_eq!(
        reason,
        "newer non-directory ancestor `Documents` blocks the selected leaf path; the same raw path changed type and the newest type won"
    );
}

#[test]
fn tsv_escapes_control_characters_and_backslashes() {
    assert_eq!(tsv_escape("a\tb\nc\\d\r"), "a\\tb\\nc\\\\d\\r");
}

#[test]
fn tsv_header_and_row_have_the_same_column_count() {
    let row = row(LatestPresence::Absent);
    let snap = snapshot(10, "old");
    let latest = snapshot(20, "latest");
    assert_eq!(
        row_tsv(&row, &snap, &None, &latest).split('\t').count(),
        tsv_header().len()
    );
}

#[test]
fn tsv_row_is_exact() {
    let row = row(LatestPresence::Absent);
    let snap = snapshot(10, "old");
    let latest = snapshot(20, "latest");
    let text = row_tsv(&row, &snap, &Some("2023".to_string()), &latest);
    let fields: Vec<&str> = text.split('\t').collect();
    assert_eq!(tsv_header().len(), 23);
    assert_eq!(fields[0], "1");
    assert_eq!(fields[1], "historical_deleted");
    assert_eq!(fields[3], "Documents/a\\tb");
    assert_eq!(fields[4], "documents/a\\tb");
    assert_eq!(fields[5], "unicode-lowercase-audit-only");
    assert_eq!(fields[7], "file");
    assert_eq!(fields[8], "123");
    assert_eq!(fields[9], "old");
    assert_eq!(fields[10], "10");
    assert_eq!(fields[11], "2023");
    assert_eq!(fields[13], "0x2a");
    assert_eq!(fields[19], "false");
    assert_eq!(fields[20], "[\"file\"]");
    assert_eq!(fields[22], "");
}

#[test]
fn jsonl_row_has_recovery_source_and_stable_decision() {
    let row = row(LatestPresence::Absent);
    let snap = snapshot(10, "old");
    let latest = snapshot(20, "latest");
    let json = row_json(&row, &snap, &None, &latest).to_compact_string();
    assert!(json.contains("\"decision\":\"historical_deleted\""));
    assert!(json.contains("\"source_path\":\"/snap/home/Documents/a\\tb\""));
    assert!(json.contains("\"logical_bytes\":123"));
}

#[test]
fn manifest_needs_every_snapshot_of_its_rows() {
    let rows = vec![row(LatestPresence::Absent)];
    let latest = snapshot(20, "latest");
    let mut table: XidMap<DatedSnapshot> = XidMap::new();
    let mut text = String::new();
    let error = write_manifest(&mut text, ManifestFormat::Tsv, &rows, &table, &latest).unwrap_err();
    assert_eq!(error.kind(), ErrorKind::Internal);
    assert_eq!(error.text(), "manifest row has unknown snapshot");
    assert_eq!(text, format!("{}\n", tsv_header().join("\t")));

    table.insert(
        10,
        DatedSnapshot {
            info: snapshot(10, "old"),
            created: None,
        },
    );
    let mut text = String::new();
    write_manifest(&mut text, ManifestFormat::Jsonl, &rows, &table, &latest).unwrap();
    assert_eq!(
        text,
        format!(
            "{}\n",
            row_json(&rows[0], &snapshot(10, "old"), &None, &latest).to_compact_string()
        )
    );
}

#[test]
fn directories_get_no_row() {
    let mut dir = entry(LatestPresence::Present);
    dir.entry_type = EntryType::Dir;
    let rows = leaf_rows(vec![dir, entry(LatestPresence::Absent)]);
    assert_eq!(rows.len(), 1);
    assert_eq!(rows[0].entry.latest_presence, LatestPresence::Absent);
    assert_eq!(rows[0].logical_bytes, None);
}

#[test]
fn root_is_asked_for_exactly_once_and_absolute() {
    let both = Options {
        path: Some("/a".to_string()),
        path_template: Some("/b".to_string()),
        ..Options::default()
    };
    assert_eq!(
        root_template(&both).unwrap_err().text(),
        "use only one of `--path` and `--path-template`"
    );
    assert_eq!(
        root_template(&Options::default()).unwrap_err().kind(),
        ErrorKind::Usage
    );
    let relative = Options {
        path: Some("a".to_string()),
        ..Options::default()
    };
    assert_eq!(
        root_template(&relative).unwrap_err().text(),
        "history root path must be absolute"
    );
    let template = Options {
        path_template: Some("/{snapshot}".to_string()),
        ..Options::default()
    };
    assert_eq!(root_template(&template).unwrap(), "/{snapshot}");
}

#[test]
fn format_defaults_to_json_lines() {
    assert_eq!(
        manifest_format(&Options::default()).unwrap(),
        ManifestFormat::Jsonl
    );
    let tsv = Options {
        format: Some("tsv".to_string()),
        ..Options::default()
    };
    assert_eq!(manifest_format(&tsv).unwrap(), ManifestFormat::Tsv);
    let other = Options {
        format: Some("csv".to_string()),
        ..Options::default()
    };
    assert_eq!(
        manifest_format(&other).unwrap_err().text(),
        "unsupported --format `csv` (expected jsonl or tsv)"
    );
}
