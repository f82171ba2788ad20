use apfsrelic::history::{
    portable_collision_key, text_of_parts, EntryType, HistoryEntry, HistoryUnion, LatestPresence,
};

fn find<'a>(entries: &'a [HistoryEntry], path: &str) -> &'a HistoryEntry {
    entries
        .iter()
        .find(|entry| entry.relative_path == path)
        .unwrap()
}

#[test]
fn newest_observation_wins_and_latest_absence_means_deleted() {
    let mut union = HistoryUnion::new();
    union.observe("Documents/a", "/old/Documents/a", EntryType::File, 1, 10);
    union.observe("Documents/a", "/new/Documents/a", EntryType::File, 2, 20);
    union.observe(
        "Documents/gone",
        "/old/Documents/gone",
        EntryType::File,
        3,
        10,
    );

    let entries = union.finish(20, &vec![]);
    let current = find(&entries, "Documents/a");
    assert_eq!(current.fsoid, 2);
    assert_eq!(current.source_path, "/new/Documents/a");
    assert_eq!(current.latest_presence, LatestPresence::Present);
    assert_eq!(current.snapshots_seen, 2);
    assert_eq!(
        find(&entries, "Documents/gone").latest_presence,
        LatestPresence::Absent
    );
}

#[test]
fn unreadable_latest_prefix_does_not_create_false_deletion() {
    let mut union = HistoryUnion::new();
    union.observe(
        "Library/Mail/a",
        "/old/Library/Mail/a",
        EntryType::File,
        1,
        10,
    );
    union.observe("Documents/a", "/old/Documents/a", EntryType::File, 2, 10);

    let entries = union.finish(20, &vec!["Library/Mail".into()]);
    assert_eq!(
        find(&entries, "Library/Mail/a").latest_presence,
        LatestPresence::Unknown
    );
    assert_eq!(
        find(&entries, "Documents/a").latest_presence,
        LatestPresence::Absent
    );
}

#[test]
fn raw_case_variants_stay_distinct_with_equal_portable_audit_keys() {
    let mut union = HistoryUnion::new();
    union.observe("Foo", "/old/Foo", EntryType::Dir, 1, 10);
    union.observe("foo", "/new/foo", EntryType::File, 2, 20);

    let entries = union.finish(20, &vec![]);
    assert_eq!(entries.len(), 2);
    assert_eq!(portable_collision_key("Foo"), portable_collision_key("foo"));
}

#[test]
fn same_raw_path_type_change_keeps_latest_type_and_flags_conflict() {
    let mut union = HistoryUnion::new();
    union.observe("item", "/old/item", EntryType::Dir, 1, 10);
    union.observe("item", "/new/item", EntryType::File, 2, 20);
    let entries = union.finish(20, &vec![]);
    assert_eq!(entries.len(), 1);
    assert_eq!(entries[0].entry_type, EntryType::File);
    assert!(entries[0].type_conflict());
}

#[test]
fn newer_non_directory_ancestor_shadows_old_descendant() {
    let mut union = HistoryUnion::new();
    union.observe("a", "/old/a", EntryType::Dir, 1, 10);
    union.observe("a/b", "/old/a/b", EntryType::File, 2, 10);
    union.observe("a", "/new/a", EntryType::File, 3, 20);

    let entries = union.finish(20, &vec![]);
    assert_eq!(
        find(&entries, "a/b").ancestor_conflict.as_deref(),
        Some("a")
    );
}

#[test]
fn output_order_is_raw_path_order() {
    let mut union = HistoryUnion::new();
    union.observe("z", "/s/z", EntryType::File, 1, 10);
    union.observe("a", "/s/a", EntryType::File, 2, 10);
    let entries = union.finish(10, &vec![]);
    assert_eq!(entries[0].relative_path, "a");
    assert_eq!(entries[1].relative_path, "z");
}

#[test]
fn an_empty_union_has_no_rows() {
    let union = HistoryUnion::default();
    assert!(union.is_empty());
    assert_eq!(union.len(), 0);
    assert!(union.finish(1, &vec![]).is_empty());
}

#[test]
fn paths_are_counted_once_and_cleaned() {
    let mut union = HistoryUnion::new();
    union.observe("/a/", "/s/a", EntryType::File, 1, 10);
    union.observe("a", "/s/a", EntryType::File, 1, 10);
    union.observe("a", "/s/a", EntryType::File, 1, 11);
    assert_eq!(union.len(), 1);
    assert!(!union.is_empty());
    let rows = union.finish(11, &vec![]);
    assert_eq!(rows[0].relative_path, "a");
    assert_eq!(rows[0].snapshots_seen, 2);
    assert_eq!(rows[0].first_snapshot_xid, 10);
}

#[test]
fn duplicates_in_one_snapshot_do_not_depend_on_their_order() {
    let seen = [(EntryType::Symlink, 5), (EntryType::File, 9), (EntryType::File, 7)];
    for order in [[0, 1, 2], [2, 1, 0], [1, 2, 0]] {
        let mut union = HistoryUnion::new();
        for i in order {
            union.observe("p", "/s/p", seen[i].0, seen[i].1, 10);
        }
        let rows = union.finish(10, &vec![]);
        assert_eq!(rows[0].entry_type, EntryType::File);
        assert_eq!(rows[0].fsoid, 7);
        assert_eq!(rows[0].observed_types, vec![EntryType::File, EntryType::Symlink]);
        assert_eq!(rows[0].snapshots_seen, 1);
    }
}

#[test]
fn an_older_snapshot_observed_late_moves_only_the_first_sighting() {
    let mut union = HistoryUnion::new();
    union.observe("p", "/new/p", EntryType::File, 1, 20);
    union.observe("p", "/old/p", EntryType::Symlink, 2, 10);
    let rows = union.finish(30, &vec![]);
    assert_eq!(rows[0].source_path, "/new/p");
    assert_eq!(rows[0].snapshot_xid, 20);
    assert_eq!(rows[0].first_snapshot_xid, 10);
    assert_eq!(rows[0].latest_presence, LatestPresence::Absent);
}

#[test]
fn only_leaves_keep_their_source_path() {
    let mut union = HistoryUnion::new();
    union.observe("d", "/s/d", EntryType::Dir, 1, 10);
    union.observe("l", "/s/l", EntryType::Symlink, 2, 10);
    let rows = union.finish(10, &vec![]);
    assert_eq!(find(&rows, "d").source_path, "");
    assert_eq!(find(&rows, "l").source_path, "/s/l");
}

#[test]
fn the_nearest_newer_blocking_ancestor_is_named() {
    let mut union = HistoryUnion::new();
    union.observe("a", "/s/a", EntryType::Symlink, 1, 30);
    union.observe("a/b", "/s/a/b", EntryType::File, 2, 20);
    union.observe("a/b/c", "/s/a/b/c", EntryType::Dir, 3, 10);
    union.observe("a/b/c/d", "/s/a/b/c/d", EntryType::File, 4, 10);
    let rows = union.finish(30, &vec![]);
    assert_eq!(find(&rows, "a/b/c/d").ancestor_conflict.as_deref(), Some("a/b"));
    assert_eq!(find(&rows, "a/b").ancestor_conflict.as_deref(), Some("a"));
    assert!(find(&rows, "a").ancestor_conflict.is_none());
}

#[test]
fn an_ancestor_that_is_no_newer_blocks_nothing() {
    let mut union = HistoryUnion::new();
    union.observe("a", "/s/a", EntryType::Symlink, 1, 30);
    union.observe("a/b", "/s/a/b", EntryType::File, 2, 10);
    union.observe("a/b/c", "/s/a/b/c", EntryType::File, 3, 20);
    union.observe("a/d", "/s/a/d", EntryType::File, 4, 30);
    let rows = union.finish(30, &vec![]);
    assert_eq!(find(&rows, "a/b/c").ancestor_conflict.as_deref(), Some("a"));
    assert!(find(&rows, "a/d").ancestor_conflict.is_none());
}

#[test]
fn an_unreadable_root_or_the_path_itself_makes_absence_unknown() {
    let observe = || {
        let mut union = HistoryUnion::new();
        union.observe("a/b", "/s/a/b", EntryType::File, 1, 10);
        union.observe("ab", "/s/ab", EntryType::File, 2, 10);
        union
    };
    let rows = observe().finish(20, &vec!["/".into()]);
    assert!(rows.iter().all(|row| row.latest_presence == LatestPresence::Unknown));
    let rows = observe().finish(20, &vec!["/a/".into()]);
    assert_eq!(find(&rows, "a/b").latest_presence, LatestPresence::Unknown);
    assert_eq!(find(&rows, "ab").latest_presence, LatestPresence::Absent);
    let rows = observe().finish(20, &vec!["ab".into()]);
    assert_eq!(find(&rows, "ab").latest_presence, LatestPresence::Unknown);
}

#[test]
fn names_of_types_round_trip() {
    for name in [
        "file", "dir", "symlink", "fifo", "char", "block", "socket", "whiteout", "unknown",
    ] {
        assert_eq!(EntryType::from_name(name).as_str(), name);
    }
    assert_eq!(EntryType::from_name("door"), EntryType::Unknown);
    assert!(EntryType::Symlink.is_leaf());
    assert!(!EntryType::Dir.is_leaf());
    assert_eq!(LatestPresence::Unknown.as_str(), "unknown");
    assert_eq!(LatestPresence::Present.as_str(), "present");
    assert_eq!(LatestPresence::Absent.as_str(), "absent");
}

#[test]
fn audit_keys_are_lower_case_and_clean() {
    assert_eq!(portable_collision_key("/Fotos/ÄRGER/"), "fotos/ärger");
    // One capital letter can become two characters.
    assert_eq!(portable_collision_key("\u{130}"), "i\u{307}");
    assert_eq!(text_of_parts(&vec![vec!['a', 'b'], vec![], vec!['c']]), "abc");
}

#[test]
fn rows_come_in_the_order_of_their_bytes() {
    let mut union = HistoryUnion::new();
    for path in ["b", "é", "a/z", "a", "a-", "Z", "aa"] {
        union.observe(path, "/s", EntryType::File, 1, 10);
    }
    let rows = union.finish(10, &vec![]);
    let paths: Vec<&str> = rows.iter().map(|row| row.relative_path.as_str()).collect();
    assert_eq!(paths, vec!["Z", "a", "a-", "a/z", "aa", "b", "é"]);
}
