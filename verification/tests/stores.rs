use tsumugi::history::{restore_at, try_restore_at, HistoryEntry, HistoryLine};
use tsumugi::history_diff::{
    get_unsaved_diff, try_get_entry_diff, try_get_entry_previews, try_get_unsaved_diff,
};
use tsumugi::history_file::{Cleanup, IndexEntry};
use tsumugi::paths::path_hash;
use tsumugi::store::{can_rename, HistoryConfig, HistoryStore, StoredIndex, Written};

fn empty_store(config: HistoryConfig) -> HistoryStore {
    HistoryStore::load(Some(config), StoredIndex::Absent, &vec![]).0
}

fn usual() -> HistoryConfig {
    HistoryConfig::default()
}

fn snapshot(t: u64, c: &str, saved: bool) -> HistoryEntry {
    HistoryEntry::Snapshot { t, p: "/a.md".to_string(), c: c.to_string(), saved }
}

fn add(files: &mut Vec<(String, Vec<HistoryEntry>)>, written: Vec<Written>) {
    for w in written {
        match files.iter_mut().find(|f| f.0 == w.file_hash) {
            Some(f) => f.1.push(w.entry),
            None => files.push((w.file_hash, vec![w.entry])),
        }
    }
}

fn kinds(written: &[Written]) -> Vec<(bool, bool)> {
    written.iter().map(|w| (w.entry.is_snapshot(), w.entry.saved())).collect()
}

#[test]
fn usual_configuration() {
    let c = HistoryConfig::default();
    assert!(c.enabled);
    assert_eq!(c.snapshot_interval, 20);
    assert!(!c.include_network_paths);
    assert!(!c.include_temp_files);
    let (store, keep) = HistoryStore::load(None, StoredIndex::Absent, &vec![]);
    assert_eq!(*store.config(), c);
    assert!(!keep);
}

#[test]
fn configuration_is_set() {
    let mut store = empty_store(usual());
    let other = HistoryConfig { enabled: false, ..usual() };
    store.set_config(other);
    assert_eq!(*store.config(), other);
    store.start_tracking("main", "a", Some("/a.md"), None, &vec![], 1);
    assert!(store.record_change("main", "b", Some("/a.md"), None, false, 1).is_empty());
    assert_eq!(store.tracking_hash("main", Some("/a.md"), None), None);
}

#[test]
fn tracking_writes_the_opening_version() {
    let mut store = empty_store(usual());
    let started = store.start_tracking("main", "one", Some("/a.md"), None, &vec![], 4);
    assert!(started.index_changed);
    let hash = path_hash("/a.md", None);
    assert_eq!(started.written.len(), 1);
    assert_eq!(started.written[0].file_hash, hash);
    match &started.written[0].entry {
        HistoryEntry::Snapshot { t, p, c, saved } => {
            assert_eq!((*t, p.as_str(), c.as_str(), *saved), (4, "/a.md", "one", true));
        }
        other => panic!("{:?}", other),
    }
    assert!(!store.check_unsaved("/a.md", None));
    assert_eq!(store.get_files()[0].entry_count, 1);
    assert_eq!(store.get_files()[0].last_timestamp, 4);
    let mut disk = vec![];
    add(&mut disk, started.written);
    assert_eq!(restore_at(&disk[0].1, 0).as_deref(), Ok("one"));
    assert!(store.can_record());
    let written = store.record_change("main", "one two", Some("/a.md"), None, false, 5);
    assert_eq!(kinds(&written), vec![(false, false)]);
    assert_eq!(written[0].file_hash, hash);
    assert!(store.check_unsaved("/a.md", None));
    let files = store.get_files();
    assert_eq!(files.len(), 1);
    assert_eq!(files[0].file_hash, hash);
    assert_eq!(files[0].file_path, "/a.md");
    assert_eq!(files[0].entry_count, 2);
    assert_eq!(files[0].last_timestamp, 5);
    add(&mut disk, written);
    assert_eq!(restore_at(&disk[0].1, 0).as_deref(), Ok("one two"));
    assert_eq!(restore_at(&disk[0].1, 4).as_deref(), Ok("one"));
}

#[test]
fn tracking_again_writes_nothing() {
    let mut store = empty_store(usual());
    let mut disk = vec![];
    let started = store.start_tracking("main", "one", Some("/a.md"), None, &vec![], 4);
    add(&mut disk, started.written);
    store.stop_tracking("main");
    let started = store.start_tracking("main", "one", Some("/a.md"), None, &disk[0].1, 9);
    assert!(started.written.is_empty());
    assert!(!started.index_changed);
    assert_eq!(store.get_files()[0].last_timestamp, 4);
}

#[test]
fn nameless_documents_keep_the_unsaved_mark() {
    let all = HistoryConfig { include_temp_files: true, ..usual() };
    let mut store = empty_store(all);
    store.start_tracking("main", "", None, None, &vec![], 1);
    let written = store.record_change("main", "x", None, None, false, 2);
    assert_eq!(kinds(&written), vec![(true, false)]);
    let started = store.start_tracking("main", "y", None, None, &vec![], 3);
    assert_eq!(kinds(&started.written), vec![(true, true)]);
    assert_eq!(started.written[0].entry.path(), "");
    assert!(store.get_files()[0].has_unsaved);
    assert_eq!(store.get_files()[0].entry_count, 2);
}

#[test]
fn empty_document_begins_with_its_first_version() {
    let mut store = empty_store(usual());
    let started = store.start_tracking("main", "", Some("/a.md"), None, &vec![], 1);
    assert!(started.written.is_empty());
    assert!(!started.index_changed);
    assert!(store.record_change("main", "", Some("/a.md"), None, true, 1).is_empty());
    let written = store.record_change("main", "x", Some("/a.md"), None, false, 2);
    assert_eq!(kinds(&written), vec![(true, false)]);
    let written = store.record_change("main", "xy", Some("/a.md"), None, false, 3);
    assert_eq!(kinds(&written), vec![(false, false)]);
}

#[test]
fn what_is_recorded_is_restored() {
    let config = HistoryConfig { snapshot_interval: 3, ..usual() };
    let mut store = empty_store(config);
    let mut disk: Vec<(String, Vec<HistoryEntry>)> = vec![];
    let started = store.start_tracking("main", "start", Some("/a.md"), None, &vec![], 1);
    add(&mut disk, started.written);
    assert_eq!(restore_at(&disk[0].1, 0).as_deref(), Ok("start"));
    let versions = ["start a", "start b c", "", "日本\n語", "日本\n語 x", "y", "y", "z\n"];
    for (i, version) in versions.iter().enumerate() {
        let now = 10 * (i as u64 + 1);
        let written = store.record_change("main", version, Some("/a.md"), None, i == 4, now);
        add(&mut disk, written);
        assert_eq!(restore_at(&disk[0].1, 0).as_deref(), Ok(*version));
        assert_eq!(restore_at(&disk[0].1, now).as_deref(), Ok(*version));
        assert_eq!(store.get_files()[0].entry_count, disk[0].1.len());
    }
    let runs = disk[0].1.split(|e| e.is_snapshot()).map(|run| run.len()).max();
    assert_eq!(runs, Some(3));
    for (i, version) in versions.iter().enumerate() {
        assert_eq!(restore_at(&disk[0].1, 10 * (i as u64 + 1)).as_deref(), Ok(*version));
    }
}

#[test]
fn save_is_a_whole_version() {
    let mut store = empty_store(usual());
    let mut disk = vec![];
    add(&mut disk, store.start_tracking("main", "a", Some("/a.md"), None, &vec![], 1).written);
    add(&mut disk, store.record_change("main", "b", Some("/a.md"), None, false, 1));
    assert!(store.check_unsaved("/a.md", None));
    let written = store.record_change("main", "b", Some("/a.md"), None, false, 2);
    assert!(written.is_empty());
    let written = store.record_change("main", "b", Some("/a.md"), None, true, 3);
    assert_eq!(kinds(&written), vec![(true, true)]);
    add(&mut disk, written);
    assert!(!store.check_unsaved("/a.md", None));
    assert!(get_unsaved_diff(&disk[0].1).is_none());
    let written = store.record_change("main", "c", Some("/a.md"), None, true, 4);
    assert_eq!(kinds(&written), vec![(false, true), (true, true)]);
    add(&mut disk, written);
    assert!(get_unsaved_diff(&disk[0].1).is_none());
}

#[test]
fn another_path_begins_another_history() {
    let mut store = empty_store(usual());
    store.start_tracking("main", "a", Some("/a.md"), None, &vec![], 1);
    store.record_change("main", "b", Some("/a.md"), None, true, 1);
    let written = store.record_change("main", "c", Some("/b.md"), None, true, 2);
    assert_eq!(kinds(&written), vec![(true, true)]);
    assert_eq!(written[0].file_hash, path_hash("/b.md", None));
    assert_eq!(store.get_files().len(), 2);
    assert_eq!(store.get_files()[0].file_path, "/b.md");
    let written = store.record_change("main", "d", Some("/b.md"), None, false, 3);
    assert_eq!(written[0].file_hash, path_hash("/b.md", None));
    let known = store.record_change("main", "e", Some("/c.md"), Some("/b.md"), false, 4);
    assert_eq!(kinds(&known), vec![(false, false)]);
    assert_eq!(known[0].file_hash, path_hash("/b.md", None));
}

#[test]
fn recording_touches_no_other_document() {
    let mut store = empty_store(usual());
    let mut disk = vec![];
    add(&mut disk, store.start_tracking("main", "a", Some("/a.md"), None, &vec![], 1).written);
    add(&mut disk, store.start_tracking("doc-1", "b", Some("/b.md"), None, &vec![], 1).written);
    add(&mut disk, store.record_change("doc-1", "b2", Some("/b.md"), None, false, 1));
    let listed = store.get_files();
    let before = listed.iter().find(|m| m.file_path == "/b.md").expect("the other history");
    add(&mut disk, store.record_change("main", "a2", Some("/a.md"), None, true, 2));
    let after = store.get_files();
    let other = after.iter().find(|m| m.file_path == "/b.md").expect("the other history");
    assert_eq!(other.file_hash, before.file_hash);
    assert_eq!(other.entry_count, before.entry_count);
    assert_eq!(other.last_timestamp, before.last_timestamp);
    assert!(other.has_unsaved && store.check_unsaved("/b.md", None));
    add(&mut disk, store.record_change("doc-1", "b3", Some("/b.md"), None, false, 3));
    let history = disk.iter().find(|f| f.0 == other.file_hash).expect("the other history");
    assert_eq!(restore_at(&history.1, 0).as_deref(), Ok("b3"));
}

#[test]
fn made_delta_is_written_as_it_is() {
    let mut store = empty_store(usual());
    store.start_tracking("main", "abc", Some("/a.md"), None, &vec![snapshot(1, "abc", true)], 1);
    let written =
        store.record_made("main", "abcd", Some("/a.md"), None, false, 9, Some("=3\t+d"));
    match &written[0].entry {
        HistoryEntry::Delta { t, p, d, saved } => {
            assert_eq!((*t, p.as_str(), d.as_str(), *saved), (9, "/a.md", "=3\t+d", false));
        }
        other => panic!("{:?}", other),
    }
    assert_eq!(written.len(), 1);
    let nothing = store.record_made("main", "xyz", Some("/a.md"), None, false, 10, None);
    assert!(nothing.is_empty());
    let same = store.record_made("main", "xyz", Some("/a.md"), None, false, 11, None);
    assert!(same.is_empty());
}

#[test]
fn known_version_is_not_written_again() {
    let mut store = empty_store(usual());
    let entries = vec![snapshot(1, "abc", true)];
    let started = store.start_tracking("main", "abc", Some("/a.md"), None, &entries, 1);
    assert!(started.written.is_empty());
    let written = store.record_change("main", "abcd", Some("/a.md"), None, false, 2);
    assert_eq!(kinds(&written), vec![(false, false)]);
    let started = store.start_tracking("doc-1", "other", Some("/a.md"), None, &entries, 1);
    assert_eq!(kinds(&started.written), vec![(true, true)]);
    let written = store.record_change("doc-1", "other!", Some("/a.md"), None, false, 3);
    assert_eq!(kinds(&written), vec![(false, false)]);
}

#[test]
fn tracking_needs_a_history_that_can_be_run() {
    let mut store = empty_store(usual());
    let broken = vec![
        snapshot(1, "a", true),
        HistoryEntry::Delta { t: 2, p: String::new(), d: "+%ff".to_string(), saved: false },
    ];
    assert!(store.try_start_tracking("main", "a", Some("/a.md"), None, &broken, 1).is_none());
    assert!(store.record_change("main", "b", Some("/a.md"), None, false, 3).is_empty());
    let unwanted = store.try_start_tracking("main", "a", None, None, &broken, 1);
    assert!(unwanted.is_some_and(|s| s.written.is_empty() && !s.index_changed));
    let fine = vec![snapshot(1, "a", true)];
    let started = store.try_start_tracking("main", "a", Some("/a.md"), None, &fine, 1);
    assert!(started.is_some_and(|s| s.written.is_empty() && !s.index_changed));
    let opened = store.try_start_tracking("doc-1", "b", Some("/b.md"), None, &vec![], 1);
    assert!(opened.is_some_and(|s| s.written.len() == 1 && s.index_changed));
    assert!(!store.record_change("main", "b", Some("/a.md"), None, false, 3).is_empty());
}

#[test]
fn tracking_needs_a_history_that_can_be_counted() {
    let full = IndexEntry {
        file_path: "/a.md".to_string(),
        entry_count: usize::MAX,
        last_timestamp: 7,
        has_unsaved: true,
    };
    let index = vec![(path_hash("/a.md", None), full)];
    let mut store = HistoryStore::load(None, StoredIndex::Read(index), &vec![]).0;
    assert!(store.try_start_tracking("main", "a", Some("/a.md"), None, &vec![], 1).is_none());
    assert!(store.check_unsaved("/a.md", None));
    assert!(store.try_start_tracking("main", "a", Some("/b.md"), None, &vec![], 1).is_some());
    assert!(!store.can_record());
}

#[test]
fn recorded_histories_can_be_run() {
    let mut store = empty_store(usual());
    let mut disk = vec![];
    store.start_tracking("main", "", Some("/a.md"), None, &vec![], 1);
    for (i, version) in ["%ff", "+%ff\t=1", "\u{feff}%E3%81", "100% é"].iter().enumerate() {
        let now = i as u64 + 1;
        add(&mut disk, store.record_change("main", version, Some("/a.md"), None, false, now));
        let restored = try_restore_at(&disk[0].1, 0);
        assert_eq!(restored, Some(Ok(version.to_string())));
        assert!(try_get_entry_previews(&disk[0].1).is_some());
        assert!(try_get_entry_diff(&disk[0].1, now).is_some());
        assert!(try_get_unsaved_diff(&disk[0].1).is_some());
    }
}

#[test]
fn unwanted_documents_are_not_recorded() {
    let mut store = empty_store(usual());
    store.start_tracking("main", "a", None, None, &vec![], 1);
    assert!(store.record_change("main", "b", None, None, false, 1).is_empty());
    assert_eq!(store.tracking_hash("main", None, None), None);
    store.start_tracking("main", "a", Some("//server/a"), None, &vec![], 1);
    assert!(store.record_change("main", "b", Some("//server/a"), None, false, 1).is_empty());
    store.start_tracking("main", "a", Some("/a.md"), None, &vec![], 1);
    assert!(store.record_change("main", "b", Some("\\\\server\\a"), None, false, 1).is_empty());
    assert!(store.record_change("other", "b", Some("/a.md"), None, false, 1).is_empty());
    assert!(!store.record_change("main", "b", Some("/a.md"), None, false, 1).is_empty());
    let all = HistoryConfig { include_network_paths: true, include_temp_files: true, ..usual() };
    let mut store = empty_store(all);
    store.start_tracking("main", "a", None, None, &vec![], 1);
    assert_eq!(store.tracking_hash("main", None, None), Some(path_hash("main", None)));
    let written = store.record_change("main", "b", None, None, false, 1);
    assert_eq!(written[0].file_hash, path_hash("main", None));
    assert_eq!(written[0].entry.path(), "");
    store.start_tracking("main", "a", Some("//server/a"), None, &vec![], 1);
    assert!(!store.record_change("main", "b", Some("//server/a"), None, false, 1).is_empty());
}

#[test]
fn tracking_stops() {
    let mut store = empty_store(usual());
    store.start_tracking("main", "a", Some("/a.md"), None, &vec![], 1);
    store.start_tracking("doc-1", "a", Some("/b.md"), None, &vec![], 1);
    store.stop_tracking("main");
    assert!(store.record_change("main", "b", Some("/a.md"), None, false, 1).is_empty());
    assert!(!store.record_change("doc-1", "b", Some("/b.md"), None, false, 1).is_empty());
}

#[test]
fn opening_a_file_clears_the_unsaved_mark() {
    let hash = path_hash("/a.md", None);
    let index = vec![(
        hash.clone(),
        IndexEntry {
            file_path: "/a.md".to_string(),
            entry_count: 4,
            last_timestamp: 7,
            has_unsaved: true,
        },
    )];
    let (mut store, keep) = HistoryStore::load(None, StoredIndex::Read(index), &vec![]);
    assert!(!keep);
    assert!(store.check_unsaved("/a.md", None));
    assert!(!store.check_unsaved("/b.md", None));
    let entries = vec![snapshot(7, "a", false)];
    assert!(store.start_tracking("main", "a", Some("/a.md"), None, &entries, 8).index_changed);
    assert!(!store.check_unsaved("/a.md", None));
    assert!(!store.start_tracking("main", "a", Some("/a.md"), None, &entries, 9).index_changed);
    assert_eq!(store.get_files()[0].entry_count, 4);
}

#[test]
fn index_is_made_from_histories() {
    let files = vec![
        ("h1".to_string(), vec![snapshot(5, "a", true), snapshot(6, "b", false)]),
        ("h2".to_string(), vec![]),
        ("h3".to_string(), vec![snapshot(9, "c", true)]),
    ];
    let (store, keep) = HistoryStore::load(None, StoredIndex::Absent, &files);
    assert!(keep);
    let listed: Vec<(String, usize, bool)> = store
        .get_files()
        .into_iter()
        .map(|m| (m.file_hash, m.entry_count, m.has_unsaved))
        .collect();
    assert_eq!(listed, vec![("h3".to_string(), 1, false), ("h1".to_string(), 2, true)]);
    let (store, keep) = HistoryStore::load(None, StoredIndex::Unreadable, &files);
    assert!(!keep);
    assert_eq!(store.get_files().len(), 2);
}

#[test]
fn histories_are_deleted() {
    let files = vec![
        ("h1".to_string(), vec![snapshot(5, "a", true)]),
        ("h2".to_string(), vec![snapshot(6, "a", false)]),
    ];
    let mut store = HistoryStore::load(None, StoredIndex::Absent, &files).0;
    store.delete_file("h1");
    assert_eq!(store.hashes(), vec!["h2"]);
    store.delete_unsaved_entries("h2", &vec!["x".to_string(), "y".to_string()]);
    assert_eq!(store.get_files()[0].entry_count, 2);
    assert!(!store.get_files()[0].has_unsaved);
    store.delete_unsaved_entries("h9", &vec![]);
    assert_eq!(store.hashes(), vec!["h2"]);
}

#[test]
fn old_histories_are_cleaned_up() {
    let month: u64 = 30 * 24 * 3600;
    let files = vec![
        ("h1".to_string(), vec![snapshot(1, "a", true), snapshot(2, "b", false)]),
        ("h2".to_string(), vec![]),
    ];
    let mut store = HistoryStore::load(None, StoredIndex::Absent, &files).0;
    let lines = vec![
        HistoryLine { text: "a".to_string(), entry: Some(snapshot(1, "a", true)) },
        HistoryLine { text: "b".to_string(), entry: Some(snapshot(2, "b", false)) },
    ];
    assert!(matches!(store.cleanup_old_entries("h1", &lines, 100), Cleanup::Leave));
    match store.cleanup_old_entries("h1", &lines, month + 100) {
        Cleanup::Rewrite(kept) => assert_eq!(kept, vec!["b"]),
        other => panic!("{:?}", other),
    }
    assert_eq!(store.get_files()[0].entry_count, 1);
    assert!(store.get_files()[0].has_unsaved);
    let broken = vec![HistoryLine { text: "x".to_string(), entry: None }];
    assert!(matches!(store.cleanup_old_entries("h1", &broken, month), Cleanup::Remove));
    assert!(store.hashes().is_empty());
}

#[test]
fn histories_get_the_name_after_their_path() {
    let named = HistoryEntry::Snapshot {
        t: 1,
        p: "/a.md".to_string(),
        c: "a".to_string(),
        saved: true,
    };
    let nameless =
        HistoryEntry::Snapshot { t: 1, p: String::new(), c: "a".to_string(), saved: true };
    let files = vec![("old".to_string(), vec![named]), ("temp".to_string(), vec![nameless])];
    let mut store = HistoryStore::load(None, StoredIndex::Absent, &files).0;
    assert_eq!(store.indexed_path("old"), Some("/a.md".to_string()));
    assert_eq!(store.indexed_path("temp"), None);
    assert_eq!(store.migration_target("temp", None), None);
    let new_id = store.migration_target("old", Some("/real.md")).expect("another name");
    assert_eq!(new_id, path_hash("/real.md", None));
    assert!(can_rename(true, false));
    assert!(!can_rename(true, true));
    assert!(!can_rename(false, false));
    store.migrate("old", &new_id);
    assert_eq!(store.indexed_path("old"), None);
    assert_eq!(store.indexed_path(&new_id), Some("/a.md".to_string()));
    assert_eq!(store.migration_target(&new_id, Some("/real.md")), None);
    store.migrate("missing", "x");
    assert_eq!(store.hashes().len(), 2);
}
