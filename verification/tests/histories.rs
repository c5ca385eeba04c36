use tsumugi::delta::{make_delta, DeltaFault};
use tsumugi::history::{
    entries_of, get_entries, get_last_state, keep_or_take, restore_at, try_get_last_state,
    try_restore_at, HistoryEntry, HistoryError, HistoryLine,
};
use tsumugi::history_diff::{
    full_diff_of, get_entry_diff, get_entry_previews, get_unsaved_diff, preview_of,
    try_get_entry_diff, try_get_entry_previews, try_get_unsaved_diff, unsaved_diff_of,
};
use tsumugi::history_file::{
    cleanup_cutoff, cleanup_file, summary_of, without_unsaved, Cleanup,
};

fn snapshot(t: u64, c: &str, saved: bool) -> HistoryEntry {
    HistoryEntry::Snapshot { t, p: "/a.md".to_string(), c: c.to_string(), saved }
}

fn raw_delta(t: u64, d: &str, saved: bool) -> HistoryEntry {
    HistoryEntry::Delta { t, p: "/a.md".to_string(), d: d.to_string(), saved }
}

fn delta(t: u64, old: &str, new: &str, saved: bool) -> HistoryEntry {
    raw_delta(t, &make_delta(old, new).expect("a delta"), saved)
}

fn line(text: &str, entry: Option<HistoryEntry>) -> HistoryLine {
    HistoryLine { text: text.to_string(), entry }
}

fn sample() -> Vec<HistoryEntry> {
    vec![
        snapshot(10, "one", true),
        delta(20, "one", "one two", false),
        delta(30, "one two", "one two three", false),
        snapshot(40, "one two three four", true),
        delta(50, "one two three four", "one\ntwo", false),
    ]
}

#[test]
fn versions_are_restored_at_their_times() {
    let entries = sample();
    assert_eq!(try_restore_at(&entries, 0), Some(Ok("one\ntwo".to_string())));
    assert_eq!(restore_at(&entries, 10).as_deref(), Ok("one"));
    assert_eq!(restore_at(&entries, 25).as_deref(), Ok("one two"));
    assert_eq!(restore_at(&entries, 30).as_deref(), Ok("one two three"));
    assert_eq!(restore_at(&entries, 40).as_deref(), Ok("one two three four"));
    assert_eq!(restore_at(&entries, 0).as_deref(), Ok("one\ntwo"));
    assert_eq!(restore_at(&entries, u64::MAX).as_deref(), Ok("one\ntwo"));
}

#[test]
fn later_entries_change_no_earlier_version() {
    let mut entries = sample();
    entries.push(snapshot(60, "other", false));
    assert_eq!(restore_at(&entries, 50).as_deref(), Ok("one\ntwo"));
}

#[test]
fn restoring_fails_without_a_snapshot() {
    assert_eq!(restore_at(&vec![], 0), Err(HistoryError::NoEntries));
    assert_eq!(restore_at(&sample(), 5), Err(HistoryError::NoSnapshot));
    let entries = vec![raw_delta(1, "+a", false)];
    assert_eq!(restore_at(&entries, 0), Err(HistoryError::NoSnapshot));
    assert_eq!(HistoryError::NoEntries.message(), "No history entries");
    assert_eq!(HistoryError::NoSnapshot.message(), "No snapshot found");
    assert_eq!(HistoryError::EntryNotFound.message(), "Entry not found");
    assert_eq!(
        HistoryError::Delta(DeltaFault::InvalidInput).message(),
        "Delta error: InvalidInput"
    );
    assert_eq!(HistoryError::Delta(DeltaFault::Utf8Error).message(), "Delta error: Utf8Error");
    assert_eq!(
        HistoryError::Delta(DeltaFault::HtmlWithError).message(),
        "Delta error: HtmlWithError"
    );
}

#[test]
fn deltas_that_fail_are_passed_over() {
    let entries = vec![
        snapshot(1, "abc", true),
        raw_delta(2, "=9", false),
        delta(3, "abc", "abcd", false),
    ];
    assert_eq!(restore_at(&entries, 0).as_deref(), Ok("abcd"));
    assert_eq!(get_last_state(&entries), Some(("abcd".to_string(), 1)));
    let made = Err(DeltaFault::InvalidInput);
    assert_eq!(keep_or_take("kept".to_string(), made), "kept");
    assert_eq!(keep_or_take("kept".to_string(), Ok("taken".to_string())), "taken");
}

#[test]
fn undecodable_deltas_are_noticed_where_they_matter() {
    let mut entries = sample();
    assert!(try_get_entry_previews(&entries).is_some());
    assert!(try_get_unsaved_diff(&entries).is_some());
    assert!(try_get_last_state(&entries).is_some());
    entries.push(raw_delta(60, "+%ff\t=7", false));
    assert_eq!(try_restore_at(&entries, 0), None);
    assert_eq!(try_restore_at(&entries, 50), Some(Ok("one\ntwo".to_string())));
    assert_eq!(restore_at(&entries, 50).as_deref(), Ok("one\ntwo"));
    assert_eq!(try_get_last_state(&entries), None);
    assert!(try_get_entry_diff(&entries, 50).is_some());
    assert!(try_get_entry_diff(&entries, 60).is_none());
    assert!(try_get_entry_diff(&entries, 99).is_none());
    assert!(try_get_entry_previews(&entries).is_none());
    assert!(try_get_unsaved_diff(&entries).is_none());
    entries.push(snapshot(70, "saved", true));
    assert_eq!(try_restore_at(&entries, 0), Some(Ok("saved".to_string())));
    assert!(matches!(try_get_unsaved_diff(&entries), Some(None)));
}

#[test]
fn deltas_that_are_not_applied_need_not_decode() {
    let before_any_snapshot = vec![raw_delta(1, "+%ff", false), snapshot(2, "a", true)];
    assert_eq!(
        try_get_last_state(&before_any_snapshot),
        Some(Some(("a".to_string(), 0)))
    );
    assert!(try_get_unsaved_diff(&before_any_snapshot).is_some());
    assert!(try_get_entry_previews(&before_any_snapshot).is_none());
    let too_long = vec![snapshot(1, "abc", true), raw_delta(2, "=9\t+%ff", false)];
    assert_eq!(try_restore_at(&too_long, 0), Some(Ok("abc".to_string())));
    assert!(try_get_entry_previews(&too_long).is_some());
    assert_eq!(
        try_get_entry_diff(&too_long, 2).map(|r| r.err()),
        Some(Some(HistoryError::Delta(DeltaFault::InvalidInput)))
    );
}

#[test]
fn last_state_counts_deltas_since_the_snapshot() {
    let entries = sample();
    assert_eq!(get_last_state(&entries), Some(("one\ntwo".to_string(), 1)));
    assert_eq!(get_last_state(&entries[..3].to_vec()), Some(("one two three".to_string(), 2)));
    assert_eq!(get_last_state(&vec![]), None);
}

#[test]
fn entries_are_listed_newest_first() {
    let mut entries = sample();
    entries.push(snapshot(50, "same time", true));
    let metas = get_entries(&entries);
    let listed: Vec<(u64, &str, bool)> =
        metas.iter().map(|m| (m.timestamp, m.entry_type.as_str(), m.saved)).collect();
    assert_eq!(
        listed,
        vec![
            (50, "delta", false),
            (50, "snapshot", true),
            (40, "snapshot", true),
            (30, "delta", false),
            (20, "delta", false),
            (10, "snapshot", true),
        ]
    );
    assert_eq!(metas[0].file_path, "/a.md");
}

#[test]
fn blank_and_broken_lines_hold_no_entry() {
    let file = vec![
        line("{..}", Some(snapshot(1, "a", true))),
        line("   ", Some(snapshot(2, "b", true))),
        line("broken", None),
        line("{...}", Some(snapshot(3, "c", false))),
    ];
    let entries = entries_of(&file);
    let times: Vec<u64> = entries.iter().map(|e| e.time()).collect();
    assert_eq!(times, vec![1, 3]);
}

#[test]
fn previews_leave_out_saved_versions() {
    let entries = sample();
    let previews = get_entry_previews(&entries);
    let seen: Vec<(u64, usize)> =
        previews.iter().map(|p| (p.timestamp, p.total_changes)).collect();
    assert_eq!(seen, vec![(20, 2), (30, 2), (50, 3)]);
    assert_eq!(previews[2].preview_lines[0].op, "delete");
    assert_eq!(previews[2].preview_lines[0].text, "one two three four");
    assert_eq!(previews[2].preview_lines[1].text, "one");
}

#[test]
fn previews_leave_out_what_did_not_change() {
    let entries = vec![
        snapshot(1, "a", false),
        snapshot(2, "a", false),
        raw_delta(3, "=7", false),
        delta(4, "a", "a\nb", false),
    ];
    let times: Vec<u64> =
        get_entry_previews(&entries).iter().map(|p| p.timestamp).collect();
    assert_eq!(times, vec![1, 4]);
    assert!(preview_of(1, false, "a", &Err(DeltaFault::Utf8Error)).is_none());
    assert!(preview_of(1, true, "a", &Ok("b".to_string())).is_none());
    assert!(preview_of(1, false, "a", &Ok("a".to_string())).is_none());
    let preview = preview_of(1, false, "a", &Ok("b".to_string())).expect("a preview");
    assert_eq!(preview.total_changes, 2);
}

#[test]
fn diff_of_an_entry_compares_with_the_version_before() {
    let entries = sample();
    let diff = get_entry_diff(&entries, 50).expect("a diff");
    let ops: Vec<(&str, &str)> =
        diff.diff_lines.iter().map(|l| (l.op.as_str(), l.text.as_str())).collect();
    assert_eq!(
        ops,
        vec![("delete", "one two three four"), ("insert", "one"), ("insert", "two")]
    );
    assert_eq!(diff.timestamp, 50);
    assert_eq!(get_entry_diff(&entries, 51).err(), Some(HistoryError::EntryNotFound));
    let broken = vec![snapshot(1, "a", true), raw_delta(2, "=x", false)];
    assert_eq!(
        get_entry_diff(&broken, 2).err(),
        Some(HistoryError::Delta(DeltaFault::Utf8Error))
    );
    let full = full_diff_of(7, "a", &Ok("a\nb".to_string())).expect("a diff");
    assert_eq!(full.diff_lines.len(), 2);
    assert!(full_diff_of(7, "a", &Err(DeltaFault::InvalidInput)).is_err());
}

#[test]
fn diff_of_an_entry_leads_to_the_restored_version() {
    let entries = sample();
    for (before, at) in [(10, 20), (20, 30), (30, 40), (40, 50)] {
        let diff = get_entry_diff(&entries, at).expect("a diff");
        let side = |left_out: &str| -> String {
            let kept: Vec<&str> = diff
                .diff_lines
                .iter()
                .filter(|l| l.op != left_out)
                .map(|l| l.text.as_str())
                .collect();
            kept.join("\n")
        };
        assert_eq!(Ok(side("insert")), restore_at(&entries, before));
        assert_eq!(Ok(side("delete")), restore_at(&entries, at));
    }
}

#[test]
fn first_entry_is_compared_with_an_empty_document() {
    let diff = get_entry_diff(&sample(), 10).expect("a diff");
    let ops: Vec<(&str, &str)> =
        diff.diff_lines.iter().map(|l| (l.op.as_str(), l.text.as_str())).collect();
    assert_eq!(ops, vec![("delete", ""), ("insert", "one")]);
}

#[test]
fn unsaved_changes_are_shown() {
    let entries = sample();
    let unsaved = get_unsaved_diff(&entries).expect("something unsaved");
    assert_eq!(unsaved.saved_content, "one two three four");
    assert_eq!(unsaved.latest_content, "one\ntwo");
    assert_eq!(Ok(unsaved.latest_content.clone()), restore_at(&entries, 0));
    assert_eq!(unsaved.unsaved_count, 1);
    assert_eq!(unsaved.last_saved_timestamp, 40);
    assert_eq!(unsaved.diff_lines.len(), 3);
}

#[test]
fn nothing_is_unsaved_without_a_save_or_after_one() {
    assert!(get_unsaved_diff(&vec![]).is_none());
    assert!(get_unsaved_diff(&vec![snapshot(1, "a", false)]).is_none());
    assert!(get_unsaved_diff(&vec![snapshot(1, "a", false), snapshot(2, "b", true)]).is_none());
    let from_delta = vec![raw_delta(1, "+a", true), snapshot(2, "b", false)];
    let unsaved = get_unsaved_diff(&from_delta).expect("something unsaved");
    assert_eq!(unsaved.saved_content, "");
    assert_eq!(unsaved.latest_content, "b");
}

#[test]
fn versions_that_cannot_be_compared_are_shown_whole() {
    let whole = unsaved_diff_of("a\nb".to_string(), "a\nc".to_string(), false, 1, 9);
    let ops: Vec<&str> = whole.diff_lines.iter().map(|l| l.op.as_str()).collect();
    assert_eq!(ops, vec!["delete", "delete", "insert", "insert"]);
    let compared = unsaved_diff_of("a\nb".to_string(), "a\nc".to_string(), true, 1, 9);
    let ops: Vec<&str> = compared.diff_lines.iter().map(|l| l.op.as_str()).collect();
    assert_eq!(ops, vec!["equal", "delete", "insert"]);
}

#[test]
fn entries_after_the_last_save_are_dropped() {
    let file = vec![
        line("s1", Some(snapshot(1, "a", true))),
        line("", None),
        line("broken", None),
        line("s2", Some(snapshot(2, "b", true))),
        line("u1", Some(snapshot(3, "c", false))),
        line("broken too", None),
    ];
    let kept = without_unsaved(&file).expect("a save");
    assert_eq!(kept, vec!["s1", "broken", "s2"]);
    let after: Vec<HistoryEntry> = entries_of(&file).into_iter().take(2).collect();
    assert!(get_unsaved_diff(&after).is_none());
    let never = vec![line("u", Some(snapshot(1, "a", false)))];
    assert!(without_unsaved(&never).is_none());
}

#[test]
fn old_entries_are_dropped() {
    let file = vec![
        line("old", Some(snapshot(10, "a", true))),
        line("base", Some(snapshot(20, "b", true))),
        line("old delta", Some(raw_delta(30, "=1", false))),
        line("", None),
        line("new delta", Some(raw_delta(100, "=1", false))),
        line("new", Some(snapshot(110, "c", true))),
    ];
    match cleanup_file(&file, 100) {
        Cleanup::Rewrite(lines) => assert_eq!(lines, vec!["base", "new delta", "new"]),
        other => panic!("{:?}", other),
    }
    let recent: Vec<HistoryLine> = file[4..].iter().map(copy_line).collect();
    assert!(matches!(cleanup_file(&recent, 100), Cleanup::Leave));
    assert!(matches!(cleanup_file(&vec![line("", None)], 100), Cleanup::Remove));
    let only_old_delta = vec![line("d", Some(raw_delta(1, "=1", false)))];
    assert!(matches!(cleanup_file(&only_old_delta, 100), Cleanup::Remove));
}

fn copy_line(l: &HistoryLine) -> HistoryLine {
    HistoryLine { text: l.text.clone(), entry: l.entry.clone() }
}

#[test]
fn dropping_old_entries_twice_changes_nothing_more() {
    let file = vec![
        line("old", Some(snapshot(10, "a", true))),
        line("base", Some(snapshot(20, "b", true))),
        line("new", Some(snapshot(110, "c", true))),
    ];
    assert!(matches!(cleanup_file(&file, 100), Cleanup::Rewrite(_)));
    let again: Vec<HistoryLine> = file[1..].iter().map(copy_line).collect();
    assert!(matches!(cleanup_file(&again, 100), Cleanup::Leave));
    let versions = |lines: &[HistoryLine]| {
        let entries = entries_of(&lines.iter().map(copy_line).collect());
        (restore_at(&entries, 100), restore_at(&entries, 0))
    };
    assert_eq!(versions(&file), versions(&again));
}

#[test]
fn entries_are_old_after_thirty_days() {
    assert_eq!(cleanup_cutoff(0), 0);
    assert_eq!(cleanup_cutoff(30 * 24 * 3600 - 1), 0);
    assert_eq!(cleanup_cutoff(30 * 24 * 3600 + 5), 5);
}

#[test]
fn index_sums_a_history_up() {
    let entries = vec![
        HistoryEntry::Snapshot { t: 9, p: String::new(), c: "a".to_string(), saved: true },
        HistoryEntry::Delta { t: 7, p: "/x".to_string(), d: "=1".to_string(), saved: true },
        HistoryEntry::Delta { t: 8, p: "/y".to_string(), d: "=1".to_string(), saved: false },
    ];
    let summary = summary_of(&entries).expect("a summary");
    assert_eq!(summary.file_path, "/x");
    assert_eq!(summary.entry_count, 3);
    assert_eq!(summary.last_timestamp, 9);
    assert!(summary.has_unsaved);
    assert!(summary_of(&vec![]).is_none());
}
